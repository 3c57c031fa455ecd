//! Greeting a peer before synchronising with it: this node says who it is and what
//! time it has, the peer answers with its state and its time.

use vstd::prelude::*;

use crate::error::{SyncError, SyncRecvError, SyncSendError};
use crate::message::{SyncMessage, SyncRejection};
use crate::sync::{self, expect_clock, expect_state, in_time};

verus! {

/// How many seconds a peer has for each of its answers.
pub const ANSWER_TIMEOUT_SECS: u64 = 2;

/// What is done next. `S` stands for the state of the peer.
#[derive(Debug, PartialEq, Eq)]
pub enum Greeting<S> {
    /// Open a stream to the peer; then `on_opened`.
    Open,
    /// Send who this node is and which cluster it belongs to; then `on_sent`.
    SendStart,
    /// Send the time of this node; then `on_sent`.
    SendClock,
    /// See to it that what was sent goes out; then `on_sent`.
    Flush,
    /// Read the state of the peer; then `on_read`.
    ReadState,
    /// Read the time of the peer; then `on_read`.
    ReadClock(S),
    /// The peer was greeted. The clock is set by its time.
    Greeted { state: S, ts: u64 },
    /// The peer could not be greeted.
    Failed(SyncError),
}

impl<S> Greeting<S> {
    /// What follows when a stream was opened, or why it was not.
    pub open spec fn after_open(opened: Result<(), String>) -> Greeting<S> {
        match opened {
            Ok(()) => Greeting::SendStart,
            Err(text) => Greeting::Failed(SyncError::Transport(text)),
        }
    }

    /// What follows when something was sent, or why it was not.
    pub open spec fn after_sent(self, sent: Result<(), SyncSendError>) -> Greeting<S> {
        match (self, sent) {
            (Greeting::SendStart, Ok(())) => Greeting::SendClock,
            (Greeting::SendClock, Ok(())) => Greeting::Flush,
            (Greeting::Flush, Ok(())) => Greeting::ReadState,
            (Greeting::SendStart, Err(error)) => Greeting::Failed(SyncError::Send(error)),
            (Greeting::SendClock, Err(error)) => Greeting::Failed(SyncError::Send(error)),
            (Greeting::Flush, Err(error)) => Greeting::Failed(SyncError::Send(error)),
            _ => self,
        }
    }

    /// What follows when an answer was read; `None` stands for one that took too long.
    pub open spec fn after_read<T>(
        self,
        read: Option<Result<Option<SyncMessage<S, T>>, SyncRecvError>>,
    ) -> Greeting<S> {
        match self {
            Greeting::ReadState => match sync::state_in(sync::timely(read)) {
                Ok(state) => Greeting::ReadClock(state),
                Err(error) => Greeting::Failed(error),
            },
            Greeting::ReadClock(state) => match sync::clock_in(sync::timely(read)) {
                Ok(ts) => Greeting::Greeted { state, ts },
                Err(error) => Greeting::Failed(error),
            },
            _ => self,
        }
    }

    /// Begins to greet a peer.
    pub fn new() -> (this: Greeting<S>)
        ensures
            this is Open,
    {
        Greeting::Open
    }

    /// Goes on after the attempt to open a stream.
    pub fn on_opened(self, opened: Result<(), String>) -> (next: Greeting<S>)
        requires
            self is Open,
        ensures
            next == Greeting::<S>::after_open(opened),
    {
        match opened {
            Ok(()) => Greeting::SendStart,
            Err(text) => Greeting::Failed(SyncError::Transport(text)),
        }
    }

    /// Goes on after the attempt to send something.
    pub fn on_sent(self, sent: Result<(), SyncSendError>) -> (next: Greeting<S>)
        ensures
            next == self.after_sent(sent),
    {
        match (self, sent) {
            (Greeting::SendStart, Ok(())) => Greeting::SendClock,
            (Greeting::SendClock, Ok(())) => Greeting::Flush,
            (Greeting::Flush, Ok(())) => Greeting::ReadState,
            (Greeting::SendStart, Err(error)) => Greeting::Failed(SyncError::Send(error)),
            (Greeting::SendClock, Err(error)) => Greeting::Failed(SyncError::Send(error)),
            (Greeting::Flush, Err(error)) => Greeting::Failed(SyncError::Send(error)),
            (other, _) => other,
        }
    }

    /// Goes on after the attempt to read an answer; `None` stands for one that took too
    /// long.
    pub fn on_read<T>(
        self,
        read: Option<Result<Option<SyncMessage<S, T>>, SyncRecvError>>,
    ) -> (next: Greeting<S>)
        ensures
            next == self.after_read(read),
    {
        match self {
            Greeting::ReadState => match expect_state(in_time(read)) {
                Ok(state) => Greeting::ReadClock(state),
                Err(error) => Greeting::Failed(error),
            },
            Greeting::ReadClock(state) => match expect_clock(in_time(read)) {
                Ok(ts) => Greeting::Greeted { state, ts },
                Err(error) => Greeting::Failed(error),
            },
            other => other,
        }
    }
}

/// A peer that answers with its state and then its time is greeted, with just these. One
/// that refuses instead is not, and the refusal is the error. Nothing else that it
/// answers makes it greeted.
pub proof fn law_answers<S, T>(
    state: S,
    ts: u64,
    rejection: SyncRejection,
    read: Option<Result<Option<SyncMessage<S, T>>, SyncRecvError>>,
)
    ensures
        Greeting::<S>::ReadState.after_read::<T>(Some(Ok(Some(SyncMessage::State(state)))))
            == Greeting::ReadClock(state),
        Greeting::ReadClock(state).after_read::<T>(Some(Ok(Some(SyncMessage::Clock(ts)))))
            == (Greeting::Greeted { state, ts }),
        Greeting::<S>::ReadState.after_read::<T>(Some(Ok(Some(SyncMessage::Rejection(rejection)))))
            == Greeting::<S>::Failed(SyncError::Rejection(rejection)),
        Greeting::<S>::ReadState.after_read(read) is ReadClock <==> (read matches Some(
            Ok(Some(SyncMessage::State(_))),
        )),
        Greeting::<S>::ReadState.after_read(read) is ReadClock || Greeting::<S>::ReadState.after_read(
            read,
        ) is Failed,
        Greeting::ReadClock(state).after_read(read) is Greeted <==> (read matches Some(
            Ok(Some(SyncMessage::Clock(_))),
        )),
        Greeting::ReadClock(state).after_read(read) is Greeted || Greeting::ReadClock(
            state,
        ).after_read(read) is Failed,
{
}

/// A greeting takes its steps in order: once the stream is open, who this node is goes out,
/// then its time, then all of it, and then the state of the peer is read, within two seconds.
/// The first step that fails ends it, with the error of that step.
pub proof fn law_steps_in_order<S>(text: String, error: SyncSendError, greeting: Greeting<S>)
    ensures
        ANSWER_TIMEOUT_SECS == 2,
        Greeting::<S>::after_open(Ok(())) == Greeting::<S>::SendStart,
        Greeting::<S>::after_open(Err(text)) == Greeting::<S>::Failed(SyncError::Transport(text)),
        Greeting::<S>::SendStart.after_sent(Ok(())) == Greeting::<S>::SendClock,
        Greeting::<S>::SendClock.after_sent(Ok(())) == Greeting::<S>::Flush,
        Greeting::<S>::Flush.after_sent(Ok(())) == Greeting::<S>::ReadState,
        greeting is SendStart || greeting is SendClock || greeting is Flush ==> greeting.after_sent(
            Err(error),
        ) == Greeting::<S>::Failed(SyncError::Send(error)),
{
}

/// A read that fails ends a greeting with its own error, and one that takes too long with
/// that.
pub proof fn law_failed_answers<S, T>(
    state: S,
    error: SyncRecvError,
    read: Result<Option<SyncMessage<S, T>>, SyncRecvError>,
)
    ensures
        Greeting::<S>::ReadState.after_read::<T>(None) == Greeting::<S>::Failed(
            SyncError::Recv(SyncRecvError::TimedOut),
        ),
        Greeting::ReadClock(state).after_read::<T>(None) == Greeting::<S>::Failed(
            SyncError::Recv(SyncRecvError::TimedOut),
        ),
        Greeting::<S>::ReadState.after_read::<T>(Some(Err(error))) == Greeting::<S>::Failed(
            SyncError::Recv(error),
        ),
        Greeting::ReadClock(state).after_read::<T>(Some(Err(error))) == Greeting::<S>::Failed(
            SyncError::Recv(error),
        ),
        Greeting::<S>::ReadState.after_read::<T>(Some(Ok(None))) == Greeting::<S>::Failed(
            SyncError::Recv(SyncRecvError::UnexpectedEndOfStream),
        ),
        Greeting::ReadClock(state).after_read::<T>(Some(Ok(None))) == Greeting::<S>::Failed(
            SyncError::Recv(SyncRecvError::UnexpectedEndOfStream),
        ),
        read matches Ok(Some(message)) && message !is State && message !is Rejection
            ==> Greeting::<S>::ReadState.after_read(Some(read)) == Greeting::<S>::Failed(
            SyncError::Recv(SyncRecvError::ExpectedSyncState),
        ),
        read matches Ok(Some(message)) && message !is Clock ==> Greeting::ReadClock(
            state,
        ).after_read(Some(read)) == Greeting::<S>::Failed(
            SyncError::Recv(SyncRecvError::ExpectedClockMessage),
        ),
{
}

} // verus!
