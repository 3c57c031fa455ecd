//! Serving a peer that wants to synchronise: whether it is served at all, and when
//! what waits to be sent to it is written.

use bytes::BytesMut;
use vstd::prelude::*;

use crate::error::{SyncError, SyncRecvError, SyncSendError};
use crate::frame::{self, buffer_len, encode_sync_msg, new_buffer, take_all};
use crate::greet::Greeting;
use crate::message::{ClusterId, SyncMessage, SyncRejection};
use crate::sync::expect_clock;

verus! {

/// What comes next while a peer is received.
#[derive(Debug, PartialEq, Eq)]
pub enum ServeStep {
    /// Read the time of the peer; then `after_clock`.
    ReadClock,
    /// Set the clock by the time of the peer and try to get a permit; then
    /// `after_permit`.
    AcquirePermit { ts: u64 },
    /// Tell the peer why it is not served; then `after_sent`.
    Reject(SyncRejection),
    /// Send the state of this node; then `after_sent`.
    SendState,
    /// Send the time of this node; then `after_sent`.
    SendClock,
    /// See to it that what was sent goes out; then `after_sent`.
    Flush,
    /// Serve the peer.
    Serve,
    /// Nothing is left to do; this is the result.
    Finished(Result<usize, SyncError>),
}

/// The first step: only a peer of the same cluster is served.
pub open spec fn first_step(cluster_id: ClusterId, their_cluster_id: ClusterId) -> ServeStep {
    if their_cluster_id != cluster_id {
        ServeStep::Reject(SyncRejection::DifferentCluster)
    } else {
        ServeStep::ReadClock
    }
}

/// The step after the first read: it has to be the time of the peer.
pub open spec fn clock_step<S, T>(
    read: Result<Option<SyncMessage<S, T>>, SyncRecvError>,
) -> ServeStep {
    match read {
        Ok(Some(SyncMessage::Clock(ts))) => ServeStep::AcquirePermit { ts },
        Ok(Some(_)) => ServeStep::Finished(
            Err(SyncError::Recv(SyncRecvError::ExpectedClockMessage)),
        ),
        Ok(None) => ServeStep::Finished(Err(SyncError::Recv(SyncRecvError::UnexpectedEndOfStream))),
        Err(error) => ServeStep::Finished(Err(SyncError::Recv(error))),
    }
}

/// The step after the attempt to get a permit: only so many peers are served at once.
pub open spec fn permit_step(granted: bool) -> ServeStep {
    if granted {
        ServeStep::SendState
    } else {
        ServeStep::Reject(SyncRejection::MaxConcurrencyReached)
    }
}

/// The step after something was sent. A refused peer asked for nothing; one that is
/// served gets the state and then the time of this node. What cannot be sent ends it.
pub open spec fn sent_step(step: ServeStep, sent: Result<(), SyncSendError>) -> ServeStep {
    match (step, sent) {
        (ServeStep::Reject(_), Ok(())) => ServeStep::Finished(Ok(0)),
        (ServeStep::SendState, Ok(())) => ServeStep::SendClock,
        (ServeStep::SendClock, Ok(())) => ServeStep::Flush,
        (ServeStep::Flush, Ok(())) => ServeStep::Serve,
        (ServeStep::Reject(_), Err(error)) => ServeStep::Finished(Err(SyncError::Send(error))),
        (ServeStep::SendState, Err(error)) => ServeStep::Finished(Err(SyncError::Send(error))),
        (ServeStep::SendClock, Err(error)) => ServeStep::Finished(Err(SyncError::Send(error))),
        (ServeStep::Flush, Err(error)) => ServeStep::Finished(Err(SyncError::Send(error))),
        _ => step,
    }
}

/// Begins to receive a peer.
pub fn serve_sync(cluster_id: ClusterId, their_cluster_id: ClusterId) -> (step: ServeStep)
    ensures
        step == first_step(cluster_id, their_cluster_id),
{
    if their_cluster_id != cluster_id {
        ServeStep::Reject(SyncRejection::DifferentCluster)
    } else {
        ServeStep::ReadClock
    }
}

/// Goes on after the first read.
pub fn after_clock<S, T>(read: Result<Option<SyncMessage<S, T>>, SyncRecvError>) -> (step:
    ServeStep)
    ensures
        step == clock_step(read),
{
    match expect_clock(read) {
        Ok(ts) => ServeStep::AcquirePermit { ts },
        Err(error) => ServeStep::Finished(Err(error)),
    }
}

/// Goes on after the attempt to get a permit.
pub fn after_permit(granted: bool) -> (step: ServeStep)
    ensures
        step == permit_step(granted),
{
    if granted {
        ServeStep::SendState
    } else {
        ServeStep::Reject(SyncRejection::MaxConcurrencyReached)
    }
}

/// Goes on after the attempt to send something.
pub fn after_sent(step: ServeStep, sent: Result<(), SyncSendError>) -> (next: ServeStep)
    ensures
        next == sent_step(step, sent),
{
    match (step, sent) {
        (ServeStep::Reject(_), Ok(())) => ServeStep::Finished(Ok(0)),
        (ServeStep::SendState, Ok(())) => ServeStep::SendClock,
        (ServeStep::SendClock, Ok(())) => ServeStep::Flush,
        (ServeStep::Flush, Ok(())) => ServeStep::Serve,
        (ServeStep::Reject(_), Err(error)) => ServeStep::Finished(Err(SyncError::Send(error))),
        (ServeStep::SendState, Err(error)) => ServeStep::Finished(Err(SyncError::Send(error))),
        (ServeStep::SendClock, Err(error)) => ServeStep::Finished(Err(SyncError::Send(error))),
        (ServeStep::Flush, Err(error)) => ServeStep::Finished(Err(SyncError::Send(error))),
        (other, _) => other,
    }
}

/// A peer is refused in two cases only, each with its own answer: it is of another
/// cluster, or there is no permit for it. Once it has the answer the serving is over,
/// with nothing asked for.
pub proof fn law_refusal(
    cluster_id: ClusterId,
    their_cluster_id: ClusterId,
    granted: bool,
    rejection: SyncRejection,
)
    ensures
        first_step(cluster_id, their_cluster_id) == ServeStep::Reject(rejection)
            <==> their_cluster_id != cluster_id && rejection is DifferentCluster,
        permit_step(granted) == ServeStep::Reject(rejection) <==> !granted
            && rejection is MaxConcurrencyReached,
        sent_step(ServeStep::Reject(rejection), Ok(())) == ServeStep::Finished(Ok(0)),
{
}

/// A peer is served only if it is of the same cluster, told the time, got a permit, and
/// was sent the state and the time of this node.
pub proof fn law_served<S, T>(
    cluster_id: ClusterId,
    their_cluster_id: ClusterId,
    read: Result<Option<SyncMessage<S, T>>, SyncRecvError>,
    granted: bool,
    step: ServeStep,
    sent: Result<(), SyncSendError>,
)
    ensures
        first_step(cluster_id, their_cluster_id) is ReadClock <==> their_cluster_id == cluster_id,
        clock_step(read) is AcquirePermit <==> (read matches Ok(Some(SyncMessage::Clock(_)))),
        clock_step(read) is AcquirePermit || (clock_step(read) matches ServeStep::Finished(Err(_))),
        permit_step(granted) is SendState <==> granted,
        step !is SendClock && sent_step(step, sent) is SendClock <==> step is SendState && sent is Ok,
        step !is Flush && sent_step(step, sent) is Flush <==> step is SendClock && sent is Ok,
        step !is Serve && sent_step(step, sent) is Serve <==> step is Flush && sent is Ok,
{
}

/// Both sides of a greeting agree. What a node sends first is what the peer expects
/// first, and what the peer answers, be it a refusal or its state and its time, is what
/// the node takes it for.
pub proof fn law_sides_agree<S, T>(state: S, ts: u64, theirs: u64, rejection: SyncRejection)
    ensures
        clock_step::<S, T>(Ok(Some(SyncMessage::Clock(ts)))) == (ServeStep::AcquirePermit { ts }),
        ({
            let asked = Greeting::<S>::SendStart.after_sent(Ok(())).after_sent(Ok(())).after_sent(
                Ok(()),
            );
            let refused = asked.after_read::<T>(Some(Ok(Some(SyncMessage::Rejection(rejection)))));
            let told = asked.after_read::<T>(Some(Ok(Some(SyncMessage::State(state)))));
            let greeted = told.after_read::<T>(Some(Ok(Some(SyncMessage::Clock(theirs)))));
            &&& refused == Greeting::<S>::Failed(SyncError::Rejection(rejection))
            &&& greeted == (Greeting::Greeted { state, ts: theirs })
        }),
        sent_step(sent_step(ServeStep::SendState, Ok(())), Ok(())) is Flush,
{
}

/// The result of serving a peer, once nothing more is sent to it and nothing more comes
/// from it: how much it asked for. Whether all could be sent does not matter.
pub fn served(sent: Result<usize, SyncError>, received: Result<usize, SyncError>) -> (result:
    Result<usize, SyncError>)
    ensures
        result == received,
{
    received
}

/// Once this many bytes wait they are written.
pub const FLUSH_LEN: usize = 16384;

/// What waits to be sent to a peer.
#[verifier::ext_equal]
pub struct WriterView {
    /// The frames that were not written yet.
    pub send_buf: Seq<u8>,
    /// How many changes the messages carried.
    pub count: int,
}

/// Collects the messages for a peer and says when to write them.
pub struct ServeWriter {
    send_buf: BytesMut,
    count: usize,
}

impl View for ServeWriter {
    type V = WriterView;

    closed spec fn view(&self) -> WriterView {
        WriterView { send_buf: frame::contents(self.send_buf), count: self.count as int }
    }
}

/// What is done once there are no more messages.
pub struct WriterEnd {
    /// These bytes are written first.
    pub write: Option<Vec<u8>>,
    /// Whether the stream is finished then.
    pub finish: bool,
    /// How many changes were sent.
    pub count: usize,
}

impl ServeWriter {
    /// What holds of every value: what waits is not enough to be written.
    pub open spec fn wf(self) -> bool {
        self@.send_buf.len() < FLUSH_LEN && 0 <= self@.count <= usize::MAX
    }

    /// Nothing waits.
    pub fn new() -> (this: ServeWriter)
        ensures
            this.wf(),
            this@ == (WriterView { send_buf: Seq::empty(), count: 0 }),
    {
        ServeWriter { send_buf: new_buffer(), count: 0 }
    }

    /// How many changes the messages carried.
    pub fn count(&self) -> (count: usize)
        ensures
            count == self@.count,
    {
        self.count
    }

    /// Takes an encoded message; `changes` says how many changes it carries. `Some`
    /// are bytes to write now. A message that does not fit into a frame is an
    /// error.
    pub fn on_message(&mut self, message: Vec<u8>, changes: usize) -> (written: Result<
        Option<Vec<u8>>,
        SyncSendError,
    >)
        requires
            old(self).wf(),
            old(self)@.count + changes <= usize::MAX,
        ensures
            final(self).wf(),
            final(self)@.count == old(self)@.count + changes,
            written matches Ok(None) ==> old(self)@.send_buf.len() + 4 + message.len() < 16 * 1024,
            written matches Ok(Some(_)) ==> old(self)@.send_buf.len() + 4 + message.len() >= 16
                * 1024,
            match written {
                Ok(None) => {
                    &&& message.len() <= frame::MAX_FRAME_LEN
                    &&& final(self)@.send_buf == old(self)@.send_buf + frame::frame(message@)
                },
                Ok(Some(bytes)) => {
                    &&& message.len() <= frame::MAX_FRAME_LEN
                    &&& bytes@ == old(self)@.send_buf + frame::frame(message@)
                    &&& bytes.len() >= FLUSH_LEN
                    &&& final(self)@.send_buf == Seq::<u8>::empty()
                },
                Err(SyncSendError::Io(text)) => {
                    &&& message.len() > frame::MAX_FRAME_LEN
                    &&& text@ == frame::frame_too_big()
                    &&& final(self)@.send_buf == old(self)@.send_buf
                },
                Err(_) => false,
            },
    {
        self.count = self.count + changes;
        match encode_sync_msg(message, &mut self.send_buf) {
            Err(error) => Err(error),
            Ok(()) => {
                if buffer_len(&self.send_buf) >= FLUSH_LEN {
                    Ok(Some(take_all(&mut self.send_buf)))
                } else {
                    Ok(None)
                }
            },
        }
    }

    /// Takes what waits, if anything does: from time to time it is written though
    /// it is not much.
    pub fn on_tick(&mut self) -> (written: Option<Vec<u8>>)
        requires
            old(self).wf(),
        ensures
            final(self).wf(),
            final(self)@ == (WriterView { send_buf: Seq::empty(), ..old(self)@ }),
            match written {
                Some(bytes) => bytes@ == old(self)@.send_buf && bytes.len() > 0,
                None => old(self)@.send_buf.len() == 0,
            },
    {
        if buffer_len(&self.send_buf) > 0 {
            Some(take_all(&mut self.send_buf))
        } else {
            assert(self@.send_buf =~= Seq::empty());
            None
        }
    }

    /// Ends the sending. If the peer stopped it, nothing more is written;
    /// otherwise what waits is, and the stream is finished.
    pub fn finish(self, stopped: bool) -> (end: WriterEnd)
        requires
            self.wf(),
        ensures
            end.count == self@.count,
            end.finish == !stopped,
            match end.write {
                Some(bytes) => !stopped && bytes@ == self@.send_buf && bytes.len() > 0,
                None => stopped || self@.send_buf.len() == 0,
            },
    {
        let mut this = self;
        let count: usize = this.count;
        let write = if stopped {
            None
        } else {
            this.on_tick()
        };
        WriterEnd { write, finish: !stopped, count }
    }
}

/// What was written and what waits are the frames of the messages taken so far, in
/// their order: taking another message appends its frame, wherever the bytes in
/// between were written.
pub proof fn law_frames_in_order(
    written: Seq<u8>,
    waiting: Seq<u8>,
    messages: Seq<Seq<u8>>,
    message: Seq<u8>,
)
    requires
        written + waiting == frame::frames(messages),
    ensures
        written + (waiting + frame::frame(message)) == frame::frames(messages.push(message)),
        (written + waiting) + Seq::<u8>::empty() == frame::frames(messages),
        (written + (waiting + frame::frame(message))) + Seq::<u8>::empty() == frame::frames(
            messages.push(message),
        ),
{
    assert(messages.push(message).drop_last() =~= messages);
    assert(written + (waiting + frame::frame(message)) =~= (written + waiting) + frame::frame(
        message,
    ));
    assert((written + waiting) + Seq::<u8>::empty() =~= written + waiting);
    assert((written + (waiting + frame::frame(message))) + Seq::<u8>::empty() =~= written + (
    waiting + frame::frame(message)));
}

/// What cannot be sent to a peer ends the serving with that error, whatever it was. And what
/// was sent leads on: a refused peer is done with, another one gets the state, then the time,
/// then all of it goes out, and then it is served.
pub proof fn law_sending_leads_on(rejection: SyncRejection, error: SyncSendError)
    ensures
        sent_step(ServeStep::Reject(rejection), Err(error)) == ServeStep::Finished(
            Err(SyncError::Send(error)),
        ),
        sent_step(ServeStep::SendState, Err(error)) == ServeStep::Finished(
            Err(SyncError::Send(error)),
        ),
        sent_step(ServeStep::SendClock, Err(error)) == ServeStep::Finished(
            Err(SyncError::Send(error)),
        ),
        sent_step(ServeStep::Flush, Err(error)) == ServeStep::Finished(
            Err(SyncError::Send(error)),
        ),
        sent_step(ServeStep::SendState, Ok(())) == ServeStep::SendClock,
        sent_step(ServeStep::SendClock, Ok(())) == ServeStep::Flush,
        sent_step(ServeStep::Flush, Ok(())) == ServeStep::Serve,
{
}

/// A peer that does not tell the time first is not served, and each way not to tell it is an
/// error of its own.
pub proof fn law_time_comes_first<S, T>(read: Result<Option<SyncMessage<S, T>>, SyncRecvError>)
    ensures
        match read {
            Ok(Some(SyncMessage::Clock(ts))) => clock_step(read) == (ServeStep::AcquirePermit {
                ts,
            }),
            Ok(Some(_)) => clock_step(read) == ServeStep::Finished(
                Err(SyncError::Recv(SyncRecvError::ExpectedClockMessage)),
            ),
            Ok(None) => clock_step(read) == ServeStep::Finished(
                Err(SyncError::Recv(SyncRecvError::UnexpectedEndOfStream)),
            ),
            Err(error) => clock_step(read) == ServeStep::Finished(Err(SyncError::Recv(error))),
        },
{
}

} // verus!
