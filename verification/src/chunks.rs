//! Sending the changes of a version in chunks, at a pace that the peer keeps.

use vstd::prelude::*;

use crate::message::{ActorId, ChangeV1, Changeset};
use crate::span::Span;

verus! {

/// How many bytes of changes a message carries at most, to begin with.
pub const MAX_CHANGES_BYTES_PER_MESSAGE: usize = 8192;

/// At this many bytes a message is not made smaller any more.
pub const MIN_CHANGES_BYTES_PER_MESSAGE: usize = 1024;

/// Messages that take longer than this many nanoseconds to send are made
/// smaller.
pub const ADAPT_CHUNK_SIZE_THRESHOLD: u128 = 500_000_000;

/// A message that takes longer than this many nanoseconds ends the sending.
pub const SEND_TIMEOUT: u128 = 5_000_000_000;

/// Why sending the chunks of a version failed.
#[derive(Clone, Copy, Debug, PartialEq, Eq, Structural)]
pub enum ChunkError {
    /// Nobody takes the messages any more.
    SenderClosed,
    /// One message took too long.
    PeerTooSlow,
    /// The smallest messages still take too long.
    PeerTooSlowReduced,
}

impl ChunkError {
    /// What is reported.
    pub open spec fn text(self) -> Seq<char> {
        match self {
            ChunkError::SenderClosed => "sync message sender channel is closed"@,
            ChunkError::PeerTooSlow => "time out: peer is too slow"@,
            ChunkError::PeerTooSlowReduced => {
                "time out: peer is too slow even after reducing throughput"@
            },
        }
    }

    /// Tells what is reported.
    pub fn message(&self) -> (message: String)
        ensures
            message@ == self.text(),
    {
        match self {
            ChunkError::SenderClosed => "sync message sender channel is closed".to_string(),
            ChunkError::PeerTooSlow => "time out: peer is too slow".to_string(),
            ChunkError::PeerTooSlowReduced => {
                "time out: peer is too slow even after reducing throughput".to_string()
            },
        }
    }
}

/// What reading the next chunk of changes gave.
pub enum NextChunk<C> {
    /// The changes of a range of sequence numbers.
    Chunk { changes: Vec<C>, seqs: Span },
    /// The changes could not be read.
    Failed,
    /// There are no more.
    End,
}

/// What is done after the next chunk was read.
pub enum ChunkStep<C> {
    /// The message is sent, then `ChunkSender::after_send`.
    Send(ChangeV1<C>),
    /// Sending is over; what was sent stays sent.
    Stop,
}

/// The message that carries `changes`, which are all there is of the range
/// `seqs` of a version. If that is the whole version and nothing is left of
/// it, it is reported as empty.
pub open spec fn chunk_message<C>(
    actor_id: ActorId,
    version: u64,
    last_seq: u64,
    ts: u64,
    changes: Vec<C>,
    seqs: Span,
) -> ChangeV1<C> {
    ChangeV1 {
        actor_id,
        changeset: if changes@.len() == 0 && seqs == (Span { start: 0, end: last_seq }) {
            Changeset::Empty { versions: Span { start: version, end: version } }
        } else {
            Changeset::Full { version, changes, seqs, last_seq, ts }
        },
    }
}

/// A message carries its chunk unchanged, with what holds of the version as a whole: its
/// number, its last sequence number, whatever the chunk ends with, and its time. Only if
/// there are no changes at all and the chunk reaches over the whole version it is reported
/// as empty.
pub proof fn law_message_carries_its_chunk<C>(
    actor_id: ActorId,
    version: u64,
    last_seq: u64,
    ts: u64,
    changes: Vec<C>,
    seqs: Span,
)
    ensures
        ({
            let message = chunk_message(actor_id, version, last_seq, ts, changes, seqs);
            &&& message.actor_id == actor_id
            &&& message.changeset is Empty <==> changes.len() == 0 && seqs.start == 0 && seqs.end
                == last_seq
            &&& match message.changeset {
                Changeset::Empty { versions } => versions.start == version && versions.end
                    == version,
                Changeset::Full {
                    version: of,
                    changes: carried,
                    seqs: range,
                    last_seq: last,
                    ts: time,
                } => of == version && carried == changes && range == seqs && last == last_seq
                    && time == ts,
            }
        }),
{
}

/// The message for a version of which nothing is left.
pub fn empty_version<C>(actor_id: ActorId, version: u64) -> (message: ChangeV1<C>)
    ensures
        message == (ChangeV1::<C> {
            actor_id,
            changeset: Changeset::Empty { versions: Span { start: version, end: version } },
        }),
{
    ChangeV1 {
        actor_id,
        changeset: Changeset::Empty { versions: Span { start: version, end: version } },
    }
}

/// The sending of the changes of one version.
#[derive(Clone, Copy, Debug)]
pub struct ChunkSender {
    pub actor_id: ActorId,
    pub version: u64,
    pub last_seq: u64,
    pub ts: u64,
    /// How many bytes of changes the next message carries at most.
    pub max_buf_size: usize,
}

impl ChunkSender {
    /// Begins to send changes of a version.
    pub fn new(actor_id: ActorId, version: u64, last_seq: u64, ts: u64) -> (this: ChunkSender)
        ensures
            this == (ChunkSender {
                actor_id,
                version,
                last_seq,
                ts,
                max_buf_size: MAX_CHANGES_BYTES_PER_MESSAGE,
            }),
            this.paced(),
            this.max_buf_size == 8192,
    {
        ChunkSender { actor_id, version, last_seq, ts, max_buf_size: MAX_CHANGES_BYTES_PER_MESSAGE }
    }

    /// Decides what to do with the next chunk. `closed` says that nobody takes
    /// the messages any more.
    pub fn send_change_chunks<C>(&self, closed: bool, next: NextChunk<C>) -> (step: Result<
        ChunkStep<C>,
        ChunkError,
    >)
        ensures
            step == (if closed {
                Err(ChunkError::SenderClosed)
            } else {
                match next {
                    NextChunk::Chunk { changes, seqs } => Ok(
                        ChunkStep::Send(
                            chunk_message(
                                self.actor_id,
                                self.version,
                                self.last_seq,
                                self.ts,
                                changes,
                                seqs,
                            ),
                        ),
                    ),
                    _ => Ok(ChunkStep::Stop),
                }
            }),
            step matches Ok(ChunkStep::Send(message)) ==> {
                &&& message.actor_id == self.actor_id
                &&& match message.changeset {
                    Changeset::Full { version, changes, seqs, last_seq, ts } => {
                        &&& version == self.version
                        &&& last_seq == self.last_seq
                        &&& ts == self.ts
                        &&& next == (NextChunk::Chunk { changes, seqs })
                    },
                    Changeset::Empty { versions } => {
                        &&& versions.start == self.version
                        &&& versions.end == self.version
                        &&& next matches NextChunk::Chunk { changes, seqs } && changes.len() == 0
                            && seqs.start == 0 && seqs.end == self.last_seq
                    },
                }
            },
            !closed ==> (next is Chunk <==> step matches Ok(ChunkStep::Send(_))),
    {
        if closed {
            return Err(ChunkError::SenderClosed);
        }
        match next {
            NextChunk::Chunk { changes, seqs } => {
                if changes.len() == 0 && seqs.start == 0 && seqs.end == self.last_seq {
                    Ok(ChunkStep::Send(empty_version(self.actor_id, self.version)))
                } else {
                    Ok(
                        ChunkStep::Send(
                            ChangeV1 {
                                actor_id: self.actor_id,
                                changeset: Changeset::Full {
                                    version: self.version,
                                    changes,
                                    seqs,
                                    last_seq: self.last_seq,
                                    ts: self.ts,
                                },
                            },
                        ),
                    )
                }
            },
            NextChunk::Failed => Ok(ChunkStep::Stop),
            NextChunk::End => Ok(ChunkStep::Stop),
        }
    }

    /// Adapts the size of the messages to how long the last one took, in
    /// nanoseconds. `Some` is the new size.
    pub fn after_send(&mut self, elapsed: u128) -> (adapted: Result<Option<usize>, ChunkError>)
        ensures
            adapted == pace_after(old(self).max_buf_size, elapsed),
            *final(self) == (match adapted {
                Ok(Some(size)) => ChunkSender { max_buf_size: size, ..*old(self) },
                _ => *old(self),
            }),
            old(self).paced() ==> final(self).paced(),
    {
        if elapsed > SEND_TIMEOUT {
            return Err(ChunkError::PeerTooSlow);
        }
        if elapsed > ADAPT_CHUNK_SIZE_THRESHOLD {
            if self.max_buf_size <= MIN_CHANGES_BYTES_PER_MESSAGE {
                return Err(ChunkError::PeerTooSlowReduced);
            }
            self.max_buf_size = self.max_buf_size / 2;
            return Ok(Some(self.max_buf_size));
        }
        Ok(None)
    }

    /// Whether the messages are of one of the sizes that sending goes through.
    pub open spec fn paced(self) -> bool {
        self.max_buf_size == 8192 || self.max_buf_size == 4096 || self.max_buf_size == 2048
            || self.max_buf_size == 1024
    }
}

/// What becomes of messages of `size` bytes after one that took `elapsed`
/// nanoseconds: they stay, are halved, or sending fails.
pub open spec fn pace_after(size: usize, elapsed: u128) -> Result<Option<usize>, ChunkError> {
    if elapsed > SEND_TIMEOUT {
        Err(ChunkError::PeerTooSlow)
    } else if elapsed <= ADAPT_CHUNK_SIZE_THRESHOLD {
        Ok(None)
    } else if size <= MIN_CHANGES_BYTES_PER_MESSAGE {
        Err(ChunkError::PeerTooSlowReduced)
    } else {
        Ok(Some(size / 2))
    }
}

/// A peer is given up for being slow only if one message took longer than five
/// seconds, or if messages of the smallest size still take too long. Until then the
/// size is halved at most three times and never falls below the smallest.
pub proof fn law_pace(sender: ChunkSender, elapsed: u128)
    requires
        sender.paced(),
    ensures
        match pace_after(sender.max_buf_size, elapsed) {
            Ok(None) => elapsed <= 500_000_000,
            Ok(Some(size)) => {
                &&& 500_000_000 < elapsed <= 5_000_000_000
                &&& 1024 <= size < sender.max_buf_size
                &&& size * 2 == sender.max_buf_size
                &&& (ChunkSender { max_buf_size: size, ..sender }).paced()
            },
            Err(ChunkError::PeerTooSlow) => elapsed > 5_000_000_000,
            Err(ChunkError::PeerTooSlowReduced) => {
                &&& 500_000_000 < elapsed <= 5_000_000_000
                &&& sender.max_buf_size == 1024
            },
            Err(ChunkError::SenderClosed) => false,
        },
        elapsed <= 500_000_000 ==> pace_after(sender.max_buf_size, elapsed) == Ok::<
            Option<usize>,
            ChunkError,
        >(None),
        elapsed > 5_000_000_000 ==> pace_after(sender.max_buf_size, elapsed) is Err,
{
}

} // verus!
