//! What the nodes of a cluster say to each other while they synchronise.

use vstd::prelude::*;

use crate::span::Span;

verus! {

/// The identity of a node.
pub type ActorId = u128;

/// The cluster that a node belongs to.
pub type ClusterId = u16;

/// Why a node refuses to serve a peer.
#[derive(Clone, Copy, Debug, PartialEq, Eq, Structural)]
pub enum SyncRejection {
    /// Too many peers are being served.
    MaxConcurrencyReached,
    /// The peer belongs to another cluster.
    DifferentCluster,
}

/// Something that a node lacks and asks another one for.
#[derive(Debug, PartialEq, Eq)]
pub enum SyncNeed {
    /// Whole versions.
    Full { versions: Span },
    /// Some sequence numbers of one version.
    Partial { version: u64, seqs: Vec<Span> },
}

/// `SyncNeed` with the list of ranges as a sequence.
#[verifier::ext_equal]
pub enum NeedView {
    Full { versions: Span },
    Partial { version: u64, seqs: Seq<Span> },
}

impl View for SyncNeed {
    type V = NeedView;

    open spec fn view(&self) -> NeedView {
        match self {
            SyncNeed::Full { versions } => NeedView::Full { versions: *versions },
            SyncNeed::Partial { version, seqs } => NeedView::Partial {
                version: *version,
                seqs: seqs@,
            },
        }
    }
}

/// The views of a list of needs.
pub open spec fn needs_view(needs: Seq<SyncNeed>) -> Seq<NeedView> {
    Seq::new(needs.len(), |i: int| needs[i]@)
}

/// The needs that a node asks for, by the actor whose versions they are.
pub type SyncRequest = Vec<(ActorId, Vec<SyncNeed>)>;

/// A message of the synchronisation protocol. `S` stands for a summary of what
/// a node has and lacks, `T` for a set of changes.
#[derive(Debug, PartialEq, Eq)]
pub enum SyncMessage<S, T> {
    State(S),
    /// Changes, and how many of them there are.
    Changeset { change: T, len: usize },
    Clock(u64),
    Rejection(SyncRejection),
    Request(SyncRequest),
}

/// The changes of an actor that a message carries. `C` stands for one change.
#[derive(Debug, PartialEq, Eq)]
pub struct ChangeV1<C> {
    pub actor_id: ActorId,
    pub changeset: Changeset<C>,
}

/// What is known of some versions.
#[derive(Debug, PartialEq, Eq)]
pub enum Changeset<C> {
    /// Nothing is left of these versions.
    Empty { versions: Span },
    /// The changes of a range of sequence numbers of one version.
    Full { version: u64, changes: Vec<C>, seqs: Span, last_seq: u64, ts: u64 },
}

} // verus!
