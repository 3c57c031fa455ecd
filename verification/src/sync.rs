//! Synchronising with several peers at once: greeting them, and deciding what to ask
//! each of them for.

use std::collections::VecDeque;

use vstd::prelude::*;

use crate::error::{SyncError, SyncRecvError};
use crate::message::{self, ActorId, SyncMessage, SyncNeed};
use crate::random::{self, shuffle, thread_rng};
use crate::range_set;
use crate::requester::{self, ServerQueue};
use crate::requests;
use crate::span::{self, can_be_cut, chunk_range, Span};

verus! {

/// How many versions a peer is asked for at once.
pub const VERSIONS_PER_NEED: usize = 10;

/// What a read with a time limit gave; `None` stands for one that took too long.
pub open spec fn timely<M>(read: Option<Result<Option<M>, SyncRecvError>>) -> Result<
    Option<M>,
    SyncRecvError,
> {
    match read {
        Some(read) => read,
        None => Err(SyncRecvError::TimedOut),
    }
}

/// Tells what a read with a time limit gave.
pub fn in_time<M>(read: Option<Result<Option<M>, SyncRecvError>>) -> (result: Result<
    Option<M>,
    SyncRecvError,
>)
    ensures
        result == timely(read),
{
    match read {
        Some(read) => read,
        None => Err(SyncRecvError::TimedOut),
    }
}

/// The next message of a stream of frames; see `read_sync_msg`.
pub open spec fn read_in<M>(next: Option<Result<Result<M, String>, String>>) -> Result<
    Option<M>,
    SyncRecvError,
> {
    match next {
        None => Ok(None),
        Some(Ok(Ok(message))) => Ok(Some(message)),
        Some(Ok(Err(error))) => Err(SyncRecvError::Decode(error)),
        Some(Err(error)) => Err(SyncRecvError::Io(error)),
    }
}

/// Takes the next message of a stream of frames. `next` is the next frame: a
/// decoded message or why it could not be decoded, or why no frame could be read;
/// `None` at the end of the stream.
pub fn read_sync_msg<M>(next: Option<Result<Result<M, String>, String>>) -> (read: Result<
    Option<M>,
    SyncRecvError,
>)
    ensures
        read == read_in(next),
{
    match next {
        None => Ok(None),
        Some(Ok(Ok(message))) => Ok(Some(message)),
        Some(Ok(Err(error))) => Err(SyncRecvError::Decode(error)),
        Some(Err(error)) => Err(SyncRecvError::Io(error)),
    }
}

/// The state in the first answer of a peer. It has to be there; a rejection is an error
/// of its own.
pub open spec fn state_in<S, T>(
    read: Result<Option<SyncMessage<S, T>>, SyncRecvError>,
) -> Result<S, SyncError> {
    match read {
        Ok(Some(SyncMessage::State(state))) => Ok(state),
        Ok(Some(SyncMessage::Rejection(rejection))) => Err(SyncError::Rejection(rejection)),
        Ok(Some(_)) => Err(SyncError::Recv(SyncRecvError::ExpectedSyncState)),
        Ok(None) => Err(SyncError::Recv(SyncRecvError::UnexpectedEndOfStream)),
        Err(error) => Err(SyncError::Recv(error)),
    }
}

/// Takes the state out of the first answer of a peer.
pub fn expect_state<S, T>(read: Result<Option<SyncMessage<S, T>>, SyncRecvError>) -> (state: Result<
    S,
    SyncError,
>)
    ensures
        state == state_in(read),
{
    match read {
        Ok(Some(SyncMessage::State(state))) => Ok(state),
        Ok(Some(SyncMessage::Rejection(rejection))) => Err(SyncError::Rejection(rejection)),
        Ok(Some(_)) => Err(SyncError::Recv(SyncRecvError::ExpectedSyncState)),
        Ok(None) => Err(SyncError::Recv(SyncRecvError::UnexpectedEndOfStream)),
        Err(error) => Err(SyncError::Recv(error)),
    }
}

/// The time in a message of a peer. Where it is due, nothing else is accepted.
pub open spec fn clock_in<S, T>(
    read: Result<Option<SyncMessage<S, T>>, SyncRecvError>,
) -> Result<u64, SyncError> {
    match read {
        Ok(Some(SyncMessage::Clock(ts))) => Ok(ts),
        Ok(Some(_)) => Err(SyncError::Recv(SyncRecvError::ExpectedClockMessage)),
        Ok(None) => Err(SyncError::Recv(SyncRecvError::UnexpectedEndOfStream)),
        Err(error) => Err(SyncError::Recv(error)),
    }
}

/// Takes the time out of a message of a peer.
pub fn expect_clock<S, T>(read: Result<Option<SyncMessage<S, T>>, SyncRecvError>) -> (ts: Result<
    u64,
    SyncError,
>)
    ensures
        ts == clock_in(read),
{
    match read {
        Ok(Some(SyncMessage::Clock(ts))) => Ok(ts),
        Ok(Some(_)) => Err(SyncError::Recv(SyncRecvError::ExpectedClockMessage)),
        Ok(None) => Err(SyncError::Recv(SyncRecvError::UnexpectedEndOfStream)),
        Err(error) => Err(SyncError::Recv(error)),
    }
}

/// The peers that could be greeted, in their order.
pub open spec fn greeted<T>(results: Seq<(ActorId, Result<T, SyncError>)>) -> Seq<(ActorId, T)>
    decreases results.len(),
{
    if results.len() == 0 {
        Seq::empty()
    } else {
        let before = greeted(results.drop_last());
        match results.last().1 {
            Ok(greeting) => before.push((results.last().0, greeting)),
            Err(_) => before,
        }
    }
}

/// Gathers the peers that could be greeted. That some could not is an error only
/// if none could; then it is the error of the last one.
pub fn collect_greeted<T>(results: Vec<(ActorId, Result<T, SyncError>)>) -> (collected: Result<
    Vec<(ActorId, T)>,
    SyncError,
>)
    ensures
        match collected {
            Ok(peers) => peers@ == greeted(results@) && (peers.len() > 0 || results.len() == 0),
            Err(error) => greeted(results@).len() == 0 && results.len() > 0
                && results@.last().1 == Err::<T, SyncError>(error),
        },
        collected matches Ok(peers) ==> {
            let kept = results@.filter(|result: (ActorId, Result<T, SyncError>)| result.1 is Ok);
            &&& peers.len() == kept.len()
            &&& forall|i: int|
                0 <= i < peers.len() ==> (#[trigger] peers@[i]).0 == kept[i].0 && Ok::<
                    T,
                    SyncError,
                >(peers@[i].1) == kept[i].1
        },
        collected is Err ==> forall|i: int|
            0 <= i < results.len() ==> (#[trigger] results@[i]).1 is Err,
{
    let mut peers: Vec<(ActorId, T)> = Vec::new();
    let mut failure: Option<SyncError> = None;
    let ghost all = results@;
    for result in iter: results
        invariant
            iter.seq() == all,
            peers@ == greeted(all.take(iter.index())),
            peers.len() == 0 && iter.index() > 0 ==> failure is Some,
            peers.len() == 0 ==> (failure matches Some(error) ==> iter.index() > 0
                && all[iter.index() - 1].1 == Err::<T, SyncError>(error)),
    {
        assert(all.take(iter.index() + 1).drop_last() =~= all.take(iter.index()));
        match result.1 {
            Ok(greeting) => peers.push((result.0, greeting)),
            Err(error) => {
                failure = Some(error);
            },
        }
    }
    assert(all.take(all.len() as int) =~= all);
    proof {
        law_all_greeted_are_kept(all);
    }
    if peers.len() == 0 {
        if let Some(error) = failure {
            return Err(error);
        }
    }
    Ok(peers)
}

/// Of the peers just those are kept that could be greeted, every one of them, in their
/// order and with what the greeting gave.
pub proof fn law_all_greeted_are_kept<T>(results: Seq<(ActorId, Result<T, SyncError>)>)
    ensures
        ({
            let kept = results.filter(|result: (ActorId, Result<T, SyncError>)| result.1 is Ok);
            &&& greeted(results).len() == kept.len()
            &&& forall|i: int|
                0 <= i < kept.len() ==> (#[trigger] greeted(results)[i]).0 == kept[i].0 && Ok::<
                    T,
                    SyncError,
                >(greeted(results)[i].1) == kept[i].1
        }),
        forall|i: int|
            0 <= i < results.len() && (#[trigger] results[i]).1 is Ok ==> greeted(
                results,
            ).contains((results[i].0, results[i].1->Ok_0)),
    decreases results.len(),
{
    reveal(Seq::filter);
    if results.len() > 0 {
        let init = results.drop_last();
        law_all_greeted_are_kept(init);
        let before = greeted(init);
        let after = greeted(results);
        assert forall|i: int| 0 <= i < results.len() && (#[trigger] results[i]).1 is Ok implies
            after.contains((results[i].0, results[i].1->Ok_0)) by {
            let entry = (results[i].0, results[i].1->Ok_0);
            if i < init.len() {
                assert(init[i] == results[i]);
                assert(before.contains(entry));
                let k = choose|k: int| 0 <= k < before.len() && before[k] == entry;
                assert(after[k] == entry);
            } else {
                assert(after[after.len() - 1] == entry);
            }
        }
    }
}

/// What one need is cut into: whole versions into blocks of a few, the rest stays
/// as it is.
pub open spec fn split_need(need: message::NeedView) -> Seq<message::NeedView> {
    match need {
        message::NeedView::Full { versions } => Seq::new(
            span::chunk_count(versions, VERSIONS_PER_NEED as int),
            |i: int|
                message::NeedView::Full {
                    versions: span::chunk_at(versions, VERSIONS_PER_NEED as int, i),
                },
        ),
        message::NeedView::Partial { version, seqs } => seq![need],
    }
}

/// What some needs are cut into, in their order.
pub open spec fn split_needs(needs: Seq<message::NeedView>) -> Seq<message::NeedView>
    decreases needs.len(),
{
    if needs.len() == 0 {
        Seq::empty()
    } else {
        split_needs(needs.drop_last()) + split_need(needs.last())
    }
}

/// Whether a need can be cut up and asked for.
pub open spec fn need_askable(need: message::NeedView) -> bool {
    match need {
        message::NeedView::Full { versions } => span::chunks_fit(
            versions,
            VERSIONS_PER_NEED as int,
        ),
        message::NeedView::Partial { version, seqs } => requests::need_valid(need),
    }
}

/// Tells whether a need can be cut up and asked for.
pub fn is_askable(need: &SyncNeed) -> (askable: bool)
    ensures
        askable == need_askable(need@),
{
    match need {
        SyncNeed::Full { versions } => can_be_cut(*versions, VERSIONS_PER_NEED),
        SyncNeed::Partial { version: _, seqs } => {
            assert(need@ =~= message::NeedView::Partial { version: need@->version, seqs: seqs@ });
            let mut i: usize = 0;
            while i < seqs.len()
                invariant
                    i <= seqs.len(),
                    need@ == (message::NeedView::Partial {
                        version: need@->version,
                        seqs: seqs@,
                    }),
                    forall|j: int| 0 <= j < i ==> (#[trigger] seqs@[j]).valid(),
                decreases seqs.len() - i,
            {
                if seqs[i].start > seqs[i].end {
                    assert(!seqs@[i as int].valid());
                    return false;
                }
                i = i + 1;
            }
            true
        },
    }
}

/// Whether that holds of all needs.
pub open spec fn needs_askable(needs: Seq<message::NeedView>) -> bool {
    forall|i: int| 0 <= i < needs.len() ==> need_askable(#[trigger] needs[i])
}

/// Whether the ranges of all needs hold something.
pub open spec fn needs_valid(needs: Seq<message::NeedView>) -> bool {
    forall|i: int| 0 <= i < needs.len() ==> requests::need_valid(#[trigger] needs[i])
}

/// Cuts needs into pieces that a peer can be asked for at once.
pub fn split(needs: Vec<SyncNeed>) -> (pieces: Vec<SyncNeed>)
    requires
        needs_askable(message::needs_view(needs@)),
    ensures
        message::needs_view(pieces@) == split_needs(message::needs_view(needs@)),
        needs_valid(message::needs_view(pieces@)),
{
    let mut pieces: Vec<SyncNeed> = Vec::new();
    let ghost all = needs@;
    let ghost views = message::needs_view(all);
    assert(message::needs_view(pieces@) =~= split_needs(views.take(0)));
    for need in iter: needs
        invariant
            iter.seq() == all,
            views == message::needs_view(all),
            needs_askable(views),
            message::needs_view(pieces@) == split_needs(views.take(iter.index())),
            needs_valid(message::needs_view(pieces@)),
    {
        let ghost before = message::needs_view(pieces@);
        let ghost view = need@;
        proof {
            assert(view == views[iter.index()]);
            assert(views.take(iter.index() + 1).drop_last() =~= views.take(iter.index()));
            assert(views.take(iter.index() + 1).last() == view);
            assert(need_askable(view));
        }
        match need {
            SyncNeed::Full { versions } => {
                let chunks = chunk_range(versions, VERSIONS_PER_NEED);
                let mut i: usize = 0;
                while i < chunks.len()
                    invariant
                        i <= chunks.len(),
                        versions.valid() || chunks.len() == 0,
                        view == (message::NeedView::Full { versions }),
                        span::chunks_fit(versions, VERSIONS_PER_NEED as int),
                        chunks@ == Seq::new(
                            span::chunk_count(versions, VERSIONS_PER_NEED as int),
                            |j: int| span::chunk_at(versions, VERSIONS_PER_NEED as int, j),
                        ),
                        message::needs_view(pieces@) == before + split_need(view).take(i as int),
                        needs_valid(message::needs_view(pieces@)),
                    decreases chunks.len() - i,
                {
                    let ghost now = message::needs_view(pieces@);
                    pieces.push(SyncNeed::Full { versions: chunks[i] });
                    proof {
                        span::lemma_chunk_valid(versions, VERSIONS_PER_NEED as int, i as int);
                        let piece = message::NeedView::Full { versions: chunks@[i as int] };
                        assert(message::needs_view(pieces@) =~= now.push(piece));
                        assert(split_need(view).take(i + 1) =~= split_need(view).take(
                            i as int,
                        ).push(piece));
                    }
                    i = i + 1;
                }
                assert(split_need(view).take(i as int) =~= split_need(view));
            },
            SyncNeed::Partial { version, seqs } => {
                pieces.push(SyncNeed::Partial { version, seqs });
                assert(view == message::NeedView::Partial { version, seqs: seqs@ });
                assert(message::needs_view(pieces@) =~= before + seq![view]);
            },
        }
    }
    assert(views.take(views.len() as int) =~= views);
    pieces
}

/// Needs, each with the actor that they are about.
pub open spec fn needs_of(actor_id: ActorId, needs: Seq<message::NeedView>) -> Seq<
    (ActorId, message::NeedView),
> {
    Seq::new(needs.len(), |i: int| (actor_id, needs[i]))
}

/// Appends needs of an actor to a queue, in their order.
pub fn push_needs(
    queue: &mut VecDeque<(ActorId, SyncNeed)>,
    actor_id: ActorId,
    needs: Vec<SyncNeed>,
)
    ensures
        requester::pairs_view(final(queue)@) == requester::pairs_view(old(queue)@) + needs_of(
            actor_id,
            message::needs_view(needs@),
        ),
        final(queue)@ == old(queue)@ + Seq::new(needs@.len(), |i: int| (actor_id, needs@[i])),
{
    let ghost all = needs@;
    let ghost views = message::needs_view(all);
    assert(needs_of(actor_id, views.take(0)) =~= Seq::empty());
    for need in iter: needs
        invariant
            iter.seq() == all,
            views == message::needs_view(all),
            queue@ =~= old(queue)@ + Seq::new(iter.index() as nat, |i: int| (actor_id, all[i])),
            requester::pairs_view(queue@) == requester::pairs_view(old(queue)@) + needs_of(
                actor_id,
                views.take(iter.index()),
            ),
    {
        let ghost before = requester::pairs_view(queue@);
        let ghost view = need@;
        queue.push_back((actor_id, need));
        proof {
            assert(view == views[iter.index()]);
            assert(requester::pairs_view(queue@) =~= before.push((actor_id, view)));
            assert(needs_of(actor_id, views.take(iter.index() + 1)) =~= needs_of(
                actor_id,
                views.take(iter.index()),
            ).push((actor_id, view)));
        }
    }
    assert(views.take(views.len() as int) =~= views);
}

/// Whether `block` asks for the needs of one actor: they are cut up, and the
/// pieces come in some order.
pub open spec fn is_block(
    needs: (ActorId, Vec<SyncNeed>),
    block: Seq<(ActorId, message::NeedView)>,
) -> bool {
    exists|pieces: Seq<message::NeedView>| #[trigger]
        random::rearranged(split_needs(message::needs_view(needs.1@)), pieces) && block == needs_of(
            needs.0,
            pieces,
        )
}

/// Whether `queue` asks for the needs of some actors, one actor after the other.
pub open spec fn is_queue(
    needs: Seq<(ActorId, Vec<SyncNeed>)>,
    queue: Seq<(ActorId, message::NeedView)>,
) -> bool
    decreases needs.len(),
{
    if needs.len() == 0 {
        queue.len() == 0
    } else {
        exists|at: int|
            0 <= at <= queue.len() && is_queue(needs.drop_last(), queue.take(at))
                && #[trigger] is_block(needs.last(), queue.skip(at))
    }
}

/// Whether all needs of all actors can be cut up and asked for.
pub open spec fn all_askable(needs: Seq<(ActorId, Vec<SyncNeed>)>) -> bool {
    forall|i: int|
        0 <= i < needs.len() ==> needs_askable(message::needs_view((#[trigger] needs[i]).1@))
}

/// The queue in which a peer is asked for the needs of some actors. The pieces of
/// each actor's needs are shuffled, so that different peers are asked for
/// different pieces first.
pub fn arrange_needs(needs: Vec<(ActorId, Vec<SyncNeed>)>) -> (queue: VecDeque<
    (ActorId, SyncNeed),
>)
    requires
        all_askable(needs@),
    ensures
        is_queue(needs@, requester::pairs_view(queue@)),
        forall|i: int|
            0 <= i < queue@.len() ==> requests::need_valid((#[trigger] queue@[i]).1@),
{
    let mut rng = thread_rng();
    let mut queue: VecDeque<(ActorId, SyncNeed)> = VecDeque::new();
    let ghost all = needs@;
    for entry in iter: needs
        invariant
            iter.seq() == all,
            all_askable(all),
            is_queue(all.take(iter.index()), requester::pairs_view(queue@)),
            forall|i: int|
                0 <= i < queue@.len() ==> requests::need_valid((#[trigger] queue@[i]).1@),
    {
        let ghost before = requester::pairs_view(queue@);
        assert(entry == all[iter.index()]);
        let mut pieces = split(entry.1);
        let ghost cut = pieces@;
        shuffle(&mut pieces, &mut rng);
        let ghost mixed = pieces@;
        proof {
            lemma_rearranged_views(cut, mixed);
            lemma_rearranged_valid(message::needs_view(cut), message::needs_view(mixed));
        }
        push_needs(&mut queue, entry.0, pieces);
        proof {
            let pairs = requester::pairs_view(queue@);
            let block = needs_of(entry.0, message::needs_view(mixed));
            let at = before.len() as int;
            assert(pairs.take(at) =~= before);
            assert(pairs.skip(at) =~= block);
            assert(is_block(entry, block));
            let next = all.take(iter.index() + 1);
            assert(next.drop_last() =~= all.take(iter.index()));
            assert(next.last() == entry);
            assert(is_queue(next.drop_last(), pairs.take(at)));
            assert(is_block(next.last(), pairs.skip(at)));
            assert forall|i: int| 0 <= i < queue@.len() implies requests::need_valid(
                (#[trigger] queue@[i]).1@,
            ) by {
                assert(pairs[i] == (queue@[i].0, queue@[i].1@));
                if i < at {
                    assert(before[i] == pairs[i]);
                } else {
                    assert(block[i - at] == pairs[i]);
                    assert(message::needs_view(mixed)[i - at] == pairs[i].1);
                }
            }
        }
    }
    assert(all.take(all.len() as int) =~= all);
    queue
}

/// Putting needs in another order puts their views in that order.
proof fn lemma_rearranged_views(needs: Seq<SyncNeed>, mixed: Seq<SyncNeed>)
    requires
        random::rearranged(needs, mixed),
    ensures
        random::rearranged(message::needs_view(needs), message::needs_view(mixed)),
{
    let places = choose|places: Seq<int>| #[trigger]
        random::distinct_places(places, needs.len()) && mixed == random::items_at(needs, places);
    let views = message::needs_view(needs);
    assert(random::distinct_places(places, views.len()));
    assert(message::needs_view(mixed) =~= random::items_at(views, places));
}

/// What holds of each of some needs holds of each of them in another order.
proof fn lemma_rearranged_valid(needs: Seq<message::NeedView>, mixed: Seq<message::NeedView>)
    requires
        random::rearranged(needs, mixed),
        needs_valid(needs),
    ensures
        needs_valid(mixed),
{
    let places = choose|places: Seq<int>| #[trigger]
        random::distinct_places(places, needs.len()) && mixed == random::items_at(needs, places);
    assert forall|i: int| 0 <= i < mixed.len() implies requests::need_valid(
        #[trigger] mixed[i],
    ) by {
        assert(mixed[i] == needs[places[i]]);
    }
}

/// A peer that was greeted: which one it is, what it can give, and what the
/// caller keeps of it.
pub struct Syncer<T> {
    pub actor_id: ActorId,
    pub needs: Vec<(ActorId, Vec<SyncNeed>)>,
    pub conn: T,
}

/// The peers that can give something, in their order.
pub open spec fn useful<T>(syncers: Seq<Syncer<T>>) -> Seq<Syncer<T>> {
    syncers.filter(|syncer: Syncer<T>| syncer.needs@.len() > 0)
}

/// Whether what is needed of each peer can be asked for.
pub open spec fn syncers_askable<T>(syncers: Seq<Syncer<T>>) -> bool {
    forall|i: int| 0 <= i < syncers.len() ==> all_askable((#[trigger] syncers[i]).needs@)
}

/// Splits peers into those to read from and the queues of what to ask them for.
/// A peer that can give nothing gets neither. The number of a queue is the place
/// of its peer among the readers.
pub fn plan_requests<T>(syncers: Vec<Syncer<T>>) -> (plan: (
    Vec<(ActorId, T)>,
    VecDeque<ServerQueue>,
))
    requires
        syncers_askable(syncers@),
    ensures
        plan.0.len() == useful(syncers@).len(),
        plan.1@.len() == useful(syncers@).len(),
        useful(syncers@) == syncers@.filter(|syncer: Syncer<T>| syncer.needs@.len() > 0),
        forall|i: int|
            #![trigger plan.0@[i]]
            0 <= i < plan.0.len() ==> plan.0@[i] == (
                useful(syncers@)[i].actor_id,
                useful(syncers@)[i].conn,
            ),
        forall|i: int|
            #![trigger plan.1@[i]]
            0 <= i < plan.1@.len() ==> plan.1@[i].server == i && is_queue(
                useful(syncers@)[i].needs@,
                plan.1@[i]@.needs,
            ),
        requester::queues_valid(requester::queues_view(plan.1@)),
{
    let mut readers: Vec<(ActorId, T)> = Vec::new();
    let mut servers: VecDeque<ServerQueue> = VecDeque::new();
    let ghost all = syncers@;
    let ghost keep = |syncer: Syncer<T>| syncer.needs@.len() > 0;
    assert(useful(all.take(0)).len() == 0) by {
        reveal(Seq::filter);
    }
    for syncer in iter: syncers
        invariant
            iter.seq() == all,
            keep == (|syncer: Syncer<T>| syncer.needs@.len() > 0),
            syncers_askable(all),
            readers.len() == useful(all.take(iter.index())).len(),
            servers@.len() == readers.len(),
            forall|i: int|
                #![trigger readers@[i]]
                0 <= i < readers.len() ==> readers@[i] == (
                    useful(all.take(iter.index()))[i].actor_id,
                    useful(all.take(iter.index()))[i].conn,
                ),
            forall|i: int|
                #![trigger servers@[i]]
                0 <= i < servers@.len() ==> servers@[i].server == i && is_queue(
                    useful(all.take(iter.index()))[i].needs@,
                    servers@[i]@.needs,
                ) && requester::queue_valid(servers@[i]@),
    {
        let ghost next = all.take(iter.index() + 1);
        proof {
            reveal(Seq::filter);
            assert(next.drop_last() =~= all.take(iter.index()));
            assert(next.last() == syncer);
            assert(all[iter.index()] == syncer);
        }
        if syncer.needs.len() > 0 {
            assert(useful(next) =~= useful(all.take(iter.index())).push(syncer));
            let server: usize = readers.len();
            readers.push((syncer.actor_id, syncer.conn));
            let needs = arrange_needs(syncer.needs);
            let queue = ServerQueue { server, needs };
            proof {
                assert forall|i: int| 0 <= i < queue@.needs.len() implies requests::need_valid(
                    #[trigger] queue@.needs[i].1,
                ) by {
                    assert(queue@.needs[i].1 == queue.needs@[i].1@);
                }
            }
            servers.push_back(queue);
        } else {
            assert(useful(next) =~= useful(all.take(iter.index())));
        }
    }
    assert(all.take(all.len() as int) =~= all);
    (readers, servers)
}

/// Whether a need asks for a sequence number of a version.
pub open spec fn wants(need: message::NeedView, version: u64, seq: int) -> bool {
    match need {
        message::NeedView::Full { versions } => versions.has(version as int),
        message::NeedView::Partial { version: of, seqs } => of == version && range_set::covers(
            seqs,
            seq,
        ),
    }
}

/// Whether one of some needs does.
pub open spec fn want(needs: Seq<message::NeedView>, version: u64, seq: int) -> bool {
    exists|i: int| 0 <= i < needs.len() && wants(#[trigger] needs[i], version, seq)
}

proof fn lemma_split_need(need: message::NeedView, version: u64, seq: int)
    requires
        need_askable(need),
    ensures
        want(split_need(need), version, seq) <==> wants(need, version, seq),
{
    let pieces = split_need(need);
    match need {
        message::NeedView::Full { versions } => {
            let size = VERSIONS_PER_NEED as int;
            span::law_chunks_cover(versions, size, version as int);
            if wants(need, version, seq) {
                let i = choose|i: int|
                    0 <= i < span::chunk_count(versions, size) && (#[trigger] span::chunk_at(
                        versions,
                        size,
                        i,
                    )).has(version as int);
                assert(wants(pieces[i], version, seq));
            }
            if want(pieces, version, seq) {
                let i = choose|i: int|
                    0 <= i < pieces.len() && wants(#[trigger] pieces[i], version, seq);
                assert(span::chunk_at(versions, size, i).has(version as int));
            }
        },
        message::NeedView::Partial { version: of, seqs } => {
            assert(pieces[0] == need);
        },
    }
}

/// Cutting needs up changes nothing about what is asked for.
pub proof fn law_split_asks_the_same(needs: Seq<message::NeedView>, version: u64, seq: int)
    requires
        needs_askable(needs),
    ensures
        want(split_needs(needs), version, seq) <==> want(needs, version, seq),
    decreases needs.len(),
{
    if needs.len() > 0 {
        let init = needs.drop_last();
        let last = needs.last();
        assert forall|i: int| 0 <= i < init.len() implies need_askable(#[trigger] init[i]) by {
            assert(needs[i] == init[i]);
        }
        law_split_asks_the_same(init, version, seq);
        assert(need_askable(needs[needs.len() - 1]));
        lemma_split_need(last, version, seq);
        let before = split_needs(init);
        let pieces = split_need(last);
        let all = split_needs(needs);
        if want(all, version, seq) {
            let i = choose|i: int| 0 <= i < all.len() && wants(#[trigger] all[i], version, seq);
            if i < before.len() {
                assert(before[i] == all[i]);
                assert(want(before, version, seq));
                let j = choose|j: int|
                    0 <= j < init.len() && wants(#[trigger] init[j], version, seq);
                assert(needs[j] == init[j]);
            } else {
                assert(pieces[i - before.len()] == all[i]);
                assert(want(pieces, version, seq));
                assert(wants(needs[needs.len() - 1], version, seq));
            }
        }
        if want(needs, version, seq) {
            let i = choose|i: int|
                0 <= i < needs.len() && wants(#[trigger] needs[i], version, seq);
            if i < init.len() {
                assert(init[i] == needs[i]);
                assert(want(before, version, seq));
                let j = choose|j: int|
                    0 <= j < before.len() && wants(#[trigger] before[j], version, seq);
                assert(all[j] == before[j]);
            } else {
                assert(want(pieces, version, seq));
                let j = choose|j: int|
                    0 <= j < pieces.len() && wants(#[trigger] pieces[j], version, seq);
                assert(all[before.len() + j] == pieces[j]);
            }
        }
    }
}

/// Whether the pieces of the needs of some actor hold this one.
pub open spec fn is_piece(
    needs: Seq<(ActorId, Vec<SyncNeed>)>,
    piece: (ActorId, message::NeedView),
) -> bool {
    exists|i: int|
        0 <= i < needs.len() && (#[trigger] needs[i]).0 == piece.0 && split_needs(
            message::needs_view(needs[i].1@),
        ).contains(piece.1)
}

/// A queue asks for every piece of every need and for nothing else.
pub proof fn law_queue_is_complete(
    needs: Seq<(ActorId, Vec<SyncNeed>)>,
    queue: Seq<(ActorId, message::NeedView)>,
    piece: (ActorId, message::NeedView),
)
    requires
        is_queue(needs, queue),
    ensures
        queue.contains(piece) <==> is_piece(needs, piece),
    decreases needs.len(),
{
    if needs.len() > 0 {
        let init = needs.drop_last();
        let last = needs.last();
        let at = choose|at: int|
            0 <= at <= queue.len() && is_queue(init, queue.take(at)) && #[trigger] is_block(
                last,
                queue.skip(at),
            );
        let front = queue.take(at);
        let block = queue.skip(at);
        assert(is_block(last, block));
        law_queue_is_complete(init, front, piece);
        let cut = split_needs(message::needs_view(last.1@));
        let pieces = choose|pieces: Seq<message::NeedView>| #[trigger]
            random::rearranged(cut, pieces) && block == needs_of(last.0, pieces);
        random::lemma_rearranged(cut, pieces);
        assert(block.len() == pieces.len());
        if queue.contains(piece) {
            let i = choose|i: int| 0 <= i < queue.len() && queue[i] == piece;
            if i < at {
                assert(front[i] == piece);
                assert(front.contains(piece));
                let k = choose|k: int|
                    0 <= k < init.len() && (#[trigger] init[k]).0 == piece.0 && split_needs(
                        message::needs_view(init[k].1@),
                    ).contains(piece.1);
                assert(needs[k] == init[k]);
            } else {
                assert(block[i - at] == piece);
                assert(cut.contains(pieces[i - at]));
                assert(needs[needs.len() - 1] == last);
            }
        }
        if is_piece(needs, piece) {
            let k = choose|k: int|
                0 <= k < needs.len() && (#[trigger] needs[k]).0 == piece.0 && split_needs(
                    message::needs_view(needs[k].1@),
                ).contains(piece.1);
            if k < init.len() {
                assert(init[k] == needs[k]);
                assert(front.contains(piece));
                let i = choose|i: int| 0 <= i < front.len() && front[i] == piece;
                assert(queue[i] == piece);
            } else {
                let p = choose|p: int| 0 <= p < cut.len() && cut[p] == piece.1;
                assert(pieces.contains(cut[p]));
                let i = choose|i: int| 0 <= i < pieces.len() && pieces[i] == piece.1;
                assert(block[i] == piece);
                assert(queue[at + i] == piece);
            }
        }
    }
}

/// Whether a queue asks for a sequence number of a version of an actor.
pub open spec fn queue_wants(
    queue: Seq<(ActorId, message::NeedView)>,
    actor_id: ActorId,
    version: u64,
    seq: int,
) -> bool {
    exists|i: int|
        0 <= i < queue.len() && (#[trigger] queue[i]).0 == actor_id && wants(
            queue[i].1,
            version,
            seq,
        )
}

/// Whether it is needed, by what is needed of some actors.
pub open spec fn needed(
    needs: Seq<(ActorId, Vec<SyncNeed>)>,
    actor_id: ActorId,
    version: u64,
    seq: int,
) -> bool {
    exists|i: int|
        0 <= i < needs.len() && (#[trigger] needs[i]).0 == actor_id && want(
            message::needs_view(needs[i].1@),
            version,
            seq,
        )
}

/// However the pieces fall, a peer is asked for exactly what is needed of it.
pub proof fn law_queue_asks_what_is_needed(
    needs: Seq<(ActorId, Vec<SyncNeed>)>,
    queue: Seq<(ActorId, message::NeedView)>,
    actor_id: ActorId,
    version: u64,
    seq: int,
)
    requires
        all_askable(needs),
        is_queue(needs, queue),
    ensures
        queue_wants(queue, actor_id, version, seq) <==> needed(needs, actor_id, version, seq),
{
    if queue_wants(queue, actor_id, version, seq) {
        let i = choose|i: int|
            0 <= i < queue.len() && (#[trigger] queue[i]).0 == actor_id && wants(
                queue[i].1,
                version,
                seq,
            );
        assert(queue.contains(queue[i]));
        law_queue_is_complete(needs, queue, queue[i]);
        let k = choose|k: int|
            0 <= k < needs.len() && (#[trigger] needs[k]).0 == actor_id && split_needs(
                message::needs_view(needs[k].1@),
            ).contains(queue[i].1);
        let all = message::needs_view(needs[k].1@);
        let pieces = split_needs(all);
        let p = choose|p: int| 0 <= p < pieces.len() && pieces[p] == queue[i].1;
        assert(wants(pieces[p], version, seq));
        law_split_asks_the_same(all, version, seq);
    }
    if needed(needs, actor_id, version, seq) {
        let k = choose|k: int|
            0 <= k < needs.len() && (#[trigger] needs[k]).0 == actor_id && want(
                message::needs_view(needs[k].1@),
                version,
                seq,
            );
        let all = message::needs_view(needs[k].1@);
        let pieces = split_needs(all);
        law_split_asks_the_same(all, version, seq);
        let p = choose|p: int| 0 <= p < pieces.len() && wants(#[trigger] pieces[p], version, seq);
        let piece = (actor_id, pieces[p]);
        assert(pieces.contains(piece.1));
        assert(is_piece(needs, piece));
        law_queue_is_complete(needs, queue, piece);
        let i = choose|i: int| 0 <= i < queue.len() && queue[i] == piece;
        assert(queue[i].0 == actor_id);
    }
}

/// Needs are cut up one after the other: a need for parts of a version stays as it is, and
/// one for versions becomes blocks of them, one for every ten versions that it reaches
/// over. Each block starts ten versions after the one before it, and has the ten versions
/// behind its first one, unless the need ends before.
pub proof fn law_pieces(a: Seq<message::NeedView>, b: Seq<message::NeedView>, need: message::NeedView)
    requires
        need_askable(need),
    ensures
        split_needs(a + b) == split_needs(a) + split_needs(b),
        match need {
            message::NeedView::Partial { .. } => split_needs(seq![need]) == seq![need],
            message::NeedView::Full { versions } => {
                let pieces = split_needs(seq![need]);
                &&& pieces.len() == (if versions.start <= versions.end {
                    (versions.end - versions.start) / 10 + 1
                } else {
                    0
                })
                &&& forall|i: int|
                    #![trigger pieces[i]]
                    0 <= i < pieces.len() ==> (pieces[i] matches message::NeedView::Full {
                        versions: block,
                    } && block.start == versions.start + 10 * i && block.end == (if versions.start
                        + 10 * i + 10 <= versions.end {
                        versions.start + 10 * i + 10
                    } else {
                        versions.end as int
                    }))
            },
        },
    decreases b.len(),
{
    if b.len() > 0 {
        law_pieces(a, b.drop_last(), need);
        assert((a + b).drop_last() =~= a + b.drop_last());
        assert(split_needs(a + b) =~= split_needs(a) + split_needs(b));
    } else {
        assert(a + b =~= a);
        assert(split_needs(a) + split_needs(b) =~= split_needs(a));
    }
    assert(seq![need].drop_last() =~= Seq::empty());
    reveal_with_fuel(split_needs, 2);
    assert(split_needs(seq![need]) =~= split_need(need));
    if let message::NeedView::Full { versions } = need {
        let pieces = split_needs(seq![need]);
        assert forall|i: int|
            #![trigger pieces[i]]
            0 <= i < pieces.len() implies (pieces[i] matches message::NeedView::Full {
            versions: block,
        } && block.start == versions.start + 10 * i && block.end == (if versions.start + 10 * i + 10
            <= versions.end {
            versions.start + 10 * i + 10
        } else {
            versions.end as int
        })) by {
            span::lemma_chunk_valid(versions, 10, i);
        }
    }
}

/// How many pieces the needs of some actors are cut into.
pub open spec fn piece_count(needs: Seq<(ActorId, Vec<SyncNeed>)>) -> nat
    decreases needs.len(),
{
    if needs.len() == 0 {
        0
    } else {
        piece_count(needs.drop_last()) + split_needs(message::needs_view(needs.last().1@)).len()
    }
}

/// A queue asks for as many pieces as there are: none twice on account of one need. And it
/// asks for those of one actor after those of the one before.
pub proof fn law_queue_has_every_piece_once(
    needs: Seq<(ActorId, Vec<SyncNeed>)>,
    queue: Seq<(ActorId, message::NeedView)>,
)
    requires
        is_queue(needs, queue),
    ensures
        queue.len() == piece_count(needs),
        needs.len() > 0 ==> {
            let last = split_needs(message::needs_view(needs.last().1@));
            &&& forall|i: int|
                queue.len() - last.len() <= i < queue.len() ==> (#[trigger] queue[i]).0
                    == needs.last().0
            &&& is_queue(needs.drop_last(), queue.take(queue.len() - last.len()))
        },
    decreases needs.len(),
{
    if needs.len() > 0 {
        let init = needs.drop_last();
        let last = needs.last();
        let at = choose|at: int|
            0 <= at <= queue.len() && is_queue(init, queue.take(at)) && #[trigger] is_block(
                last,
                queue.skip(at),
            );
        let block = queue.skip(at);
        assert(is_block(last, block));
        let cut = split_needs(message::needs_view(last.1@));
        let pieces = choose|pieces: Seq<message::NeedView>| #[trigger]
            random::rearranged(cut, pieces) && block == needs_of(last.0, pieces);
        assert(block.len() == cut.len());
        law_queue_has_every_piece_once(init, queue.take(at));
        assert forall|i: int| queue.len() - cut.len() <= i < queue.len() implies (
        #[trigger] queue[i]).0 == last.0 by {
            assert(block[i - at] == queue[i]);
        }
    }
}

/// What a read gives, and what comes of it: a message that was decoded is handed on, the end
/// of the stream is no error, and a failure is told with its own reason. A read that took
/// too long is an error of its own.
pub proof fn law_reads<M>(message: M, text: String, read: Result<Option<M>, SyncRecvError>)
    ensures
        read_in(Some(Ok(Ok(message)))) == Ok::<Option<M>, SyncRecvError>(Some(message)),
        read_in::<M>(None) == Ok::<Option<M>, SyncRecvError>(None),
        read_in::<M>(Some(Ok(Err(text)))) == Err::<Option<M>, SyncRecvError>(
            SyncRecvError::Decode(text),
        ),
        read_in::<M>(Some(Err(text))) == Err::<Option<M>, SyncRecvError>(SyncRecvError::Io(text)),
        timely(Some(read)) == read,
        timely::<M>(None) == Err::<Option<M>, SyncRecvError>(SyncRecvError::TimedOut),
{
}

/// Where a state is due only a state will do, and where the time is due only the time. A
/// rejection in place of a state is that rejection; anything else that can be read, the end
/// of the stream and a failed read each are an error of their own.
pub proof fn law_what_is_due<S, T>(read: Result<Option<SyncMessage<S, T>>, SyncRecvError>)
    ensures
        state_in(read) is Ok <==> (read matches Ok(Some(SyncMessage::State(_)))),
        read matches Ok(Some(SyncMessage::State(state))) ==> state_in(read) == Ok::<S, SyncError>(
            state,
        ),
        clock_in(read) is Ok <==> (read matches Ok(Some(SyncMessage::Clock(_)))),
        read matches Ok(Some(SyncMessage::Clock(ts))) ==> clock_in(read) == Ok::<u64, SyncError>(
            ts,
        ),
        match read {
            Err(error) => state_in(read) == Err::<S, SyncError>(SyncError::Recv(error))
                && clock_in(read) == Err::<u64, SyncError>(SyncError::Recv(error)),
            Ok(None) => state_in(read) == Err::<S, SyncError>(
                SyncError::Recv(SyncRecvError::UnexpectedEndOfStream),
            ) && clock_in(read) == Err::<u64, SyncError>(
                SyncError::Recv(SyncRecvError::UnexpectedEndOfStream),
            ),
            Ok(Some(message)) => {
                &&& message matches SyncMessage::Rejection(rejection) ==> state_in(read) == Err::<
                    S,
                    SyncError,
                >(SyncError::Rejection(rejection))
                &&& message !is State && message !is Rejection ==> state_in(read) == Err::<
                    S,
                    SyncError,
                >(SyncError::Recv(SyncRecvError::ExpectedSyncState))
                &&& message !is Clock ==> clock_in(read) == Err::<u64, SyncError>(
                    SyncError::Recv(SyncRecvError::ExpectedClockMessage),
                )
            },
        },
{
}

/// Of the peers that were greeted all that can give something are asked, in their order, and
/// only those that can give nothing are left out.
pub proof fn law_all_useful_peers_are_asked<T>(syncers: Seq<Syncer<T>>, i: int)
    requires
        0 <= i < syncers.len(),
    ensures
        useful(syncers) == syncers.filter(|syncer: Syncer<T>| syncer.needs@.len() > 0),
        useful(syncers).contains(syncers[i]) <==> syncers[i].needs@.len() > 0,
    decreases syncers.len(),
{
    let keep = |syncer: Syncer<T>| syncer.needs@.len() > 0;
    broadcast use vstd::seq_lib::group_filter_ensures;

    reveal(Seq::filter);
    let kept = syncers.filter(keep);
    let init = syncers.drop_last();
    if kept.contains(syncers[i]) {
        let k = choose|k: int| 0 <= k < kept.len() && kept[k] == syncers[i];
        assert(keep(kept[k]));
    }
    if i < init.len() {
        law_all_useful_peers_are_asked(init, i);
        assert(init[i] == syncers[i]);
        let before = init.filter(keep);
        if before.contains(syncers[i]) {
            let k = choose|k: int| 0 <= k < before.len() && before[k] == syncers[i];
            assert(kept[k] == syncers[i]);
        }
    } else if keep(syncers[i]) {
        assert(kept[kept.len() - 1] == syncers[i]);
    }
}

/// Needs can be asked for as long as their ranges do not start behind their end and their
/// versions leave room for another block.
pub proof fn law_askable(versions: Span, version: u64, seqs: Seq<Span>)
    ensures
        versions.end <= u64::MAX - 10 ==> need_askable(message::NeedView::Full { versions }),
        versions.start > versions.end ==> need_askable(message::NeedView::Full { versions }),
        need_askable(message::NeedView::Partial { version, seqs }) <==> forall|i: int|
            0 <= i < seqs.len() ==> (#[trigger] seqs[i]).start <= seqs[i].end,
        requests::need_valid(message::NeedView::Full { versions }) <==> versions.start
            <= versions.end,
        requests::need_valid(message::NeedView::Partial { version, seqs }) <==> need_askable(
            message::NeedView::Partial { version, seqs },
        ),
{
    span::law_can_be_cut(versions, 10);
    if forall|i: int| 0 <= i < seqs.len() ==> (#[trigger] seqs[i]).start <= seqs[i].end {
        assert(range_set::all_valid(seqs));
    }
    if range_set::all_valid(seqs) {
        assert forall|i: int| 0 <= i < seqs.len() implies (#[trigger] seqs[i]).start
            <= seqs[i].end by {
            assert(seqs[i].valid());
        }
    }
}

} // verus!
