//! What holds of asking from its beginning to its end, whatever happens on the way.

use vstd::prelude::*;

use crate::frame;
use crate::message::{self, ActorId};
use crate::range_set;
use crate::requester;
use crate::requests;

verus! {

/// What the caller reports after a step.
#[verifier::ext_equal]
pub enum RequestEvent {
    /// The request was encoded; `None` if that failed.
    Encoded(Option<Seq<u8>>),
    /// The bytes were written, or not.
    Written(bool),
    /// Others ran.
    Yielded,
    /// The stream was finished.
    Finished,
}

/// Whether an event is what the state waits for.
pub open spec fn expected(state: requester::RequesterView, event: RequestEvent) -> bool {
    match event {
        RequestEvent::Encoded(_) => state.phase is Encoding,
        RequestEvent::Written(_) => state.phase is Writing,
        RequestEvent::Yielded => state.phase is Yielding,
        RequestEvent::Finished => state.phase is Finishing,
    }
}

/// How asking goes on after an event.
pub open spec fn after_event(state: requester::RequesterView, event: RequestEvent) -> (
    requester::RequesterView,
    requester::StepView,
) {
    match event {
        RequestEvent::Encoded(encoded) => state.after_encoded(encoded),
        RequestEvent::Written(written) => state.after_written(written),
        RequestEvent::Yielded => state.after_turn(),
        RequestEvent::Finished => state.next_turn(),
    }
}

/// Whether an event is a message that got a frame.
pub open spec fn is_framed(event: RequestEvent) -> bool {
    event matches RequestEvent::Encoded(Some(bytes)) && bytes.len() <= frame::MAX_FRAME_LEN
}

/// Whether the peer whose turn it is is given up on account of an event.
pub open spec fn gives_up(event: RequestEvent) -> bool {
    match event {
        RequestEvent::Encoded(_) => !is_framed(event),
        RequestEvent::Written(written) => !written,
        _ => false,
    }
}

/// Something that a peer was asked for.
#[verifier::ext_equal]
pub struct Asked {
    pub server: usize,
    pub actor_id: ActorId,
    pub need: message::NeedView,
}

/// What a peer is asked for in a step.
pub open spec fn asked_in(step: requester::StepView) -> Seq<Asked> {
    match step {
        requester::StepView::Encode { server, actor_id, needs } => Seq::new(
            needs.len(),
            |i: int| Asked { server, actor_id, need: needs[i] },
        ),
        _ => Seq::empty(),
    }
}

/// A request: what a peer is asked for at once.
#[verifier::ext_equal]
pub struct Request {
    pub server: usize,
    pub actor_id: ActorId,
    pub needs: Seq<message::NeedView>,
}

/// The request of a step, if it is one.
pub open spec fn requests_in(step: requester::StepView) -> Seq<Request> {
    match step {
        requester::StepView::Encode { server, actor_id, needs } => seq![
            Request { server, actor_id, needs },
        ],
        _ => Seq::empty(),
    }
}

/// What is written in a step, and to which peer.
pub open spec fn writes_in(step: requester::StepView) -> Seq<(usize, Seq<u8>)> {
    match step {
        requester::StepView::Write { server, bytes } => seq![(server, bytes)],
        _ => Seq::empty(),
    }
}

/// All bytes of some writes, in order.
pub open spec fn all_bytes(writes: Seq<(usize, Seq<u8>)>) -> Seq<u8>
    decreases writes.len(),
{
    if writes.len() == 0 {
        Seq::empty()
    } else {
        all_bytes(writes.drop_last()) + writes.last().1
    }
}

/// The bytes of the writes to one peer, in order.
pub open spec fn bytes_to(writes: Seq<(usize, Seq<u8>)>, server: usize) -> Seq<u8>
    decreases writes.len(),
{
    if writes.len() == 0 {
        Seq::empty()
    } else if writes.last().0 == server {
        bytes_to(writes.drop_last(), server) + writes.last().1
    } else {
        bytes_to(writes.drop_last(), server)
    }
}

/// All messages, in order.
pub open spec fn all_messages(framed: Seq<(usize, Seq<u8>)>) -> Seq<Seq<u8>> {
    Seq::new(framed.len(), |i: int| framed[i].1)
}

/// The messages for one peer, in order.
pub open spec fn messages_to(framed: Seq<(usize, Seq<u8>)>, server: usize) -> Seq<Seq<u8>>
    decreases framed.len(),
{
    if framed.len() == 0 {
        Seq::empty()
    } else if framed.last().0 == server {
        messages_to(framed.drop_last(), server).push(framed.last().1)
    } else {
        messages_to(framed.drop_last(), server)
    }
}

/// What is written in a step.
spec fn written_in(step: requester::StepView) -> Seq<u8> {
    match step {
        requester::StepView::Write { server, bytes } => bytes,
        _ => Seq::empty(),
    }
}

/// What asking came to after some events.
#[verifier::ext_equal]
pub struct Run {
    pub state: requester::RequesterView,
    /// The requests that were to be encoded, in order.
    pub requests: Seq<Request>,
    /// What peers were asked for in them, in order. It counts too if the request could not
    /// be encoded or written: nobody else is asked for it then.
    pub asked: Seq<Asked>,
    /// The peers that were given up, with the needs that they were not asked for.
    pub given_up: Seq<requester::QueueView>,
    /// The messages that got a frame, each with the peer that it is for, in order.
    pub framed: Seq<(usize, Seq<u8>)>,
    /// What was to be written, each with the peer that it went to, in order.
    pub written: Seq<(usize, Seq<u8>)>,
}

/// What asking the peers of `queues` comes to if `events` happen.
pub open spec fn run(queues: Seq<requester::QueueView>, events: Seq<RequestEvent>) -> Run
    decreases events.len(),
{
    if events.len() == 0 {
        let (state, step) = requester::RequesterView::begin(queues).next_turn();
        Run {
            state,
            requests: requests_in(step),
            asked: asked_in(step),
            given_up: Seq::empty(),
            framed: Seq::empty(),
            written: writes_in(step),
        }
    } else {
        let before = run(queues, events.drop_last());
        let event = events.last();
        let (state, step) = after_event(before.state, event);
        Run {
            state,
            requests: before.requests + requests_in(step),
            asked: before.asked + asked_in(step),
            given_up: if gives_up(event) {
                before.given_up.push(before.state.turn->0)
            } else {
                before.given_up
            },
            framed: if is_framed(event) {
                before.framed.push((before.state.turn->0.server, event->Encoded_0->0))
            } else {
                before.framed
            },
            written: before.written + writes_in(step),
        }
    }
}

/// Whether `events` can happen: each is what the state waits for.
pub open spec fn possible(queues: Seq<requester::QueueView>, events: Seq<RequestEvent>) -> bool
    decreases events.len(),
{
    events.len() == 0 || possible(queues, events.drop_last()) && expected(
        run(queues, events.drop_last()).state,
        events.last(),
    )
}

/// Whether a need is for this version, as a whole.
pub open spec fn has_version(need: message::NeedView, version: int) -> bool {
    match need {
        message::NeedView::Full { versions } => versions.has(version),
        message::NeedView::Partial { .. } => false,
    }
}

/// Whether a need is for parts of this version, with this sequence number among them.
pub open spec fn has_seq(need: message::NeedView, version: u64, seq: int) -> bool {
    match need {
        message::NeedView::Full { .. } => false,
        message::NeedView::Partial { version: of, seqs } => of == version && range_set::covers(
            seqs,
            seq,
        ),
    }
}

/// Whether a version of an actor was asked for as a whole.
pub open spec fn version_asked(asked: Seq<Asked>, actor_id: ActorId, version: int) -> bool {
    exists|i: int|
        0 <= i < asked.len() && (#[trigger] asked[i]).actor_id == actor_id && has_version(
            asked[i].need,
            version,
        )
}

/// Whether a sequence number of a version of an actor was asked for.
pub open spec fn seq_asked(
    asked: Seq<Asked>,
    actor_id: ActorId,
    version: u64,
    seq: int,
) -> bool {
    exists|i: int|
        0 <= i < asked.len() && (#[trigger] asked[i]).actor_id == actor_id && has_seq(
            asked[i].need,
            version,
            seq,
        )
}

/// Whether two requests have nothing in common.
pub open spec fn apart(a: Asked, b: Asked) -> bool {
    a.actor_id == b.actor_id ==> {
        &&& forall|version: int|
            !(#[trigger] has_version(a.need, version) && has_version(b.need, version))
        &&& forall|version: u64, seq: int|
            !(#[trigger] has_seq(a.need, version, seq) && has_seq(b.need, version, seq))
    }
}

/// Whether no two requests have anything in common.
pub open spec fn all_apart(asked: Seq<Asked>) -> bool {
    forall|i: int, j: int|
        0 <= i < j < asked.len() ==> apart(#[trigger] asked[i], #[trigger] asked[j])
}

/// Whether a request names no number twice.
pub open spec fn names_once(need: message::NeedView) -> bool {
    match need {
        message::NeedView::Full { versions } => versions.valid(),
        message::NeedView::Partial { version, seqs } => range_set::canonical(seqs),
    }
}

/// Whether peers were asked for all of a need of an actor.
pub open spec fn all_asked(asked: Seq<Asked>, actor_id: ActorId, need: message::NeedView) -> bool {
    &&& forall|version: int| #[trigger]
        has_version(need, version) ==> version_asked(asked, actor_id, version)
    &&& forall|version: u64, seq: int| #[trigger]
        has_seq(need, version, seq) ==> seq_asked(asked, actor_id, version, seq)
}

/// Whether one of some queues of a peer holds a need.
pub open spec fn still_needed(
    queues: Seq<requester::QueueView>,
    server: usize,
    pair: (ActorId, message::NeedView),
) -> bool {
    exists|i: int|
        0 <= i < queues.len() && (#[trigger] queues[i]).server == server
            && queues[i].needs.contains(pair)
}

/// Whether a request asks only for what a need of the same peer and actor asks for.
pub open spec fn stems_from(queues: Seq<requester::QueueView>, asked: Asked) -> bool {
    exists|need: message::NeedView|
        still_needed(queues, asked.server, (asked.actor_id, need)) && #[trigger] is_part(
            asked.need,
            need,
        )
}

/// Whether a need asks only for what another one asks for.
pub open spec fn is_part(part: message::NeedView, need: message::NeedView) -> bool {
    &&& forall|version: int| #[trigger] has_version(part, version) ==> has_version(need, version)
    &&& forall|version: u64, seq: int| #[trigger]
        has_seq(part, version, seq) ==> has_seq(need, version, seq)
}

/// Whether a queue holds only needs that the queue of its peer held at the beginning.
spec fn queue_stems_from(queues: Seq<requester::QueueView>, queue: requester::QueueView) -> bool {
    forall|i: int|
        0 <= i < queue.needs.len() ==> still_needed(
            queues,
            queue.server,
            #[trigger] queue.needs[i],
        )
}

/// What the record says was asked for.
spec fn record_is(record: requests::RecordView, asked: Seq<Asked>) -> bool {
    &&& forall|actor_id: ActorId, version: int| #[trigger]
        range_set::covers((record.full)(actor_id), version) <==> version_asked(
            asked,
            actor_id,
            version,
        )
    &&& forall|actor_id: ActorId, version: u64, seq: int| #[trigger]
        range_set::covers((record.partials)(actor_id, version), seq) <==> seq_asked(
            asked,
            actor_id,
            version,
            seq,
        )
}

/// What holds all along: `live` are the queues of the peers that are still asked.
spec fn accounted(
    queues: Seq<requester::QueueView>,
    live: Seq<requester::QueueView>,
    given_up: Seq<requester::QueueView>,
    record: requests::RecordView,
    asked: Seq<Asked>,
) -> bool {
    &&& record.wf()
    &&& record_is(record, asked)
    &&& all_apart(asked)
    &&& forall|i: int| 0 <= i < asked.len() ==> names_once((#[trigger] asked[i]).need)
    &&& forall|i: int| 0 <= i < asked.len() ==> stems_from(queues, #[trigger] asked[i])
    &&& requester::queues_valid(live)
    &&& forall|i: int| 0 <= i < live.len() ==> queue_stems_from(queues, #[trigger] live[i])
    &&& forall|server: usize, pair: (ActorId, message::NeedView)| #[trigger]
        still_needed(queues, server, pair) ==> still_needed(live, server, pair) || still_needed(
            given_up,
            server,
            pair,
        ) || all_asked(asked, pair.0, pair.1)
}

/// Which queues are looked at does not matter as long as they hold the same needs, or
/// belong to peers that were given up.
proof fn lemma_other_queues(
    queues: Seq<requester::QueueView>,
    live: Seq<requester::QueueView>,
    given_up: Seq<requester::QueueView>,
    more: Seq<requester::QueueView>,
    more_given_up: Seq<requester::QueueView>,
    record: requests::RecordView,
    asked: Seq<Asked>,
)
    requires
        accounted(queues, live, given_up, record, asked),
        forall|i: int|
            0 <= i < live.len() && (#[trigger] live[i]).needs.len() > 0 ==> more.contains(live[i])
                || more_given_up.contains(live[i]),
        forall|i: int| 0 <= i < more.len() ==> live.contains(#[trigger] more[i]),
        forall|i: int|
            0 <= i < given_up.len() ==> more_given_up.contains(#[trigger] given_up[i]),
    ensures
        accounted(queues, more, more_given_up, record, asked),
{
    assert forall|i: int| 0 <= i < more.len() implies requester::queue_valid(#[trigger] more[i])
        && queue_stems_from(queues, more[i]) by {
        let k = choose|k: int| 0 <= k < live.len() && live[k] == more[i];
        assert(requester::queue_valid(live[k]));
    }
    assert forall|server: usize, pair: (ActorId, message::NeedView)| #[trigger]
        still_needed(queues, server, pair) implies still_needed(more, server, pair) || still_needed(
        more_given_up,
        server,
        pair,
    ) || all_asked(asked, pair.0, pair.1) by {
        if still_needed(live, server, pair) {
            let i = choose|i: int|
                0 <= i < live.len() && (#[trigger] live[i]).server == server
                    && live[i].needs.contains(pair);
            assert(live[i].needs.len() > 0);
            if more.contains(live[i]) {
                let k = choose|k: int| 0 <= k < more.len() && more[k] == live[i];
                assert(more[k].server == server);
            } else {
                let k = choose|k: int|
                    0 <= k < more_given_up.len() && more_given_up[k] == live[i];
                assert(more_given_up[k].server == server);
            }
        } else if still_needed(given_up, server, pair) {
            let i = choose|i: int|
                0 <= i < given_up.len() && (#[trigger] given_up[i]).server == server
                    && given_up[i].needs.contains(pair);
            let k = choose|k: int| 0 <= k < more_given_up.len() && more_given_up[k] == given_up[i];
            assert(more_given_up[k].server == server);
        }
    }
}

/// What is asked for on account of a need, as requests.
spec fn requests_for(
    server: usize,
    actor_id: ActorId,
    needs: Seq<message::NeedView>,
) -> Seq<Asked> {
    Seq::new(needs.len(), |i: int| Asked { server, actor_id, need: needs[i] })
}

/// What goes out of a need, number by number.
proof fn lemma_goes_out(
    record: requests::RecordView,
    actor_id: ActorId,
    need: message::NeedView,
)
    requires
        record.wf(),
        requests::need_valid(need),
    ensures
        ({
            let out = requester::request_for(record, actor_id, need);
            let after = record.after(actor_id, need);
            &&& forall|i: int|
                0 <= i < out.len() ==> names_once(#[trigger] out[i]) && is_part(out[i], need)
            &&& forall|i: int, version: int|
                #![trigger has_version(out[i], version)]
                0 <= i < out.len() && has_version(out[i], version) ==> !range_set::covers(
                    (record.full)(actor_id),
                    version,
                )
            &&& forall|i: int, version: u64, seq: int|
                #![trigger has_seq(out[i], version, seq)]
                0 <= i < out.len() && has_seq(out[i], version, seq) ==> !range_set::covers(
                    (record.partials)(actor_id, version),
                    seq,
                )
            &&& forall|i: int, j: int, version: int|
                #![trigger has_version(out[i], version), has_version(out[j], version)]
                0 <= i < j < out.len() ==> !(has_version(out[i], version) && has_version(
                    out[j],
                    version,
                ))
            &&& forall|i: int, j: int, version: u64, seq: int|
                #![trigger has_seq(out[i], version, seq), has_seq(out[j], version, seq)]
                0 <= i < j < out.len() ==> !(has_seq(out[i], version, seq) && has_seq(
                    out[j],
                    version,
                    seq,
                ))
            &&& forall|other: ActorId, version: int| #[trigger]
                range_set::covers((after.full)(other), version) <==> range_set::covers(
                    (record.full)(other),
                    version,
                ) || (other == actor_id && has_version(need, version))
            &&& forall|other: ActorId, version: u64, seq: int| #[trigger]
                range_set::covers((after.partials)(other, version), seq) <==> range_set::covers(
                    (record.partials)(other, version),
                    seq,
                ) || (other == actor_id && has_seq(need, version, seq))
            &&& forall|version: int| #[trigger]
                has_version(need, version) && !range_set::covers((record.full)(actor_id), version)
                    ==> exists|i: int| 0 <= i < out.len() && has_version(#[trigger] out[i], version)
            &&& forall|version: u64, seq: int| #[trigger]
                has_seq(need, version, seq) && !range_set::covers(
                    (record.partials)(actor_id, version),
                    seq,
                ) ==> exists|i: int|
                    0 <= i < out.len() && has_seq(#[trigger] out[i], version, seq)
        }),
{
    let recorded = record.of(actor_id, need);
    let out = requester::request_for(record, actor_id, need);
    let after = record.after(actor_id, need);
    match need {
        message::NeedView::Full { versions } => {
            let whole = seq![versions];
            let left = range_set::difference(whole, recorded);
            assert(range_set::canonical((record.full)(actor_id)));
            requester::law_need_goes_out(need, recorded);
            range_set::lemma_union_storable(recorded, whole);
            assert forall|i: int| 0 <= i < out.len() implies names_once(#[trigger] out[i])
                && is_part(out[i], need) by {
                assert(left[i].valid());
                assert forall|version: int| #[trigger] has_version(out[i], version) implies
                    has_version(need, version) by {
                    assert(left[i].has(version));
                    assert(range_set::covers(left, version));
                }
            }
            assert forall|i: int, version: int|
                #![trigger has_version(out[i], version)]
                0 <= i < out.len() && has_version(out[i], version) implies !range_set::covers(
                (record.full)(actor_id),
                version,
            ) by {
                assert(left[i].has(version));
                assert(range_set::covers(left, version));
            }
            assert forall|i: int, j: int, version: int|
                #![trigger has_version(out[i], version), has_version(out[j], version)]
                0 <= i < j < out.len() implies !(has_version(out[i], version) && has_version(
                out[j],
                version,
            )) by {
                assert(left[i].end + 1 < left[j].start);
            }
            assert forall|other: ActorId, version: int| #[trigger]
                range_set::covers((after.full)(other), version) <==> range_set::covers(
                    (record.full)(other),
                    version,
                ) || (other == actor_id && has_version(need, version)) by {
                if other == actor_id {
                    let all = range_set::union(recorded, whole);
                    assert((after.full)(other) == all);
                    assert(range_set::covers(all, version) <==> range_set::covers(recorded, version)
                        || range_set::covers(whole, version));
                    if versions.has(version) {
                        assert(whole[0].has(version));
                    }
                }
            }
            assert forall|version: int| #[trigger]
                has_version(need, version) && !range_set::covers(
                    (record.full)(actor_id),
                    version,
                ) implies exists|i: int| 0 <= i < out.len() && has_version(
                #[trigger] out[i],
                version,
            ) by {
                assert(range_set::covers(left, version));
                let i = choose|i: int| 0 <= i < left.len() && (#[trigger] left[i]).has(version);
                assert(has_version(out[i], version));
            }
        },
        message::NeedView::Partial { version: of, seqs } => {
            let left = range_set::difference(seqs, recorded);
            assert(range_set::canonical((record.partials)(actor_id, of)));
            requester::law_need_goes_out(need, recorded);
            range_set::lemma_union_storable(recorded, seqs);
            assert forall|version: u64, seq: int|
                #![trigger has_seq(need, version, seq)]
                has_seq(need, version, seq) && !range_set::covers(
                    (record.partials)(actor_id, version),
                    seq,
                ) implies exists|i: int|
                0 <= i < out.len() && has_seq(#[trigger] out[i], version, seq) by {
                assert(range_set::covers(left, seq));
                assert(left.len() > 0);
                assert(has_seq(out[0], version, seq));
            }
            assert forall|other: ActorId, version: u64, seq: int| #[trigger]
                range_set::covers((after.partials)(other, version), seq) <==> range_set::covers(
                    (record.partials)(other, version),
                    seq,
                ) || (other == actor_id && has_seq(need, version, seq)) by {
                if other == actor_id && version == of {
                    let all = range_set::union(recorded, seqs);
                    assert((after.partials)(other, version) == all);
                    assert(range_set::covers(all, seq) <==> range_set::covers(recorded, seq)
                        || range_set::covers(seqs, seq));
                }
            }
        },
    }
}

/// Asking for more keeps what was asked for.
proof fn lemma_asked_more(asked: Seq<Asked>, more: Seq<Asked>)
    ensures
        forall|actor_id: ActorId, version: int| #[trigger]
            version_asked(asked + more, actor_id, version) <==> version_asked(
                asked,
                actor_id,
                version,
            ) || version_asked(more, actor_id, version),
        forall|actor_id: ActorId, version: u64, seq: int| #[trigger]
            seq_asked(asked + more, actor_id, version, seq) <==> seq_asked(
                asked,
                actor_id,
                version,
                seq,
            ) || seq_asked(more, actor_id, version, seq),
        forall|actor_id: ActorId, need: message::NeedView| #[trigger]
            all_asked(asked, actor_id, need) ==> all_asked(asked + more, actor_id, need),
{
    let all = asked + more;
    assert forall|actor_id: ActorId, version: int| #[trigger]
        version_asked(all, actor_id, version) <==> version_asked(asked, actor_id, version)
            || version_asked(more, actor_id, version) by {
        if version_asked(all, actor_id, version) {
            let i = choose|i: int|
                0 <= i < all.len() && (#[trigger] all[i]).actor_id == actor_id && has_version(
                    all[i].need,
                    version,
                );
            if i < asked.len() {
                assert(asked[i] == all[i]);
            } else {
                assert(more[i - asked.len()] == all[i]);
            }
        }
        if version_asked(asked, actor_id, version) {
            let i = choose|i: int|
                0 <= i < asked.len() && (#[trigger] asked[i]).actor_id == actor_id && has_version(
                    asked[i].need,
                    version,
                );
            assert(all[i] == asked[i]);
        }
        if version_asked(more, actor_id, version) {
            let i = choose|i: int|
                0 <= i < more.len() && (#[trigger] more[i]).actor_id == actor_id && has_version(
                    more[i].need,
                    version,
                );
            assert(all[asked.len() + i] == more[i]);
        }
    }
    assert forall|actor_id: ActorId, version: u64, seq: int| #[trigger]
        seq_asked(all, actor_id, version, seq) <==> seq_asked(asked, actor_id, version, seq)
            || seq_asked(more, actor_id, version, seq) by {
        if seq_asked(all, actor_id, version, seq) {
            let i = choose|i: int|
                0 <= i < all.len() && (#[trigger] all[i]).actor_id == actor_id && has_seq(
                    all[i].need,
                    version,
                    seq,
                );
            if i < asked.len() {
                assert(asked[i] == all[i]);
            } else {
                assert(more[i - asked.len()] == all[i]);
            }
        }
        if seq_asked(asked, actor_id, version, seq) {
            let i = choose|i: int|
                0 <= i < asked.len() && (#[trigger] asked[i]).actor_id == actor_id && has_seq(
                    asked[i].need,
                    version,
                    seq,
                );
            assert(all[i] == asked[i]);
        }
        if seq_asked(more, actor_id, version, seq) {
            let i = choose|i: int|
                0 <= i < more.len() && (#[trigger] more[i]).actor_id == actor_id && has_seq(
                    more[i].need,
                    version,
                    seq,
                );
            assert(all[asked.len() + i] == more[i]);
        }
    }
}

/// What was recorded and what goes out of a need make up the record after it.
proof fn lemma_record_is(
    record: requests::RecordView,
    asked: Seq<Asked>,
    server: usize,
    actor_id: ActorId,
    need: message::NeedView,
)
    requires
        record.wf(),
        record_is(record, asked),
        requests::need_valid(need),
    ensures
        record_is(
            record.after(actor_id, need),
            asked + requests_for(
                server,
                actor_id,
                requester::request_for(record, actor_id, need),
            ),
        ),
{
    let out = requester::request_for(record, actor_id, need);
    let more = requests_for(server, actor_id, out);
    let after = record.after(actor_id, need);
    lemma_goes_out(record, actor_id, need);
    lemma_asked_more(asked, more);
    assert forall|other: ActorId, version: int| #[trigger]
        range_set::covers((after.full)(other), version) <==> version_asked(
            asked + more,
            other,
            version,
        ) by {
        if other == actor_id && has_version(need, version) && !range_set::covers(
            (record.full)(other),
            version,
        ) {
            let i = choose|i: int| 0 <= i < out.len() && has_version(#[trigger] out[i], version);
            assert(more[i].need == out[i]);
            assert(version_asked(more, other, version));
        }
        if version_asked(more, other, version) {
            let i = choose|i: int|
                0 <= i < more.len() && (#[trigger] more[i]).actor_id == other && has_version(
                    more[i].need,
                    version,
                );
            assert(is_part(out[i], need));
            assert(has_version(out[i], version));
        }
    }
    assert forall|other: ActorId, version: u64, seq: int| #[trigger]
        range_set::covers((after.partials)(other, version), seq) <==> seq_asked(
            asked + more,
            other,
            version,
            seq,
        ) by {
        if other == actor_id && has_seq(need, version, seq) && !range_set::covers(
            (record.partials)(other, version),
            seq,
        ) {
            let i = choose|i: int|
                0 <= i < out.len() && has_seq(#[trigger] out[i], version, seq);
            assert(more[i].need == out[i]);
            assert(seq_asked(more, other, version, seq));
        }
        if seq_asked(more, other, version, seq) {
            let i = choose|i: int|
                0 <= i < more.len() && (#[trigger] more[i]).actor_id == other && has_seq(
                    more[i].need,
                    version,
                    seq,
                );
            assert(is_part(out[i], need));
            assert(has_seq(out[i], version, seq));
        }
    }
}

/// What goes out of a need has nothing in common with what went out before.
proof fn lemma_apart(
    record: requests::RecordView,
    asked: Seq<Asked>,
    server: usize,
    actor_id: ActorId,
    need: message::NeedView,
)
    requires
        record.wf(),
        record_is(record, asked),
        all_apart(asked),
        requests::need_valid(need),
    ensures
        all_apart(
            asked + requests_for(
                server,
                actor_id,
                requester::request_for(record, actor_id, need),
            ),
        ),
{
    let out = requester::request_for(record, actor_id, need);
    let more = requests_for(server, actor_id, out);
    let all = asked + more;
    lemma_goes_out(record, actor_id, need);
    assert forall|i: int, j: int| 0 <= i < j < all.len() implies apart(
        #[trigger] all[i],
        #[trigger] all[j],
    ) by {
        if j < asked.len() {
            assert(apart(asked[i], asked[j]));
        } else if all[i].actor_id == all[j].actor_id {
            let k = j - asked.len();
            assert(all[j].need == out[k]);
            if i < asked.len() {
                assert(all[i] == asked[i]);
                assert forall|version: int|
                    !(#[trigger] has_version(all[i].need, version) && has_version(
                        all[j].need,
                        version,
                    )) by {
                    if has_version(asked[i].need, version) && has_version(out[k], version) {
                        assert(version_asked(asked, actor_id, version));
                        assert(range_set::covers((record.full)(actor_id), version));
                    }
                }
                assert forall|version: u64, seq: int|
                    !(#[trigger] has_seq(all[i].need, version, seq) && has_seq(
                        all[j].need,
                        version,
                        seq,
                    )) by {
                    if has_seq(asked[i].need, version, seq) && has_seq(out[k], version, seq) {
                        assert(seq_asked(asked, actor_id, version, seq));
                        assert(range_set::covers((record.partials)(actor_id, version), seq));
                    }
                }
            } else {
                let h = i - asked.len();
                assert(all[i].need == out[h]);
                assert forall|version: int|
                    !(#[trigger] has_version(all[i].need, version) && has_version(
                        all[j].need,
                        version,
                    )) by {
                    assert(!(has_version(out[h], version) && has_version(out[k], version)));
                }
                assert forall|version: u64, seq: int|
                    !(#[trigger] has_seq(all[i].need, version, seq) && has_seq(
                        all[j].need,
                        version,
                        seq,
                    )) by {
                    assert(!(has_seq(out[h], version, seq) && has_seq(out[k], version, seq)));
                }
            }
        }
    }
}

/// Taking the first need of the first queue and asking for what goes out of it keeps
/// what holds all along.
proof fn lemma_pop(
    queues: Seq<requester::QueueView>,
    live: Seq<requester::QueueView>,
    given_up: Seq<requester::QueueView>,
    record: requests::RecordView,
    asked: Seq<Asked>,
)
    requires
        accounted(queues, live, given_up, record, asked),
        live.len() > 0,
        live[0].needs.len() > 0,
    ensures
        ({
            let queue = live[0];
            let (actor_id, need) = queue.needs[0];
            let rest = requester::QueueView {
                server: queue.server,
                needs: queue.needs.drop_first(),
            };
            accounted(
                queues,
                live.update(0, rest),
                given_up,
                record.after(actor_id, need),
                asked + requests_for(
                    queue.server,
                    actor_id,
                    requester::request_for(record, actor_id, need),
                ),
            )
        }),
{
    let queue = live[0];
    let (actor_id, need) = queue.needs[0];
    let rest = requester::QueueView { server: queue.server, needs: queue.needs.drop_first() };
    let out = requester::request_for(record, actor_id, need);
    let more = requests_for(queue.server, actor_id, out);
    let all = asked + more;
    let after = record.after(actor_id, need);
    let left = live.update(0, rest);
    assert(requester::queue_valid(live[0]));
    assert(requests::need_valid(queue.needs[0].1));
    requests::lemma_record_wf(record, actor_id, need);
    lemma_record_is(record, asked, queue.server, actor_id, need);
    lemma_apart(record, asked, queue.server, actor_id, need);
    lemma_goes_out(record, actor_id, need);
    lemma_asked_more(asked, more);
    assert(queue_stems_from(queues, live[0]));
    assert(still_needed(queues, queue.server, queue.needs[0]));
    assert forall|i: int| 0 <= i < all.len() implies names_once((#[trigger] all[i]).need)
        && stems_from(queues, all[i]) by {
        if i < asked.len() {
            assert(all[i] == asked[i]);
        } else {
            let k = i - asked.len();
            assert(all[i].need == out[k]);
            assert(is_part(all[i].need, need));
        }
    }
    assert forall|i: int| 0 <= i < left.len() implies requester::queue_valid(#[trigger] left[i])
        && queue_stems_from(queues, left[i]) by {
        assert(requester::queue_valid(live[i]) && queue_stems_from(queues, live[i]));
        if i == 0 {
            assert forall|j: int| 0 <= j < rest.needs.len() implies requests::need_valid(
                (#[trigger] rest.needs[j]).1,
            ) && still_needed(queues, rest.server, rest.needs[j]) by {
                assert(rest.needs[j] == queue.needs[j + 1]);
                assert(requests::need_valid(queue.needs[j + 1].1));
            }
        }
    }
    assert forall|server: usize, pair: (ActorId, message::NeedView)| #[trigger]
        still_needed(queues, server, pair) implies still_needed(left, server, pair) || still_needed(
        given_up,
        server,
        pair,
    ) || all_asked(all, pair.0, pair.1) by {
        if still_needed(live, server, pair) {
            let i = choose|i: int|
                0 <= i < live.len() && (#[trigger] live[i]).server == server
                    && live[i].needs.contains(pair);
            if i > 0 {
                assert(left[i] == live[i]);
            } else {
                let j = choose|j: int| 0 <= j < queue.needs.len() && queue.needs[j] == pair;
                if j > 0 {
                    assert(rest.needs[j - 1] == pair);
                    assert(left[0].needs.contains(pair));
                } else {
                    assert forall|version: int| #[trigger] has_version(need, version) implies
                        version_asked(all, actor_id, version) by {
                        assert(range_set::covers((after.full)(actor_id), version));
                    }
                    assert forall|version: u64, seq: int| #[trigger]
                        has_seq(need, version, seq) implies seq_asked(
                        all,
                        actor_id,
                        version,
                        seq,
                    ) by {
                        assert(range_set::covers((after.partials)(actor_id, version), seq));
                    }
                }
            }
        } else if !still_needed(given_up, server, pair) {
            assert(all_asked(asked, pair.0, pair.1));
        }
    }
}

/// The queues that are still asked, in a state in which it is a peer's turn or none's.
spec fn live_queues(state: requester::RequesterView) -> Seq<requester::QueueView> {
    match state.turn {
        Some(queue) => seq![queue] + state.round + state.later,
        None => state.round + state.later,
    }
}

/// A turn keeps what holds all along.
proof fn lemma_drain(
    queues: Seq<requester::QueueView>,
    given_up: Seq<requester::QueueView>,
    asked: Seq<Asked>,
    state: requester::RequesterView,
    queue: requester::QueueView,
    drained: nat,
)
    requires
        accounted(
            queues,
            seq![queue] + state.round + state.later,
            given_up,
            state.record,
            asked,
        ),
    ensures
        ({
            let (next, step) = state.drain(queue, drained);
            &&& accounted(
                queues,
                live_queues(next),
                given_up,
                next.record,
                asked + asked_in(step),
            )
            &&& written_in(step) + next.send_buf == state.send_buf
            &&& next.turn is Some
            &&& next.phase is Encoding || next.send_buf.len() == 0
            &&& next.phase !is Done
            &&& step is Encode <==> next.phase is Encoding
            &&& step !is Finish && step !is Done
        }),
    decreases queue.needs.len(),
{
    let live = seq![queue] + state.round + state.later;
    let (next, step) = state.drain(queue, drained);
    if drained < requester::NEEDS_PER_TURN && queue.needs.len() > 0 {
        let (actor_id, need) = queue.needs[0];
        let rest = requester::QueueView { server: queue.server, needs: queue.needs.drop_first() };
        let needs = requester::request_for(state.record, actor_id, need);
        let noted = requester::RequesterView {
            record: state.record.after(actor_id, need),
            ..state
        };
        assert(live[0] == queue);
        lemma_pop(queues, live, given_up, state.record, asked);
        assert(live.update(0, rest) =~= seq![rest] + state.round + state.later);
        let more = requests_for(queue.server, actor_id, needs);
        if needs.len() == 0 {
            assert(asked + more =~= asked);
            lemma_drain(queues, given_up, asked, noted, rest, drained + 1);
        } else {
            assert(asked_in(step) =~= more);
            assert(written_in(step) + next.send_buf =~= state.send_buf);
        }
    } else {
        assert(asked + asked_in(step) =~= asked);
        assert(written_in(step) + next.send_buf =~= state.send_buf);
    }
}

/// Going on with the next peer keeps what holds all along.
proof fn lemma_next_turn(
    queues: Seq<requester::QueueView>,
    given_up: Seq<requester::QueueView>,
    asked: Seq<Asked>,
    state: requester::RequesterView,
)
    requires
        accounted(queues, state.round + state.later, given_up, state.record, asked),
    ensures
        ({
            let (next, step) = state.next_turn();
            &&& accounted(
                queues,
                live_queues(next),
                given_up,
                next.record,
                asked + asked_in(step),
            )
            &&& written_in(step) + next.send_buf == state.send_buf
            &&& next.turn is Some <==> next.phase !is Done
            &&& next.phase is Done ==> live_queues(next).len() == 0
            &&& state.send_buf.len() == 0 ==> next.send_buf.len() == 0
        }),
    decreases state.later.len(), state.round.len(),
{
    let live = state.round + state.later;
    let (next, step) = state.next_turn();
    if state.round.len() > 0 {
        let queue = state.round[0];
        let rest = requester::RequesterView { round: state.round.drop_first(), ..state };
        if queue.needs.len() == 0 {
            let fewer = rest.round + rest.later;
            assert forall|i: int| 0 <= i < live.len() && (#[trigger] live[i]).needs.len()
                > 0 implies fewer.contains(live[i]) || given_up.contains(live[i]) by {
                assert(live[0] == queue);
                assert(fewer[i - 1] == live[i]);
            }
            assert forall|i: int| 0 <= i < fewer.len() implies live.contains(
                #[trigger] fewer[i],
            ) by {
                assert(live[i + 1] == fewer[i]);
            }
            assert forall|i: int| 0 <= i < given_up.len() implies given_up.contains(
                #[trigger] given_up[i],
            ) by {}
            lemma_other_queues(queues, live, given_up, fewer, given_up, state.record, asked);
            lemma_next_turn(queues, given_up, asked, rest);
        } else {
            assert(live =~= seq![queue] + rest.round + rest.later);
            lemma_drain(queues, given_up, asked, rest, queue, 0);
            if state.send_buf.len() == 0 {
                assert(written_in(step).len() + next.send_buf.len() == 0) by {
                    assert((written_in(step) + next.send_buf).len() == 0);
                }
            }
        }
    } else if state.later.len() > 0 {
        let turned = requester::RequesterView { round: state.later, later: Seq::empty(), ..state };
        assert(live =~= turned.round + turned.later);
        lemma_next_turn(queues, given_up, asked, turned);
    } else {
        assert(live_queues(next) =~= live);
        assert(asked + asked_in(step) =~= asked);
        assert(written_in(step) + next.send_buf =~= state.send_buf);
    }
}

/// Whether no event is a request that could not be encoded or framed.
pub open spec fn all_framed(events: Seq<RequestEvent>) -> bool {
    forall|i: int|
        0 <= i < events.len() && (#[trigger] events[i]) is Encoded ==> is_framed(events[i])
}

/// What holds of a run.
spec fn run_accounted(
    queues: Seq<requester::QueueView>,
    events: Seq<RequestEvent>,
    now: Run,
) -> bool {
    &&& accounted(queues, live_queues(now.state), now.given_up, now.state.record, now.asked)
    &&& now.state.turn is Some <==> now.state.phase !is Done
    &&& now.state.phase is Finishing ==> now.state.turn->0.needs.len() == 0
    &&& now.state.phase is Done ==> live_queues(now.state).len() == 0
    &&& all_bytes(now.written) + now.state.send_buf == frame::frames(all_messages(now.framed))
    &&& all_framed(events) ==> now.state.phase is Encoding || now.state.send_buf.len() == 0
}

/// Leaving the peer whose turn it is, given up or done, keeps what holds all along.
proof fn lemma_leave(
    queues: Seq<requester::QueueView>,
    given_up: Seq<requester::QueueView>,
    more_given_up: Seq<requester::QueueView>,
    asked: Seq<Asked>,
    state: requester::RequesterView,
    later: Seq<requester::QueueView>,
)
    requires
        state.turn is Some,
        accounted(queues, live_queues(state), given_up, state.record, asked),
        ({
            let queue = state.turn->0;
            ||| later == state.later && more_given_up == given_up.push(queue)
            ||| later == state.later && more_given_up == given_up && queue.needs.len() == 0
            ||| later == state.later.push(queue) && more_given_up == given_up
        }),
    ensures
        accounted(queues, state.round + later, more_given_up, state.record, asked),
{
    let queue = state.turn->0;
    let live = live_queues(state);
    let left = state.round + later;
    let n = state.round.len() as int;
    assert forall|i: int| 0 <= i < live.len() && (#[trigger] live[i]).needs.len() > 0 implies
        left.contains(live[i]) || more_given_up.contains(live[i]) by {
        if i == 0 {
            if more_given_up.len() > given_up.len() {
                assert(more_given_up[given_up.len() as int] == queue);
            } else if later.len() > state.later.len() {
                assert(left[n + state.later.len()] == queue);
            }
        } else {
            assert(left[i - 1] == live[i]);
        }
    }
    assert forall|i: int| 0 <= i < left.len() implies live.contains(#[trigger] left[i]) by {
        if i < n + state.later.len() {
            assert(live[i + 1] == left[i]);
        } else {
            assert(live[0] == left[i]);
        }
    }
    assert forall|i: int| 0 <= i < given_up.len() implies more_given_up.contains(
        #[trigger] given_up[i],
    ) by {
        assert(more_given_up[i] == given_up[i]);
    }
    lemma_other_queues(queues, live, given_up, left, more_given_up, state.record, asked);
}

/// It holds all along.
proof fn lemma_run(queues: Seq<requester::QueueView>, events: Seq<RequestEvent>)
    requires
        requester::queues_valid(queues),
        possible(queues, events),
    ensures
        run_accounted(queues, events, run(queues, events)),
    decreases events.len(),
{
    let now = run(queues, events);
    if events.len() == 0 {
        let first = requester::RequesterView::begin(queues);
        let none = Seq::<Asked>::empty();
        let nobody = Seq::<requester::QueueView>::empty();
        assert(first.round + first.later =~= queues);
        assert(accounted(queues, queues, nobody, first.record, none)) by {
            assert forall|i: int| 0 <= i < queues.len() implies queue_stems_from(
                queues,
                #[trigger] queues[i],
            ) by {
                assert forall|j: int| 0 <= j < queues[i].needs.len() implies still_needed(
                    queues,
                    queues[i].server,
                    #[trigger] queues[i].needs[j],
                ) by {
                    assert(queues[i].needs.contains(queues[i].needs[j]));
                }
            }
        }
        lemma_next_turn(queues, nobody, none, first);
        let (state, step) = first.next_turn();
        assert(none + asked_in(step) =~= asked_in(step));
        lemma_writes(Seq::empty(), step);
        assert(Seq::<(usize, Seq<u8>)>::empty() + writes_in(step) =~= writes_in(step));
        assert(all_bytes(Seq::empty()) =~= Seq::empty());
        assert(all_messages(now.framed) =~= Seq::empty());
        assert(all_bytes(now.written) + state.send_buf =~= Seq::empty());
        lemma_no_finish(first);
    } else {
        let early = events.drop_last();
        let before = run(queues, early);
        let state = before.state;
        let event = events.last();
        lemma_run(queues, early);
        if all_framed(events) {
            assert forall|i: int|
                0 <= i < early.len() && (#[trigger] early[i]) is Encoded implies is_framed(
                early[i],
            ) by {
                assert(events[i] == early[i]);
            }
            assert(events[events.len() - 1] == event);
        }
        let (next, step) = after_event(state, event);
        let queue = state.turn->0;
        lemma_writes(before.written, step);
        assert(is_framed(event) || now.framed == before.framed);
        match event {
            RequestEvent::Encoded(encoded) => {
                if is_framed(event) {
                    let bytes = encoded->0;
                    let framed = requester::RequesterView {
                        turn: None,
                        send_buf: state.send_buf + frame::frame(bytes),
                        ..state
                    };
                    lemma_drain(queues, before.given_up, before.asked, framed, queue, state.drained);
                    let messages = all_messages(now.framed);
                    assert(messages.drop_last() =~= all_messages(before.framed));
                    assert(messages.last() == bytes);
                    assert(all_bytes(now.written) + next.send_buf =~= all_bytes(before.written) + (
                    written_in(step) + next.send_buf));
                    assert(all_bytes(before.written) + framed.send_buf =~= (all_bytes(
                        before.written,
                    ) + state.send_buf) + frame::frame(bytes));
                    lemma_drain_phase(framed, queue, state.drained);
                } else {
                    lemma_leave(
                        queues,
                        before.given_up,
                        now.given_up,
                        before.asked,
                        state,
                        state.later,
                    );
                    lemma_next_turn(queues, now.given_up, before.asked, state);
                    lemma_no_finish(state);
                    assert(all_bytes(now.written) + next.send_buf =~= all_bytes(before.written) + (
                    written_in(step) + next.send_buf));
                }
            },
            RequestEvent::Written(written) => {
                if written {
                    lemma_after_turn(queues, before.given_up, before.asked, state);
                } else {
                    lemma_leave(
                        queues,
                        before.given_up,
                        now.given_up,
                        before.asked,
                        state,
                        state.later,
                    );
                    lemma_next_turn(queues, now.given_up, before.asked, state);
                    lemma_no_finish(state);
                }
                assert(all_bytes(now.written) + next.send_buf =~= all_bytes(before.written) + (
                written_in(step) + next.send_buf));
            },
            RequestEvent::Yielded => {
                lemma_after_turn(queues, before.given_up, before.asked, state);
                assert(all_bytes(now.written) + next.send_buf =~= all_bytes(before.written) + (
                written_in(step) + next.send_buf));
            },
            RequestEvent::Finished => {
                lemma_leave(
                    queues,
                    before.given_up,
                    before.given_up,
                    before.asked,
                    state,
                    state.later,
                );
                lemma_next_turn(queues, before.given_up, before.asked, state);
                lemma_no_finish(state);
                assert(all_bytes(now.written) + next.send_buf =~= all_bytes(before.written) + (
                written_in(step) + next.send_buf));
            },
        }
    }
}

proof fn lemma_writes(writes: Seq<(usize, Seq<u8>)>, step: requester::StepView)
    ensures
        all_bytes(writes + writes_in(step)) == all_bytes(writes) + written_in(step),
{
    let all = writes + writes_in(step);
    if step is Write {
        assert(all.drop_last() =~= writes);
    } else {
        assert(all =~= writes);
        assert(all_bytes(writes) + written_in(step) =~= all_bytes(writes));
    }
}

proof fn lemma_drain_phase(
    state: requester::RequesterView,
    queue: requester::QueueView,
    drained: nat,
)
    ensures
        state.drain(queue, drained).0.phase !is Finishing,
    decreases queue.needs.len(),
{
    if drained < requester::NEEDS_PER_TURN && queue.needs.len() > 0 {
        let (actor_id, need) = queue.needs[0];
        let rest = requester::QueueView { server: queue.server, needs: queue.needs.drop_first() };
        let noted = requester::RequesterView {
            record: state.record.after(actor_id, need),
            ..state
        };
        lemma_drain_phase(noted, rest, drained + 1);
    }
}

proof fn lemma_no_finish(state: requester::RequesterView)
    ensures
        state.next_turn().0.phase !is Finishing,
    decreases state.later.len(), state.round.len(),
{
    if state.round.len() > 0 {
        let queue = state.round[0];
        let rest = requester::RequesterView { round: state.round.drop_first(), ..state };
        if queue.needs.len() == 0 {
            lemma_no_finish(rest);
        } else {
            lemma_drain_phase(rest, queue, 0);
        }
    } else if state.later.len() > 0 {
        lemma_no_finish(
            requester::RequesterView { round: state.later, later: Seq::empty(), ..state },
        );
    }
}

/// Ending a turn keeps what holds all along.
proof fn lemma_after_turn(
    queues: Seq<requester::QueueView>,
    given_up: Seq<requester::QueueView>,
    asked: Seq<Asked>,
    state: requester::RequesterView,
)
    requires
        state.turn is Some,
        accounted(queues, live_queues(state), given_up, state.record, asked),
    ensures
        ({
            let (next, step) = state.after_turn();
            &&& accounted(
                queues,
                live_queues(next),
                given_up,
                next.record,
                asked + asked_in(step),
            )
            &&& written_in(step) + next.send_buf == state.send_buf
            &&& next.turn is Some <==> next.phase !is Done
            &&& next.phase is Finishing ==> next.turn->0.needs.len() == 0
            &&& next.phase is Done ==> live_queues(next).len() == 0
            &&& state.send_buf.len() == 0 ==> next.send_buf.len() == 0
        }),
{
    let queue = state.turn->0;
    let (next, step) = state.after_turn();
    if queue.needs.len() == 0 {
        assert(live_queues(next) =~= live_queues(state));
        assert(asked + asked_in(step) =~= asked);
        assert(written_in(step) + next.send_buf =~= state.send_buf);
    } else {
        let later = state.later.push(queue);
        let waiting = requester::RequesterView { turn: None, later, ..state };
        lemma_leave(queues, given_up, given_up, asked, state, later);
        lemma_next_turn(queues, given_up, asked, waiting);
        lemma_no_finish(waiting);
    }
}

/// Nothing is asked for twice, of whichever peers: no version of an actor lies in two
/// ranges of versions that peers were asked for, and no sequence number of a version in
/// two ranges of sequence numbers.
pub proof fn law_nothing_asked_twice(
    queues: Seq<requester::QueueView>,
    events: Seq<RequestEvent>,
)
    requires
        requester::queues_valid(queues),
        possible(queues, events),
    ensures
        all_apart(run(queues, events).asked),
        forall|i: int|
            0 <= i < run(queues, events).asked.len() ==> names_once(
                (#[trigger] run(queues, events).asked[i]).need,
            ),
{
    lemma_run(queues, events);
}

/// A peer is asked only for what a need in its queue asks for.
pub proof fn law_only_needs_are_asked(
    queues: Seq<requester::QueueView>,
    events: Seq<RequestEvent>,
    i: int,
)
    requires
        requester::queues_valid(queues),
        possible(queues, events),
        0 <= i < run(queues, events).asked.len(),
    ensures
        stems_from(queues, run(queues, events).asked[i]),
{
    lemma_run(queues, events);
}

/// Once asking is done, all of every need of every queue was asked for, but for needs that
/// were still in the queue of a peer when it was given up. What was asked for in a request
/// that could not be encoded or written counts as asked for.
pub proof fn law_every_need_is_asked(
    queues: Seq<requester::QueueView>,
    events: Seq<RequestEvent>,
    k: int,
    i: int,
)
    requires
        requester::queues_valid(queues),
        possible(queues, events),
        run(queues, events).state.phase is Done,
        0 <= k < queues.len(),
        0 <= i < queues[k].needs.len(),
    ensures
        all_asked(run(queues, events).asked, queues[k].needs[i].0, queues[k].needs[i].1)
            || still_needed(run(queues, events).given_up, queues[k].server, queues[k].needs[i]),
{
    lemma_run(queues, events);
    let pair = queues[k].needs[i];
    assert(queues[k].needs.contains(pair));
    assert(still_needed(queues, queues[k].server, pair));
    let now = run(queues, events);
    if still_needed(live_queues(now.state), queues[k].server, pair) {
        assert(live_queues(now.state).len() > 0);
    }
}

/// What is written are the frames of the requests in the order in which they were
/// encoded. Nothing waits at the end of a turn, unless a request could not be encoded: the
/// frames that waited then go out to the next peer that has its turn.
pub proof fn law_requests_are_written(
    queues: Seq<requester::QueueView>,
    events: Seq<RequestEvent>,
)
    requires
        requester::queues_valid(queues),
        possible(queues, events),
    ensures
        all_bytes(run(queues, events).written) + run(queues, events).state.send_buf
            == frame::frames(all_messages(run(queues, events).framed)),
        all_framed(events) && run(queues, events).state.phase !is Encoding ==> all_bytes(
            run(queues, events).written,
        ) == frame::frames(all_messages(run(queues, events).framed)),
{
    lemma_run(queues, events);
    let now = run(queues, events);
    if now.state.send_buf.len() == 0 {
        assert(all_bytes(now.written) + now.state.send_buf =~= all_bytes(now.written));
    }
}

/// The frames that wait for a peer.
pub open spec fn waiting_for(state: requester::RequesterView, server: usize) -> Seq<u8> {
    if state.phase is Encoding && state.turn->0.server == server {
        state.send_buf
    } else {
        Seq::empty()
    }
}

/// What peers are asked for in some requests.
pub open spec fn asked_of(requests: Seq<Request>) -> Seq<Asked>
    decreases requests.len(),
{
    if requests.len() == 0 {
        Seq::empty()
    } else {
        let last = requests.last();
        asked_of(requests.drop_last()) + Seq::new(
            last.needs.len(),
            |i: int| Asked { server: last.server, actor_id: last.actor_id, need: last.needs[i] },
        )
    }
}

proof fn lemma_drain_server(
    state: requester::RequesterView,
    queue: requester::QueueView,
    drained: nat,
)
    ensures
        ({
            let (next, step) = state.drain(queue, drained);
            &&& next.turn matches Some(left) && left.server == queue.server
            &&& match step {
                requester::StepView::Encode { server, .. } => server == queue.server
                    && next.phase is Encoding && next.send_buf == state.send_buf,
                requester::StepView::Write { server, bytes } => server == queue.server && bytes
                    == state.send_buf && bytes.len() > 0 && next.phase is Writing,
                requester::StepView::Yield { .. } => state.send_buf.len() == 0
                    && next.phase is Yielding && next.send_buf == state.send_buf,
                _ => false,
            }
        }),
    decreases queue.needs.len(),
{
    if drained < requester::NEEDS_PER_TURN && queue.needs.len() > 0 {
        let (actor_id, need) = queue.needs[0];
        let rest = requester::QueueView { server: queue.server, needs: queue.needs.drop_first() };
        let noted = requester::RequesterView {
            record: state.record.after(actor_id, need),
            ..state
        };
        lemma_drain_server(noted, rest, drained + 1);
    }
}

proof fn lemma_next_server(state: requester::RequesterView)
    requires
        state.send_buf.len() == 0,
    ensures
        ({
            let (next, step) = state.next_turn();
            &&& step !is Write
            &&& next.send_buf.len() == 0
            &&& step is Encode <==> next.phase is Encoding
            &&& step matches requester::StepView::Encode { server, .. } ==> server
                == next.turn->0.server
        }),
    decreases state.later.len(), state.round.len(),
{
    if state.round.len() > 0 {
        let queue = state.round[0];
        let rest = requester::RequesterView { round: state.round.drop_first(), ..state };
        if queue.needs.len() == 0 {
            lemma_next_server(rest);
        } else {
            lemma_drain_server(rest, queue, 0);
        }
    } else if state.later.len() > 0 {
        lemma_next_server(
            requester::RequesterView { round: state.later, later: Seq::empty(), ..state },
        );
    }
}

/// What holds of a run in which all requests are framed.
spec fn peers_accounted(now: Run, server: usize) -> bool {
    &&& bytes_to(now.written, server) + waiting_for(now.state, server) == frame::frames(
        messages_to(now.framed, server),
    )
    &&& now.asked == asked_of(now.requests)
    &&& now.requests.len() == now.framed.len() + (if now.state.phase is Encoding {
        1int
    } else {
        0
    })
    &&& now.state.phase is Encoding ==> now.requests.last().server == now.state.turn->0.server
    &&& forall|i: int|
        0 <= i < now.framed.len() ==> (#[trigger] now.framed[i]).0 == now.requests[i].server
}

proof fn lemma_asked_of(requests: Seq<Request>, step: requester::StepView)
    ensures
        asked_of(requests + requests_in(step)) == asked_of(requests) + asked_in(step),
{
    let all = requests + requests_in(step);
    if step is Encode {
        assert(all.drop_last() =~= requests);
        assert(asked_of(all) =~= asked_of(requests) + asked_in(step));
    } else {
        assert(all =~= requests);
        assert(asked_of(requests) + asked_in(step) =~= asked_of(requests));
    }
}

proof fn lemma_peers(
    queues: Seq<requester::QueueView>,
    events: Seq<RequestEvent>,
    server: usize,
)
    requires
        requester::queues_valid(queues),
        possible(queues, events),
        all_framed(events),
    ensures
        peers_accounted(run(queues, events), server),
    decreases events.len(),
{
    let now = run(queues, events);
    if events.len() == 0 {
        let first = requester::RequesterView::begin(queues);
        let (state, step) = first.next_turn();
        lemma_next_server(first);
        lemma_asked_of(Seq::empty(), step);
        assert(Seq::<Request>::empty() + requests_in(step) =~= requests_in(step));
        assert(asked_of(Seq::empty()) + asked_in(step) =~= asked_in(step));
        assert(now.written =~= Seq::empty());
        assert(bytes_to(now.written, server) + waiting_for(now.state, server) =~= Seq::empty());
    } else {
        let early = events.drop_last();
        let before = run(queues, early);
        let state = before.state;
        let event = events.last();
        assert forall|i: int|
            0 <= i < early.len() && (#[trigger] early[i]) is Encoded implies is_framed(
            early[i],
        ) by {
            assert(events[i] == early[i]);
        }
        assert(events[events.len() - 1] == event);
        lemma_run(queues, early);
        lemma_peers(queues, early, server);
        let (next, step) = after_event(state, event);
        let queue = state.turn->0;
        lemma_asked_of(before.requests, step);
        match event {
            RequestEvent::Encoded(encoded) => {
                assert(is_framed(event));
                let bytes = encoded->0;
                let framed = requester::RequesterView {
                    turn: None,
                    send_buf: state.send_buf + frame::frame(bytes),
                    ..state
                };
                assert(framed.send_buf.len() > 0);
                lemma_drain_server(framed, queue, state.drained);
                assert(now.framed.drop_last() =~= before.framed);
                let told = messages_to(now.framed, server);
                if queue.server == server {
                    assert(told.drop_last() =~= messages_to(before.framed, server));
                    assert(bytes_to(before.written, server) + framed.send_buf =~= (bytes_to(
                        before.written,
                        server,
                    ) + state.send_buf) + frame::frame(bytes));
                }
                if step is Write {
                    assert(now.written.drop_last() =~= before.written);
                    assert(bytes_to(now.written, server) + waiting_for(next, server) =~= bytes_to(
                        now.written,
                        server,
                    ));
                    if queue.server != server {
                        assert(bytes_to(before.written, server) + waiting_for(state, server)
                            =~= bytes_to(before.written, server));
                    }
                } else {
                    assert(now.written =~= before.written);
                }
                assert forall|i: int| 0 <= i < now.framed.len() implies (
                #[trigger] now.framed[i]).0 == now.requests[i].server by {
                    if i < before.framed.len() {
                        assert(before.framed[i] == now.framed[i]);
                        assert(before.requests[i] == now.requests[i]);
                    } else {
                        assert(before.requests.last() == now.requests[i]);
                    }
                }
            },
            _ => {
                assert(state.send_buf.len() == 0);
                if event is Finished || event == RequestEvent::Written(false) {
                    lemma_next_server(state);
                } else if queue.needs.len() > 0 {
                    lemma_next_server(
                        requester::RequesterView {
                            turn: None,
                            later: state.later.push(queue),
                            ..state
                        },
                    );
                }
                assert(now.written =~= before.written);
                assert(waiting_for(next, server) =~= waiting_for(state, server));
                assert forall|i: int| 0 <= i < now.framed.len() implies (
                #[trigger] now.framed[i]).0 == now.requests[i].server by {
                    assert(before.requests[i] == now.requests[i]);
                }
            },
        }
    }
}

/// If all requests could be framed, each reaches the peer that it is for: what is written
/// to a peer are the frames of the messages of exactly the requests that it was asked, in
/// their order. The messages are those of the requests, one for one; the last request may
/// still have to be encoded, and frames wait only while it is the peer's turn.
pub proof fn law_requests_reach_their_peer(
    queues: Seq<requester::QueueView>,
    events: Seq<RequestEvent>,
    server: usize,
)
    requires
        requester::queues_valid(queues),
        possible(queues, events),
        all_framed(events),
    ensures
        bytes_to(run(queues, events).written, server) + waiting_for(
            run(queues, events).state,
            server,
        ) == frame::frames(messages_to(run(queues, events).framed, server)),
        run(queues, events).asked == asked_of(run(queues, events).requests),
        run(queues, events).requests.len() == run(queues, events).framed.len() + (if run(
            queues,
            events,
        ).state.phase is Encoding {
            1int
        } else {
            0
        }),
        forall|i: int|
            0 <= i < run(queues, events).framed.len() ==> (#[trigger] run(
                queues,
                events,
            ).framed[i]).0 == run(queues, events).requests[i].server,
{
    lemma_peers(queues, events, server);
}

} // verus!
