//! The turns in which peers are asked for what they can give.
//!
//! Each peer has a queue of needs. The peers take turns; in its turn a peer is
//! asked for at most ten of its needs, in one write, and a peer whose queue is
//! empty is done. What one peer was asked for is on record, and no other is asked for it
//! again. What only the caller can do (encoding a message, writing to a
//! stream) is handed out as a `RequestStep`, and the caller reports back.

use std::collections::VecDeque;

use bytes::BytesMut;
use vstd::prelude::*;

use crate::frame::{self, buffer_len, encode_sync_msg, new_buffer, take_all};
use crate::message::{self, ActorId, SyncNeed};
use crate::range_set;
use crate::requests::{self, Requested};
use crate::span::Span;

verus! {

/// How many needs a peer is asked for in one turn.
pub const NEEDS_PER_TURN: usize = 10;

/// The needs that one peer is still to be asked for. `server` says which peer it
/// is; the caller chooses the numbers.
pub struct ServerQueue {
    pub server: usize,
    pub needs: VecDeque<(ActorId, SyncNeed)>,
}

/// What the caller does next.
pub enum RequestStep {
    /// Encode the request for these needs of an actor; then `on_encoded`.
    Encode { server: usize, actor_id: ActorId, needs: Vec<SyncNeed> },
    /// Write these bytes to the peer; then `on_written`.
    Write { server: usize, bytes: Vec<u8> },
    /// There was nothing to write: let others run; then `on_yielded`.
    Yield { server: usize },
    /// The peer was asked for everything: finish its stream; then `on_finished`.
    Finish { server: usize },
    /// No peer is left.
    Done,
}

/// What the caller was told to do.
#[derive(Clone, Copy, Debug, PartialEq, Eq, Structural)]
pub enum RequestPhase {
    Encoding,
    Writing,
    Yielding,
    Finishing,
    Done,
}

/// `ServerQueue` with sequences.
#[verifier::ext_equal]
pub struct QueueView {
    pub server: usize,
    pub needs: Seq<(ActorId, message::NeedView)>,
}

/// `RequestStep` with sequences.
#[verifier::ext_equal]
pub enum StepView {
    Encode { server: usize, actor_id: ActorId, needs: Seq<message::NeedView> },
    Write { server: usize, bytes: Seq<u8> },
    Yield { server: usize },
    Finish { server: usize },
    Done,
}

impl View for RequestStep {
    type V = StepView;

    open spec fn view(&self) -> StepView {
        match self {
            RequestStep::Encode { server, actor_id, needs } => StepView::Encode {
                server: *server,
                actor_id: *actor_id,
                needs: message::needs_view(needs@),
            },
            RequestStep::Write { server, bytes } => StepView::Write {
                server: *server,
                bytes: bytes@,
            },
            RequestStep::Yield { server } => StepView::Yield { server: *server },
            RequestStep::Finish { server } => StepView::Finish { server: *server },
            RequestStep::Done => StepView::Done,
        }
    }
}

/// The views of the needs in a queue.
pub open spec fn pairs_view(needs: Seq<(ActorId, SyncNeed)>) -> Seq<(ActorId, message::NeedView)> {
    Seq::new(needs.len(), |i: int| (needs[i].0, needs[i].1@))
}

impl View for ServerQueue {
    type V = QueueView;

    open spec fn view(&self) -> QueueView {
        QueueView { server: self.server, needs: pairs_view(self.needs@) }
    }
}

/// The views of some queues.
pub open spec fn queues_view(queues: Seq<ServerQueue>) -> Seq<QueueView> {
    Seq::new(queues.len(), |i: int| queues[i]@)
}

/// Whether the ranges of all needs of a queue hold something.
pub open spec fn queue_valid(queue: QueueView) -> bool {
    forall|i: int| 0 <= i < queue.needs.len() ==> requests::need_valid(#[trigger] queue.needs[i].1)
}

/// Whether that holds of all queues.
pub open spec fn queues_valid(queues: Seq<QueueView>) -> bool {
    forall|i: int| 0 <= i < queues.len() ==> queue_valid(#[trigger] queues[i])
}

/// What a peer is asked for on account of one need, if `record` says what peers were
/// asked for before.
pub open spec fn request_for(
    record: requests::RecordView,
    actor_id: ActorId,
    need: message::NeedView,
) -> Seq<message::NeedView> {
    requests::outstanding(need, record.of(actor_id, need))
}

/// The state of asking.
#[verifier::ext_equal]
pub struct RequesterView {
    /// What peers were asked for.
    pub record: requests::RecordView,
    /// The peer whose turn it is.
    pub turn: Option<QueueView>,
    /// How many needs it was asked for in this turn.
    pub drained: nat,
    /// The peers whose turn comes later in this round.
    pub round: Seq<QueueView>,
    /// The peers that take part in the next round.
    pub later: Seq<QueueView>,
    /// The frames that wait to be written.
    pub send_buf: Seq<u8>,
    /// What the caller was told to do.
    pub phase: RequestPhase,
}

impl RequesterView {
    /// Goes on with the turn of `queue`, after `drained` needs: takes needs from
    /// the front of the queue up to one that gives something to ask for, or up
    /// to the end of the turn. What no peer was asked for before is asked for, and
    /// goes on record.
    pub open spec fn drain(self, queue: QueueView, drained: nat) -> (RequesterView, StepView)
        decreases queue.needs.len(),
    {
        if drained < NEEDS_PER_TURN && queue.needs.len() > 0 {
            let (actor_id, need) = queue.needs[0];
            let rest = QueueView { server: queue.server, needs: queue.needs.drop_first() };
            let needs = request_for(self.record, actor_id, need);
            let noted = RequesterView { record: self.record.after(actor_id, need), ..self };
            if needs.len() == 0 {
                noted.drain(rest, drained + 1)
            } else {
                (
                    RequesterView {
                        turn: Some(rest),
                        drained: drained + 1,
                        phase: RequestPhase::Encoding,
                        ..noted
                    },
                    StepView::Encode { server: queue.server, actor_id, needs },
                )
            }
        } else if self.send_buf.len() > 0 {
            (
                RequesterView {
                    turn: Some(queue),
                    drained,
                    send_buf: Seq::empty(),
                    phase: RequestPhase::Writing,
                    ..self
                },
                StepView::Write { server: queue.server, bytes: self.send_buf },
            )
        } else {
            (
                RequesterView {
                    turn: Some(queue),
                    drained,
                    phase: RequestPhase::Yielding,
                    ..self
                },
                StepView::Yield { server: queue.server },
            )
        }
    }

    /// Goes on with the next peer, in this round or the next one. A peer without
    /// needs is passed over.
    pub open spec fn next_turn(self) -> (RequesterView, StepView)
        decreases self.later.len(), self.round.len(),
    {
        if self.round.len() > 0 {
            let queue = self.round[0];
            let rest = RequesterView { round: self.round.drop_first(), ..self };
            if queue.needs.len() == 0 {
                rest.next_turn()
            } else {
                rest.drain(queue, 0)
            }
        } else if self.later.len() > 0 {
            RequesterView { round: self.later, later: Seq::empty(), ..self }.next_turn()
        } else {
            (
                RequesterView { turn: None, drained: 0, phase: RequestPhase::Done, ..self },
                StepView::Done,
            )
        }
    }

    /// Goes on after the caller encoded a request: the bytes, or `None` if that
    /// failed. Without a frame the peer is given up; frames that wait stay, and so does
    /// what is on record.
    pub open spec fn after_encoded(self, encoded: Option<Seq<u8>>) -> (RequesterView, StepView) {
        if encoded is Some && encoded->0.len() <= frame::MAX_FRAME_LEN {
            RequesterView {
                turn: None,
                send_buf: self.send_buf + frame::frame(encoded->0),
                ..self
            }.drain(self.turn->0, self.drained)
        } else {
            self.next_turn()
        }
    }

    /// Goes on after the turn's requests are out: a peer without further needs is
    /// finished, another one takes part in the next round.
    pub open spec fn after_turn(self) -> (RequesterView, StepView) {
        if self.turn->0.needs.len() == 0 {
            (
                RequesterView { phase: RequestPhase::Finishing, ..self },
                StepView::Finish { server: self.turn->0.server },
            )
        } else {
            RequesterView { turn: None, later: self.later.push(self.turn->0), ..self }.next_turn()
        }
    }

    /// Goes on after a write. If it failed the peer is given up.
    pub open spec fn after_written(self, written: bool) -> (RequesterView, StepView) {
        if written {
            self.after_turn()
        } else {
            self.next_turn()
        }
    }

    /// How asking the peers of some queues begins.
    pub open spec fn begin(queues: Seq<QueueView>) -> RequesterView {
        RequesterView {
            record: requests::RecordView::empty(),
            turn: None,
            drained: 0,
            round: queues,
            later: Seq::empty(),
            send_buf: Seq::empty(),
            phase: RequestPhase::Done,
        }
    }

    /// What holds of every state that asking can be in.
    pub open spec fn wf(self) -> bool {
        &&& self.record.wf()
        &&& self.turn is Some <==> self.phase !is Done
        &&& self.turn matches Some(queue) ==> queue_valid(queue)
        &&& self.drained <= NEEDS_PER_TURN
        &&& queues_valid(self.round)
        &&& queues_valid(self.later)
        &&& self.send_buf.len() <= frame::MAX_BUFFER_LEN
    }
}

/// Asks peers in turns.
pub struct Requester {
    requested: Requested,
    turn: Option<ServerQueue>,
    drained: usize,
    round: VecDeque<ServerQueue>,
    later: VecDeque<ServerQueue>,
    send_buf: BytesMut,
    phase: RequestPhase,
}

impl View for Requester {
    type V = RequesterView;

    closed spec fn view(&self) -> RequesterView {
        RequesterView {
            record: self.requested@,
            turn: match self.turn {
                Some(queue) => Some(queue@),
                None => None,
            },
            drained: self.drained as nat,
            round: queues_view(self.round@),
            later: queues_view(self.later@),
            send_buf: frame::contents(self.send_buf),
            phase: self.phase,
        }
    }
}

impl Requester {
    /// What holds of every value.
    pub open spec fn wf(self) -> bool {
        self@.wf()
    }

    /// Begins to ask the peers of `servers`, in this order.
    pub fn new(servers: VecDeque<ServerQueue>) -> (started: (Requester, RequestStep))
        requires
            queues_valid(queues_view(servers@)),
        ensures
            started.0.wf(),
            (started.0@, started.1@) == RequesterView::begin(queues_view(servers@)).next_turn(),
    {
        let mut this = Requester {
            requested: Requested::new(),
            turn: None,
            drained: 0,
            round: servers,
            later: VecDeque::new(),
            send_buf: new_buffer(),
            phase: RequestPhase::Done,
        };
        assert(this@ =~= RequesterView::begin(queues_view(servers@)));
        let step = this.next_turn();
        (this, step)
    }

    /// How many bytes wait to be written.
    pub fn buffered(&self) -> (len: usize)
        ensures
            len == self@.send_buf.len(),
    {
        buffer_len(&self.send_buf)
    }

    fn next_turn(&mut self) -> (step: RequestStep)
        requires
            old(self)@.record.wf(),
            queues_valid(old(self)@.round),
            queues_valid(old(self)@.later),
            old(self)@.send_buf.len() <= frame::MAX_BUFFER_LEN,
        ensures
            final(self).wf(),
            (final(self)@, step@) == old(self)@.next_turn(),
    {
        loop
            invariant
                self@.record.wf(),
                queues_valid(self@.round),
                queues_valid(self@.later),
                self@.send_buf.len() <= frame::MAX_BUFFER_LEN,
                self@.next_turn() == old(self)@.next_turn(),
            decreases self@.later.len(), self@.round.len(),
        {
            let ghost before = self@;
            match self.round.pop_front() {
                Some(queue) => {
                    assert(queues_view(self.round@) =~= before.round.drop_first());
                    assert(before.round[0] == queue@);
                    if queue.needs.len() > 0 {
                        return self.drain(queue, 0);
                    }
                },
                None => {
                    if self.later.len() == 0 {
                        self.turn = None;
                        self.drained = 0;
                        self.phase = RequestPhase::Done;
                        return RequestStep::Done;
                    }
                    std::mem::swap(&mut self.round, &mut self.later);
                    assert(queues_view(self.later@) =~= Seq::empty());
                },
            }
        }
    }

    fn drain(&mut self, queue: ServerQueue, drained: usize) -> (step: RequestStep)
        requires
            old(self)@.record.wf(),
            queues_valid(old(self)@.round),
            queues_valid(old(self)@.later),
            old(self)@.send_buf.len() <= frame::MAX_BUFFER_LEN,
            queue_valid(queue@),
            drained <= NEEDS_PER_TURN,
        ensures
            final(self).wf(),
            (final(self)@, step@) == old(self)@.drain(queue@, drained as nat),
    {
        let mut left = queue;
        let mut count: usize = drained;
        while count < NEEDS_PER_TURN && left.needs.len() > 0
            invariant
                self@.record.wf(),
                self@ == (RequesterView { record: self@.record, ..old(self)@ }),
                queues_valid(self@.round),
                queues_valid(self@.later),
                self@.send_buf.len() <= frame::MAX_BUFFER_LEN,
                queue_valid(left@),
                count <= NEEDS_PER_TURN,
                self@.drain(left@, count as nat) == old(self)@.drain(queue@, drained as nat),
            decreases left.needs.len(),
        {
            let ghost before = left@;
            let ghost known = self@;
            if let Some((actor_id, need)) = left.needs.pop_front() {
                count = count + 1;
                assert(before.needs[0] == (actor_id, need@));
                assert(left@.needs =~= before.needs.drop_first());
                let needs = self.requested.outstanding(actor_id, need);
                proof {
                    let need = before.needs[0].1;
                    assert(message::needs_view(needs@) == request_for(known.record, actor_id, need));
                    assert(self@ =~= RequesterView {
                        record: known.record.after(actor_id, need),
                        ..known
                    });
                }
                if needs.len() > 0 {
                    let server = left.server;
                    self.turn = Some(left);
                    self.drained = count;
                    self.phase = RequestPhase::Encoding;
                    return RequestStep::Encode { server, actor_id, needs };
                }
            }
        }
        let server = left.server;
        self.turn = Some(left);
        self.drained = count;
        if buffer_len(&self.send_buf) > 0 {
            self.phase = RequestPhase::Writing;
            let bytes = take_all(&mut self.send_buf);
            RequestStep::Write { server, bytes }
        } else {
            self.phase = RequestPhase::Yielding;
            RequestStep::Yield { server }
        }
    }

    /// Goes on after encoding a request: the bytes, or `None` if that failed.
    pub fn on_encoded(&mut self, encoded: Option<Vec<u8>>) -> (step: RequestStep)
        requires
            old(self).wf(),
            old(self)@.phase is Encoding,
            encoded matches Some(bytes) ==> frame::room_for(old(self)@.send_buf, bytes@),
        ensures
            final(self).wf(),
            (final(self)@, step@) == old(self)@.after_encoded(
                match encoded {
                    Some(bytes) => Some(bytes@),
                    None => None,
                },
            ),
    {
        let framed = match encoded {
            Some(bytes) => encode_sync_msg(bytes, &mut self.send_buf).is_ok(),
            None => false,
        };
        if framed {
            match self.turn.take() {
                Some(queue) => self.drain(queue, self.drained),
                None => RequestStep::Done,
            }
        } else {
            self.next_turn()
        }
    }

    /// Goes on after a write; `written` says whether it succeeded.
    pub fn on_written(&mut self, written: bool) -> (step: RequestStep)
        requires
            old(self).wf(),
            old(self)@.phase is Writing,
        ensures
            final(self).wf(),
            (final(self)@, step@) == old(self)@.after_written(written),
    {
        if written {
            self.end_turn()
        } else {
            self.next_turn()
        }
    }

    /// Goes on after others ran.
    pub fn on_yielded(&mut self) -> (step: RequestStep)
        requires
            old(self).wf(),
            old(self)@.phase is Yielding,
        ensures
            final(self).wf(),
            (final(self)@, step@) == old(self)@.after_turn(),
    {
        self.end_turn()
    }

    /// Goes on after the stream of a peer was finished.
    pub fn on_finished(&mut self) -> (step: RequestStep)
        requires
            old(self).wf(),
            old(self)@.phase is Finishing,
        ensures
            final(self).wf(),
            (final(self)@, step@) == old(self)@.next_turn(),
    {
        self.next_turn()
    }

    fn end_turn(&mut self) -> (step: RequestStep)
        requires
            old(self).wf(),
            old(self)@.turn is Some,
        ensures
            final(self).wf(),
            (final(self)@, step@) == old(self)@.after_turn(),
    {
        match self.turn.take() {
            Some(queue) => {
                if queue.needs.len() == 0 {
                    let server = queue.server;
                    self.turn = Some(queue);
                    self.phase = RequestPhase::Finishing;
                    RequestStep::Finish { server }
                } else {
                    let ghost before = self@;
                    self.later.push_back(queue);
                    assert(queues_view(self.later@) =~= before.later.push(queue@));
                    self.next_turn()
                }
            },
            None => RequestStep::Done,
        }
    }
}

/// Of a need goes out what no peer was asked for before, and nothing else. What is left of
/// a need for versions goes out range by range; what is left of one for parts of a
/// version goes out at once, with its ranges merged.
pub proof fn law_need_goes_out(need: message::NeedView, recorded: Seq<Span>)
    requires
        requests::need_valid(need),
        range_set::canonical(recorded),
    ensures
        match need {
            message::NeedView::Full { versions } => {
                let out = requests::outstanding(need, recorded);
                let left = range_set::difference(seq![versions], recorded);
                &&& out.len() == left.len()
                &&& forall|i: int|
                    0 <= i < out.len() ==> #[trigger] out[i] == (message::NeedView::Full {
                        versions: left[i],
                    })
                &&& range_set::canonical(left)
                &&& forall|x: int| #[trigger]
                    range_set::covers(left, x) <==> versions.has(x) && !range_set::covers(recorded, x)
            },
            message::NeedView::Partial { version, seqs } => {
                let out = requests::outstanding(need, recorded);
                let left = range_set::difference(seqs, recorded);
                &&& out == (if left.len() == 0 {
                    Seq::empty()
                } else {
                    seq![message::NeedView::Partial { version, seqs: left }]
                })
                &&& range_set::canonical(left)
                &&& forall|x: int| #[trigger]
                    range_set::covers(left, x) <==> range_set::covers(seqs, x)
                        && !range_set::covers(recorded, x)
            },
        },
{
    match need {
        message::NeedView::Full { versions } => {
            let whole = seq![versions];
            range_set::lemma_storable(whole, recorded);
            let left = range_set::difference(whole, recorded);
            assert forall|x: int| #[trigger] range_set::covers(left, x) <==> versions.has(x)
                && !range_set::covers(recorded, x) by {
                if versions.has(x) {
                    assert(whole[0].has(x));
                }
            }
        },
        message::NeedView::Partial { version, seqs } => {
            range_set::lemma_storable(seqs, recorded);
        },
    }
}

/// A record once all of what some needs ask for is on it.
pub open spec fn noted(
    record: requests::RecordView,
    needs: Seq<(ActorId, message::NeedView)>,
) -> requests::RecordView
    decreases needs.len(),
{
    if needs.len() == 0 {
        record
    } else {
        noted(record, needs.drop_last()).after(needs.last().0, needs.last().1)
    }
}

proof fn lemma_noted_first(
    record: requests::RecordView,
    needs: Seq<(ActorId, message::NeedView)>,
)
    requires
        needs.len() > 0,
    ensures
        noted(record, needs) == noted(
            record.after(needs[0].0, needs[0].1),
            needs.drop_first(),
        ),
    decreases needs.len(),
{
    reveal_with_fuel(noted, 2);
    if needs.len() == 1 {
        assert(needs.drop_last() =~= Seq::empty());
        assert(needs.drop_first() =~= Seq::empty());
    } else {
        lemma_noted_first(record, needs.drop_last());
        assert(needs.drop_last().drop_first() =~= needs.drop_first().drop_last());
    }
}

/// What a peer is asked for on account of the need at place `i` of a queue, if the needs
/// before it were taken.
pub open spec fn request_at(
    record: requests::RecordView,
    needs: Seq<(ActorId, message::NeedView)>,
    i: int,
) -> Seq<message::NeedView> {
    request_for(noted(record, needs.take(i)), needs[i].0, needs[i].1)
}

/// In a turn needs leave the queue from the front, and go on record. None is skipped but
/// those of which nothing is left to ask for. A turn takes at most ten of them, and ends
/// before only if the queue is empty.
pub proof fn law_turn(state: RequesterView, queue: QueueView, drained: nat) -> (taken: nat)
    requires
        drained <= NEEDS_PER_TURN,
    ensures
        ({
            let (next, step) = state.drain(queue, drained);
            &&& taken <= queue.needs.len()
            &&& next.turn == Some(
                QueueView { server: queue.server, needs: queue.needs.skip(taken as int) },
            )
            &&& next.record == noted(state.record, queue.needs.take(taken as int))
            &&& next.drained == drained + taken
            &&& next.drained <= NEEDS_PER_TURN
            &&& next.round == state.round
            &&& next.later == state.later
            &&& match step {
                StepView::Encode { server, actor_id, needs } => {
                    &&& taken > 0
                    &&& server == queue.server
                    &&& actor_id == queue.needs[taken - 1].0
                    &&& needs == request_at(state.record, queue.needs, taken - 1)
                    &&& needs.len() > 0
                    &&& next.send_buf == state.send_buf
                    &&& forall|i: int|
                        0 <= i < taken - 1 ==> (#[trigger] request_at(
                            state.record,
                            queue.needs,
                            i,
                        )).len() == 0
                },
                StepView::Write { server, bytes } => {
                    &&& server == queue.server
                    &&& bytes == state.send_buf
                    &&& next.send_buf == Seq::<u8>::empty()
                    &&& next.drained == NEEDS_PER_TURN || taken == queue.needs.len()
                    &&& forall|i: int|
                        0 <= i < taken ==> (#[trigger] request_at(
                            state.record,
                            queue.needs,
                            i,
                        )).len() == 0
                },
                StepView::Yield { server } => {
                    &&& server == queue.server
                    &&& state.send_buf.len() == 0
                    &&& next.drained == NEEDS_PER_TURN || taken == queue.needs.len()
                    &&& forall|i: int|
                        0 <= i < taken ==> (#[trigger] request_at(
                            state.record,
                            queue.needs,
                            i,
                        )).len() == 0
                },
                _ => false,
            }
        }),
    decreases queue.needs.len(),
{
    let all = queue.needs;
    assert(all.take(0) =~= Seq::empty());
    if drained < NEEDS_PER_TURN && all.len() > 0 {
        let (actor_id, need) = all[0];
        let rest = QueueView { server: queue.server, needs: all.drop_first() };
        let record = state.record.after(actor_id, need);
        let after = RequesterView { record, ..state };
        assert(request_at(state.record, all, 0) == request_for(state.record, actor_id, need));
        assert(all.take(1).drop_last() =~= Seq::empty());
        if request_for(state.record, actor_id, need).len() == 0 {
            let later = law_turn(after, rest, drained + 1);
            let taken = later + 1;
            assert(rest.needs.skip(later as int) =~= all.skip(taken as int));
            assert forall|i: int| 0 <= i <= later implies noted(
                record,
                #[trigger] rest.needs.take(i),
            ) == noted(state.record, all.take(i + 1)) by {
                assert(all.take(i + 1).drop_first() =~= rest.needs.take(i));
                lemma_noted_first(state.record, all.take(i + 1));
            }
            assert(noted(record, rest.needs.take(later as int)) == noted(
                state.record,
                all.take(taken as int),
            ));
            assert forall|i: int| 0 < i < taken implies #[trigger] request_at(
                state.record,
                all,
                i,
            ) == request_at(record, rest.needs, i - 1) by {
                assert(noted(record, rest.needs.take(i - 1)) == noted(
                    state.record,
                    all.take(i - 1 + 1),
                ));
                assert(rest.needs[i - 1] == all[i]);
            }
            taken
        } else {
            assert(rest.needs =~= all.skip(1));
            assert(noted(state.record, all.take(1)) == record);
            1
        }
    } else {
        assert(all.skip(0) =~= all);
        0
    }
}

/// Asking ends only once no peer has needs left.
pub proof fn law_done(state: RequesterView)
    requires
        state.next_turn().1 is Done,
    ensures
        forall|i: int|
            0 <= i < state.round.len() ==> (#[trigger] state.round[i]).needs.len() == 0,
        forall|i: int|
            0 <= i < state.later.len() ==> (#[trigger] state.later[i]).needs.len() == 0,
    decreases state.later.len(), state.round.len(),
{
    if state.round.len() > 0 {
        let queue = state.round[0];
        let rest = RequesterView { round: state.round.drop_first(), ..state };
        if queue.needs.len() == 0 {
            law_done(rest);
            assert forall|i: int| 0 <= i < state.round.len() implies (
            #[trigger] state.round[i]).needs.len() == 0 by {
                if i > 0 {
                    assert(rest.round[i - 1] == state.round[i]);
                }
            }
        } else {
            let _ = law_turn(rest, queue, 0);
        }
    } else if state.later.len() > 0 {
        let next = RequesterView { round: state.later, later: Seq::empty(), ..state };
        law_done(next);
        assert forall|i: int| 0 <= i < state.later.len() implies (
        #[trigger] state.later[i]).needs.len() == 0 by {
            assert(next.round[i] == state.later[i]);
        }
    }
}

/// Asking begins with the peers as they are listed, with nothing on record and nothing
/// waiting.
pub proof fn law_beginning(queues: Seq<QueueView>, actor_id: ActorId, version: u64)
    ensures
        RequesterView::begin(queues).round == queues,
        RequesterView::begin(queues).later.len() == 0,
        RequesterView::begin(queues).send_buf.len() == 0,
        (RequesterView::begin(queues).record.full)(actor_id).len() == 0,
        (RequesterView::begin(queues).record.partials)(actor_id, version).len() == 0,
{
}

/// Peers take their turns in the order in which they are listed. One without needs is passed
/// over, and when all had theirs the next round begins, with those that are in it, in the
/// order in which they came to it.
pub proof fn law_turns_in_order(state: RequesterView)
    ensures
        state.round.len() > 0 && state.round[0].needs.len() > 0 ==> {
            let (next, step) = state.next_turn();
            &&& next.turn matches Some(queue) && queue.server == state.round[0].server
            &&& next.round == state.round.drop_first()
            &&& next.later == state.later
        },
        state.round.len() > 0 && state.round[0].needs.len() == 0 ==> state.next_turn() == (
        RequesterView { round: state.round.drop_first(), ..state }).next_turn(),
        state.round.len() == 0 && state.later.len() > 0 ==> state.next_turn() == (RequesterView {
            round: state.later,
            later: Seq::empty(),
            ..state
        }).next_turn(),
        state.round.len() == 0 && state.later.len() == 0 ==> state.next_turn().1 is Done,
{
    if state.round.len() > 0 && state.round[0].needs.len() > 0 {
        let rest = RequesterView { round: state.round.drop_first(), ..state };
        let _ = law_turn(rest, state.round[0], 0);
    }
}

/// A peer that was asked for all its needs is finished, and no other; one with needs left
/// comes last in the next round.
pub proof fn law_end_of_turn(state: RequesterView)
    requires
        state.turn is Some,
    ensures
        state.turn->0.needs.len() == 0 ==> state.after_turn().1 == (StepView::Finish {
            server: state.turn->0.server,
        }) && state.after_turn().0.round == state.round && state.after_turn().0.later
            == state.later,
        state.turn->0.needs.len() > 0 ==> state.after_turn() == (RequesterView {
            turn: None,
            later: state.later.push(state.turn->0),
            ..state
        }).next_turn(),
        state.after_written(true) == state.after_turn(),
{
}

/// Whether a queue is what is left of another one.
pub open spec fn is_rest_of(queue: QueueView, whole: QueueView) -> bool {
    queue.server == whole.server && exists|k: int|
        0 <= k <= whole.needs.len() && queue.needs == #[trigger] whole.needs.skip(k)
}

/// Whether one of some queues is in this place.
pub open spec fn is_among(queue: QueueView, queues: Seq<QueueView>) -> bool {
    exists|i: int| 0 <= i < queues.len() && is_rest_of(queue, #[trigger] queues[i])
}

proof fn lemma_next_turn_keeps(state: RequesterView)
    ensures
        ({
            let (next, step) = state.next_turn();
            let before = state.round + state.later;
            let after = next.round + next.later;
            &&& next.phase !is Done ==> (next.turn matches Some(queue) && is_among(queue, before))
            &&& next.phase is Done ==> next.turn is None && after.len() == 0
            &&& forall|i: int| 0 <= i < after.len() ==> before.contains(#[trigger] after[i])
            &&& forall|i: int|
                0 <= i < before.len() && (#[trigger] before[i]).needs.len() > 0 ==> after.contains(
                    before[i],
                ) || (next.turn matches Some(queue) && is_rest_of(queue, before[i]))
        }),
    decreases state.later.len(), state.round.len(),
{
    let (next, step) = state.next_turn();
    let before = state.round + state.later;
    let after = next.round + next.later;
    if state.round.len() > 0 {
        let first = state.round[0];
        let rest = RequesterView { round: state.round.drop_first(), ..state };
        let fewer = rest.round + rest.later;
        assert(before[0] == first);
        assert forall|i: int| 0 <= i < fewer.len() implies #[trigger] fewer[i] == before[i + 1] by {}
        if first.needs.len() == 0 {
            lemma_next_turn_keeps(rest);
            assert forall|i: int| 0 <= i < after.len() implies before.contains(
                #[trigger] after[i],
            ) by {
                assert(fewer.contains(after[i]));
                let k = choose|k: int| 0 <= k < fewer.len() && fewer[k] == after[i];
                assert(before[k + 1] == after[i]);
            }
            assert forall|i: int| 0 <= i < before.len() && (#[trigger] before[i]).needs.len()
                > 0 implies after.contains(before[i]) || (next.turn matches Some(queue)
                && is_rest_of(queue, before[i])) by {
                assert(fewer[i - 1] == before[i]);
            }
            if next.phase !is Done {
                let queue = next.turn->0;
                let k = choose|k: int| 0 <= k < fewer.len() && is_rest_of(queue, #[trigger] fewer[k]);
                assert(is_rest_of(queue, before[k + 1]));
            }
        } else {
            let taken = law_turn(rest, first, 0);
            let queue = next.turn->0;
            assert(queue.needs == first.needs.skip(taken as int));
            assert(is_rest_of(queue, before[0]));
            assert(after =~= fewer);
            assert forall|i: int| 0 <= i < before.len() && (#[trigger] before[i]).needs.len()
                > 0 implies after.contains(before[i]) || (next.turn matches Some(queue)
                && is_rest_of(queue, before[i])) by {
                if i > 0 {
                    assert(after[i - 1] == before[i]);
                }
            }
            lemma_drain_not_done(rest, first, 0);
        }
    } else if state.later.len() > 0 {
        let turned = RequesterView { round: state.later, later: Seq::empty(), ..state };
        assert(turned.round + turned.later =~= before);
        lemma_next_turn_keeps(turned);
    }
}

proof fn lemma_drain_not_done(state: RequesterView, queue: QueueView, drained: nat)
    ensures
        state.drain(queue, drained).0.phase !is Done,
    decreases queue.needs.len(),
{
    if drained < NEEDS_PER_TURN && queue.needs.len() > 0 {
        let (actor_id, need) = queue.needs[0];
        let rest = QueueView { server: queue.server, needs: queue.needs.drop_first() };
        let noted = RequesterView { record: state.record.after(actor_id, need), ..state };
        lemma_drain_not_done(noted, rest, drained + 1);
    }
}

/// A peer whose request cannot be encoded or framed, or to which nothing can be written, is
/// given up: it has no turn any more. Nobody else is given up on that account: all others
/// that have needs keep their place, but for the one whose turn comes then.
pub proof fn law_only_that_peer_is_given_up(state: RequesterView, message: Seq<u8>)
    requires
        state.turn is Some,
    ensures
        state.after_encoded(None) == state.after_written(false),
        message.len() > 8 * 1024 * 1024 ==> state.after_encoded(Some(message))
            == state.after_written(false),
        ({
            let (next, step) = state.after_written(false);
            let before = state.round + state.later;
            let after = next.round + next.later;
            &&& next.phase !is Done ==> (next.turn matches Some(queue) && is_among(queue, before))
            &&& next.phase is Done ==> next.turn is None && after.len() == 0
            &&& forall|i: int| 0 <= i < after.len() ==> before.contains(#[trigger] after[i])
            &&& forall|i: int|
                0 <= i < before.len() && (#[trigger] before[i]).needs.len() > 0 ==> after.contains(
                    before[i],
                ) || (next.turn matches Some(queue) && is_rest_of(queue, before[i]))
        }),
{
    lemma_next_turn_keeps(state);
}

/// A message that fits into a frame is put behind those that wait, and the turn of the peer
/// goes on.
pub proof fn law_turn_goes_on(state: RequesterView, message: Seq<u8>)
    requires
        state.turn is Some,
        message.len() <= 8 * 1024 * 1024,
    ensures
        state.after_encoded(Some(message)) == (RequesterView {
            turn: None,
            send_buf: state.send_buf + frame::frame(message),
            ..state
        }).drain(state.turn->0, state.drained),
        ({
            let (next, step) = state.after_encoded(Some(message));
            next.turn matches Some(queue) && is_rest_of(queue, state.turn->0)
        }) || state.drained > NEEDS_PER_TURN,
        NEEDS_PER_TURN == 10,
{
    if state.drained <= NEEDS_PER_TURN {
        let framed = RequesterView {
            turn: None,
            send_buf: state.send_buf + frame::frame(message),
            ..state
        };
        let taken = law_turn(framed, state.turn->0, state.drained);
        let queue = framed.drain(state.turn->0, state.drained).0.turn->0;
        assert(queue.needs == state.turn->0.needs.skip(taken as int));
    }
}

} // verus!
