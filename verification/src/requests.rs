//! What peers were asked for, and what is left to ask for of a need.

use std::collections::HashMap;

use rangemap::RangeInclusiveSet;
use vstd::prelude::*;

use crate::message::{self, ActorId, SyncNeed};
use crate::range_set::{
    self, insert_range, list_ranges, new_set, overlapping_ranges, remove_range, set_of,
};
use crate::span::Span;

verus! {

broadcast use vstd::std_specs::hash::group_hash_axioms;

/// What peers were asked for, as sequences of ranges: whole versions by actor, and
/// sequence numbers by actor and version.
#[verifier::ext_equal]
pub struct RecordView {
    pub full: spec_fn(ActorId) -> Seq<Span>,
    pub partials: spec_fn(ActorId, u64) -> Seq<Span>,
}

impl RecordView {
    /// Nothing is recorded.
    pub open spec fn empty() -> RecordView {
        RecordView {
            full: |actor_id: ActorId| Seq::<Span>::empty(),
            partials: |actor_id: ActorId, version: u64| Seq::<Span>::empty(),
        }
    }

    /// What holds of every record: it is stored as sets store it.
    pub open spec fn wf(self) -> bool {
        &&& forall|actor_id: ActorId| range_set::canonical(#[trigger] (self.full)(actor_id))
        &&& forall|actor_id: ActorId, version: u64|
            range_set::canonical(#[trigger] (self.partials)(actor_id, version))
    }

    /// What is recorded of the numbers that a need is about.
    pub open spec fn of(self, actor_id: ActorId, need: message::NeedView) -> Seq<Span> {
        match need {
            message::NeedView::Full { versions } => (self.full)(actor_id),
            message::NeedView::Partial { version, seqs } => (self.partials)(actor_id, version),
        }
    }

    /// The record once what a need asks for is on it too. The other records stay as they
    /// are.
    pub open spec fn after(self, actor_id: ActorId, need: message::NeedView) -> RecordView {
        match need {
            message::NeedView::Full { versions } => RecordView {
                full: |other: ActorId|
                    if other == actor_id {
                        range_set::union((self.full)(other), seq![versions])
                    } else {
                        (self.full)(other)
                    },
                ..self
            },
            message::NeedView::Partial { version, seqs } => RecordView {
                partials: |other: ActorId, v: u64|
                    if other == actor_id && v == version {
                        range_set::union((self.partials)(other, v), seqs)
                    } else {
                        (self.partials)(other, v)
                    },
                ..self
            },
        }
    }
}

/// What peers were asked for.
pub struct Requested {
    full: HashMap<ActorId, RangeInclusiveSet<u64>>,
    partials: HashMap<ActorId, HashMap<u64, RangeInclusiveSet<u64>>>,
}

impl View for Requested {
    type V = RecordView;

    closed spec fn view(&self) -> RecordView {
        RecordView {
            full: |actor_id: ActorId| self.full_of(actor_id),
            partials: |actor_id: ActorId, version: u64| self.partial_of(actor_id, version),
        }
    }
}

impl Requested {
    spec fn full_of(self, actor_id: ActorId) -> Seq<Span> {
        if self.full@.contains_key(actor_id) {
            range_set::ranges_of(self.full@[actor_id])
        } else {
            Seq::empty()
        }
    }

    spec fn partial_of(self, actor_id: ActorId, version: u64) -> Seq<Span> {
        if self.partials@.contains_key(actor_id) && self.partials@[actor_id]@.contains_key(version) {
            range_set::ranges_of(self.partials@[actor_id]@[version])
        } else {
            Seq::empty()
        }
    }

    /// Records nothing.
    pub fn new() -> (this: Requested)
        ensures
            this@.wf(),
            this@ == RecordView::empty(),
    {
        let this = Requested { full: HashMap::new(), partials: HashMap::new() };
        assert(this@ =~= RecordView::empty());
        this
    }

    /// The needs that remain of `need` without what was asked for before. They are put
    /// on record: what a need asks for is asked for once.
    pub fn outstanding(&mut self, actor_id: ActorId, need: SyncNeed) -> (needs: Vec<SyncNeed>)
        requires
            old(self)@.wf(),
            need_valid(need@),
        ensures
            final(self)@.wf(),
            final(self)@ == old(self)@.after(actor_id, need@),
            message::needs_view(needs@) == outstanding(need@, old(self)@.of(actor_id, need@)),
    {
        let ghost view = need@;
        proof {
            lemma_record_wf(self@, actor_id, view);
        }
        match need {
            SyncNeed::Full { versions } => self.outstanding_full(actor_id, versions),
            SyncNeed::Partial { version, seqs } => {
                assert(view =~= message::NeedView::Partial { version, seqs: seqs@ });
                self.outstanding_partial(actor_id, version, seqs)
            },
        }
    }

    fn outstanding_full(&mut self, actor_id: ActorId, versions: Span) -> (needs: Vec<SyncNeed>)
        requires
            old(self)@.wf(),
            versions.valid(),
        ensures
            final(self)@ == old(self)@.after(actor_id, message::NeedView::Full { versions }),
            message::needs_view(needs@) == outstanding(
                message::NeedView::Full { versions },
                (old(self)@.full)(actor_id),
            ),
    {
        assert(range_set::canonical((self@.full)(actor_id)));
        let mut record = match self.full.remove(&actor_id) {
            Some(record) => record,
            None => new_set(),
        };
        let mut wanted: Vec<Span> = Vec::new();
        wanted.push(versions);
        let fresh = take_fresh(&mut record, &wanted);
        self.full.insert(actor_id, record);
        proof {
            assert(wanted@ =~= seq![versions]);
            let after = old(self)@.after(actor_id, message::NeedView::Full { versions });
            assert forall|other: ActorId| #[trigger] (self@.full)(other) == (after.full)(
                other,
            ) by {}
            assert(self@.full =~= after.full);
            assert(self@.partials =~= after.partials);
        }
        let mut needs: Vec<SyncNeed> = Vec::new();
        let mut i: usize = 0;
        while i < fresh.len()
            invariant
                i <= fresh.len(),
                message::needs_view(needs@) == Seq::new(
                    i as nat,
                    |j: int| message::NeedView::Full { versions: fresh@[j] },
                ),
            decreases fresh.len() - i,
        {
            let ghost shown = message::needs_view(needs@);
            needs.push(SyncNeed::Full { versions: fresh[i] });
            i = i + 1;
            assert(message::needs_view(needs@) =~= shown.push(
                message::NeedView::Full { versions: fresh@[i - 1] },
            ));
        }
        needs
    }

    fn outstanding_partial(
        &mut self,
        actor_id: ActorId,
        version: u64,
        seqs: Vec<Span>,
    ) -> (needs: Vec<SyncNeed>)
        requires
            old(self)@.wf(),
            need_valid(message::NeedView::Partial { version, seqs: seqs@ }),
        ensures
            final(self)@ == old(self)@.after(
                actor_id,
                message::NeedView::Partial { version, seqs: seqs@ },
            ),
            message::needs_view(needs@) == outstanding(
                message::NeedView::Partial { version, seqs: seqs@ },
                (old(self)@.partials)(actor_id, version),
            ),
    {
        let ghost before = (self@.partials)(actor_id, version);
        assert(range_set::canonical(before));
        let mut versions = match self.partials.remove(&actor_id) {
            Some(versions) => versions,
            None => HashMap::new(),
        };
        let mut record = match versions.remove(&version) {
            Some(record) => record,
            None => new_set(),
        };
        let fresh = take_fresh(&mut record, &seqs);
        versions.insert(version, record);
        self.partials.insert(actor_id, versions);
        proof {
            let after = old(self)@.after(
                actor_id,
                message::NeedView::Partial { version, seqs: seqs@ },
            );
            assert(self@.full =~= after.full);
            assert forall|other: ActorId, v: u64| #[trigger] (self@.partials)(other, v) == (
            after.partials)(other, v) by {}
            assert(self@.partials =~= after.partials);
        }
        let mut needs: Vec<SyncNeed> = Vec::new();
        if fresh.len() > 0 {
            needs.push(SyncNeed::Partial { version, seqs: fresh });
        }
        assert(message::needs_view(needs@) =~= outstanding(
            message::NeedView::Partial { version, seqs: seqs@ },
            before,
        ));
        needs
    }
}

/// Whether the ranges of a need hold something.
pub open spec fn need_valid(need: message::NeedView) -> bool {
    match need {
        message::NeedView::Full { versions } => versions.valid(),
        message::NeedView::Partial { version, seqs } => range_set::all_valid(seqs),
    }
}

/// The needs that remain of `need` once the numbers of `recorded` are left out:
/// one for each range of versions, or one for all ranges of sequence numbers.
pub open spec fn outstanding(
    need: message::NeedView,
    recorded: Seq<Span>,
) -> Seq<message::NeedView> {
    match need {
        message::NeedView::Full { versions } => {
            let fresh = range_set::difference(seq![versions], recorded);
            Seq::new(
                fresh.len(),
                |i: int| message::NeedView::Full { versions: fresh[i] },
            )
        },
        message::NeedView::Partial { version, seqs } => {
            let fresh = range_set::difference(seqs, recorded);
            if fresh.len() == 0 {
                Seq::empty()
            } else {
                seq![message::NeedView::Partial { version, seqs: fresh }]
            }
        },
    }
}

/// What a need asks for on a record keeps it one.
pub proof fn lemma_record_wf(record: RecordView, actor_id: ActorId, need: message::NeedView)
    requires
        record.wf(),
    ensures
        record.after(actor_id, need).wf(),
{
    let after = record.after(actor_id, need);
    match need {
        message::NeedView::Full { versions } => {
            range_set::lemma_union_storable((record.full)(actor_id), seq![versions]);
            assert forall|other: ActorId| range_set::canonical(#[trigger] (after.full)(other)) by {
                assert(range_set::canonical((record.full)(other)));
            }
        },
        message::NeedView::Partial { version, seqs } => {
            range_set::lemma_union_storable((record.partials)(actor_id, version), seqs);
            assert forall|other: ActorId, v: u64|
                range_set::canonical(#[trigger] (after.partials)(other, v)) by {
                assert(range_set::canonical((record.partials)(other, v)));
            }
        },
    }
}

/// The ranges of `wanted` without what `record` holds. They are put on the record.
fn take_fresh(record: &mut RangeInclusiveSet<u64>, wanted: &Vec<Span>) -> (fresh: Vec<Span>)
    requires
        range_set::canonical(range_set::ranges_of(*old(record))),
        range_set::all_valid(wanted@),
    ensures
        fresh@ == range_set::difference(wanted@, range_set::ranges_of(*old(record))),
        range_set::ranges_of(*final(record)) == range_set::union(
            range_set::ranges_of(*old(record)),
            wanted@,
        ),
{
    let ghost held = range_set::ranges_of(*record);
    let mut left = set_of(wanted);
    let mut i: usize = 0;
    while i < wanted.len()
        invariant
            i <= wanted.len(),
            held == range_set::ranges_of(*record),
            range_set::canonical(held),
            range_set::canonical(range_set::ranges_of(left)),
            forall|x: int|
                #![trigger range_set::covers(range_set::ranges_of(left), x)]
                range_set::covers(range_set::ranges_of(left), x)
                    ==> range_set::covers(wanted@, x),
            forall|x: int|
                #![trigger range_set::covers(range_set::ranges_of(left), x)]
                range_set::covers(wanted@, x) && !range_set::covers(held, x)
                    ==> range_set::covers(range_set::ranges_of(left), x),
            forall|x: int, k: int|
                #![trigger range_set::covers(range_set::ranges_of(left), x), wanted@[k]]
                0 <= k < i && wanted@[k].has(x) && range_set::covers(held, x)
                    ==> !range_set::covers(range_set::ranges_of(left), x),
        decreases wanted.len() - i,
    {
        let ghost start = range_set::ranges_of(left);
        let found = overlapping_ranges(record, wanted[i]);
        proof {
            let query = wanted@[i as int];
            let keep = |range: Span| range_set::overlaps(range, query);
            range_set::lemma_filter_elements(held, keep);
        }
        let mut j: usize = 0;
        while j < found.len()
            invariant
                j <= found.len(),
                range_set::canonical(found@),
                range_set::canonical(range_set::ranges_of(left)),
                forall|k: int| 0 <= k < found.len() ==> held.contains(#[trigger] found@[k]),
                forall|x: int|
                    #![trigger range_set::covers(range_set::ranges_of(left), x)]
                    range_set::covers(range_set::ranges_of(left), x)
                        ==> range_set::covers(start, x),
                forall|x: int|
                    #![trigger range_set::covers(range_set::ranges_of(left), x)]
                    range_set::covers(start, x) && !range_set::covers(held, x)
                        ==> range_set::covers(range_set::ranges_of(left), x),
                forall|x: int, k: int|
                    #![trigger range_set::covers(range_set::ranges_of(left), x), found@[k]]
                    0 <= k < j && found@[k].has(x) ==> !range_set::covers(
                        range_set::ranges_of(left),
                        x,
                    ),
            decreases found.len() - j,
        {
            let ghost now = range_set::ranges_of(left);
            assert(held.contains(found@[j as int]));
            remove_range(&mut left, found[j]);
            proof {
                let p = choose|p: int| 0 <= p < held.len() && held[p] == found@[j as int];
                assert forall|x: int| range_set::covers(start, x)
                    && !range_set::covers(held, x) implies range_set::covers(
                    range_set::ranges_of(left),
                    x,
                ) by {
                    assert(range_set::covers(now, x));
                    if found@[j as int].has(x) {
                        assert(held[p].has(x));
                    }
                }
            }
            j = j + 1;
        }
        proof {
            let query = wanted@[i as int];
            let keep = |range: Span| range_set::overlaps(range, query);
            assert forall|x: int| query.has(x) && range_set::covers(held, x) implies
                !range_set::covers(range_set::ranges_of(left), x) by {
                let p = choose|p: int| 0 <= p < held.len() && (#[trigger] held[p]).has(x);
                assert(keep(held[p]));
                assert(found@.contains(held[p]));
                let k = choose|k: int| 0 <= k < found.len() && found@[k] == held[p];
                assert(found@[k].has(x));
            }
        }
        i = i + 1;
    }
    let fresh = list_ranges(&left);
    proof {
        assert forall|x: int| range_set::covers(fresh@, x) <==> range_set::covers(
            wanted@,
            x,
        ) && !range_set::covers(held, x) by {
            if range_set::covers(wanted@, x) {
                let k = choose|k: int| 0 <= k < wanted.len() && (#[trigger] wanted@[k]).has(x);
            }
        }
        range_set::lemma_difference(fresh@, wanted@, held);
    }
    let mut i: usize = 0;
    while i < fresh.len()
        invariant
            i <= fresh.len(),
            range_set::is_difference(fresh@, wanted@, held),
            range_set::canonical(range_set::ranges_of(*record)),
            forall|x: int|
                #![trigger range_set::covers(range_set::ranges_of(*record), x)]
                range_set::covers(range_set::ranges_of(*record), x) <==> range_set::covers(held, x)
                    || range_set::covers(fresh@.take(i as int), x),
        decreases fresh.len() - i,
    {
        let ghost now = range_set::ranges_of(*record);
        let ghost part = fresh@.take(i as int);
        let ghost more = fresh@.take(i + 1);
        insert_range(record, fresh[i]);
        proof {
            assert forall|x: int|
                #![trigger range_set::covers(range_set::ranges_of(*record), x)]
                range_set::covers(range_set::ranges_of(*record), x) <==> range_set::covers(held, x)
                    || range_set::covers(more, x) by {
                assert(range_set::covers(now, x) <==> range_set::covers(held, x)
                    || range_set::covers(part, x));
                if range_set::covers(part, x) {
                    let k = choose|k: int| 0 <= k < part.len() && (#[trigger] part[k]).has(x);
                    assert(more[k].has(x));
                }
                if range_set::covers(more, x) {
                    let k = choose|k: int| 0 <= k < more.len() && (#[trigger] more[k]).has(x);
                    if k < i {
                        assert(part[k].has(x));
                    }
                }
                if fresh@[i as int].has(x) {
                    assert(more[i as int].has(x));
                }
            }
        }
        i = i + 1;
    }
    proof {
        let now = range_set::ranges_of(*record);
        assert(fresh@.take(i as int) =~= fresh@);
        assert forall|x: int| #[trigger] range_set::covers(now, x) <==> range_set::covers(held, x)
            || range_set::covers(wanted@, x) by {
            assert(range_set::covers(fresh@, x) <==> range_set::covers(wanted@, x)
                && !range_set::covers(held, x));
        }
        range_set::lemma_union(now, held, wanted@);
    }
    fresh
}

/// What a need asks for is on record afterwards, beside all that was: of this actor, and of
/// this version if it is about one, and of nothing else.
pub proof fn law_needs_go_on_record(
    record: RecordView,
    actor_id: ActorId,
    need: message::NeedView,
    other: ActorId,
    version: u64,
    x: int,
)
    ensures
        ({
            let after = record.after(actor_id, need);
            match need {
                message::NeedView::Full { versions } => {
                    &&& range_set::covers((after.full)(other), x) <==> range_set::covers(
                        (record.full)(other),
                        x,
                    ) || (other == actor_id && versions.has(x))
                    &&& (after.partials)(other, version) == (record.partials)(other, version)
                    &&& record.of(actor_id, need) == (record.full)(actor_id)
                },
                message::NeedView::Partial { version: of, seqs } => {
                    &&& range_set::covers((after.partials)(other, version), x)
                        <==> range_set::covers((record.partials)(other, version), x) || (other
                        == actor_id && version == of && range_set::covers(seqs, x))
                    &&& (after.full)(other) == (record.full)(other)
                    &&& record.of(actor_id, need) == (record.partials)(actor_id, of)
                },
            }
        }),
        (RecordView::empty().full)(other).len() == 0,
        (RecordView::empty().partials)(other, version).len() == 0,
{
    match need {
        message::NeedView::Full { versions } => {
            let whole = seq![versions];
            range_set::lemma_union_storable((record.full)(actor_id), whole);
            assert(range_set::covers(
                range_set::union((record.full)(actor_id), whole),
                x,
            ) <==> range_set::covers((record.full)(actor_id), x) || range_set::covers(whole, x));
            if versions.has(x) {
                assert(whole[0].has(x));
            }
        },
        message::NeedView::Partial { version: of, seqs } => {
            range_set::lemma_union_storable((record.partials)(actor_id, of), seqs);
            assert(range_set::covers(
                range_set::union((record.partials)(actor_id, of), seqs),
                x,
            ) <==> range_set::covers((record.partials)(actor_id, of), x) || range_set::covers(
                seqs,
                x,
            ));
        },
    }
}

} // verus!
