//! Sets of numbers kept as ranges, by the `rangemap` crate.
//!
//! The set itself is opaque here. `ranges_of` names the ranges that it stores,
//! in their order, and the functions below say what each operation of the crate
//! does to them.

use rangemap::RangeInclusiveSet;
use vstd::prelude::*;

use crate::span::Span;

verus! {

/// `rangemap::RangeInclusiveSet`, as an opaque type.
#[verifier::external_type_specification]
#[verifier::external_body]
#[verifier::reject_recursive_types(T)]
#[verifier::reject_recursive_types(StepFnsT)]
pub struct ExRangeInclusiveSet<T, StepFnsT>(RangeInclusiveSet<T, StepFnsT>);

/// The ranges that a set stores, lowest first.
pub uninterp spec fn ranges_of(set: RangeInclusiveSet<u64>) -> Seq<Span>;

/// Whether one of `ranges` holds `x`.
pub open spec fn covers(ranges: Seq<Span>, x: int) -> bool {
    exists|i: int| 0 <= i < ranges.len() && (#[trigger] ranges[i]).has(x)
}

/// Whether each of `ranges` holds something.
pub open spec fn all_valid(ranges: Seq<Span>) -> bool {
    forall|i: int| 0 <= i < ranges.len() ==> (#[trigger] ranges[i]).valid()
}

/// Whether `ranges` is what a set can store: each range holds something, and
/// between each range and any later one at least one number is missing.
pub open spec fn canonical(ranges: Seq<Span>) -> bool {
    &&& all_valid(ranges)
    &&& forall|i: int, j: int|
        0 <= i < j < ranges.len() ==> (#[trigger] ranges[i]).end + 1 < (#[trigger] ranges[j]).start
}

/// Whether a stored range and a query have a number in common, as the crate
/// tests it.
pub open spec fn overlaps(range: Span, query: Span) -> bool {
    range.end >= query.start && range.start <= query.end
}

/// `RangeInclusiveSet::new`: a set without ranges.
#[verifier::external_body]
pub(crate) fn new_set() -> (set: RangeInclusiveSet<u64>)
    ensures
        ranges_of(set) == Seq::<Span>::empty(),
{
    RangeInclusiveSet::new()
}

/// `RangeInclusiveSet::from_iter`: a set that holds the numbers of `ranges`
/// and no others. The crate panics on a range that starts after its end.
#[verifier::external_body]
pub(crate) fn set_of(ranges: &Vec<Span>) -> (set: RangeInclusiveSet<u64>)
    requires
        all_valid(ranges@),
    ensures
        canonical(ranges_of(set)),
        forall|x: int|
            #![trigger covers(ranges_of(set), x)]
            #![trigger covers(ranges@, x)]
            covers(ranges_of(set), x) <==> covers(ranges@, x),
{
    RangeInclusiveSet::from_iter(ranges.iter().map(|range| range.start..=range.end))
}

/// `RangeInclusiveSet::remove`: takes the numbers of `range` out and leaves
/// the others. The crate panics on a range that starts after its end.
#[verifier::external_body]
pub(crate) fn remove_range(set: &mut RangeInclusiveSet<u64>, range: Span)
    requires
        range.valid(),
    ensures
        canonical(ranges_of(*final(set))),
        forall|x: int|
            #![trigger covers(ranges_of(*final(set)), x)]
            #![trigger covers(ranges_of(*old(set)), x)]
            covers(ranges_of(*final(set)), x) <==> (covers(ranges_of(*old(set)), x) && !range.has(x)),
{
    set.remove(range.start..=range.end);
}

/// `RangeInclusiveSet::insert`: puts the numbers of `range` in and leaves the others.
/// Ranges that touch become one. The crate panics on a range that starts after its
/// end.
#[verifier::external_body]
pub(crate) fn insert_range(set: &mut RangeInclusiveSet<u64>, range: Span)
    requires
        range.valid(),
    ensures
        canonical(ranges_of(*final(set))),
        forall|x: int|
            #![trigger covers(ranges_of(*final(set)), x)]
            #![trigger covers(ranges_of(*old(set)), x)]
            covers(ranges_of(*final(set)), x) <==> (covers(ranges_of(*old(set)), x) || range.has(x)),
{
    set.insert(range.start..=range.end);
}

/// `RangeInclusiveSet::overlapping`: the stored ranges that overlap `query`,
/// in their order.
#[verifier::external_body]
pub(crate) fn overlapping_ranges(set: &RangeInclusiveSet<u64>, query: Span) -> (found: Vec<Span>)
    ensures
        canonical(found@),
        found@ == ranges_of(*set).filter(|range: Span| overlaps(range, query)),
{
    set.overlapping(query.start..=query.end)
        .map(|range| Span { start: *range.start(), end: *range.end() })
        .collect()
}

/// `RangeInclusiveSet::iter`: the stored ranges, in their order.
#[verifier::external_body]
pub(crate) fn list_ranges(set: &RangeInclusiveSet<u64>) -> (ranges: Vec<Span>)
    ensures
        ranges@ == ranges_of(*set),
        canonical(ranges@),
{
    set.iter().map(|range| Span { start: *range.start(), end: *range.end() }).collect()
}

/// `RangeInclusiveSet::clone`: a set that stores the same ranges.
#[verifier::external_body]
pub(crate) fn clone_set(set: &RangeInclusiveSet<u64>) -> (copy: RangeInclusiveSet<u64>)
    ensures
        ranges_of(copy) == ranges_of(*set),
{
    set.clone()
}

/// Whether a set holds a number.
pub fn set_has(set: &RangeInclusiveSet<u64>, x: u64) -> (has: bool)
    ensures
        has == covers(ranges_of(*set), x as int),
{
    let query = Span { start: x, end: x };
    let found = overlapping_ranges(set, query);
    proof {
        let ranges = ranges_of(*set);
        let keep = |range: Span| overlaps(range, query);
        lemma_filter_elements(ranges, keep);
        if found.len() > 0 {
            assert(ranges.contains(found@[0]) && keep(found@[0]));
            let i = choose|i: int| 0 <= i < ranges.len() && ranges[i] == found@[0];
            assert(ranges[i].has(x as int));
        }
        if covers(ranges, x as int) {
            let i = choose|i: int| 0 <= i < ranges.len() && (#[trigger] ranges[i]).has(x as int);
            assert(keep(ranges[i]));
            assert(found@.contains(ranges[i]));
        }
    }
    found.len() > 0
}

/// Whether two lists of ranges are the same.
pub fn same_ranges(a: &Vec<Span>, b: &Vec<Span>) -> (same: bool)
    ensures
        same == (a@ == b@),
{
    if a.len() != b.len() {
        return false;
    }
    let mut i: usize = 0;
    while i < a.len()
        invariant
            a.len() == b.len(),
            i <= a.len(),
            forall|j: int| 0 <= j < i ==> a[j] == b[j],
        decreases a.len() - i,
    {
        if a[i] != b[i] {
            return false;
        }
        i = i + 1;
    }
    assert(a@ =~= b@);
    true
}

/// What a filtered list holds comes from the list and passed the filter.
pub proof fn lemma_filter_elements(ranges: Seq<Span>, keep: spec_fn(Span) -> bool)
    ensures
        forall|i: int|
            0 <= i < ranges.filter(keep).len() ==> ranges.contains(#[trigger] ranges.filter(keep)[i])
                && keep(ranges.filter(keep)[i]),
        forall|i: int|
            0 <= i < ranges.len() && keep(#[trigger] ranges[i]) ==> ranges.filter(keep).contains(
                ranges[i],
            ),
    decreases ranges.len(),
{
    broadcast use vstd::seq_lib::group_filter_ensures;

    reveal(Seq::filter);
    if ranges.len() > 0 {
        let init = ranges.drop_last();
        lemma_filter_elements(init, keep);
        assert forall|i: int| 0 <= i < init.filter(keep).len() implies ranges.contains(
            #[trigger] init.filter(keep)[i],
        ) by {
            let j = choose|j: int| 0 <= j < init.len() && init[j] == init.filter(keep)[i];
            assert(ranges[j] == init.filter(keep)[i]);
        }
        assert(ranges.contains(ranges[ranges.len() - 1]));
    }
}

/// Taking some of the ranges of a set, in their order, gives what a set can
/// store.
pub proof fn lemma_filter_canonical(ranges: Seq<Span>, keep: spec_fn(Span) -> bool)
    requires
        canonical(ranges),
    ensures
        canonical(ranges.filter(keep)),
    decreases ranges.len(),
{
    reveal(Seq::filter);
    if ranges.len() > 0 {
        let init = ranges.drop_last();
        let kept = init.filter(keep);
        lemma_filter_canonical(init, keep);
        lemma_filter_elements(init, keep);
        assert forall|i: int| 0 <= i < kept.len() implies (#[trigger] kept[i]).end + 1
            < ranges.last().start by {
            let j = choose|j: int| 0 <= j < init.len() && init[j] == kept[i];
            assert(ranges[j] == kept[i]);
            assert(ranges[ranges.len() - 1] == ranges.last());
        }
    }
}

/// Whether `ranges` is how a set stores the numbers of `wanted` that `taken`
/// does not hold.
pub open spec fn is_difference(ranges: Seq<Span>, wanted: Seq<Span>, taken: Seq<Span>) -> bool {
    &&& canonical(ranges)
    &&& forall|x: int| covers(ranges, x) <==> covers(wanted, x) && !covers(taken, x)
}

/// How a set stores the numbers of `wanted` that `taken` does not hold. There
/// is only one way: see `lemma_stored_one_way`.
pub open spec fn difference(wanted: Seq<Span>, taken: Seq<Span>) -> Seq<Span> {
    choose|ranges: Seq<Span>| is_difference(ranges, wanted, taken)
}

/// Dropping the first range of a set takes just its numbers away.
proof fn lemma_drop_first(ranges: Seq<Span>)
    requires
        canonical(ranges),
        ranges.len() > 0,
    ensures
        canonical(ranges.drop_first()),
        forall|x: int|
            covers(ranges.drop_first(), x) <==> covers(ranges, x) && x > ranges[0].end,
{
    let rest = ranges.drop_first();
    assert forall|i: int| 0 <= i < rest.len() implies #[trigger] rest[i] == ranges[i + 1] by {}
    assert forall|x: int| covers(rest, x) <==> covers(ranges, x) && x > ranges[0].end by {
        if covers(rest, x) {
            let i = choose|i: int| 0 <= i < rest.len() && (#[trigger] rest[i]).has(x);
            assert(ranges[i + 1].has(x));
        }
        if covers(ranges, x) && x > ranges[0].end {
            let i = choose|i: int| 0 <= i < ranges.len() && (#[trigger] ranges[i]).has(x);
            assert(rest[i - 1].has(x));
        }
    }
}

/// A set stores the same numbers in one way only.
pub proof fn lemma_stored_one_way(a: Seq<Span>, b: Seq<Span>)
    requires
        canonical(a),
        canonical(b),
        forall|x: int| covers(a, x) <==> covers(b, x),
    ensures
        a == b,
    decreases a.len(),
{
    if a.len() == 0 || b.len() == 0 {
        if a.len() > 0 {
            assert(a[0].has(a[0].start as int));
            assert(covers(a, a[0].start as int));
        }
        if b.len() > 0 {
            assert(b[0].has(b[0].start as int));
            assert(covers(b, b[0].start as int));
        }
        assert(a =~= b);
    } else {
        assert(a[0].has(a[0].start as int));
        assert(covers(a, a[0].start as int));
        assert(b[0].has(b[0].start as int));
        assert(covers(b, b[0].start as int));
        lemma_lowest(a, b[0].start as int);
        lemma_lowest(b, a[0].start as int);
        if a[0].end < b[0].end {
            lemma_gap(a);
            assert(b[0].has(a[0].end + 1));
            assert(covers(b, a[0].end + 1));
        }
        if b[0].end < a[0].end {
            lemma_gap(b);
            assert(a[0].has(b[0].end + 1));
            assert(covers(a, b[0].end + 1));
        }
        lemma_drop_first(a);
        lemma_drop_first(b);
        assert(a[0] == b[0]);
        let (rest_a, rest_b) = (a.drop_first(), b.drop_first());
        assert forall|x: int| covers(rest_a, x) <==> covers(rest_b, x) by {
            assert(covers(a, x) <==> covers(b, x));
        }
        lemma_stored_one_way(rest_a, rest_b);
        assert(a =~= seq![a[0]] + a.drop_first());
        assert(b =~= seq![b[0]] + b.drop_first());
    }
}

proof fn lemma_lowest(ranges: Seq<Span>, x: int)
    requires
        canonical(ranges),
        covers(ranges, x),
    ensures
        ranges.len() > 0,
        ranges[0].start <= x,
{
    let i = choose|i: int| 0 <= i < ranges.len() && (#[trigger] ranges[i]).has(x);
    assert(ranges[0].valid());
}

proof fn lemma_gap(ranges: Seq<Span>)
    requires
        canonical(ranges),
        ranges.len() > 0,
    ensures
        !covers(ranges, ranges[0].end + 1),
{
    if covers(ranges, ranges[0].end + 1) {
        let i = choose|i: int|
            0 <= i < ranges.len() && (#[trigger] ranges[i]).has(ranges[0].end + 1);
        assert(ranges[0].end + 1 < ranges[i].start || i == 0);
    }
}

/// What is a difference is the difference.
pub proof fn lemma_difference(ranges: Seq<Span>, wanted: Seq<Span>, taken: Seq<Span>)
    requires
        is_difference(ranges, wanted, taken),
    ensures
        ranges == difference(wanted, taken),
{
    lemma_stored_one_way(ranges, difference(wanted, taken));
}

proof fn lemma_storable_below(holds: spec_fn(int) -> bool, n: nat) -> (ranges: Seq<Span>)
    requires
        n <= 0x1_0000_0000_0000_0000,
    ensures
        canonical(ranges),
        forall|i: int| 0 <= i < ranges.len() ==> (#[trigger] ranges[i]).end < n,
        forall|x: int| #[trigger] covers(ranges, x) <==> 0 <= x < n && holds(x),
    decreases n,
{
    if n == 0 {
        let ranges = Seq::<Span>::empty();
        assert forall|x: int| #[trigger] covers(ranges, x) <==> 0 <= x < n && holds(x) by {}
        ranges
    } else {
        let top = n - 1;
        let before = lemma_storable_below(holds, top as nat);
        if !holds(top) {
            before
        } else if before.len() > 0 && before.last().end == top - 1 {
            let last = before.len() - 1;
            let ranges = before.update(last, Span { end: top as u64, ..before[last] });
            assert forall|x: int| #[trigger] covers(ranges, x) <==> 0 <= x < n && holds(x) by {
                if covers(ranges, x) {
                    let i = choose|i: int| 0 <= i < ranges.len() && (#[trigger] ranges[i]).has(x);
                    if x != top {
                        assert(before[i].has(x));
                        assert(covers(before, x));
                    }
                }
                if 0 <= x < n && holds(x) {
                    if x == top {
                        assert(ranges[last].has(x));
                    } else {
                        assert(covers(before, x));
                        let i = choose|i: int|
                            0 <= i < before.len() && (#[trigger] before[i]).has(x);
                        assert(ranges[i].has(x));
                    }
                }
            }
            ranges
        } else {
            let ranges = before.push(Span { start: top as u64, end: top as u64 });
            assert forall|i: int, j: int| 0 <= i < j < ranges.len() implies (
            #[trigger] ranges[i]).end + 1 < (#[trigger] ranges[j]).start by {
                if j == before.len() {
                    let last = before.len() - 1;
                    assert(before[last].end < top && before[last].end != top - 1);
                    if i < last {
                        assert(before[i].end + 1 < before[last].start);
                        assert(before[last].valid());
                    }
                }
            }
            assert forall|x: int| #[trigger] covers(ranges, x) <==> 0 <= x < n && holds(x) by {
                if covers(ranges, x) {
                    let i = choose|i: int| 0 <= i < ranges.len() && (#[trigger] ranges[i]).has(x);
                    if x != top {
                        assert(before[i].has(x));
                        assert(covers(before, x));
                    }
                }
                if 0 <= x < n && holds(x) {
                    if x == top {
                        assert(ranges[before.len() as int].has(x));
                    } else {
                        assert(covers(before, x));
                        let i = choose|i: int|
                            0 <= i < before.len() && (#[trigger] before[i]).has(x);
                        assert(ranges[i].has(x));
                    }
                }
            }
            ranges
        }
    }
}

/// A set can store any difference, so `difference` is one.
pub proof fn lemma_storable(wanted: Seq<Span>, taken: Seq<Span>)
    ensures
        is_difference(difference(wanted, taken), wanted, taken),
{
    let holds = |x: int| covers(wanted, x) && !covers(taken, x);
    let ranges = lemma_storable_below(holds, 0x1_0000_0000_0000_0000);
    assert forall|x: int| covers(ranges, x) <==> covers(wanted, x) && !covers(taken, x) by {
        if covers(wanted, x) {
            let i = choose|i: int| 0 <= i < wanted.len() && (#[trigger] wanted[i]).has(x);
        }
    }
    assert(is_difference(ranges, wanted, taken));
}

/// Whether `ranges` is how a set stores the numbers of `a` and those of `b`.
pub open spec fn is_union(ranges: Seq<Span>, a: Seq<Span>, b: Seq<Span>) -> bool {
    &&& canonical(ranges)
    &&& forall|x: int| #[trigger] covers(ranges, x) <==> covers(a, x) || covers(b, x)
}

/// How a set stores the numbers of `a` and those of `b`. There is only one way: see
/// `lemma_stored_one_way`.
pub open spec fn union(a: Seq<Span>, b: Seq<Span>) -> Seq<Span> {
    choose|ranges: Seq<Span>| is_union(ranges, a, b)
}

/// What is a union is the union.
pub proof fn lemma_union(ranges: Seq<Span>, a: Seq<Span>, b: Seq<Span>)
    requires
        is_union(ranges, a, b),
    ensures
        ranges == union(a, b),
{
    let other = union(a, b);
    assert(is_union(other, a, b));
    assert forall|x: int| covers(ranges, x) <==> covers(other, x) by {}
    lemma_stored_one_way(ranges, other);
}

/// A set can store any union, so `union` is one.
pub proof fn lemma_union_storable(a: Seq<Span>, b: Seq<Span>)
    ensures
        is_union(union(a, b), a, b),
{
    let holds = |x: int| covers(a, x) || covers(b, x);
    let ranges = lemma_storable_below(holds, 0x1_0000_0000_0000_0000);
    assert forall|x: int| #[trigger] covers(ranges, x) <==> covers(a, x) || covers(b, x) by {
        if covers(a, x) {
            let i = choose|i: int| 0 <= i < a.len() && (#[trigger] a[i]).has(x);
        }
        if covers(b, x) {
            let i = choose|i: int| 0 <= i < b.len() && (#[trigger] b[i]).has(x);
        }
    }
    assert(is_union(ranges, a, b));
}

} // verus!
