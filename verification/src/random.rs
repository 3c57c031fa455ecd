//! Choices left to chance, by the `rand` crate.
//!
//! What is chosen depends on chance, so only what holds of every outcome is
//! claimed: what comes out was put in, each item at most once.

use rand::rngs::{StdRng, ThreadRng};
use rand::seq::{IteratorRandom, SliceRandom};
use rand::SeedableRng;
use vstd::prelude::*;

verus! {

/// `rand::rngs::StdRng`, as an opaque type.
#[verifier::external_type_specification]
#[verifier::external_body]
pub struct ExStdRng(StdRng);

/// `rand::rngs::ThreadRng`, as an opaque type.
#[verifier::external_type_specification]
#[verifier::external_body]
pub struct ExThreadRng(ThreadRng);

/// Whether `places` names places among the first `n`, none of them twice.
pub open spec fn distinct_places(places: Seq<int>, n: nat) -> bool {
    &&& forall|i: int| 0 <= i < places.len() ==> 0 <= #[trigger] places[i] < n
    &&& forall|i: int, j: int|
        0 <= i < places.len() && 0 <= j < places.len() && i != j ==> #[trigger] places[i]
            != #[trigger] places[j]
}

/// The items of `items` at `places`.
pub open spec fn items_at<T>(items: Seq<T>, places: Seq<int>) -> Seq<T> {
    Seq::new(places.len(), |i: int| items[places[i]])
}

/// Whether `picked` holds items of `items`, none of them twice.
pub open spec fn picked_from<T>(items: Seq<T>, picked: Seq<T>) -> bool {
    exists|places: Seq<int>| #[trigger]
        distinct_places(places, items.len()) && picked == items_at(items, places)
}

/// Whether `arranged` holds the items of `items` in some order.
pub open spec fn rearranged<T>(items: Seq<T>, arranged: Seq<T>) -> bool {
    picked_from(items, arranged) && arranged.len() == items.len()
}

/// `StdRng::from_entropy`: a generator of which nothing is claimed. It panics
/// where the system has no randomness to give.
#[verifier::external_body]
pub(crate) fn entropy_rng() -> (rng: StdRng) {
    StdRng::from_entropy()
}

/// `rand::thread_rng`: a generator of which nothing is claimed.
#[verifier::external_body]
pub(crate) fn thread_rng() -> (rng: ThreadRng) {
    rand::thread_rng()
}

/// `IteratorRandom::choose_multiple`: `amount` of the items, or all of them in
/// their order if there are no more. The crate makes room for `amount` items at
/// once and panics where that cannot be.
#[verifier::external_body]
pub(crate) fn choose_multiple<T>(items: Vec<T>, rng: &mut StdRng, amount: usize) -> (chosen: Vec<T>)
    requires
        amount <= 64,
    ensures
        picked_from(items@, chosen@),
        chosen.len() == (if items.len() <= amount {
            items.len()
        } else {
            amount
        }),
        items.len() <= amount ==> chosen@ == items@,
{
    items.into_iter().choose_multiple(rng, amount)
}

/// `SliceRandom::shuffle`: the items in some order.
#[verifier::external_body]
pub(crate) fn shuffle<T>(items: &mut Vec<T>, rng: &mut ThreadRng)
    ensures
        rearranged(old(items)@, final(items)@),
{
    items.shuffle(rng)
}

/// As many places as there are, none of them twice, are all of them.
pub proof fn lemma_all_places(places: Seq<int>, n: nat, p: int)
    requires
        distinct_places(places, n),
        places.len() == n,
        0 <= p < n,
    ensures
        exists|i: int| 0 <= i < places.len() && #[trigger] places[i] == p,
{
    assert(places.no_duplicates());
    places.unique_seq_to_set();
    vstd::set_lib::lemma_int_range(0, n as int);
    let all = vstd::set_lib::set_int_range(0, n as int);
    assert(places.to_set().subset_of(all)) by {
        assert forall|x: int| places.to_set().contains(x) implies all.contains(x) by {
            let i = choose|i: int| 0 <= i < places.len() && places[i] == x;
        }
    }
    vstd::set_lib::lemma_subset_equality(places.to_set(), all);
    assert(all.contains(p));
    assert(places.to_set().contains(p));
    assert(places.contains(p));
}

/// Putting items in another order loses none and adds none.
pub proof fn lemma_rearranged<T>(items: Seq<T>, arranged: Seq<T>)
    requires
        rearranged(items, arranged),
    ensures
        forall|i: int| 0 <= i < items.len() ==> arranged.contains(#[trigger] items[i]),
        forall|i: int| 0 <= i < arranged.len() ==> items.contains(#[trigger] arranged[i]),
{
    let places = choose|places: Seq<int>| #[trigger]
        distinct_places(places, items.len()) && arranged == items_at(items, places);
    assert forall|p: int| 0 <= p < items.len() implies arranged.contains(#[trigger] items[p]) by {
        lemma_all_places(places, items.len(), p);
        let i = choose|i: int| 0 <= i < places.len() && #[trigger] places[i] == p;
        assert(arranged[i] == items[p]);
    }
    assert forall|i: int| 0 <= i < arranged.len() implies items.contains(
        #[trigger] arranged[i],
    ) by {
        assert(arranged[i] == items[places[i]]);
    }
}

} // verus!
