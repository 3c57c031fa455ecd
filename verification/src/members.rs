//! The other nodes of the cluster: which of them to synchronise with, and what
//! follows when they come and go.

use vstd::prelude::*;

use crate::message::ActorId;
use crate::random::{self, choose_multiple, entropy_rng};

verus! {

/// What is known of a node. `A` stands for an address.
#[derive(Debug, PartialEq, Eq)]
pub struct Member<A> {
    pub actor_id: ActorId,
    /// How far away it is; nearer nodes are in lower rings.
    pub ring: Option<u8>,
    pub addr: A,
    /// How many versions of its own are missing here.
    pub need_len: u64,
}

/// A node that this one could synchronise with.
#[derive(Debug, PartialEq, Eq)]
pub struct Candidate<A> {
    pub actor_id: ActorId,
    pub ring: u8,
    pub addr: A,
    pub need_len: u64,
}

/// A node as a candidate: one whose distance is not known counts as far away.
pub open spec fn candidate<A>(member: Member<A>) -> Candidate<A> {
    Candidate {
        actor_id: member.actor_id,
        ring: match member.ring {
            Some(ring) => ring,
            None => 255,
        },
        addr: member.addr,
        need_len: member.need_len,
    }
}

/// The nodes that the node `actor_id` could synchronise with: all but itself.
pub open spec fn candidates<A>(actor_id: ActorId, members: Seq<Member<A>>) -> Seq<Candidate<A>>
    decreases members.len(),
{
    if members.len() == 0 {
        Seq::empty()
    } else if members.last().actor_id != actor_id {
        candidates(actor_id, members.drop_last()).push(candidate(members.last()))
    } else {
        candidates(actor_id, members.drop_last())
    }
}

/// Lists the nodes that the node `actor_id` could synchronise with.
pub fn find_candidates<A: Copy>(actor_id: ActorId, members: &Vec<Member<A>>) -> (found: Vec<
    Candidate<A>,
>)
    ensures
        found@ == candidates(actor_id, members@),
        ({
            let others = members@.filter(|member: Member<A>| member.actor_id != actor_id);
            &&& found.len() == others.len()
            &&& forall|i: int|
                0 <= i < found.len() ==> (#[trigger] found@[i]).actor_id == others[i].actor_id
                    && found@[i].addr == others[i].addr && found@[i].need_len == others[i].need_len
        }),
{
    let mut found: Vec<Candidate<A>> = Vec::new();
    let mut i: usize = 0;
    while i < members.len()
        invariant
            i <= members.len(),
            found@ == candidates(actor_id, members@.take(i as int)),
        decreases members.len() - i,
    {
        let member = &members[i];
        assert(members@.take(i + 1).drop_last() =~= members@.take(i as int));
        if member.actor_id != actor_id {
            let ring: u8 = match member.ring {
                Some(ring) => ring,
                None => 255,
            };
            found.push(
                Candidate {
                    actor_id: member.actor_id,
                    ring,
                    addr: member.addr,
                    need_len: member.need_len,
                },
            );
        }
        i = i + 1;
    }
    assert(members@.take(i as int) =~= members@);
    proof {
        law_all_others_are_candidates(actor_id, members@);
    }
    found
}

/// Every node but this one is a candidate, whatever is known of it, and nobody else is: as it
/// is, in order, and as far away as can be if its distance is not known.
pub proof fn law_all_others_are_candidates<A>(actor_id: ActorId, members: Seq<Member<A>>)
    ensures
        ({
            let others = members.filter(|member: Member<A>| member.actor_id != actor_id);
            let found = candidates(actor_id, members);
            &&& found.len() == others.len()
            &&& forall|i: int|
                0 <= i < others.len() ==> {
                    &&& (#[trigger] found[i]).actor_id == others[i].actor_id
                    &&& found[i].addr == others[i].addr
                    &&& found[i].need_len == others[i].need_len
                    &&& others[i].ring is Some ==> found[i].ring == others[i].ring->0
                    &&& others[i].ring is None ==> found[i].ring == 255
                }
        }),
        candidates(actor_id, members).len() == 0 <==> forall|i: int|
            0 <= i < members.len() ==> (#[trigger] members[i]).actor_id == actor_id,
    decreases members.len(),
{
    reveal(Seq::filter);
    if members.len() > 0 {
        let init = members.drop_last();
        law_all_others_are_candidates(actor_id, init);
        if candidates(actor_id, members).len() == 0 {
            assert forall|i: int| 0 <= i < members.len() implies (
            #[trigger] members[i]).actor_id == actor_id by {
                if i < init.len() {
                    assert(init[i] == members[i]);
                }
            }
        }
        if forall|i: int| 0 <= i < members.len() ==> (#[trigger] members[i]).actor_id == actor_id {
            assert forall|i: int| 0 <= i < init.len() implies (#[trigger] init[i]).actor_id
                == actor_id by {
                assert(members[i] == init[i]);
            }
            assert(members[members.len() - 1].actor_id == actor_id);
        }
    }
}

/// With how many of `n` candidates to synchronise: one in a hundred, but at least
/// three and at most ten.
pub open spec fn desired(n: nat) -> nat {
    if n / 100 < 3 {
        3
    } else if n / 100 > 10 {
        10
    } else {
        n / 100
    }
}

/// Tells with how many of `n` candidates to synchronise.
pub fn desired_count(n: usize) -> (count: usize)
    ensures
        count == desired(n as nat),
{
    let hundredth: usize = n / 100;
    let most: usize = if hundredth < 10 { hundredth } else { 10 };
    if most > 3 { most } else { 3 }
}

/// Whether candidate `a` is preferred to `b`: more is missing of it, or as much
/// and it is nearer.
pub open spec fn preferred<A>(a: Candidate<A>, b: Candidate<A>) -> bool {
    a.need_len > b.need_len || a.need_len == b.need_len && a.ring < b.ring
}

/// Whether the candidate at place `i` comes before the one at place `j`. Those that
/// are alike stay in their order.
pub open spec fn comes_before<A>(choices: Seq<Candidate<A>>, i: int, j: int) -> bool {
    preferred(choices[i], choices[j]) || !preferred(choices[j], choices[i]) && i < j
}

/// Whether `order` lists places of `choices` by preference.
pub open spec fn in_order<A>(choices: Seq<Candidate<A>>, order: Seq<int>) -> bool {
    forall|i: int, j: int|
        0 <= i < j < order.len() ==> comes_before(
            choices,
            #[trigger] order[i],
            #[trigger] order[j],
        )
}

/// The first `count` of `choices` by preference: who they are and where.
pub open spec fn is_ranking<A>(
    choices: Seq<Candidate<A>>,
    count: nat,
    ranked: Seq<(ActorId, A)>,
) -> bool {
    exists|order: Seq<int>|
        {
            &&& order.len() == choices.len()
            &&& random::distinct_places(order, choices.len())
            &&& #[trigger] in_order(choices, order)
            &&& ranked == Seq::new(
                if choices.len() <= count {
                    choices.len()
                } else {
                    count
                },
                |i: int| (choices[order[i]].actor_id, choices[order[i]].addr),
            )
        }
}

/// The numbers of a list as integers.
spec fn as_places(order: Seq<usize>) -> Seq<int> {
    Seq::new(order.len(), |i: int| order[i] as int)
}

fn prefer<A>(a: &Candidate<A>, b: &Candidate<A>) -> (yes: bool)
    ensures
        yes == preferred(*a, *b),
{
    a.need_len > b.need_len || (a.need_len == b.need_len && a.ring < b.ring)
}

fn order_of<A: Copy>(choices: &Vec<Candidate<A>>) -> (order: Vec<usize>)
    ensures
        order.len() == choices.len(),
        random::distinct_places(as_places(order@), choices@.len()),
        in_order(choices@, as_places(order@)),
{
    let mut order: Vec<usize> = Vec::new();
    let mut k: usize = 0;
    while k < choices.len()
        invariant
            k <= choices.len(),
            order.len() == k,
            random::distinct_places(as_places(order@), k as nat),
            in_order(choices@, as_places(order@)),
        decreases choices.len() - k,
    {
        let ghost before = as_places(order@);
        let mut p: usize = 0;
        assert forall|i: int| 0 <= i < order.len() implies (#[trigger] order@[i]) < k by {
            assert(before[i] == order@[i] as int);
        }
        while p < order.len() && !prefer(&choices[k], &choices[order[p]])
            invariant
                k < choices.len(),
                order.len() == k,
                p <= order.len(),
                before == as_places(order@),
                random::distinct_places(before, k as nat),
                forall|i: int| 0 <= i < order.len() ==> (#[trigger] order@[i]) < k,
                forall|i: int|
                    0 <= i < p ==> !preferred(choices@[k as int], choices@[#[trigger] before[i]]),
            decreases order.len() - p,
        {
            assert(before[p as int] == order@[p as int] as int);
            p = p + 1;
        }
        proof {
            if p < order.len() {
                assert(before[p as int] == order@[p as int] as int);
            }
        }
        order.insert(p, k);
        proof {
            let after = as_places(order@);
            assert(after =~= before.insert(p as int, k as int));
            assert forall|i: int, j: int| 0 <= i < j < after.len() implies comes_before(
                choices@,
                #[trigger] after[i],
                #[trigger] after[j],
            ) by {
                let low = if i < p { i } else { i - 1 };
                let high = if j < p { j } else { j - 1 };
                if i == p {
                    assert(comes_before(choices@, k as int, before[high])) by {
                        if high > p {
                            assert(comes_before(choices@, before[p as int], before[high]));
                        }
                    }
                } else if j == p {
                    assert(0 <= before[low] < k);
                } else {
                    assert(comes_before(choices@, before[low], before[high]));
                }
            }
        }
        k = k + 1;
    }
    order
}

/// Ranks candidates and takes the first `count`: most missing versions first, and
/// the nearer one first where as many are missing.
pub fn rank<A: Copy>(choices: &Vec<Candidate<A>>, count: usize) -> (ranked: Vec<(ActorId, A)>)
    ensures
        is_ranking(choices@, count as nat, ranked@),
{
    let order = order_of(choices);
    let ghost places = as_places(order@);
    let len: usize = if choices.len() <= count { choices.len() } else { count };
    let mut ranked: Vec<(ActorId, A)> = Vec::new();
    let mut i: usize = 0;
    while i < len
        invariant
            i <= len,
            len <= order.len(),
            order.len() == choices.len(),
            places == as_places(order@),
            random::distinct_places(places, choices@.len()),
            ranked@ == Seq::new(
                i as nat,
                |j: int| (choices@[places[j]].actor_id, choices@[places[j]].addr),
            ),
        decreases len - i,
    {
        assert(places[i as int] == order@[i as int] as int);
        let choice = &choices[order[i]];
        ranked.push((choice.actor_id, choice.addr));
        i = i + 1;
        assert(ranked@ =~= Seq::new(
            i as nat,
            |j: int| (choices@[places[j]].actor_id, choices@[places[j]].addr),
        ));
    }
    assert(in_order(choices@, places));
    ranked
}

/// Whether `chosen` is a draw from `found`: twice as many as are desired, or all of
/// them in their order if there are no more.
pub open spec fn is_draw<A>(found: Seq<Candidate<A>>, chosen: Seq<Candidate<A>>) -> bool {
    &&& random::picked_from(found, chosen)
    &&& chosen.len() == (if found.len() <= 2 * desired(found.len()) {
        found.len()
    } else {
        2 * desired(found.len())
    })
    &&& found.len() <= 2 * desired(found.len()) ==> chosen == found
}

/// The nodes that the node `actor_id` synchronises with now: the best of a random
/// draw.
pub fn handle_sync<A: Copy>(actor_id: ActorId, members: &Vec<Member<A>>) -> (chosen: Vec<
    (ActorId, A),
>)
    ensures
        exists|draw: Seq<Candidate<A>>| #[trigger]
            is_draw(candidates(actor_id, members@), draw) && is_ranking(
                draw,
                desired(candidates(actor_id, members@).len()),
                chosen@,
            ),
        chosen.len() == 0 <==> forall|i: int|
            0 <= i < members.len() ==> (#[trigger] members@[i]).actor_id == actor_id,
        chosen.len() <= 10,
{
    let found = find_candidates(actor_id, members);
    let ghost all = found@;
    if found.len() == 0 {
        let chosen: Vec<(ActorId, A)> = Vec::new();
        proof {
            let places = Seq::<int>::empty();
            assert(random::distinct_places(places, 0));
            assert(all =~= random::items_at(all, places));
            assert(is_draw(all, all));
            assert(in_order(all, places));
            assert(chosen@ =~= Seq::new(
                0,
                |i: int| (all[places[i]].actor_id, all[places[i]].addr),
            ));
            law_chosen(actor_id, members@, all, chosen@);
        }
        return chosen;
    }
    let count: usize = desired_count(found.len());
    let mut rng = entropy_rng();
    let draw = choose_multiple(found, &mut rng, count * 2);
    assert(is_draw(all, draw@));
    let chosen = rank(&draw, count);
    proof {
        law_chosen(actor_id, members@, draw@, chosen@);
    }
    chosen
}

/// How many are synchronised with and how many are drawn for it: a hundredth of the
/// candidates, though no fewer than three and no more than ten, and twice as many.
pub proof fn law_numbers<A>(found: Seq<Candidate<A>>, chosen: Seq<Candidate<A>>)
    requires
        is_draw(found, chosen),
    ensures
        3 <= desired(found.len()) <= 10,
        300 <= found.len() < 1100 ==> desired(found.len()) == found.len() / 100,
        found.len() < 300 ==> desired(found.len()) == 3,
        found.len() >= 1100 ==> desired(found.len()) == 10,
        found.len() >= 2 * desired(found.len()) ==> chosen.len() == 2 * desired(found.len()),
        found.len() <= 2 * desired(found.len()) ==> chosen == found,
        forall|i: int| 0 <= i < chosen.len() ==> found.contains(#[trigger] chosen[i]),
{
    let places = choose|places: Seq<int>| #[trigger]
        random::distinct_places(places, found.len()) && chosen == random::items_at(found, places);
    assert forall|i: int| 0 <= i < chosen.len() implies found.contains(#[trigger] chosen[i]) by {
        assert(chosen[i] == found[places[i]]);
    }
}

/// Whether the candidates at places `p` and `q` are taken for the ranked nodes `a` and `b`,
/// rightly in this order: of the first more is missing, or as much and it is nearer, or as
/// much and it is as near and was listed before.
pub open spec fn rightly_before<A>(
    choices: Seq<Candidate<A>>,
    a: (ActorId, A),
    b: (ActorId, A),
    p: int,
    q: int,
) -> bool {
    &&& 0 <= p < choices.len()
    &&& 0 <= q < choices.len()
    &&& a == (choices[p].actor_id, choices[p].addr)
    &&& b == (choices[q].actor_id, choices[q].addr)
    &&& choices[p].need_len >= choices[q].need_len
    &&& choices[p].need_len == choices[q].need_len ==> choices[p].ring <= choices[q].ring
    &&& choices[p].need_len == choices[q].need_len && choices[p].ring == choices[q].ring ==> p < q
}

/// Nodes are ranked by how much is missing of them, then by how near they are, and as many
/// are taken as are asked for and there are. Of whoever is left out no more is missing than
/// of anybody who is taken, and if as much, it is no nearer.
pub proof fn law_ranked_by_need_and_distance<A>(
    choices: Seq<Candidate<A>>,
    count: nat,
    ranked: Seq<(ActorId, A)>,
    i: int,
    j: int,
)
    requires
        is_ranking(choices, count, ranked),
        0 <= i < j < ranked.len(),
    ensures
        ranked.len() == (if choices.len() <= count {
            choices.len()
        } else {
            count
        }),
        exists|p: int, q: int| #[trigger] rightly_before(choices, ranked[i], ranked[j], p, q),
        forall|p: int|
            0 <= p < choices.len() ==> ranked.contains(
                ((#[trigger] choices[p]).actor_id, choices[p].addr),
            ) || exists|q: int|
                0 <= q < choices.len() && ranked[i] == ((#[trigger] choices[q]).actor_id, choices[q].addr)
                    && choices[q].need_len >= choices[p].need_len && (choices[q].need_len
                    == choices[p].need_len ==> choices[q].ring <= choices[p].ring),
{
    let order = choose|order: Seq<int>|
        {
            &&& order.len() == choices.len()
            &&& random::distinct_places(order, choices.len())
            &&& #[trigger] in_order(choices, order)
            &&& ranked == Seq::new(
                if choices.len() <= count {
                    choices.len()
                } else {
                    count
                },
                |i: int| (choices[order[i]].actor_id, choices[order[i]].addr),
            )
        };
    assert(comes_before(choices, order[i], order[j]));
    assert(rightly_before(choices, ranked[i], ranked[j], order[i], order[j]));
    assert forall|p: int| 0 <= p < choices.len() implies ranked.contains(
        ((#[trigger] choices[p]).actor_id, choices[p].addr),
    ) || exists|q: int|
        0 <= q < choices.len() && ranked[i] == ((#[trigger] choices[q]).actor_id, choices[q].addr)
            && choices[q].need_len >= choices[p].need_len && (choices[q].need_len
            == choices[p].need_len ==> choices[q].ring <= choices[p].ring) by {
        law_best_are_taken(choices, count, ranked, p);
        if !ranked.contains((choices[p].actor_id, choices[p].addr)) {
            assert(stands_before(choices, ranked[i], p));
        }
    }
}

/// Whether a ranked node is one of `choices` to which the one at place `p` is not
/// preferred.
pub open spec fn stands_before<A>(choices: Seq<Candidate<A>>, ranked: (ActorId, A), p: int) -> bool {
    exists|q: int|
        0 <= q < choices.len() && ranked == ((#[trigger] choices[q]).actor_id, choices[q].addr)
            && !preferred(choices[p], choices[q])
}

/// Whoever is left out is not preferred to anybody who is taken.
pub proof fn law_best_are_taken<A>(
    choices: Seq<Candidate<A>>,
    count: nat,
    ranked: Seq<(ActorId, A)>,
    p: int,
)
    requires
        is_ranking(choices, count, ranked),
        0 <= p < choices.len(),
    ensures
        ranked.contains((choices[p].actor_id, choices[p].addr)) || forall|i: int|
            0 <= i < ranked.len() ==> stands_before(choices, #[trigger] ranked[i], p),
{
    let order = choose|order: Seq<int>|
        {
            &&& order.len() == choices.len()
            &&& random::distinct_places(order, choices.len())
            &&& #[trigger] in_order(choices, order)
            &&& ranked == Seq::new(
                if choices.len() <= count {
                    choices.len()
                } else {
                    count
                },
                |i: int| (choices[order[i]].actor_id, choices[order[i]].addr),
            )
        };
    random::lemma_all_places(order, choices.len(), p);
    let k = choose|k: int| 0 <= k < order.len() && #[trigger] order[k] == p;
    if k < ranked.len() {
        assert(ranked[k] == (choices[p].actor_id, choices[p].addr));
    } else {
        assert forall|i: int| 0 <= i < ranked.len() implies stands_before(
            choices,
            #[trigger] ranked[i],
            p,
        ) by {
            assert(comes_before(choices, order[i], order[k]));
            let q = order[i];
            assert(ranked[i] == (choices[q].actor_id, choices[q].addr));
        }
    }
}

/// Whether a node other than `actor_id` is among `members`, under this identity and at
/// this address.
pub open spec fn is_other<A>(actor_id: ActorId, members: Seq<Member<A>>, chosen: (ActorId, A)) -> bool {
    chosen.0 != actor_id && exists|i: int|
        0 <= i < members.len() && (#[trigger] members[i]).actor_id == chosen.0 && members[i].addr
            == chosen.1
}

proof fn lemma_candidate_is_other<A>(actor_id: ActorId, members: Seq<Member<A>>, i: int)
    requires
        0 <= i < candidates(actor_id, members).len(),
    ensures
        is_other(
            actor_id,
            members,
            (candidates(actor_id, members)[i].actor_id, candidates(actor_id, members)[i].addr),
        ),
    decreases members.len(),
{
    let before = candidates(actor_id, members.drop_last());
    let found = candidates(actor_id, members)[i];
    if i < before.len() {
        lemma_candidate_is_other(actor_id, members.drop_last(), i);
        let j = choose|j: int|
            0 <= j < members.drop_last().len() && (#[trigger] members.drop_last()[j]).actor_id
                == found.actor_id && members.drop_last()[j].addr == found.addr;
        assert(members[j] == members.drop_last()[j]);
    } else {
        assert(members.last() == members[members.len() - 1]);
    }
}

/// Whatever is drawn, a node synchronises only with others, at their addresses; with as
/// many of them as are desired, or with all if there are fewer. So it is never more
/// than ten, and nobody only if there is nobody.
pub proof fn law_chosen<A>(
    actor_id: ActorId,
    members: Seq<Member<A>>,
    draw: Seq<Candidate<A>>,
    chosen: Seq<(ActorId, A)>,
)
    requires
        is_draw(candidates(actor_id, members), draw),
        is_ranking(draw, desired(candidates(actor_id, members).len()), chosen),
    ensures
        forall|i: int|
            0 <= i < chosen.len() ==> is_other(actor_id, members, #[trigger] chosen[i]),
        chosen.len() == (if candidates(actor_id, members).len() <= desired(
            candidates(actor_id, members).len(),
        ) {
            candidates(actor_id, members).len()
        } else {
            desired(candidates(actor_id, members).len())
        }),
        chosen.len() <= 10,
        chosen.len() == 0 <==> candidates(actor_id, members).len() == 0,
        chosen.len() == 0 <==> forall|i: int|
            0 <= i < members.len() ==> (#[trigger] members[i]).actor_id == actor_id,
{
    law_all_others_are_candidates(actor_id, members);
    let found = candidates(actor_id, members);
    let count = desired(found.len());
    let places = choose|places: Seq<int>| #[trigger]
        random::distinct_places(places, found.len()) && draw == random::items_at(found, places);
    let order = choose|order: Seq<int>|
        {
            &&& order.len() == draw.len()
            &&& random::distinct_places(order, draw.len())
            &&& #[trigger] in_order(draw, order)
            &&& chosen == Seq::new(
                if draw.len() <= count {
                    draw.len()
                } else {
                    count
                },
                |i: int| (draw[order[i]].actor_id, draw[order[i]].addr),
            )
        };
    assert forall|i: int| 0 <= i < chosen.len() implies is_other(
        actor_id,
        members,
        #[trigger] chosen[i],
    ) by {
        let place = order[i];
        assert(draw[place] == found[places[place]]);
        lemma_candidate_is_other(actor_id, members, places[place]);
    }
}

proof fn lemma_candidate_ids<A>(actor_id: ActorId, members: Seq<Member<A>>, i: int, j: int)
    requires
        distinct_ids(members),
        0 <= i < j < candidates(actor_id, members).len(),
    ensures
        candidates(actor_id, members)[i].actor_id != candidates(actor_id, members)[j].actor_id,
    decreases members.len(),
{
    let before = candidates(actor_id, members.drop_last());
    assert(distinct_ids(members.drop_last())) by {
        assert forall|a: int, b: int|
            0 <= a < b < members.drop_last().len() implies (#[trigger] members.drop_last()[a]).actor_id
            != (#[trigger] members.drop_last()[b]).actor_id by {
            assert(members[a].actor_id != members[b].actor_id);
        }
    }
    if j < before.len() {
        lemma_candidate_ids(actor_id, members.drop_last(), i, j);
    } else {
        lemma_candidate_is_other(actor_id, members.drop_last(), i);
        let k = choose|k: int|
            0 <= k < members.drop_last().len() && (#[trigger] members.drop_last()[k]).actor_id
                == before[i].actor_id && members.drop_last()[k].addr == before[i].addr;
        assert(members[k].actor_id != members[members.len() - 1].actor_id);
    }
}

/// Whether no two nodes have the same identity.
pub open spec fn distinct_ids<A>(members: Seq<Member<A>>) -> bool {
    forall|i: int, j: int|
        0 <= i < j < members.len() ==> (#[trigger] members[i]).actor_id != (
        #[trigger] members[j]).actor_id
}

/// Nobody is chosen twice.
pub proof fn law_chosen_once<A>(
    actor_id: ActorId,
    members: Seq<Member<A>>,
    draw: Seq<Candidate<A>>,
    chosen: Seq<(ActorId, A)>,
    i: int,
    j: int,
)
    requires
        distinct_ids(members),
        is_draw(candidates(actor_id, members), draw),
        is_ranking(draw, desired(candidates(actor_id, members).len()), chosen),
        0 <= i < j < chosen.len(),
    ensures
        chosen[i].0 != chosen[j].0,
{
    let found = candidates(actor_id, members);
    let count = desired(found.len());
    let places = choose|places: Seq<int>| #[trigger]
        random::distinct_places(places, found.len()) && draw == random::items_at(found, places);
    let order = choose|order: Seq<int>|
        {
            &&& order.len() == draw.len()
            &&& random::distinct_places(order, draw.len())
            &&& #[trigger] in_order(draw, order)
            &&& chosen == Seq::new(
                if draw.len() <= count {
                    draw.len()
                } else {
                    count
                },
                |i: int| (draw[order[i]].actor_id, draw[order[i]].addr),
            )
        };
    assert(order[i] != order[j]);
    let a = places[order[i]];
    let b = places[order[j]];
    assert(a != b);
    if a < b {
        lemma_candidate_ids(actor_id, members, a, b);
    } else {
        lemma_candidate_ids(actor_id, members, b, a);
    }
}

/// What a change among the nodes did to the list of them.
#[derive(Clone, Copy, Debug, PartialEq, Eq, Structural)]
pub enum MemberChange {
    /// A node is up: whether it was added, and whether it was there already as it
    /// is.
    Up { added: bool, same: bool },
    /// A node is down: whether it was removed.
    Down { removed: bool },
    /// Something about this node itself.
    Own,
}

/// What the membership protocol is told.
#[derive(Clone, Copy, Debug, PartialEq, Eq, Structural)]
pub enum FocaInput {
    /// How many nodes there are.
    ClusterSize(u32),
    /// The node that was reported is down: a newer one with its identity is known.
    DeclareDown,
}

/// What the membership protocol is told about `len` nodes: the lower 32 bits of the
/// number, unless they are zero.
pub open spec fn cluster_size(len: usize) -> Option<FocaInput> {
    if len as int % 0x1_0000_0000 == 0 {
        None
    } else {
        Some(FocaInput::ClusterSize((len as int % 0x1_0000_0000) as u32))
    }
}

/// The membership protocol is told how many nodes there are: the number itself as long as
/// it can be told, and nothing if there are none.
pub proof fn law_cluster_size(len: usize)
    ensures
        0 < len <= u32::MAX ==> cluster_size(len) == Some(FocaInput::ClusterSize(len as u32)),
        len == 0 ==> cluster_size(len) is None,
        cluster_size(len) is None <==> len as int % 0x1_0000_0000 == 0,
        cluster_size(len) matches Some(input) ==> (input matches FocaInput::ClusterSize(size)
            && size as int == len as int % 0x1_0000_0000),
{
}

fn cluster_size_of(len: usize) -> (input: Option<FocaInput>)
    ensures
        input == cluster_size(len),
{
    let wide: u64 = len as u64;
    let low: u32 = (wide % 0x1_0000_0000) as u32;
    if low == 0 {
        None
    } else {
        Some(FocaInput::ClusterSize(low))
    }
}

/// Decides what the membership protocol is told after a change. `len` is how many
/// nodes there are now.
pub fn handle_notifications(change: MemberChange, len: usize) -> (input: Option<FocaInput>)
    ensures
        input == (match change {
            MemberChange::Up { added: true, same } => cluster_size(len),
            MemberChange::Up { added: false, same: false } => Some(FocaInput::DeclareDown),
            MemberChange::Down { removed: true } => cluster_size(len),
            _ => None,
        }),
{
    match change {
        MemberChange::Up { added, same } => {
            if added {
                cluster_size_of(len)
            } else if !same {
                Some(FocaInput::DeclareDown)
            } else {
                None
            }
        },
        MemberChange::Down { removed } => {
            if removed {
                cluster_size_of(len)
            } else {
                None
            }
        },
        MemberChange::Own => None,
    }
}

} // verus!
