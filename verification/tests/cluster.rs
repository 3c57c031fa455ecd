use corro_sync::changes::ChangeBatcher;
use corro_sync::gossip::{announce_delay, on_accept, AcceptStep, Accepted};
use corro_sync::members::{
    desired_count, find_candidates, handle_notifications, handle_sync, rank, Candidate, FocaInput,
    Member, MemberChange,
};
use corro_sync::message::ActorId;

fn member(actor_id: ActorId, ring: Option<u8>, need_len: u64) -> Member<u16> {
    Member { actor_id, ring, addr: 1000 + actor_id as u16, need_len }
}

fn candidate(actor_id: ActorId, ring: u8, need_len: u64) -> Candidate<u16> {
    Candidate { actor_id, ring, addr: 1000 + actor_id as u16, need_len }
}

#[test]
fn candidates_are_all_others() {
    let members = vec![member(1, Some(2), 5), member(2, Some(0), 0), member(3, None, 7)];
    assert_eq!(
        find_candidates(2, &members),
        vec![candidate(1, 2, 5), candidate(3, 255, 7)]
    );
}

#[test]
fn between_three_and_ten_are_desired() {
    assert_eq!(desired_count(1), 3);
    assert_eq!(desired_count(399), 3);
    assert_eq!(desired_count(400), 4);
    assert_eq!(desired_count(1099), 10);
    assert_eq!(desired_count(100_000), 10);
}

#[test]
fn most_missing_versions_come_first_and_nearer_ones_if_equal() {
    let choices = vec![
        candidate(1, 4, 10),
        candidate(2, 1, 10),
        candidate(3, 0, 2),
        candidate(4, 9, 50),
        candidate(5, 1, 10),
    ];
    assert_eq!(
        rank(&choices, 4),
        vec![(4, 1004), (2, 1002), (5, 1005), (1, 1001)]
    );
    assert_eq!(rank(&choices, 9).len(), 5);
    assert_eq!(rank(&choices, 0), vec![]);
}

#[test]
fn few_members_are_ranked_all() {
    let members = vec![
        member(1, Some(2), 5),
        member(2, Some(0), 5),
        member(3, None, 7),
        member(4, Some(0), 0),
        member(5, Some(3), 1),
    ];
    assert_eq!(handle_sync(4, &members), vec![(3, 1003), (2, 1002), (1, 1001)]);
    assert_eq!(handle_sync(1, &vec![member(1, None, 0)]), vec![]);
}

#[test]
fn of_many_members_some_are_drawn() {
    let members: Vec<Member<u16>> = (0..1000).map(|id| member(id, Some(0), 1)).collect();
    let first = handle_sync(0, &members);
    for _ in 0..20 {
        let chosen = handle_sync(0, &members);
        assert_eq!(chosen.len(), 9);
        let mut ids: Vec<ActorId> = chosen.iter().map(|(id, _)| *id).collect();
        for (id, addr) in chosen {
            assert!(id != 0 && id < 1000);
            assert_eq!(addr, 1000 + id as u16);
        }
        ids.sort();
        ids.dedup();
        assert_eq!(ids.len(), 9);
    }
    // twenty draws that all equal the first have no chance to speak of
    assert!((0..20).any(|_| handle_sync(0, &members) != first));
}

#[test]
fn an_added_or_removed_member_changes_the_cluster_size() {
    let up = |added, same| MemberChange::Up { added, same };
    assert_eq!(handle_notifications(up(true, false), 7), Some(FocaInput::ClusterSize(7)));
    assert_eq!(handle_notifications(up(true, true), 7), Some(FocaInput::ClusterSize(7)));
    assert_eq!(
        handle_notifications(MemberChange::Down { removed: true }, 6),
        Some(FocaInput::ClusterSize(6))
    );
    assert_eq!(handle_notifications(MemberChange::Down { removed: true }, 0), None);
    assert_eq!(handle_notifications(MemberChange::Down { removed: false }, 6), None);
}

#[test]
fn a_member_with_an_older_identity_is_declared_down() {
    let stale = MemberChange::Up { added: false, same: false };
    assert_eq!(handle_notifications(stale, 7), Some(FocaInput::DeclareDown));
    let same = MemberChange::Up { added: false, same: true };
    assert_eq!(handle_notifications(same, 7), None);
    assert_eq!(handle_notifications(MemberChange::Own, 7), None);
}

#[test]
fn changes_are_applied_once_there_are_enough() {
    let mut batcher = ChangeBatcher::new(10);
    assert_eq!(batcher.on_change("a", 4), None);
    assert_eq!(batcher.on_change("b", 0), None);
    assert_eq!(batcher.count(), 4);
    assert_eq!(batcher.on_change("c", 6), Some(vec!["a", "b", "c"]));
    assert_eq!(batcher.count(), 0);
    assert_eq!(batcher.on_tick(), None);
}

#[test]
fn changes_are_applied_after_a_while() {
    let mut batcher = ChangeBatcher::new(10);
    assert_eq!(batcher.on_change("a", 0), None);
    assert_eq!(batcher.on_tick(), Some(vec!["a"]));
    assert_eq!(batcher.on_tick(), None);
}

#[test]
fn left_over_changes_count_for_one_at_least() {
    let mut batcher = ChangeBatcher::new(3);
    assert_eq!(batcher.on_drain("a", 0), None);
    assert_eq!(batcher.on_drain("b", 0), None);
    assert_eq!(batcher.on_drain("c", 0), Some(vec!["a", "b", "c"]));
    assert_eq!(batcher.on_drain("d", 2), None);
    assert_eq!(batcher.finish(), vec!["d"]);
}

#[test]
fn no_change_is_lost_on_the_way() {
    let mut batcher = ChangeBatcher::new(7);
    let mut applied: Vec<usize> = vec![];
    for i in 0..50usize {
        applied.extend(batcher.on_change(i, i % 4).unwrap_or_default());
        if i % 11 == 0 {
            applied.extend(batcher.on_tick().unwrap_or_default());
        }
    }
    for i in 50..60usize {
        applied.extend(batcher.on_drain(i, i % 4).unwrap_or_default());
    }
    applied.extend(batcher.finish());
    assert_eq!(applied, (0..60).collect::<Vec<_>>());
}

#[test]
fn connections_are_accepted_until_the_end() {
    assert_eq!(on_accept(Accepted::Connecting), AcceptStep::Handle);
    assert_eq!(on_accept(Accepted::Closed), AcceptStep::Stop);
    assert_eq!(on_accept(Accepted::Preempted), AcceptStep::Shutdown);
}

#[test]
fn announcing_backs_off_and_then_goes_on() {
    assert_eq!(announce_delay(Some(5_000_000_000), 7), 5_000_000_000);
    assert_eq!(announce_delay(None, 7), 7);
}
