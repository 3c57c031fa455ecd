use std::collections::{BTreeMap, VecDeque};

use corro_sync::error::{SyncError, SyncRecvError, SyncSendError};
use corro_sync::greet::Greeting;
use corro_sync::message::{ActorId, SyncMessage, SyncNeed, SyncRejection};
use corro_sync::requester::{RequestStep, Requester, ServerQueue};
use corro_sync::requests::Requested;
use corro_sync::span::Span;
use corro_sync::sync::{
    arrange_needs, collect_greeted, expect_clock, expect_state, in_time, is_askable, plan_requests,
    push_needs, read_sync_msg, split, Syncer,
};

type Message = SyncMessage<&'static str, &'static str>;

fn full(start: u64, end: u64) -> SyncNeed {
    SyncNeed::Full { versions: Span { start, end } }
}

fn partial(version: u64, seqs: &[(u64, u64)]) -> SyncNeed {
    SyncNeed::Partial {
        version,
        seqs: seqs.iter().map(|(start, end)| Span { start: *start, end: *end }).collect(),
    }
}

#[test]
fn a_read_in_time_is_what_it_is() {
    assert_eq!(in_time(Some(Ok(Some(5)))), Ok(Some(5)));
    assert_eq!(in_time::<u8>(Some(Ok(None))), Ok(None));
    assert_eq!(in_time::<u8>(None), Err(SyncRecvError::TimedOut));
}

#[test]
fn a_frame_is_read_as_a_message() {
    assert_eq!(read_sync_msg::<u8>(None), Ok(None));
    assert_eq!(read_sync_msg(Some(Ok(Ok(3)))), Ok(Some(3)));
    assert_eq!(
        read_sync_msg::<u8>(Some(Ok(Err("bad".to_string())))),
        Err(SyncRecvError::Decode("bad".to_string()))
    );
    assert_eq!(
        read_sync_msg::<u8>(Some(Err("gone".to_string()))),
        Err(SyncRecvError::Io("gone".to_string()))
    );
}

#[test]
fn the_first_answer_is_a_state_or_a_rejection() {
    assert_eq!(expect_state(Ok(Some(Message::State("state")))), Ok("state"));
    assert_eq!(
        expect_state(Ok(Some(Message::Rejection(SyncRejection::MaxConcurrencyReached)))),
        Err(SyncError::Rejection(SyncRejection::MaxConcurrencyReached))
    );
    assert_eq!(
        expect_state(Ok(Some(Message::Clock(1)))),
        Err(SyncError::Recv(SyncRecvError::ExpectedSyncState))
    );
    assert_eq!(
        expect_state::<&str, &str>(Ok(None)),
        Err(SyncError::Recv(SyncRecvError::UnexpectedEndOfStream))
    );
    assert_eq!(
        expect_state::<&str, &str>(Err(SyncRecvError::TimedOut)),
        Err(SyncError::Recv(SyncRecvError::TimedOut))
    );
}

#[test]
fn the_second_answer_is_the_time() {
    assert_eq!(expect_clock(Ok(Some(Message::Clock(17)))), Ok(17));
    assert_eq!(
        expect_clock(Ok(Some(Message::State("state")))),
        Err(SyncError::Recv(SyncRecvError::ExpectedClockMessage))
    );
    assert_eq!(
        expect_clock::<&str, &str>(Ok(None)),
        Err(SyncError::Recv(SyncRecvError::UnexpectedEndOfStream))
    );
    assert_eq!(
        expect_clock::<&str, &str>(Err(SyncRecvError::Io("x".to_string()))),
        Err(SyncError::Recv(SyncRecvError::Io("x".to_string())))
    );
}

#[test]
fn peers_that_fail_do_not_matter_if_one_does_not() {
    let error = || SyncError::Transport("no".to_string());
    assert_eq!(
        collect_greeted(vec![(1, Err(error())), (2, Ok("b")), (3, Err(error()))]),
        Ok(vec![(2, "b")])
    );
    assert_eq!(collect_greeted::<u8>(vec![]), Ok(vec![]));
}

#[test]
fn if_all_peers_fail_the_last_error_counts() {
    assert_eq!(
        collect_greeted::<u8>(vec![
            (1, Err(SyncError::Transport("first".to_string()))),
            (2, Err(SyncError::Rejection(SyncRejection::DifferentCluster))),
        ]),
        Err(SyncError::Rejection(SyncRejection::DifferentCluster))
    );
}

#[test]
fn needs_for_many_versions_are_cut_up() {
    let pieces = split(vec![full(1, 25), partial(7, &[(0, 3), (5, 100)]), full(4, 4)]);
    assert_eq!(
        pieces,
        vec![
            full(1, 11),
            full(11, 21),
            full(21, 25),
            partial(7, &[(0, 3), (5, 100)]),
            full(4, 4)
        ]
    );
}

#[test]
fn needs_are_appended_in_their_order() {
    let mut queue: VecDeque<(ActorId, SyncNeed)> = VecDeque::from([(1, full(1, 2))]);
    push_needs(&mut queue, 2, vec![full(3, 4), full(5, 6)]);
    assert_eq!(queue, VecDeque::from([(1, full(1, 2)), (2, full(3, 4)), (2, full(5, 6))]));
}

fn key(need: &SyncNeed) -> (u64, u64) {
    match need {
        SyncNeed::Full { versions } => (versions.start, versions.end),
        SyncNeed::Partial { version, .. } => (*version, 0),
    }
}

#[test]
fn a_queue_asks_for_every_piece_once_one_actor_after_the_other() {
    let queue = arrange_needs(vec![(9, vec![full(0, 1000)]), (4, vec![full(0, 35)])]);
    let actors: Vec<ActorId> = queue.iter().map(|(actor_id, _)| *actor_id).collect();
    assert_eq!(actors[..101], [9; 101]);
    assert_eq!(actors[101..], [4; 4]);
    let mut pieces: Vec<(u64, u64)> = queue.iter().take(101).map(|(_, need)| key(need)).collect();
    let in_order: Vec<(u64, u64)> = split(vec![full(0, 1000)]).iter().map(key).collect();
    // 101 pieces stay in their order with a chance of one in more than 10^150
    assert_ne!(pieces, in_order);
    pieces.sort();
    assert_eq!(pieces, in_order);
}

#[test]
fn peers_that_can_give_nothing_are_left_out() {
    let syncers = vec![
        Syncer { actor_id: 1, needs: vec![], conn: "one" },
        Syncer { actor_id: 2, needs: vec![(8, vec![full(3, 5)])], conn: "two" },
        Syncer { actor_id: 3, needs: vec![(8, vec![partial(6, &[(1, 2)])])], conn: "three" },
    ];
    let (readers, servers) = plan_requests(syncers);
    assert_eq!(readers, vec![(2, "two"), (3, "three")]);
    assert_eq!(servers.len(), 2);
    assert_eq!(servers[0].server, 0);
    assert_eq!(servers[0].needs, VecDeque::from([(8, full(3, 5))]));
    assert_eq!(servers[1].server, 1);
    assert_eq!(servers[1].needs, VecDeque::from([(8, partial(6, &[(1, 2)]))]));
}

#[test]
fn what_was_asked_for_is_not_asked_for_again() {
    let mut requested = Requested::new();
    assert_eq!(requested.outstanding(1, full(3, 8)), vec![full(3, 8)]);
    assert_eq!(requested.outstanding(1, full(3, 8)), vec![]);
    assert_eq!(requested.outstanding(1, full(5, 5)), vec![]);
    assert_eq!(requested.outstanding(1, full(0, 20)), vec![full(0, 2), full(9, 20)]);
    assert_eq!(requested.outstanding(2, full(3, 8)), vec![full(3, 8)]);
}

#[test]
fn the_pieces_of_a_need_share_no_version_when_asked_for() {
    let mut requested = Requested::new();
    let asked: Vec<SyncNeed> = split(vec![full(0, 25)])
        .into_iter()
        .flat_map(|piece| requested.outstanding(1, piece))
        .collect();
    assert_eq!(asked, vec![full(0, 10), full(11, 20), full(21, 25)]);
}

#[test]
fn the_parts_of_a_version_go_out_merged_and_once() {
    let mut requested = Requested::new();
    assert_eq!(
        requested.outstanding(1, partial(5, &[(7, 9), (0, 2), (3, 4)])),
        vec![partial(5, &[(0, 4), (7, 9)])]
    );
    assert_eq!(requested.outstanding(1, partial(5, &[])), vec![]);
    assert_eq!(requested.outstanding(1, partial(5, &[(1, 8)])), vec![partial(5, &[(5, 6)])]);
    assert_eq!(requested.outstanding(1, partial(5, &[(0, 9)])), vec![]);
    assert_eq!(requested.outstanding(1, partial(6, &[(0, 9)])), vec![partial(6, &[(0, 9)])]);
    assert_eq!(requested.outstanding(2, partial(5, &[(0, 9)])), vec![partial(5, &[(0, 9)])]);
    assert_eq!(requested.outstanding(1, full(5, 5)), vec![full(5, 5)]);
}

/// Runs a requester; gives what each peer was asked for, write by write, and the peers
/// in the order in which they were finished.
fn run(servers: VecDeque<ServerQueue>) -> (BTreeMap<usize, Vec<usize>>, Vec<SyncNeed>, Vec<usize>) {
    let mut writes: BTreeMap<usize, Vec<usize>> = BTreeMap::new();
    let mut asked = vec![];
    let mut finished = vec![];
    let (mut requester, mut step) = Requester::new(servers);
    loop {
        step = match step {
            RequestStep::Encode { needs, .. } => {
                let len = needs.len();
                asked.extend(needs);
                requester.on_encoded(Some(vec![1; len]))
            }
            RequestStep::Write { server, bytes } => {
                assert_eq!(requester.buffered(), 0);
                writes.entry(server).or_default().push(bytes.len());
                requester.on_written(true)
            }
            RequestStep::Yield { .. } => requester.on_yielded(),
            RequestStep::Finish { server } => {
                finished.push(server);
                requester.on_finished()
            }
            RequestStep::Done => return (writes, asked, finished),
        };
    }
}

fn queue(server: usize, count: u64) -> ServerQueue {
    ServerQueue { server, needs: (0..count).map(|i| (server as ActorId, full(i, i))).collect() }
}

#[test]
fn peers_take_turns_of_ten_needs() {
    let (writes, asked, finished) = run(VecDeque::from([queue(0, 23), queue(1, 4), queue(2, 0)]));
    // a request is framed in four bytes and one byte of contents
    assert_eq!(writes[&0], vec![50, 50, 15]);
    assert_eq!(writes[&1], vec![20]);
    assert!(!writes.contains_key(&2));
    assert_eq!(asked.len(), 27);
    assert_eq!(finished, vec![1, 0]);
}

#[test]
fn every_need_is_asked_for_once() {
    let (_, asked, _) = run(VecDeque::from([queue(0, 33)]));
    assert_eq!(asked, (0..33).map(|i| full(i, i)).collect::<Vec<_>>());
}

#[test]
fn a_need_without_parts_is_passed_over() {
    let needs = VecDeque::from([(1, partial(2, &[])), (1, full(1, 1)), (1, partial(3, &[]))]);
    let (writes, asked, finished) = run(VecDeque::from([ServerQueue { server: 7, needs }]));
    assert_eq!(asked, vec![full(1, 1)]);
    assert_eq!(writes[&7], vec![5]);
    assert_eq!(finished, vec![7]);
}

#[test]
fn with_nothing_to_write_others_run() {
    let needs = VecDeque::from([(1, partial(2, &[]))]);
    let (mut requester, step) = Requester::new(VecDeque::from([ServerQueue { server: 3, needs }]));
    assert!(matches!(step, RequestStep::Yield { server: 3 }));
    let step = requester.on_yielded();
    assert!(matches!(step, RequestStep::Finish { server: 3 }));
    assert!(matches!(requester.on_finished(), RequestStep::Done));
}

#[test]
fn a_request_that_cannot_be_encoded_gives_the_peer_up() {
    let (mut requester, step) = Requester::new(VecDeque::from([queue(0, 5), queue(1, 1)]));
    assert!(matches!(step, RequestStep::Encode { server: 0, .. }));
    let step = requester.on_encoded(None);
    assert!(matches!(step, RequestStep::Encode { server: 1, .. }));
}

#[test]
fn frames_that_wait_go_to_the_next_peer() {
    let (mut requester, _) = Requester::new(VecDeque::from([queue(0, 5), queue(1, 1)]));
    assert!(matches!(requester.on_encoded(Some(vec![5])), RequestStep::Encode { server: 0, .. }));
    assert_eq!(requester.buffered(), 5);
    assert!(matches!(requester.on_encoded(None), RequestStep::Encode { server: 1, .. }));
    match requester.on_encoded(Some(vec![6])) {
        RequestStep::Write { server: 1, bytes } => {
            assert_eq!(bytes, vec![0, 0, 0, 1, 5, 0, 0, 0, 1, 6]);
        }
        _ => panic!("a write is due"),
    }
}

#[test]
fn a_failed_write_gives_the_peer_up() {
    let (mut requester, _) = Requester::new(VecDeque::from([queue(0, 1)]));
    assert!(matches!(requester.on_encoded(Some(vec![5])), RequestStep::Write { server: 0, .. }));
    assert!(matches!(requester.on_written(false), RequestStep::Done));
}

#[test]
fn with_no_peers_there_is_nothing_to_do() {
    let (_, step) = Requester::new(VecDeque::new());
    assert!(matches!(step, RequestStep::Done));
}

fn asked() -> Greeting<&'static str> {
    Greeting::new().on_opened(Ok(())).on_sent(Ok(())).on_sent(Ok(())).on_sent(Ok(()))
}

#[test]
fn a_peer_is_greeted_step_by_step() {
    let greeting = Greeting::<&str>::new();
    assert_eq!(greeting, Greeting::Open);
    let greeting = greeting.on_opened(Ok(()));
    assert_eq!(greeting, Greeting::SendStart);
    let greeting = greeting.on_sent(Ok(()));
    assert_eq!(greeting, Greeting::SendClock);
    let greeting = greeting.on_sent(Ok(()));
    assert_eq!(greeting, Greeting::Flush);
    let greeting = greeting.on_sent(Ok(()));
    assert_eq!(greeting, Greeting::ReadState);
    let greeting = greeting.on_read(Some(Ok(Some(Message::State("state")))));
    assert_eq!(greeting, Greeting::ReadClock("state"));
    let greeting = greeting.on_read(Some(Ok(Some(Message::Clock(6)))));
    assert_eq!(greeting, Greeting::Greeted { state: "state", ts: 6 });
}

#[test]
fn a_greeting_fails_with_the_first_error() {
    assert_eq!(
        Greeting::<&str>::new().on_opened(Err("no route".to_string())),
        Greeting::Failed(SyncError::Transport("no route".to_string()))
    );
    let steps: Vec<Greeting<&str>> = vec![Greeting::SendStart, Greeting::SendClock, Greeting::Flush];
    for step in steps {
        assert_eq!(
            step.on_sent(Err(SyncSendError::Write("gone".to_string()))),
            Greeting::Failed(SyncError::Send(SyncSendError::Write("gone".to_string())))
        );
    }
    assert_eq!(
        asked().on_read::<&str>(None),
        Greeting::Failed(SyncError::Recv(SyncRecvError::TimedOut))
    );
    assert_eq!(
        asked().on_read(Some(Ok(Some(Message::State("s"))))).on_read::<&str>(None),
        Greeting::Failed(SyncError::Recv(SyncRecvError::TimedOut))
    );
}

#[test]
fn a_refusal_is_the_error_of_the_greeting() {
    let refusal = Message::Rejection(SyncRejection::DifferentCluster);
    assert_eq!(
        asked().on_read(Some(Ok(Some(refusal)))),
        Greeting::Failed(SyncError::Rejection(SyncRejection::DifferentCluster))
    );
}

#[test]
fn needs_out_of_range_cannot_be_asked_for() {
    assert!(is_askable(&full(0, u64::MAX - 11)));
    assert!(is_askable(&full(7, 3)));
    assert!(is_askable(&full(u64::MAX - 10, u64::MAX - 10)));
    assert!(!is_askable(&full(u64::MAX - 9, u64::MAX - 9)));
    assert!(!is_askable(&full(0, u64::MAX)));
    assert!(is_askable(&partial(1, &[(0, u64::MAX), (4, 4)])));
    assert!(is_askable(&partial(1, &[])));
    assert!(!is_askable(&partial(1, &[(0, 1), (5, 4)])));
}

#[test]
fn peers_with_the_same_needs_are_asked_for_them_once() {
    let needs = || VecDeque::from([(1, full(0, 10)), (1, full(10, 20)), (1, partial(30, &[(0, 5)]))]);
    let (writes, asked, finished) = run(VecDeque::from([
        ServerQueue { server: 0, needs: needs() },
        ServerQueue { server: 1, needs: needs() },
    ]));
    assert_eq!(asked, vec![full(0, 10), full(11, 20), partial(30, &[(0, 5)])]);
    assert_eq!(writes[&0], vec![15]);
    assert!(!writes.contains_key(&1));
    assert_eq!(finished, vec![0, 1]);
}

#[test]
fn a_peer_is_asked_for_what_the_others_were_not() {
    let (_, asked, _) = run(VecDeque::from([
        ServerQueue { server: 0, needs: VecDeque::from([(1, full(5, 6)), (2, full(5, 6))]) },
        ServerQueue { server: 1, needs: VecDeque::from([(1, full(0, 9))]) },
    ]));
    assert_eq!(asked, vec![full(5, 6), full(5, 6), full(0, 4), full(7, 9)]);
}

#[test]
fn every_version_that_is_needed_is_asked_for_once() {
    let (_, servers) = plan_requests(vec![
        Syncer { actor_id: 1, needs: vec![(8, vec![full(0, 130)])], conn: () },
        Syncer { actor_id: 2, needs: vec![(8, vec![full(50, 200)])], conn: () },
    ]);
    let (_, asked, _) = run(servers);
    for version in 0u64..300 {
        let times = asked
            .iter()
            .filter(|need| match need {
                SyncNeed::Full { versions } => versions.start <= version && version <= versions.end,
                SyncNeed::Partial { .. } => false,
            })
            .count();
        assert_eq!(times, if version <= 200 { 1 } else { 0 });
    }
}
