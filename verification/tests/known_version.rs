use corro_sync::chunks::{
    empty_version, ChunkError, ChunkSender, ChunkStep, NextChunk, MAX_CHANGES_BYTES_PER_MESSAGE,
};
use corro_sync::known::{
    current_plan, handle_known_version, BufferedStep, BufferedVersion, CurrentPlan, KnownVersion,
    PartialVersion,
};
use corro_sync::message::{ActorId, ChangeV1, Changeset};
use corro_sync::span::Span;
use rangemap::RangeInclusiveSet;

#[derive(Clone, Debug, PartialEq, Eq)]
struct Change {
    table: &'static str,
    pk: Vec<u8>,
    cid: &'static str,
    val: &'static str,
    col_version: i64,
    db_version: u64,
    seq: u64,
    site_id: [u8; 16],
    cl: i64,
}

fn span(start: u64, end: u64) -> Span {
    Span { start, end }
}

fn set(ranges: &[(u64, u64)]) -> RangeInclusiveSet<u64> {
    ranges.iter().map(|(start, end)| *start..=*end).collect()
}

/// Serves a version that is here in full: `row` is its bookkeeping row, `stored` are
/// its changes.
fn serve_current(
    actor_id: ActorId,
    version: u64,
    row: Option<(Option<u64>, Option<u64>)>,
    stored: &[Change],
    seqs_needed: Vec<Span>,
) -> Vec<ChangeV1<Change>> {
    let mut sent = vec![];
    let seqs_needed = match handle_known_version(None, seqs_needed) {
        KnownVersion::Current { seqs_needed } => seqs_needed,
        KnownVersion::Buffered(_) => panic!("the version is here in full"),
    };
    match current_plan(row, seqs_needed) {
        CurrentPlan::Empty => sent.push(empty_version(actor_id, version)),
        CurrentPlan::Ranges { seqs, last_seq, ts } => {
            for range in seqs {
                let mut sender = ChunkSender::new(actor_id, version, last_seq, ts);
                let changes = stored
                    .iter()
                    .filter(|change| range.start <= change.seq && change.seq <= range.end)
                    .cloned()
                    .collect();
                let mut next = NextChunk::Chunk { changes, seqs: range };
                loop {
                    match sender.send_change_chunks(false, next) {
                        Ok(ChunkStep::Send(message)) => sent.push(message),
                        Ok(ChunkStep::Stop) => break,
                        Err(error) => panic!("{error:?}"),
                    }
                    assert_eq!(sender.after_send(1), Ok(None));
                    next = NextChunk::End;
                }
            }
        }
    }
    sent
}

#[test]
fn test_handle_known_version() {
    let actor_id: ActorId = 0x0102_0304_0506_0708_090a_0b0c_0d0e_0f10;
    let site_id = actor_id.to_be_bytes();
    let ts = 7_300_000_000_000_000_000u64;

    let change1 = Change {
        table: "tests",
        pk: vec![1, 9, 1],
        cid: "text",
        val: "one",
        col_version: 1,
        db_version: 1,
        seq: 0,
        site_id,
        cl: 1,
    };
    let change2 = Change {
        table: "tests",
        pk: vec![1, 9, 2],
        cid: "text",
        val: "two",
        col_version: 1,
        db_version: 2,
        seq: 0,
        site_id,
        cl: 1,
    };

    let sent = serve_current(
        actor_id,
        1,
        Some((Some(0), Some(ts))),
        &[change1.clone()],
        vec![span(0, 0)],
    );
    assert_eq!(
        sent,
        vec![ChangeV1 {
            actor_id,
            changeset: Changeset::Full {
                version: 1,
                changes: vec![change1],
                seqs: span(0, 0),
                last_seq: 0,
                ts,
            }
        }]
    );

    let sent = serve_current(
        actor_id,
        2,
        Some((Some(0), Some(ts))),
        &[change2.clone()],
        vec![span(0, 0)],
    );
    assert_eq!(
        sent,
        vec![ChangeV1 {
            actor_id,
            changeset: Changeset::Full {
                version: 2,
                changes: vec![change2],
                seqs: span(0, 0),
                last_seq: 0,
                ts,
            }
        }]
    );

    // the third version overrode the one change of the first
    let emptied = vec![ChangeV1 {
        actor_id,
        changeset: Changeset::Empty { versions: span(1, 1) },
    }];
    assert_eq!(
        serve_current(actor_id, 1, Some((Some(0), Some(ts))), &[], vec![span(0, 0)]),
        emptied
    );
    assert_eq!(serve_current(actor_id, 1, None, &[], vec![span(0, 0)]), emptied);
}

#[test]
fn a_version_without_a_complete_row_is_empty() {
    assert!(matches!(current_plan(None, vec![]), CurrentPlan::Empty));
    assert!(matches!(current_plan(Some((None, Some(1))), vec![]), CurrentPlan::Empty));
    assert!(matches!(current_plan(Some((Some(1), None)), vec![]), CurrentPlan::Empty));
}

#[test]
fn without_particular_seqs_a_whole_version_is_sent() {
    match current_plan(Some((Some(12), Some(34))), vec![]) {
        CurrentPlan::Ranges { seqs, last_seq, ts } => {
            assert_eq!(seqs, vec![span(0, 12)]);
            assert_eq!((last_seq, ts), (12, 34));
        }
        CurrentPlan::Empty => panic!("the version is not empty"),
    }
}

fn buffered(held: &[(u64, u64)], last_seq: u64, needed: Vec<Span>) -> BufferedVersion {
    let partial = PartialVersion { seqs: set(held), last_seq };
    match handle_known_version(Some(partial), needed) {
        KnownVersion::Buffered(buffered) => buffered,
        KnownVersion::Current { .. } => panic!("the version is here in part"),
    }
}

/// Serves a partial version while what is here does not change; gives what was sent.
fn serve_unchanged(held: &[(u64, u64)], last_seq: u64, needed: Vec<Span>) -> Vec<Span> {
    let mut version = buffered(held, last_seq, needed);
    let mut sent = vec![];
    loop {
        match version.step() {
            BufferedStep::CheckPartial => version.on_partial(Some(set(held))),
            BufferedStep::ReadBuffered(_) => version.on_buffered(Some((last_seq, 99))),
            BufferedStep::SendBuffered { seqs, last_seq: last, ts } => {
                assert_eq!((last, ts), (last_seq, 99));
                sent.push(seqs);
                version.on_sent();
            }
            BufferedStep::Done => return sent,
        }
    }
}

#[test]
fn of_a_partial_version_what_is_here_and_needed_is_sent() {
    let sent = serve_unchanged(&[(2, 7), (12, 20)], 30, vec![span(0, 10), span(5, 15)]);
    assert_eq!(sent, vec![span(2, 7), span(5, 7), span(12, 15)]);
}

#[test]
fn of_a_partial_version_everything_is_sent_if_nothing_is_named() {
    assert_eq!(
        serve_unchanged(&[(0, 3), (8, 9)], 9, vec![]),
        vec![span(0, 3), span(8, 9)]
    );
}

#[test]
fn what_is_sent_is_just_what_is_held_and_needed() {
    let held = [(1, 4), (6, 6), (9, 30)];
    let needed = span(3, 12);
    let sent = serve_unchanged(&held, 30, vec![needed]);
    for x in 0u64..40 {
        let here = held.iter().any(|(start, end)| *start <= x && x <= *end);
        let times = sent.iter().filter(|range| range.start <= x && x <= range.end).count();
        assert_eq!(times, if here && needed.start <= x && x <= needed.end { 1 } else { 0 });
    }
}

#[test]
fn nothing_is_sent_of_what_is_not_here() {
    assert_eq!(serve_unchanged(&[(0, 3)], 30, vec![span(4, 9)]), vec![]);
}

#[test]
fn a_changed_version_goes_on_after_what_was_sent() {
    let mut version = buffered(&[(0, 2), (5, 6)], 9, vec![span(0, 9)]);
    assert_eq!(version.step(), BufferedStep::CheckPartial);
    version.on_partial(Some(set(&[(0, 2), (5, 6)])));
    assert_eq!(version.step(), BufferedStep::ReadBuffered(span(0, 2)));
    version.on_buffered(Some((9, 1)));
    assert_eq!(
        version.step(),
        BufferedStep::SendBuffered { seqs: span(0, 2), last_seq: 9, ts: 1 }
    );
    version.on_sent();
    assert_eq!(version.step(), BufferedStep::CheckPartial);
    // 3 and 4 arrived in the meantime: 0..=2 is not sent again
    version.on_partial(Some(set(&[(0, 6)])));
    assert_eq!(version.step(), BufferedStep::CheckPartial);
    version.on_partial(Some(set(&[(0, 6)])));
    assert_eq!(version.step(), BufferedStep::ReadBuffered(span(3, 6)));
}

#[test]
fn a_version_that_is_no_longer_partial_ends_the_sending() {
    let mut version = buffered(&[(0, 2)], 9, vec![span(0, 9), span(1, 1)]);
    version.on_partial(None);
    assert_eq!(version.step(), BufferedStep::Done);
}

#[test]
fn a_buffered_range_that_is_gone_ends_the_needed_range() {
    let mut version = buffered(&[(0, 2), (5, 6)], 9, vec![span(0, 9), span(1, 1)]);
    version.on_partial(Some(set(&[(0, 2), (5, 6)])));
    version.on_buffered(None);
    assert_eq!(version.step(), BufferedStep::CheckPartial);
    version.on_partial(Some(set(&[(0, 2), (5, 6)])));
    assert_eq!(version.step(), BufferedStep::ReadBuffered(span(1, 1)));
}

#[test]
fn sending_stops_when_nobody_takes_the_messages() {
    let sender = ChunkSender::new(1, 2, 3, 4);
    let next = NextChunk::Chunk { changes: vec![1u8], seqs: span(0, 3) };
    assert!(matches!(sender.send_change_chunks(true, next), Err(ChunkError::SenderClosed)));
}

#[test]
fn sending_stops_when_changes_cannot_be_read() {
    let sender = ChunkSender::new(1, 2, 3, 4);
    let step = sender.send_change_chunks::<u8>(false, NextChunk::Failed);
    assert!(matches!(step, Ok(ChunkStep::Stop)));
}

#[test]
fn an_empty_part_of_a_version_is_not_an_empty_version() {
    let sender = ChunkSender::new(1, 2, 3, 4);
    let next = NextChunk::<u8>::Chunk { changes: vec![], seqs: span(1, 3) };
    match sender.send_change_chunks(false, next) {
        Ok(ChunkStep::Send(message)) => assert_eq!(
            message,
            ChangeV1 {
                actor_id: 1,
                changeset: Changeset::Full {
                    version: 2,
                    changes: vec![],
                    seqs: span(1, 3),
                    last_seq: 3,
                    ts: 4
                }
            }
        ),
        _ => panic!("a message is due"),
    }
}

#[test]
fn messages_shrink_three_times_before_a_slow_peer_is_given_up() {
    let mut sender = ChunkSender::new(1, 2, 3, 4);
    assert_eq!(sender.max_buf_size, MAX_CHANGES_BYTES_PER_MESSAGE);
    assert_eq!(sender.after_send(500_000_000), Ok(None));
    assert_eq!(sender.after_send(500_000_001), Ok(Some(4096)));
    assert_eq!(sender.after_send(5_000_000_000), Ok(Some(2048)));
    assert_eq!(sender.after_send(500_000_001), Ok(Some(1024)));
    assert_eq!(sender.after_send(10), Ok(None));
    assert_eq!(sender.after_send(500_000_001), Err(ChunkError::PeerTooSlowReduced));
    assert_eq!(sender.max_buf_size, 1024);
}

#[test]
fn one_message_that_takes_too_long_ends_the_sending() {
    let mut sender = ChunkSender::new(1, 2, 3, 4);
    assert_eq!(sender.after_send(5_000_000_001), Err(ChunkError::PeerTooSlow));
    assert_eq!(sender.max_buf_size, 8192);
}

#[test]
fn errors_of_sending_say_what_is_wrong() {
    assert_eq!(ChunkError::SenderClosed.message(), "sync message sender channel is closed");
    assert_eq!(ChunkError::PeerTooSlow.message(), "time out: peer is too slow");
    assert_eq!(
        ChunkError::PeerTooSlowReduced.message(),
        "time out: peer is too slow even after reducing throughput"
    );
}
