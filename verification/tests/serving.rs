use std::collections::HashMap;

use corro_sync::error::{SyncError, SyncRecvError, SyncSendError};
use corro_sync::jobs::{
    after_job, group_requests, plan_actor_jobs, plan_jobs, BookedVersions, JobStep,
};
use corro_sync::known::PartialVersion;
use corro_sync::message::{SyncMessage, SyncNeed, SyncRejection};
use corro_sync::receive::{
    changes_len, sum_all, total_received, ChangesReceiver, ReceiveStep, RequestsReceiver,
};
use corro_sync::serve::{after_clock, after_permit, after_sent, serve_sync, served, ServeStep};
use corro_sync::span::Span;

type Message = SyncMessage<&'static str, &'static str>;

fn span(start: u64, end: u64) -> Span {
    Span { start, end }
}

fn full(start: u64, end: u64) -> SyncNeed {
    SyncNeed::Full { versions: span(start, end) }
}

#[test]
fn a_peer_of_another_cluster_is_refused() {
    assert_eq!(serve_sync(1, 2), ServeStep::Reject(SyncRejection::DifferentCluster));
    let refused = ServeStep::Reject(SyncRejection::DifferentCluster);
    assert_eq!(after_sent(refused, Ok(())), ServeStep::Finished(Ok(0)));
}

#[test]
fn a_peer_without_a_permit_is_refused() {
    assert_eq!(serve_sync(3, 3), ServeStep::ReadClock);
    assert_eq!(after_permit(false), ServeStep::Reject(SyncRejection::MaxConcurrencyReached));
    assert_eq!(after_permit(true), ServeStep::SendState);
}

#[test]
fn what_cannot_be_sent_is_an_error() {
    let steps = vec![
        ServeStep::Reject(SyncRejection::MaxConcurrencyReached),
        ServeStep::SendState,
        ServeStep::SendClock,
        ServeStep::Flush,
    ];
    for step in steps {
        assert_eq!(
            after_sent(step, Err(SyncSendError::ChannelClosed)),
            ServeStep::Finished(Err(SyncError::Send(SyncSendError::ChannelClosed)))
        );
    }
}

#[test]
fn a_peer_that_is_served_gets_the_state_and_the_time() {
    assert_eq!(after_sent(ServeStep::SendState, Ok(())), ServeStep::SendClock);
    assert_eq!(after_sent(ServeStep::SendClock, Ok(())), ServeStep::Flush);
    assert_eq!(after_sent(ServeStep::Flush, Ok(())), ServeStep::Serve);
    assert_eq!(after_sent(ServeStep::Serve, Ok(())), ServeStep::Serve);
}

#[test]
fn a_peer_tells_the_time_first() {
    assert_eq!(after_clock(Ok(Some(Message::Clock(8)))), ServeStep::AcquirePermit { ts: 8 });
    assert_eq!(
        after_clock(Ok(Some(Message::State("s")))),
        ServeStep::Finished(Err(SyncError::Recv(SyncRecvError::ExpectedClockMessage)))
    );
    assert_eq!(
        after_clock::<&str, &str>(Ok(None)),
        ServeStep::Finished(Err(SyncError::Recv(SyncRecvError::UnexpectedEndOfStream)))
    );
    assert_eq!(
        after_clock::<&str, &str>(Err(SyncRecvError::Decode("d".to_string()))),
        ServeStep::Finished(Err(SyncError::Recv(SyncRecvError::Decode("d".to_string()))))
    );
}

#[test]
fn neighbouring_needs_of_an_actor_are_put_together() {
    let requests = vec![
        vec![(1, vec![full(1, 2)]), (1, vec![full(3, 4)])],
        vec![(1, vec![full(5, 6)]), (2, vec![full(7, 8)])],
        vec![],
        vec![(1, vec![full(9, 9)])],
    ];
    assert_eq!(
        group_requests(requests),
        vec![
            (1, vec![full(1, 2), full(3, 4), full(5, 6)]),
            (2, vec![full(7, 8)]),
            (1, vec![full(9, 9)]),
        ]
    );
}

#[test]
fn known_versions_are_served_whole_ones_first() {
    let partials = HashMap::from([(
        4u64,
        PartialVersion { seqs: [2u64..=7].into_iter().collect(), last_seq: 20 },
    )]);
    let booked = BookedVersions { known: [1u64..=2, 4..=6].into_iter().collect(), partials };
    let jobs = plan_jobs(
        &booked,
        vec![
            SyncNeed::Partial { version: 4, seqs: vec![span(0, 3)] },
            full(2, 5),
            SyncNeed::Partial { version: 3, seqs: vec![span(0, 3)] },
        ],
    );
    let shown: Vec<(u64, Option<u64>, Vec<Span>)> = jobs
        .iter()
        .map(|job| {
            let last_seq = job.partial.as_ref().map(|partial| partial.last_seq);
            (job.version, last_seq, job.seqs_needed.clone())
        })
        .collect();
    assert_eq!(
        shown,
        vec![
            (2, None, vec![]),
            (4, Some(20), vec![]),
            (5, None, vec![]),
            (4, Some(20), vec![span(0, 3)]),
        ]
    );
    let held = jobs[1].partial.as_ref().map(|partial| partial.seqs.clone());
    assert_eq!(held, Some([2u64..=7].into_iter().collect()));
}

#[test]
fn the_last_version_of_all_is_served() {
    let booked =
        BookedVersions { known: [u64::MAX..=u64::MAX].into_iter().collect(), partials: HashMap::new() };
    let jobs = plan_jobs(&booked, vec![full(u64::MAX - 2, u64::MAX)]);
    assert_eq!(jobs.iter().map(|job| job.version).collect::<Vec<_>>(), vec![u64::MAX]);
}

#[test]
fn an_empty_set_of_changes_counts_for_one() {
    assert_eq!(changes_len(0), 1);
    assert_eq!(changes_len(1), 1);
    assert_eq!(changes_len(9), 9);
}

#[test]
fn changes_are_passed_on_and_counted() {
    let mut receiver = ChangesReceiver::new();
    let step = receiver.on_read(Ok(Some(Message::Changeset { change: "a", len: 5 })));
    assert_eq!(step, ReceiveStep::Forward("a"));
    let step = receiver.on_read(Ok(Some(Message::Changeset { change: "b", len: 0 })));
    assert_eq!(step, ReceiveStep::Forward("b"));
    assert_eq!(receiver.on_read(Ok(Some(Message::Clock(3)))), ReceiveStep::Ignore);
    assert_eq!(receiver.on_read(Ok(Some(Message::State("s")))), ReceiveStep::Ignore);
    assert_eq!(receiver.on_read(Ok(Some(Message::Request(vec![])))), ReceiveStep::Ignore);
    assert_eq!(receiver.on_read::<&str, &str>(Ok(None)), ReceiveStep::Stop(Ok(6)));
    assert_eq!(
        receiver.on_read::<&str, &str>(Err(SyncRecvError::Io("x".to_string()))),
        ReceiveStep::Stop(Ok(6))
    );
    assert_eq!(
        receiver.on_read(Ok(Some(Message::Rejection(SyncRejection::DifferentCluster)))),
        ReceiveStep::Stop(Err(SyncError::Rejection(SyncRejection::DifferentCluster)))
    );
    assert_eq!(
        receiver.on_closed(),
        SyncError::Recv(SyncRecvError::ChangesChannelClosed)
    );
}

#[test]
fn requests_are_passed_on_and_counted() {
    let mut receiver = RequestsReceiver::new();
    let request = || vec![(1, vec![full(1, 3)]), (2, vec![full(4, 4), full(5, 6)])];
    let counts = vec![vec![3], vec![1, 2]];
    assert_eq!(sum_all(&counts), 6);
    let step = receiver.on_read(Ok(Some(Message::Request(request()))), &counts);
    assert_eq!(step, ReceiveStep::Forward(request()));
    let changeset = Ok(Some(Message::Changeset { change: "a", len: 5 }));
    assert_eq!(receiver.on_read(changeset, &vec![]), ReceiveStep::Ignore);
    assert_eq!(receiver.on_read(Ok(Some(Message::Clock(1))), &vec![]), ReceiveStep::Ignore);
    assert_eq!(receiver.on_read(Ok(Some(Message::State("s"))), &vec![]), ReceiveStep::Ignore);
    assert_eq!(receiver.on_read::<&str, &str>(Ok(None), &vec![]), ReceiveStep::Stop(Ok(6)));
    assert_eq!(
        receiver.on_read::<&str, &str>(Err(SyncRecvError::TimedOut), &vec![]),
        ReceiveStep::Stop(Ok(6))
    );
    assert_eq!(
        receiver.on_read(
            Ok(Some(Message::Rejection(SyncRejection::MaxConcurrencyReached))),
            &vec![]
        ),
        ReceiveStep::Stop(Err(SyncError::Rejection(SyncRejection::MaxConcurrencyReached)))
    );
    assert_eq!(
        receiver.on_closed(),
        SyncError::Recv(SyncRecvError::RequestsChannelClosed)
    );
}

#[test]
fn peers_that_failed_count_for_nothing() {
    let counts = vec![
        Ok(4),
        Err(SyncError::Recv(SyncRecvError::ChangesChannelClosed)),
        Ok(0),
        Ok(9),
    ];
    assert_eq!(total_received(&counts), 13);
    assert_eq!(total_received(&vec![]), 0);
}

#[test]
fn an_actor_that_is_not_known_is_passed_over() {
    assert!(plan_actor_jobs(&None, vec![full(1, 9)]).is_empty());
    let booked =
        BookedVersions { known: [3u64..=4].into_iter().collect(), partials: HashMap::new() };
    let jobs = plan_actor_jobs(&Some(booked), vec![full(1, 9)]);
    assert_eq!(jobs.iter().map(|job| job.version).collect::<Vec<_>>(), vec![3, 4]);
}

#[test]
fn the_first_job_that_fails_ends_the_serving() {
    assert_eq!(after_job::<&str>(Some(Ok(()))), JobStep::GoOn);
    assert_eq!(after_job(Some(Err("broken"))), JobStep::End(Err("broken")));
    assert_eq!(after_job::<&str>(None), JobStep::End(Ok(())));
}

#[test]
fn what_could_not_be_sent_does_not_change_the_result() {
    let failed = || Err(SyncError::Send(SyncSendError::ChannelClosed));
    assert_eq!(served(failed(), Ok(7)), Ok(7));
    assert_eq!(served(Ok(3), failed()), failed());
    assert_eq!(served(Ok(3), Ok(7)), Ok(7));
}
