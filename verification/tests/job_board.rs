use orchestration::job_board::{
    BoardConfig, BoardError, JobBoard, JobId, JobStatus, ListenerRegistration, OwnerId, SegmentState,
    WakeDecision, WakeGate,
};

#[test]
fn open_job_mints_distinct_ids_under_one_owner() {
    let mut board = JobBoard::new(BoardConfig::default());
    let first = board.open_job(OwnerId::new("worker"), 1);
    let second = board.open_job(OwnerId::new("worker"), 1);
    assert_ne!(first.id, second.id);
    assert_eq!(first.owner, second.owner);
}

#[test]
fn job_id_displays_with_prefix() {
    assert_eq!(JobId(42).to_string(), "job-42");
    assert_eq!(OwnerId::new("worker").to_string(), "worker");
}

#[test]
fn wrong_owner_is_refused_and_observation_needs_only_the_id() {
    let mut board = JobBoard::new(BoardConfig::default());
    let handle = board.open_job(OwnerId::new("alice"), 2);
    let mut forged = handle.clone();
    forged.owner = OwnerId::new("mallory");
    assert_eq!(board.append(&forged, b"x"), Err(BoardError::WrongOwner { job: handle.id }));
    assert_eq!(board.append(&handle, b"hello"), Ok(0));
    assert_eq!(board.append(&handle, b" world"), Ok(5));
    let slice = board.read_at(handle.id, 0).unwrap();
    assert_eq!(slice.bytes, b"hello world".to_vec());
    assert_eq!(board.read_at(JobId(99), 0).unwrap_err(), BoardError::UnknownJob(JobId(99)));
}

#[test]
fn cancel_skips_only_queued_segments() {
    let mut board = JobBoard::new(BoardConfig::default());
    let handle = board.open_job(OwnerId::new("alice"), 3);
    assert_eq!(board.start_next_segment(&handle), Ok(Some(0)));
    assert_eq!(board.finish_segment(&handle, 0), Ok(()));
    assert_eq!(board.start_next_segment(&handle), Ok(Some(1)));
    assert_eq!(
        board.finish_segment(&handle, 2),
        Err(BoardError::BadSegment { job: handle.id, segment: 2 })
    );
    let report = board.cancel(&handle).unwrap();
    assert_eq!(report.outcome.status, JobStatus::Cancelled);
    assert_eq!(report.outcome.skipped_segments, 1);
    assert_eq!(
        board.segment_states(handle.id).unwrap(),
        vec![SegmentState::Finished, SegmentState::Started, SegmentState::Skipped]
    );
    // the owner still has a started segment on a settled job only: idle
    assert_eq!(report.owner_wake, Some(WakeDecision::Proceed));
    assert_eq!(board.status(handle.id), Ok(JobStatus::Cancelled));
}

#[test]
fn settled_job_refuses_further_work() {
    let mut board = JobBoard::new(BoardConfig::default());
    let handle = board.open_job(OwnerId::new("alice"), 1);
    board.append(&handle, b"out").unwrap();
    board.settle(&handle).unwrap();
    assert_eq!(board.append(&handle, b"more"), Err(BoardError::AlreadySettled(handle.id)));
    assert_eq!(board.settle(&handle).unwrap_err(), BoardError::AlreadySettled(handle.id));
    assert_eq!(board.start_next_segment(&handle), Err(BoardError::AlreadySettled(handle.id)));
    // produced output stays readable
    assert_eq!(board.read_at(handle.id, 0).unwrap().bytes, b"out".to_vec());
}

#[test]
fn waiters_are_released_once_and_listeners_handed_out_once() {
    let mut board = JobBoard::new(BoardConfig::default());
    let handle = board.open_job(OwnerId::new("alice"), 0);
    let waiter = board.wait_for_completion(handle.id).unwrap();
    let _second = board.wait_for_completion(handle.id).unwrap();
    assert_eq!(board.poll_completion(&waiter), None);
    let token = match board.on_completion(handle.id).unwrap() {
        ListenerRegistration::Registered(t) => t,
        other => panic!("unexpected {other:?}"),
    };
    let report = board.settle(&handle).unwrap();
    assert_eq!(report.waiters_released, 2);
    assert_eq!(report.listeners, vec![token]);
    assert_eq!(board.poll_completion(&waiter).map(|o| o.status), Some(JobStatus::Completed));
    match board.on_completion(handle.id).unwrap() {
        ListenerRegistration::AlreadySettled(o) => assert_eq!(o.status, JobStatus::Completed),
        other => panic!("unexpected {other:?}"),
    }
}

#[test]
fn follow_up_wakes_are_capped_until_progress() {
    let mut board = JobBoard::new(BoardConfig { ring_capacity_bytes: 64, max_consecutive_wakes: 1 });
    let owner = OwnerId::new("alice");
    let a = board.open_job(owner.clone(), 0);
    let b = board.open_job(owner.clone(), 0);
    let c = board.open_job(owner.clone(), 0);
    assert_eq!(board.settle(&a).unwrap().owner_wake, Some(WakeDecision::Proceed));
    assert_eq!(board.settle(&b).unwrap().owner_wake, Some(WakeDecision::Suppressed));
    assert_eq!(board.consecutive_wakes(&owner), 1);
    board.record_progress(&owner);
    assert_eq!(board.consecutive_wakes(&owner), 0);
    assert_eq!(board.settle(&c).unwrap().owner_wake, Some(WakeDecision::Proceed));
}

#[test]
fn busy_owner_gets_no_wake() {
    let mut board = JobBoard::new(BoardConfig::default());
    let owner = OwnerId::new("alice");
    let running = board.open_job(owner.clone(), 1);
    let done = board.open_job(owner.clone(), 0);
    board.start_next_segment(&running).unwrap();
    assert_eq!(board.settle(&done).unwrap().owner_wake, None);
}

#[test]
fn remove_job_requires_settlement() {
    let mut board = JobBoard::new(BoardConfig::default());
    let handle = board.open_job(OwnerId::new("alice"), 0);
    assert_eq!(board.remove_job(handle.id), Err(BoardError::NotSettled(handle.id)));
    board.settle(&handle).unwrap();
    assert_eq!(board.remove_job(handle.id), Ok(()));
    assert_eq!(board.status(handle.id), Err(BoardError::UnknownJob(handle.id)));
}

#[test]
fn wake_limiter_counts_per_owner() {
    let mut limiter = WakeGate::new(2);
    let a = OwnerId::new("a");
    let b = OwnerId::new("b");
    assert_eq!(limiter.max_consecutive_wakes(), 2);
    assert_eq!(limiter.try_wake(&a), WakeDecision::Proceed);
    assert_eq!(limiter.try_wake(&a), WakeDecision::Proceed);
    assert_eq!(limiter.try_wake(&a), WakeDecision::Suppressed);
    assert_eq!(limiter.consecutive_wakes(&a), 2);
    assert_eq!(limiter.consecutive_wakes(&b), 0);
    limiter.record_progress(&a);
    assert_eq!(limiter.try_wake(&a), WakeDecision::Proceed);
}

#[test]
fn consume_advances_only_the_cursor() {
    let mut board = JobBoard::new(BoardConfig::default());
    let handle = board.open_job(OwnerId::new("alice"), 0);
    board.append(&handle, b"abcdef").unwrap();
    assert_eq!(board.consume(handle.id, 4).unwrap().bytes, b"abcd".to_vec());
    assert_eq!(board.consume(handle.id, 4).unwrap().bytes, b"ef".to_vec());
    assert_eq!(board.read_at(handle.id, 0).unwrap().bytes, b"abcdef".to_vec());
    let stats = board.ring_stats(handle.id).unwrap();
    assert_eq!(stats.end_offset, 6);
}
