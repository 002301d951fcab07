use orchestration::call_scheduler::{
    BatchState, CancelKind, ConcurrencyClass, SchedulerConfig, SchedulerConfigError, SlotOutcome,
    DEFAULT_MAX_PARALLEL,
};

use ConcurrencyClass::{Exclusive, Parallel};

#[test]
fn parallel_calls_fill_the_pool_and_wait_beyond_it() {
    let mut b: BatchState<&str> = BatchState::new(vec![Parallel, Parallel, Parallel], 2);
    assert_eq!(b.launch_ready(), vec![0, 1]);
    assert_eq!(b.in_flight(), 2);
    assert!(b.launch_ready().is_empty());
    b.settle_completed(1, "r1");
    assert_eq!(b.launch_ready(), vec![2]);
}

#[test]
fn an_exclusive_call_is_a_barrier() {
    let mut b: BatchState<u32> = BatchState::new(vec![Parallel, Exclusive, Parallel], 4);
    assert_eq!(b.launch_ready(), vec![0]);
    b.settle_completed(0, 10);
    assert_eq!(b.launch_ready(), vec![1]);
    assert!(b.launch_ready().is_empty());
    b.settle_completed(1, 11);
    assert_eq!(b.launch_ready(), vec![2]);
}

#[test]
fn outcomes_are_handed_back_in_model_order() {
    let mut b: BatchState<u32> = BatchState::new(vec![Parallel, Parallel], 4);
    b.launch_ready();
    b.settle_completed(1, 21);
    assert!(b.take_next().is_none());
    b.settle_completed(0, 20);
    assert_eq!(b.take_next(), Some((0, SlotOutcome::Completed(20))));
    assert_eq!(b.take_next(), Some((1, SlotOutcome::Completed(21))));
    assert!(b.take_next().is_none());
    assert!(b.is_done());
}

#[test]
fn abort_cancels_queued_calls_and_wind_down_cancels_running_ones() {
    let mut b: BatchState<u32> = BatchState::new(vec![Parallel, Parallel, Parallel], 1);
    assert_eq!(b.launch_ready(), vec![0]);
    assert!(b.abort());
    assert!(!b.abort());
    assert!(b.is_aborted());
    assert!(b.launch_ready().is_empty());
    assert!(b.take_next().is_none());
    b.settle_after_wind_down();
    assert_eq!(b.take_next(), Some((0, SlotOutcome::Cancelled(CancelKind::WindDownExpired))));
    assert_eq!(b.take_next(), Some((1, SlotOutcome::Cancelled(CancelKind::NotStarted))));
    assert_eq!(b.take_next(), Some((2, SlotOutcome::Cancelled(CancelKind::NotStarted))));
    assert!(b.is_done());
}

#[test]
fn a_result_within_the_window_is_kept_and_a_late_one_dropped() {
    let mut b: BatchState<u32> = BatchState::new(vec![Parallel, Parallel], 4);
    b.launch_ready();
    b.abort();
    b.settle_completed(0, 7);
    b.settle_after_wind_down();
    b.settle_completed(1, 8);
    assert_eq!(b.take_next(), Some((0, SlotOutcome::Completed(7))));
    assert_eq!(b.take_next(), Some((1, SlotOutcome::Cancelled(CancelKind::WindDownExpired))));
}

#[test]
fn slot_outcome_accessors() {
    let done: SlotOutcome<u8> = SlotOutcome::Completed(3);
    assert_eq!(done.cancel_kind(), None);
    assert_eq!(done.completed(), Some(3));
    let cancelled: SlotOutcome<u8> = SlotOutcome::Cancelled(CancelKind::NotStarted);
    assert_eq!(cancelled.cancel_kind(), Some(CancelKind::NotStarted));
    assert_eq!(cancelled.completed(), None);
}

#[test]
fn config_defaults_and_check() {
    let c = SchedulerConfig::default();
    assert_eq!(c.max_parallel, DEFAULT_MAX_PARALLEL);
    assert_eq!(c.wind_down, std::time::Duration::from_millis(1_000));
    assert!(c.check().is_ok());
    let zero = SchedulerConfig { max_parallel: 0, ..c };
    assert_eq!(zero.check(), Err(SchedulerConfigError::NonPositiveParallelism));
    assert!(SchedulerConfigError::NonPositiveParallelism.message().starts_with("max_parallel must be at least 1"));
    let empty: BatchState<u8> = BatchState::new(Vec::new(), 1);
    assert!(empty.is_empty());
    assert!(empty.is_done());
}
