use orchestration::durable::{ActivityState, ActivityStateError, ActivityStateMachine, RetryPolicy, ACTIVITY_STATE_COUNT, SUPPORTED_ACTIVITY_STATES};


// ====== RetryPolicy ======

/// canonical frozen-task 常量: max_retries=3, backoff 基数 1000ms。
#[test]
fn defaults_match_donor_constants() {
    let p = RetryPolicy::default();
    assert_eq!(p.max_attempts, 3);
    assert_eq!(p.base_backoff_ms, 1_000);
}

/// canonical g5 语义: attempt 计数守门, 超预算拒绝。
#[test]
fn should_retry_boundaries() {
    let p = RetryPolicy::new(3, 100, 1_000);
    assert!(p.should_retry(1));
    assert!(p.should_retry(2));
    assert!(!p.should_retry(3));
    assert!(!p.should_retry(4));
    // max_attempts=1 → 永不重试
    let p1 = RetryPolicy::new(1, 100, 1_000);
    assert!(!p1.should_retry(1));
    // 0 被钳制为 1
    assert_eq!(RetryPolicy::new(0, 1, 1).max_attempts, 1);
}

/// canonical frozen-task 指数退避 1s→2s→4s, 封顶生效, 零重试为 0。
#[test]
fn backoff_is_exponential_and_capped() {
    let p = RetryPolicy::new(8, 1_000, 30_000);
    assert_eq!(p.backoff_ms(0), 0);
    assert_eq!(p.backoff_ms(1), 1_000);
    assert_eq!(p.backoff_ms(2), 2_000);
    assert_eq!(p.backoff_ms(3), 4_000);
    assert_eq!(p.backoff_ms(4), 8_000);
    assert_eq!(p.backoff_ms(5), 16_000);
    assert_eq!(p.backoff_ms(6), 30_000, "封顶");
    assert_eq!(p.backoff_ms(20), 30_000, "高位饱和不溢出");
    // g5 风格小步表: base 100
    let small = RetryPolicy::new(10, 100, 1_000);
    assert_eq!(small.backoff_ms(1), 100);
    assert_eq!(small.backoff_ms(4), 800);
    assert_eq!(small.backoff_ms(5), 1_000);
}

// ====== ActivityStateMachine (canonical frozen-task 移植测试) ======

/// canonical `test_seven_states_hardcoded`。
#[test]
fn seven_states_hardcoded() {
    assert_eq!(ACTIVITY_STATE_COUNT, 7);
    assert_eq!(SUPPORTED_ACTIVITY_STATES.len(), 7);
}

/// canonical `test_state_machine_happy_path`。
#[test]
fn happy_path_reaches_terminal() {
    let mut sm = ActivityStateMachine::new("t1", 1000);
    sm.transition(ActivityState::Scheduled, 1001).unwrap();
    sm.transition(ActivityState::Running, 1002).unwrap();
    sm.transition(ActivityState::Succeeded, 1003).unwrap();
    assert!(sm.is_terminal());
    assert_eq!(
        sm.accumulated_runtime_ms, 1,
        "离开 Running 时累计 1003-1002"
    );
}

/// canonical `test_terminal_blocks_further_transitions`。
#[test]
fn terminal_blocks_further_transitions() {
    let mut sm = ActivityStateMachine::new("t2", 1000);
    sm.transition(ActivityState::Scheduled, 1001).unwrap();
    sm.transition(ActivityState::Running, 1002).unwrap();
    sm.transition(ActivityState::Failed, 1003).unwrap();
    assert!(sm.is_terminal());
    // Failed 除重试通道外不可再转 Running
    assert!(sm.transition(ActivityState::Running, 1004).is_err());
}

/// canonical `test_pending_to_cancelled_direct`。
#[test]
fn pending_to_cancelled_direct() {
    let mut sm = ActivityStateMachine::new("t3", 1000);
    sm.transition(ActivityState::Cancelled, 1001).unwrap();
    assert!(sm.is_terminal());
}

/// canonical `test_invalid_skip_queue_to_running`: Pending 不得跳过 Scheduled。
#[test]
fn invalid_skip_scheduled_to_running() {
    let mut sm = ActivityStateMachine::new("t4", 1000);
    assert!(matches!(
        sm.transition(ActivityState::Running, 1001),
        Err(ActivityStateError::InvalidTransition { .. })
    ));
}

/// 重试通道: Failed/TimedOut 政策内可重入 Scheduled, Cancelled 永不可。
#[test]
fn retry_channel_semantics() {
    let policy = RetryPolicy::new(3, 100, 1_000);
    let mut sm = ActivityStateMachine::new("t5", 1000);
    sm.transition(ActivityState::Scheduled, 1001).unwrap();
    assert_eq!(sm.attempt, 1, "first schedule is attempt 1");
    sm.transition(ActivityState::Running, 1002).unwrap();
    sm.transition(ActivityState::Failed, 1003).unwrap();
    sm.retry(&policy, 1004).unwrap();
    assert_eq!(sm.state, ActivityState::Scheduled);
    assert_eq!(sm.attempt, 2);
    sm.transition(ActivityState::Running, 1005).unwrap();
    sm.transition(ActivityState::TimedOut, 1006).unwrap();
    sm.retry(&policy, 1007).unwrap();
    assert_eq!(sm.attempt, 3);

    // 预算 3 次尝试: 第 3 次失败后 should_retry(3) 为 false, 耗尽
    sm.transition(ActivityState::Running, 1008).unwrap();
    sm.transition(ActivityState::Failed, 1009).unwrap();
    assert!(matches!(
        sm.retry(&policy, 1010),
        Err(ActivityStateError::RetryExhausted {
            attempt: 3,
            max_attempts: 3,
            ..
        })
    ));

    // Cancelled 不可重试
    let mut cancelled = ActivityStateMachine::new("t6", 1000);
    cancelled.transition(ActivityState::Cancelled, 1).unwrap();
    assert!(matches!(
        cancelled.retry(&policy, 2),
        Err(ActivityStateError::InvalidTransition {
            from: ActivityState::Cancelled,
            ..
        })
    ));
}

