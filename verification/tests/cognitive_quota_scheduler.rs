use orchestration::cognitive_quota_scheduler::{
    CognitiveContextFrame, CognitiveInterrupt, CognitivePriority, CognitiveQuota, CognitiveQuotaScheduler,
    CognitiveTaskControlBlock, MAX_TRACKED_TASKS,
};

fn tcb(task_id: &str, prio: CognitivePriority) -> CognitiveTaskControlBlock {
    CognitiveTaskControlBlock {
        task_id: task_id.into(),
        session_id: "s1".into(),
        base_priority: prio,
        effective_priority: prio,
        quota: CognitiveQuota::new(1000, 10, 1000),
        context_frame: CognitiveContextFrame {
            task_id: task_id.into(),
            session_id: "s1".into(),
            step_index: 0,
            call_stack: vec![],
            local_transcript_snapshot: vec![],
            world_state_hash: "hash".into(),
        },
        is_preempted: false,
    }
}

#[test]
fn test_cognitive_quota_budget_consumption() {
    let mut quota = CognitiveQuota::new(1000, 5, 5000);
    assert!(!quota.is_exhausted());

    assert!(quota.consume_step(200, 1000));
    assert_eq!(quota.consumed_tool_steps, 1);
    assert_eq!(quota.consumed_tokens, 200);

    for _ in 0..4 {
        quota.consume_step(100, 500);
    }
    assert!(quota.is_exhausted());
}

#[test]
fn m1_submit_task_rejects_duplicate_task_id() {
    let mut scheduler = CognitiveQuotaScheduler::new();
    assert!(scheduler.submit_task(tcb("task_a", CognitivePriority::ActiveSubAgent)).is_ok());
    let dup = scheduler.submit_task(tcb("task_a", CognitivePriority::IdleMaintenance));
    assert!(dup.is_err(), "duplicate task_id must be refused, got {dup:?}");
    assert!(dup.unwrap_err().contains("task_a"));

    let first = scheduler.schedule_next().expect("task_a");
    assert_eq!(first.task_id, "task_a");
    assert_eq!(first.effective_priority, CognitivePriority::ActiveSubAgent);
    assert!(scheduler.schedule_next().is_none());
}

#[test]
fn m1_complete_task_reclaims_state() {
    let mut scheduler = CognitiveQuotaScheduler::new();
    scheduler.submit_task(tcb("task_done", CognitivePriority::ActiveSubAgent)).unwrap();
    assert_eq!(scheduler.tracked_task_count(), 1);

    let dispatched = scheduler.schedule_next().expect("dispatch");
    assert_eq!(dispatched.task_id, "task_done");

    assert!(scheduler.complete_task("task_done"));
    assert_eq!(scheduler.tracked_task_count(), 0);
    assert!(!scheduler.complete_task("task_done"));

    assert!(scheduler.schedule_next().is_none());
    assert_eq!(
        scheduler.preempt_active(CognitiveInterrupt::VoluntaryYield { task_id: "task_done".into() }),
        Ok(None)
    );
}

#[test]
fn m1_tracked_tasks_bounded() {
    let mut scheduler = CognitiveQuotaScheduler::new();
    for i in 0..MAX_TRACKED_TASKS + 8 {
        scheduler.submit_task(tcb(&format!("t{i}"), CognitivePriority::IdleMaintenance)).unwrap();
    }
    assert!(
        scheduler.tracked_task_count() <= MAX_TRACKED_TASKS,
        "registry over its bound: {}",
        scheduler.tracked_task_count()
    );
}

#[test]
fn test_preemptive_scheduling_priority_order() {
    let mut scheduler = CognitiveQuotaScheduler::new();

    let tcb_background = tcb("task_dream", CognitivePriority::BackgroundDreaming);
    let tcb_user = tcb("task_user", CognitivePriority::InteractiveUser);

    scheduler.submit_task(tcb_background).unwrap();
    scheduler.submit_task(tcb_user).unwrap();

    let first = scheduler.schedule_next().unwrap();
    assert_eq!(first.task_id, "task_user");
    assert_eq!(first.effective_priority, CognitivePriority::InteractiveUser);

    let preempted = scheduler
        .preempt_active(CognitiveInterrupt::EmergencyPreempt { reason: "User command".into() })
        .unwrap();
    assert_eq!(preempted, Some("task_user".into()));
}

#[test]
fn test_priority_inheritance_protocol() {
    let mut scheduler = CognitiveQuotaScheduler::new();

    let tcb_bg = tcb("task_bg_lock", CognitivePriority::BackgroundDreaming);

    scheduler.submit_task(tcb_bg).unwrap();
    scheduler.register_lock("memory_graph_lock", "task_bg_lock");

    scheduler.boost_priority_for_lock("memory_graph_lock", CognitivePriority::InteractiveUser);

    let scheduled = scheduler.schedule_next().unwrap();
    assert_eq!(scheduled.task_id, "task_bg_lock");
    assert_eq!(scheduled.effective_priority, CognitivePriority::InteractiveUser);

    scheduler.release_lock("memory_graph_lock");
}

#[test]
fn preempted_task_is_dispatched_again_first() {
    let mut scheduler = CognitiveQuotaScheduler::default();
    scheduler.submit_task(tcb("a", CognitivePriority::ActiveSubAgent)).unwrap();
    scheduler.submit_task(tcb("b", CognitivePriority::ActiveSubAgent)).unwrap();
    assert_eq!(scheduler.schedule_next().unwrap().task_id, "a");
    assert_eq!(
        scheduler.preempt_active(CognitiveInterrupt::BudgetExhausted { task_id: "a".into() }),
        Ok(Some("a".to_string()))
    );
    let again = scheduler.schedule_next().unwrap();
    assert_eq!(again.task_id, "a");
    assert!(!again.is_preempted);
    assert_eq!(scheduler.schedule_next().unwrap().task_id, "b");
}

#[test]
fn eviction_with_every_task_queued_removes_the_oldest_and_its_stale_entry_is_skipped() {
    let mut scheduler = CognitiveQuotaScheduler::new();
    for i in 0..MAX_TRACKED_TASKS {
        scheduler.submit_task(tcb(&format!("t{i:04}"), CognitivePriority::IdleMaintenance)).unwrap();
    }
    scheduler.submit_task(tcb("z-new", CognitivePriority::IdleMaintenance)).unwrap();
    assert_eq!(scheduler.tracked_task_count(), MAX_TRACKED_TASKS);
    // "t0000" was evicted; its queue entry is skipped.
    assert_eq!(scheduler.schedule_next().unwrap().task_id, "t0001");
    assert!(!scheduler.complete_task("t0000"));
}

#[test]
fn releasing_a_lock_restores_the_base_priority() {
    let mut scheduler = CognitiveQuotaScheduler::new();
    scheduler.submit_task(tcb("holder", CognitivePriority::IdleMaintenance)).unwrap();
    scheduler.submit_task(tcb("other", CognitivePriority::ActiveSubAgent)).unwrap();
    scheduler.register_lock("r", "holder");
    scheduler.boost_priority_for_lock("r", CognitivePriority::InteractiveUser);
    scheduler.release_lock("r");
    // back at IdleMaintenance: the sub-agent task comes first
    assert_eq!(scheduler.schedule_next().unwrap().task_id, "other");
    let h = scheduler.schedule_next().unwrap();
    assert_eq!(h.task_id, "holder");
    assert_eq!(h.effective_priority, CognitivePriority::IdleMaintenance);
}

#[test]
fn boost_never_lowers_priority() {
    let mut scheduler = CognitiveQuotaScheduler::new();
    scheduler.submit_task(tcb("holder", CognitivePriority::InteractiveUser)).unwrap();
    scheduler.register_lock("r", "holder");
    scheduler.boost_priority_for_lock("r", CognitivePriority::IdleMaintenance);
    assert_eq!(scheduler.schedule_next().unwrap().effective_priority, CognitivePriority::InteractiveUser);
}

#[test]
fn quota_counters_saturate() {
    let mut q = CognitiveQuota::new(usize::MAX, usize::MAX, u64::MAX);
    q.consume_step(usize::MAX - 1, 5);
    q.consume_step(10, u64::MAX);
    assert_eq!(q.consumed_tokens, usize::MAX);
    assert_eq!(q.consumed_cost_micros, u64::MAX);
    assert!(q.is_exhausted());
}

#[test]
fn eviction_prefers_the_oldest_task_waiting_in_no_queue() {
    let mut scheduler = CognitiveQuotaScheduler::new();
    scheduler.submit_task(tcb("a-first", CognitivePriority::IdleMaintenance)).unwrap();
    for i in 0..MAX_TRACKED_TASKS - 2 {
        scheduler.submit_task(tcb(&format!("t{i:04}"), CognitivePriority::IdleMaintenance)).unwrap();
    }
    scheduler.submit_task(tcb("urgent", CognitivePriority::SystemEmergency)).unwrap();
    // "urgent" leaves its queue when dispatched; it stays tracked.
    assert_eq!(scheduler.schedule_next().unwrap().task_id, "urgent");
    scheduler.submit_task(tcb("new", CognitivePriority::IdleMaintenance)).unwrap();
    assert_eq!(scheduler.tracked_task_count(), MAX_TRACKED_TASKS);
    assert!(!scheduler.complete_task("urgent"));
    assert!(scheduler.complete_task("a-first"));
}
