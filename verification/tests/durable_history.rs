use orchestration::durable::{jsonl_records, ActivityEvent, ActivityEventKind, DurableError, DurableHistory, RUN_EVENT_ACTOR};

#[test]
fn seq_is_strictly_monotonic() {
    let mut h = DurableHistory::new();
    for i in 0..6i64 {
        let seq = h.record(ActivityEventKind::ActivityScheduled, "a", Some(i.to_string()), None, None, 1, 1000 + i);
        assert_eq!(seq, (i + 1) as u64);
    }
    for (i, e) in h.events().iter().enumerate() {
        assert_eq!(e.seq, (i + 1) as u64);
    }
}

#[test]
fn record_reassigns_external_seq() {
    let mut h = DurableHistory::new();
    h.record(ActivityEventKind::RunStarted, RUN_EVENT_ACTOR, None, None, None, 0, 1);
    let s = h.record(ActivityEventKind::ActivityScheduled, "a", Some("null".into()), None, None, 999, 2);
    assert_eq!(s, 2);
}

#[test]
fn filter_kind_and_activity_isolate() {
    let mut h = DurableHistory::new();
    h.record(ActivityEventKind::ActivityScheduled, "a", None, None, None, 1, 1);
    h.record(ActivityEventKind::ActivityFailed, "b", None, None, Some("x".into()), 1, 2);
    h.record(ActivityEventKind::ActivityCompleted, "a", None, Some("1".into()), None, 1, 3);

    let scheduled = h.filter_kind(ActivityEventKind::ActivityScheduled);
    assert_eq!(scheduled.len(), 1);
    assert_eq!(scheduled[0].activity_id, "a");

    let a_events = h.filter_activity("a");
    assert_eq!(a_events.len(), 2);
    let b_failures = h.filter_activity("b");
    assert_eq!(b_failures.len(), 1);
    assert_eq!(b_failures[0].error.as_deref(), Some("x"));
}

fn event(seq: u64) -> ActivityEvent {
    ActivityEvent {
        seq,
        kind: ActivityEventKind::RunStarted,
        activity_id: "run".into(),
        input: None,
        output: None,
        error: None,
        attempt: 0,
        timestamp_ms: 1,
    }
}

#[test]
fn jsonl_non_monotonic_seq_is_rejected() {
    let e1 = event(1);
    let mut e2 = e1.clone();
    e2.seq = 5;
    let result = DurableHistory::from_numbered_events(vec![(1, e1), (2, e2)]);
    assert!(matches!(result, Err(DurableError::HistoryCorrupted { .. })));
    assert_eq!(
        result.unwrap_err(),
        DurableError::HistoryCorrupted { reason: "JSONL line 2 has seq 5, expected monotonic 2".into() }
    );
}

#[test]
fn since_and_last_n_query_semantics() {
    let mut h = DurableHistory::new();
    h.record(ActivityEventKind::ActivityScheduled, "a", None, None, None, 1, 100);
    h.record(ActivityEventKind::ActivityScheduled, "b", None, None, None, 1, 200);
    h.record(ActivityEventKind::ActivityCompleted, "a", None, Some("1".into()), None, 1, 300);

    let since = h.since_ms(150);
    assert_eq!(since.len(), 2);
    assert_eq!(since[0].timestamp_ms, 200);
    assert_eq!(since[1].timestamp_ms, 300);

    let last2 = h.last_n(2);
    assert_eq!(last2.len(), 2);
    assert_eq!(last2[0].activity_id, "a");
    assert_eq!(last2[0].kind, ActivityEventKind::ActivityCompleted);
    assert_eq!(last2[1].activity_id, "b");

    assert_eq!(h.completed_count("a"), 1);
    assert_eq!(h.completed_count("b"), 0);
}

#[test]
fn last_n_beyond_the_length_returns_everything_newest_first() {
    let mut h = DurableHistory::new();
    h.record(ActivityEventKind::ActivityScheduled, "a", None, None, None, 1, 1);
    h.record(ActivityEventKind::ActivityScheduled, "b", None, None, None, 1, 2);
    let all = h.last_n(10);
    assert_eq!(all.iter().map(|e| e.seq).collect::<Vec<_>>(), vec![2, 1]);
    assert!(h.last_n(0).is_empty());
}

#[test]
fn kind_names_are_snake_case() {
    assert_eq!(ActivityEventKind::RunStarted.as_str(), "run_started");
    assert_eq!(ActivityEventKind::ActivityScheduled.as_str(), "activity_scheduled");
    assert_eq!(ActivityEventKind::ActivityCompleted.as_str(), "activity_completed");
    assert_eq!(ActivityEventKind::ActivityFailed.as_str(), "activity_failed");
    assert_eq!(ActivityEventKind::RunCompleted.as_str(), "run_completed");
    assert_eq!(ActivityEventKind::RunFailed.as_str(), "run_failed");
}

#[test]
fn numbered_events_rebuild_the_history() {
    let mut h = DurableHistory::new();
    h.record(ActivityEventKind::RunStarted, RUN_EVENT_ACTOR, Some("{}".into()), None, None, 0, 1);
    h.record(ActivityEventKind::ActivityScheduled, "a", Some("7".into()), None, None, 1, 2);
    let lines: Vec<(usize, ActivityEvent)> = h.events().iter().enumerate().map(|(i, e)| (i + 1, e.clone())).collect();
    let back = DurableHistory::from_numbered_events(lines).unwrap();
    assert_eq!(back, h);
}

#[test]
fn jsonl_framing_skips_blank_lines_and_keeps_line_numbers() {
    let text = "{\"a\":1}\r\n\n   \n{\"b\":2}\n{\"c\":3}";
    assert_eq!(
        jsonl_records(text),
        vec![(1, "{\"a\":1}".to_string()), (4, "{\"b\":2}".to_string()), (5, "{\"c\":3}".to_string())]
    );
    assert!(jsonl_records("").is_empty());
    assert!(jsonl_records("\n \t\n").is_empty());
}

#[test]
fn error_messages_name_what_failed() {
    assert_eq!(DurableError::RunAlreadyFinished.to_string(), "durable run already finished");
    assert_eq!(
        DurableError::ActivityFailed { activity_id: "a\"b".into(), error: "boom".into(), attempt: 3 }.to_string(),
        "activity \"a\\\"b\" failed (attempt 3): boom"
    );
    assert_eq!(
        DurableError::HistoryCorrupted { reason: "bad".into() }.to_string(),
        "durable history corrupted: bad"
    );
}
