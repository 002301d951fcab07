use orchestration::durable_inbox::{
    wire_deliveries_into_inbox, DurableInbox, InboxErrorCode, InboxItem, InboxQueue,
};
use orchestration::durable_schedule::{
    ScheduleRecord, ScheduleState, ScheduleStatus, ScheduleStore, ScheduleTrigger,
};

const T0: i64 = 1_700_000_000_000;
const HOUR_MS: i64 = 3_600_000;

fn item(queue: InboxQueue, payload: &str) -> InboxItem {
    InboxItem {
        id: String::new(),
        queue,
        source: "test".to_string(),
        turn: None,
        enqueued_at_ms: T0,
        payload: payload.to_string(),
    }
}

/// Stands for stopping the process and reading the persisted snapshot back.
fn reopen(inbox: DurableInbox) -> DurableInbox {
    let snapshot = inbox.state().clone();
    drop(inbox);
    DurableInbox::open(snapshot)
}

#[test]
fn next_turn_and_next_step_queues_route_independently() {
    let mut inbox = DurableInbox::empty();
    inbox.push(item(InboxQueue::NextTurn, "t1")).expect("push");
    inbox.push(item(InboxQueue::NextStep, "s1")).expect("push");
    inbox.push(item(InboxQueue::NextTurn, "t2")).expect("push");
    inbox.push(item(InboxQueue::NextStep, "s2")).expect("push");
    assert_eq!(inbox.pending(InboxQueue::NextTurn), 2);
    assert_eq!(inbox.pending(InboxQueue::NextStep), 2);
    let steps = inbox.claim(InboxQueue::NextStep, 10).expect("claim");
    assert_eq!(steps.iter().map(|i| i.payload.as_str()).collect::<Vec<_>>(), vec!["s1", "s2"]);
    assert_eq!(inbox.pending(InboxQueue::NextTurn), 2);
    let turns = inbox.claim(InboxQueue::NextTurn, 10).expect("claim");
    assert_eq!(turns.iter().map(|i| i.payload.as_str()).collect::<Vec<_>>(), vec!["t1", "t2"]);
}

#[test]
fn claim_takes_a_batch_atomically_without_redelivery() {
    let mut inbox = DurableInbox::empty();
    for n in 0..3 {
        inbox.push(item(InboxQueue::NextStep, &format!("p{n}"))).expect("push");
    }
    let first = inbox.claim(InboxQueue::NextStep, 2).expect("claim");
    assert_eq!(first.len(), 2);
    assert_eq!(first[0].payload, "p0");
    assert_eq!(first[1].payload, "p1");
    let second = inbox.claim(InboxQueue::NextStep, 2).expect("claim");
    assert_eq!(second.len(), 1);
    assert_eq!(second[0].payload, "p2");
    assert!(inbox.claim(InboxQueue::NextStep, 2).expect("claim").is_empty());
    assert_eq!(first[0].id, "inbox-1");
    assert_eq!(second[0].id, "inbox-3");
}

#[test]
fn crash_after_claim_does_not_redeliver_the_taken_batch() {
    let mut inbox = DurableInbox::empty();
    for n in 0..3 {
        inbox.push(item(InboxQueue::NextStep, &format!("p{n}"))).expect("push");
    }
    let taken = inbox.claim(InboxQueue::NextStep, 2).expect("claim");
    assert_eq!(taken.len(), 2);
    let mut reopened = reopen(inbox);
    let rest = reopened.claim(InboxQueue::NextStep, 10).expect("claim");
    assert_eq!(rest.len(), 1);
    assert_eq!(rest[0].payload, "p2");
}

#[test]
fn mid_turn_inputs_are_queued_and_not_lost() {
    let mut inbox = DurableInbox::empty();
    inbox.push(item(InboxQueue::NextTurn, "before")).expect("push");
    inbox.push(item(InboxQueue::NextStep, "mid-1")).expect("push");
    inbox.push(item(InboxQueue::NextStep, "mid-2")).expect("push");
    let mut reopened = reopen(inbox);
    assert_eq!(reopened.pending(InboxQueue::NextTurn), 1);
    assert_eq!(reopened.pending(InboxQueue::NextStep), 2);
    let mid = reopened.claim(InboxQueue::NextStep, 10).expect("claim");
    assert_eq!(mid.iter().map(|i| i.payload.as_str()).collect::<Vec<_>>(), vec!["mid-1", "mid-2"]);
}

#[test]
fn wire_due_deliveries_into_inbox_drives_the_producer_side() {
    let mut store = ScheduleStore::open(ScheduleState::empty());
    store
        .create(ScheduleRecord {
            id: "tick".to_string(),
            revision: 0,
            trigger: ScheduleTrigger::Every { every_ms: HOUR_MS, anchor_ms: T0 },
            status: ScheduleStatus::Active,
            payload: "run-me".to_string(),
            created_at_ms: T0,
            updated_at_ms: T0,
            last_fired_at_ms: None,
            fire_count: 0,
        })
        .expect("create");
    let mut inbox = DurableInbox::empty();
    let deliveries = store.collect_due(T0).expect("due");
    let payloads: Vec<String> = deliveries
        .iter()
        .map(|d| {
            serde_json::to_string(&(d.schedule_id.clone(), d.occurrence_ms, d.fired_at_ms, d.payload.clone()))
                .expect("encode")
        })
        .collect();
    let pushed = wire_deliveries_into_inbox(&mut inbox, &deliveries, payloads, Some(7), T0).expect("wire");
    assert_eq!(pushed.len(), 1);
    assert_eq!(pushed[0].queue, InboxQueue::NextStep);
    assert_eq!(pushed[0].turn, Some(7));
    assert_eq!(pushed[0].source, "schedule:tick");
    let claimed = inbox.claim(InboxQueue::NextStep, 1).expect("claim");
    let (schedule_id, occurrence_ms, _, _): (String, i64, i64, String) =
        serde_json::from_str(&claimed[0].payload).expect("delivery payload round-trips");
    assert_eq!(schedule_id, "tick");
    assert_eq!(occurrence_ms, T0);
    store.acknowledge_execution(&schedule_id, occurrence_ms, T0 + 1).expect("ack");
    assert!(store.unacknowledged_deliveries().is_empty());
}

#[test]
fn empty_payload_is_rejected() {
    let mut inbox = DurableInbox::empty();
    let err = inbox.push(item(InboxQueue::NextStep, "")).expect_err("empty payload");
    assert_eq!(err.code(), InboxErrorCode::InvalidInput);
    assert_eq!(err.code().as_str(), "inbox_invalid_input");
    assert_eq!(inbox.write_seq(), 0);
}

#[test]
fn explicit_ids_are_kept_and_empty_claims_do_not_write() {
    let mut inbox = DurableInbox::empty();
    let mut named = item(InboxQueue::NextTurn, "x");
    named.id = "mine".to_string();
    let stored = inbox.push(named).expect("push");
    assert_eq!(stored.id, "mine");
    assert_eq!(inbox.write_seq(), 1);
    assert!(inbox.claim(InboxQueue::NextStep, 5).expect("claim").is_empty());
    assert_eq!(inbox.write_seq(), 1);
    assert!(inbox.claim(InboxQueue::NextTurn, 0).expect("claim").is_empty());
    assert_eq!(inbox.items(InboxQueue::NextTurn).len(), 1);
}
