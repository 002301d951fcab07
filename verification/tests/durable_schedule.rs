use orchestration::durable_schedule::{
    CronSubset, ScheduleErrorCode, ScheduleRecord, ScheduleState, ScheduleStatus, ScheduleStore,
    ScheduleTrigger, ScheduleWrite, ScheduleWriteKind, SCHEDULE_CONFLICT_CODE,
};

const T0: i64 = 1_700_000_000_000;
const HOUR_MS: i64 = 3_600_000;
const MINUTE_MS: i64 = 60_000;
const DAY_MS: i64 = 86_400_000;

fn every_record(id: &str, every_ms: i64, anchor_ms: i64) -> ScheduleRecord {
    ScheduleRecord {
        id: id.to_string(),
        revision: 0,
        trigger: ScheduleTrigger::Every { every_ms, anchor_ms },
        status: ScheduleStatus::Active,
        payload: format!("payload-{id}"),
        created_at_ms: anchor_ms,
        updated_at_ms: anchor_ms,
        last_fired_at_ms: None,
        fire_count: 0,
    }
}

fn fresh_store() -> ScheduleStore {
    ScheduleStore::open(ScheduleState::empty())
}

/// Stands for stopping the process and reading the persisted snapshot back.
fn reopen(store: ScheduleStore) -> ScheduleStore {
    let snapshot = store.state().clone();
    drop(store);
    ScheduleStore::open(snapshot)
}

#[test]
fn after_trigger_fires_once_then_completes() {
    let mut store = fresh_store();
    store
        .create(ScheduleRecord {
            trigger: ScheduleTrigger::After { at_ms: T0 + HOUR_MS },
            ..every_record("one-shot", 1, T0)
        })
        .expect("create");
    assert!(store.collect_due(T0 + HOUR_MS - 1).expect("due").is_empty());
    let due = store.collect_due(T0 + HOUR_MS).expect("due");
    assert_eq!(due.len(), 1);
    assert_eq!(due[0].occurrence_ms, T0 + HOUR_MS);
    assert_eq!(store.get("one-shot").expect("record").status, ScheduleStatus::Completed);
    assert!(store.collect_due(T0 + 10 * HOUR_MS).expect("due").is_empty());
}

#[test]
fn every_trigger_follows_interval_from_anchor() {
    let mut store = fresh_store();
    store.create(every_record("tick", HOUR_MS, T0)).expect("create");
    assert!(store.collect_due(T0 - 1).expect("due").is_empty());
    let first = store.collect_due(T0).expect("due");
    assert_eq!(first[0].occurrence_ms, T0);
    let second = store.collect_due(T0 + HOUR_MS).expect("due");
    assert_eq!(second[0].occurrence_ms, T0 + HOUR_MS);
    assert!(store.collect_due(T0 + HOUR_MS).expect("due").is_empty());
}

#[test]
fn cron_subset_fixed_times_fire_daily_and_weekly() {
    let mut store = fresh_store();
    store
        .create(ScheduleRecord {
            trigger: ScheduleTrigger::Cron {
                spec: CronSubset::Daily { hour: 8, minute: 30, utc_offset_minutes: 0 },
            },
            ..every_record("daily", 1, T0)
        })
        .expect("create daily");
    store
        .create(ScheduleRecord {
            trigger: ScheduleTrigger::Cron {
                spec: CronSubset::Weekly { weekday: 1, hour: 9, minute: 0, utc_offset_minutes: 0 },
            },
            ..every_record("weekly", 1, T0)
        })
        .expect("create weekly");
    let day = 10;
    let now = day * DAY_MS + 10 * HOUR_MS;
    let due = store.collect_due(now).expect("due");
    let daily = due.iter().find(|d| d.schedule_id == "daily").expect("daily");
    assert_eq!(daily.occurrence_ms, day * DAY_MS + 8 * HOUR_MS + 30 * MINUTE_MS);
    let weekly = due.iter().find(|d| d.schedule_id == "weekly").expect("weekly");
    assert_eq!(weekly.occurrence_ms, 4 * DAY_MS + 9 * HOUR_MS);
    assert!(store.collect_due((day + 1) * DAY_MS + 7 * HOUR_MS).expect("due").is_empty());
}

#[test]
fn restart_catches_up_only_the_latest_missed_occurrence() {
    let mut store = fresh_store();
    store.create(every_record("tick", HOUR_MS, T0)).expect("create");
    let first = store.collect_due(T0).expect("due");
    store.acknowledge_execution("tick", first[0].occurrence_ms, T0).expect("ack");
    let mut reopened = reopen(store);
    let now = T0 + 10 * HOUR_MS;
    let due = reopened.collect_due(now).expect("due");
    assert_eq!(due.len(), 1);
    assert_eq!(due[0].occurrence_ms, now);
    assert_eq!(reopened.unacknowledged_deliveries().len(), 1);
}

#[test]
fn cas_update_conflicts_return_schedule_conflict_without_overwrite() {
    let mut store = fresh_store();
    store.create(every_record("cas", HOUR_MS, T0)).expect("create");
    let stored = store.get("cas").expect("record").clone();
    assert_eq!(stored.revision, 1);
    let mut stale = stored.clone();
    stale.payload = "stale-payload".to_string();
    let mut next = stored.clone();
    next.payload = "next-payload".to_string();
    let err = store.compare_and_set(stale, next.clone()).expect_err("stale expected must conflict");
    assert_eq!(err.code().as_str(), SCHEDULE_CONFLICT_CODE);
    assert_eq!(err.code(), ScheduleErrorCode::Conflict);
    assert_eq!(store.get("cas").expect("record"), &stored);
    let applied = store.compare_and_set(stored.clone(), next).expect("matching expected applies");
    assert_eq!(applied.kind, ScheduleWriteKind::Replace);
    let after = store.get("cas").expect("record");
    assert_eq!(after.payload, "next-payload");
    assert_eq!(after.revision, 2);
}

#[test]
fn admin_and_delivery_writes_share_one_fifo_queue() {
    let mut store = fresh_store();
    let t1 = store.enqueue(ScheduleWrite::Create { record: every_record("fifo", HOUR_MS, T0) });
    let t2 = store.enqueue(ScheduleWrite::RecordFire {
        id: "fifo".to_string(),
        occurrence_ms: T0,
        at_ms: T0,
    });
    let t3 = store.enqueue(ScheduleWrite::SetStatus {
        id: "fifo".to_string(),
        status: ScheduleStatus::Paused,
        at_ms: T0 + 1,
    });
    let t4 = store.enqueue(ScheduleWrite::Delete { id: "fifo".to_string() });
    assert_eq!((t1, t2, t3, t4), (1, 2, 3, 4));
    assert_eq!(store.pending_writes(), 4);
    assert!(store.get("fifo").is_none());
    let outcomes = store.drain();
    assert_eq!(outcomes.len(), 4);
    assert!(outcomes.iter().all(|o| o.is_ok()));
    let kinds: Vec<ScheduleWriteKind> = store.applied_writes().iter().map(|r| r.kind).collect();
    assert_eq!(
        kinds,
        vec![
            ScheduleWriteKind::Create,
            ScheduleWriteKind::RecordFire,
            ScheduleWriteKind::SetStatus,
            ScheduleWriteKind::Delete,
        ]
    );
    let seqs: Vec<u64> = store.applied_writes().iter().map(|r| r.seq).collect();
    assert_eq!(seqs, vec![1, 2, 3, 4]);
}

#[test]
fn crash_between_enqueue_and_execution_redelivers_honestly() {
    let mut store = fresh_store();
    store.create(every_record("work", HOUR_MS, T0)).expect("create");
    let due = store.collect_due(T0).expect("due");
    assert_eq!(due.len(), 1);
    let mut reopened = reopen(store);
    let unacked = reopened.unacknowledged_deliveries();
    assert_eq!(unacked.len(), 1);
    assert_eq!(unacked[0].occurrence_ms, T0);
    assert_eq!(unacked[0].schedule_id, "work");
    assert_eq!(unacked[0], due[0]);
    reopened.acknowledge_execution("work", T0, T0 + 1).expect("ack");
    assert!(reopened.unacknowledged_deliveries().is_empty());
    let err = reopened.acknowledge_execution("work", T0, T0 + 2).expect_err("double ack must fail");
    assert_eq!(err.code(), ScheduleErrorCode::NotFound);
}

#[test]
fn delete_and_pause_gate_delivery_until_resumed() {
    let mut store = fresh_store();
    store.create(every_record("pausable", HOUR_MS, T0)).expect("create");
    store.create(every_record("removable", HOUR_MS, T0)).expect("create");
    for d in store.collect_due(T0).expect("due") {
        store.acknowledge_execution(&d.schedule_id, d.occurrence_ms, T0).expect("ack");
    }
    store.set_status("pausable", ScheduleStatus::Paused, T0 + 1).expect("pause");
    store.delete("removable").expect("delete");
    assert!(store.collect_due(T0 + 2 * HOUR_MS).expect("due").is_empty());
    assert!(store.get("removable").is_none());
    store.set_status("pausable", ScheduleStatus::Active, T0 + 3 * HOUR_MS).expect("resume");
    let due = store.collect_due(T0 + 3 * HOUR_MS).expect("due");
    assert_eq!(due.len(), 1);
    assert_eq!(due[0].occurrence_ms, T0 + 3 * HOUR_MS);
}

#[test]
fn trigger_validation_rejects_out_of_range_values() {
    assert_eq!(
        ScheduleTrigger::Every { every_ms: 0, anchor_ms: T0 }.validate().expect_err("zero interval").code(),
        ScheduleErrorCode::InvalidTrigger
    );
    assert_eq!(
        ScheduleTrigger::Cron { spec: CronSubset::Daily { hour: 24, minute: 0, utc_offset_minutes: 0 } }
            .validate()
            .expect_err("hour out of range")
            .code(),
        ScheduleErrorCode::InvalidTrigger
    );
    assert_eq!(
        ScheduleTrigger::Cron {
            spec: CronSubset::Weekly { weekday: 7, hour: 0, minute: 0, utc_offset_minutes: 0 }
        }
        .validate()
        .expect_err("weekday out of range")
        .code(),
        ScheduleErrorCode::InvalidTrigger
    );
}

#[test]
fn store_round_trips_through_the_durable_tier() {
    let mut store = fresh_store();
    store.create(every_record("persisted", HOUR_MS, T0)).expect("create");
    store.collect_due(T0).expect("due");
    let reopened = reopen(store);
    let record = reopened.get("persisted").expect("restored");
    assert_eq!(record.fire_count, 1);
    assert_eq!(record.last_fired_at_ms, Some(T0));
    assert_eq!(reopened.write_seq(), 2);
}

#[test]
fn records_come_back_in_increasing_id_order() {
    let mut store = fresh_store();
    for id in ["m", "b", "x", "a"] {
        store.create(every_record(id, HOUR_MS, T0)).expect("create");
    }
    let ids: Vec<&str> = store.records().iter().map(|r| r.id.as_str()).collect();
    assert_eq!(ids, vec!["a", "b", "m", "x"]);
    let due = store.collect_due(T0).expect("due");
    let due_ids: Vec<&str> = due.iter().map(|d| d.schedule_id.as_str()).collect();
    assert_eq!(due_ids, vec!["a", "b", "m", "x"]);
}

#[test]
fn create_refuses_empty_and_duplicate_ids() {
    let mut store = fresh_store();
    let err = store.create(every_record("", HOUR_MS, T0)).expect_err("empty id");
    assert_eq!(err.code(), ScheduleErrorCode::InvalidInput);
    store.create(every_record("dup", HOUR_MS, T0)).expect("create");
    let err = store.create(every_record("dup", HOUR_MS, T0)).expect_err("duplicate");
    assert_eq!(err.code(), ScheduleErrorCode::DuplicateId);
    let err = store
        .create(every_record("bad", 0, T0))
        .expect_err("invalid trigger");
    assert_eq!(err.code(), ScheduleErrorCode::InvalidTrigger);
    assert_eq!(store.records().len(), 1);
}

#[test]
fn replace_must_keep_the_id_and_unknown_ids_are_not_found() {
    let mut store = fresh_store();
    store.create(every_record("keep", HOUR_MS, T0)).expect("create");
    let stored = store.get("keep").expect("record").clone();
    let mut renamed = stored.clone();
    renamed.id = "other".to_string();
    let err = store.compare_and_set(stored.clone(), renamed).expect_err("renaming");
    assert_eq!(err.code(), ScheduleErrorCode::InvalidInput);
    assert_eq!(store.delete("missing").expect_err("missing").code(), ScheduleErrorCode::NotFound);
    assert_eq!(
        store.set_status("missing", ScheduleStatus::Paused, T0).expect_err("missing").code(),
        ScheduleErrorCode::NotFound
    );
}

#[test]
fn latest_and_next_occurrences_match_the_formulas() {
    let every = ScheduleTrigger::Every { every_ms: 10, anchor_ms: 5 };
    assert_eq!(every.latest_occurrence_at_or_before(4), None);
    assert_eq!(every.latest_occurrence_at_or_before(27), Some(25));
    assert_eq!(every.next_occurrence_after(4), Some(5));
    assert_eq!(every.next_occurrence_after(25), Some(35));
    let daily = ScheduleTrigger::Cron {
        spec: CronSubset::Daily { hour: 1, minute: 0, utc_offset_minutes: 60 },
    };
    // 01:00 at UTC+1 is 00:00 UTC.
    assert_eq!(daily.latest_occurrence_at_or_before(3 * DAY_MS + 5), Some(3 * DAY_MS));
    assert_eq!(daily.latest_occurrence_at_or_before(3 * DAY_MS - 1), Some(2 * DAY_MS));
    assert_eq!(daily.next_occurrence_after(3 * DAY_MS), Some(4 * DAY_MS));
    let weekly = ScheduleTrigger::Cron {
        spec: CronSubset::Weekly { weekday: 4, hour: 0, minute: 0, utc_offset_minutes: 0 },
    };
    // Day 0 (1970-01-01) is a Thursday.
    assert_eq!(weekly.latest_occurrence_at_or_before(3 * DAY_MS), Some(0));
    assert_eq!(weekly.next_occurrence_after(0), Some(7 * DAY_MS));
    assert_eq!(ScheduleTrigger::After { at_ms: 9 }.next_occurrence_after(9), None);
}

#[test]
fn snapshot_with_unordered_records_is_corrupt() {
    let err = ScheduleState::from_parts(
        3,
        vec![every_record("b", HOUR_MS, T0), every_record("a", HOUR_MS, T0)],
        Vec::new(),
    )
    .expect_err("unordered");
    assert_eq!(err.code(), ScheduleErrorCode::Corrupt);
    let ok = ScheduleState::from_parts(3, vec![every_record("a", HOUR_MS, T0)], Vec::new()).expect("ordered");
    assert_eq!(ScheduleStore::open(ok).write_seq(), 3);
}

#[test]
fn validation_reasons_name_the_offending_value() {
    let err = ScheduleTrigger::Cron {
        spec: CronSubset::Daily { hour: 3, minute: 0, utc_offset_minutes: -2000 },
    }
    .validate()
    .expect_err("offset");
    assert_eq!(
        err,
        orchestration::durable_schedule::ScheduleError::InvalidTrigger {
            reason: "utc_offset_minutes must be -1440..=1440, got -2000".to_string()
        }
    );
}

#[test]
fn the_next_occurrence_is_the_first_one_after_and_skips_none() {
    let triggers = [
        ScheduleTrigger::Every { every_ms: 7 * MINUTE_MS, anchor_ms: T0 },
        ScheduleTrigger::Cron {
            spec: CronSubset::Daily { hour: 6, minute: 30, utc_offset_minutes: 480 },
        },
        ScheduleTrigger::Cron {
            spec: CronSubset::Weekly { weekday: 3, hour: 23, minute: 59, utc_offset_minutes: -300 },
        },
        ScheduleTrigger::After { at_ms: T0 + DAY_MS },
    ];
    for trigger in triggers {
        for t in [T0, T0 + 13 * MINUTE_MS, T0 + 5 * HOUR_MS + 1, T0 + 3 * DAY_MS - 1] {
            let Some(n) = trigger.next_occurrence_after(t) else {
                continue;
            };
            assert!(n > t);
            assert_eq!(trigger.latest_occurrence_at_or_before(n), Some(n));
            assert_eq!(trigger.latest_occurrence_at_or_before(n - 1), trigger.latest_occurrence_at_or_before(t));
        }
    }
}
