use std::cell::Cell;

use orchestration::durable::{
    jsonl_records, ActivityEvent, ActivityEventKind, ActivityExecutor, DurableError, DurableHistory, DurableRun,
    RetryPolicy,
};

struct CountingEcho {
    calls: Cell<u32>,
}

impl CountingEcho {
    fn new() -> Self {
        Self { calls: Cell::new(0) }
    }
    fn hits(&self) -> u32 {
        self.calls.get()
    }
}

impl ActivityExecutor for CountingEcho {
    fn execute(&self, _activity_id: &str, input: &str) -> Result<String, String> {
        self.calls.set(self.calls.get() + 1);
        Ok(input.to_string())
    }
}

struct FailThenSucceed {
    calls: Cell<u32>,
    fail_times: u32,
}

impl FailThenSucceed {
    fn new(fail_times: u32) -> Self {
        Self { calls: Cell::new(0), fail_times }
    }
    fn hits(&self) -> u32 {
        self.calls.get()
    }
}

impl ActivityExecutor for FailThenSucceed {
    fn execute(&self, _activity_id: &str, input: &str) -> Result<String, String> {
        let n = self.calls.get() + 1;
        self.calls.set(n);
        if n <= self.fail_times {
            Err(format!("transient-{n}"))
        } else {
            Ok(input.to_string())
        }
    }
}

struct AlwaysFail;

impl ActivityExecutor for AlwaysFail {
    fn execute(&self, _activity_id: &str, _input: &str) -> Result<String, String> {
        Err("intentional failure".into())
    }
}

fn no_retry() -> RetryPolicy {
    RetryPolicy::new(1, 1_000, 1_000)
}

fn policy_3() -> RetryPolicy {
    RetryPolicy::default()
}

fn kinds_of(h: &DurableHistory) -> Vec<ActivityEventKind> {
    h.events().iter().map(|e| e.kind).collect()
}

// The first `k` events of a journal, as a crash after the k-th write leaves it.
fn truncated(h: &DurableHistory, k: usize) -> DurableHistory {
    let lines: Vec<(usize, ActivityEvent)> =
        h.events().iter().take(k).enumerate().map(|(i, e)| (i + 1, e.clone())).collect();
    DurableHistory::from_numbered_events(lines).unwrap()
}

#[test]
fn fresh_run_records_started_scheduled_completed() {
    let exec = CountingEcho::new();
    let mut run = DurableRun::start("{\"k\":1}".into(), 1000);
    let a = run.execute_activity("echo", "1".into(), &exec, no_retry(), 1001).unwrap();
    let b = run.execute_activity("echo", "2".into(), &exec, no_retry(), 1002).unwrap();
    let sum = a.parse::<i64>().unwrap() + b.parse::<i64>().unwrap();
    run.complete(format!("{{\"sum\":{sum}}}"), 1003).unwrap();
    assert_eq!(exec.hits(), 2);
    assert_eq!(
        kinds_of(run.history()),
        vec![
            ActivityEventKind::RunStarted,
            ActivityEventKind::ActivityScheduled,
            ActivityEventKind::ActivityCompleted,
            ActivityEventKind::ActivityScheduled,
            ActivityEventKind::ActivityCompleted,
            ActivityEventKind::RunCompleted,
        ]
    );
    for (i, e) in run.history().events().iter().enumerate() {
        assert_eq!(e.seq, (i + 1) as u64);
    }
}

#[test]
fn activity_failure_is_recorded_and_propagated() {
    let mut run = DurableRun::start("null".into(), 1);
    let err = run.execute_activity("failing", "null".into(), &AlwaysFail, no_retry(), 2).unwrap_err();
    assert!(matches!(
        err,
        DurableError::ActivityFailed { attempt: 1, ref activity_id, .. } if activity_id == "failing"
    ));
    run.fail(err.to_string(), 3).unwrap();
    let failed = run.history().filter_kind(ActivityEventKind::ActivityFailed).len();
    assert_eq!(failed, 1);
    assert_eq!(run.history().events().last().unwrap().kind, ActivityEventKind::RunFailed);
}

#[test]
fn replay_skips_completed_activities() {
    let exec = CountingEcho::new();
    let mut run = DurableRun::start("{}".into(), 10);
    let r1 = run.execute_activity("echo", "1".into(), &exec, no_retry(), 11).unwrap();
    let r2 = run.execute_activity("echo", "2".into(), &exec, no_retry(), 12).unwrap();
    run.complete("{\"sum\":3}".into(), 13).unwrap();
    assert_eq!(exec.hits(), 2);
    let history = run.into_history();

    let mut replayed = DurableRun::resume(history.clone()).unwrap();
    let p1 = replayed.execute_activity("echo", "1".into(), &exec, no_retry(), 21).unwrap();
    let p2 = replayed.execute_activity("echo", "2".into(), &exec, no_retry(), 22).unwrap();
    replayed.complete("{\"sum\":3}".into(), 23).unwrap();
    assert_eq!(p1, r1);
    assert_eq!(p2, r2);
    assert_eq!(exec.hits(), 2, "completed activities must not re-execute");
    assert_eq!(replayed.history(), &history, "replay must not extend a finished journal");
}

#[test]
fn replay_consumes_recorded_retry_chain() {
    let exec = FailThenSucceed::new(2);
    let mut run = DurableRun::start("{}".into(), 1);
    let out = run.execute_activity("flaky", "\"ok\"".into(), &exec, policy_3(), 2).unwrap();
    assert_eq!(out, "\"ok\"");
    assert_eq!(exec.hits(), 3);
    run.complete(out.clone(), 3).unwrap();
    let history = run.into_history();
    let attempts: Vec<u32> =
        history.filter_kind(ActivityEventKind::ActivityScheduled).iter().map(|e| e.attempt).collect();
    assert_eq!(attempts, vec![1, 2, 3]);

    let exec2 = FailThenSucceed::new(99);
    let mut replayed = DurableRun::resume(history).unwrap();
    let again = replayed.execute_activity("flaky", "\"ok\"".into(), &exec2, policy_3(), 9).unwrap();
    assert_eq!(again, "\"ok\"");
    assert_eq!(exec2.hits(), 0, "retry chain replay must skip executor");
}

#[test]
fn crash_after_scheduled_reexecutes_at_least_once() {
    let exec = CountingEcho::new();
    let mut run = DurableRun::start("{}".into(), 1);
    run.execute_activity("echo", "7".into(), &exec, no_retry(), 2).unwrap();
    let history = truncated(run.history(), 2);
    assert_eq!(history.len(), 2);

    let mut resumed = DurableRun::resume(history).unwrap();
    let out = resumed.execute_activity("echo", "7".into(), &exec, no_retry(), 3).unwrap();
    assert_eq!(out, "7");
    assert_eq!(exec.hits(), 2, "first complete + crash recovery");
    assert_eq!(
        kinds_of(resumed.history()),
        vec![ActivityEventKind::RunStarted, ActivityEventKind::ActivityScheduled, ActivityEventKind::ActivityCompleted]
    );
    resumed.complete(out, 4).unwrap();

    let extended = resumed.into_history();
    let mut second = DurableRun::resume(extended).unwrap();
    let again = second.execute_activity("echo", "7".into(), &exec, no_retry(), 5).unwrap();
    assert_eq!(again, "7");
    assert_eq!(exec.hits(), 2, "second resume must skip recovered completion");
}

#[test]
fn crash_after_failed_continues_retry_budget() {
    let exec = FailThenSucceed::new(2);
    let mut run = DurableRun::start("{}".into(), 1);
    let _ = run.execute_activity("flaky", "1".into(), &exec, policy_3(), 2);
    let history = truncated(run.history(), 3);

    let exec2 = FailThenSucceed::new(1);
    let mut resumed = DurableRun::resume(history).unwrap();
    let out = resumed.execute_activity("flaky", "1".into(), &exec2, policy_3(), 9).unwrap();
    assert_eq!(out, "1");
    assert_eq!(exec2.hits(), 2);
    let scheduled_attempts: Vec<u32> =
        resumed.history().filter_kind(ActivityEventKind::ActivityScheduled).iter().map(|e| e.attempt).collect();
    assert_eq!(scheduled_attempts, vec![1, 2, 3]);
}

#[test]
fn mismatched_schedule_is_fail_closed() {
    let exec = CountingEcho::new();
    let mut run = DurableRun::start("{}".into(), 1);
    run.execute_activity("echo", "1".into(), &exec, no_retry(), 2).unwrap();
    let history = run.into_history();
    let before = exec.hits();

    let mut replayed = DurableRun::resume(history).unwrap();
    let err = replayed.execute_activity("echo", "99".into(), &exec, no_retry(), 3).unwrap_err();
    assert!(matches!(err, DurableError::ReplayMismatch { .. }));
    assert_eq!(exec.hits(), before);

    let mut replayed_id = DurableRun::resume(replayed.into_history()).unwrap();
    let err = replayed_id.execute_activity("other", "1".into(), &exec, no_retry(), 4).unwrap_err();
    assert!(matches!(err, DurableError::ReplayMismatch { .. }));
    assert_eq!(exec.hits(), before);
}

// The journal written out one event per line, as JSON.
fn to_jsonl(h: &DurableHistory) -> String {
    let mut out = String::new();
    for e in h.events() {
        let mut line = serde_json::Map::new();
        line.insert("seq".into(), serde_json::Value::from(e.seq));
        line.insert("kind".into(), serde_json::Value::from(e.kind.as_str()));
        line.insert("activity_id".into(), serde_json::Value::from(e.activity_id.clone()));
        let json = |t: &Option<String>| match t {
            Some(t) => serde_json::from_str::<serde_json::Value>(t).unwrap(),
            None => serde_json::Value::Null,
        };
        line.insert("input".into(), json(&e.input));
        line.insert("output".into(), json(&e.output));
        line.insert("error".into(), e.error.clone().map(serde_json::Value::from).unwrap_or(serde_json::Value::Null));
        line.insert("attempt".into(), serde_json::Value::from(e.attempt));
        line.insert("timestamp_ms".into(), serde_json::Value::from(e.timestamp_ms));
        out.push_str(&serde_json::Value::Object(line).to_string());
        out.push('\n');
    }
    out
}

fn kind_named(name: &str) -> ActivityEventKind {
    [
        ActivityEventKind::RunStarted,
        ActivityEventKind::ActivityScheduled,
        ActivityEventKind::ActivityCompleted,
        ActivityEventKind::ActivityFailed,
        ActivityEventKind::RunCompleted,
        ActivityEventKind::RunFailed,
    ]
    .into_iter()
    .find(|k| k.as_str() == name)
    .unwrap()
}

fn from_jsonl(text: &str) -> Result<DurableHistory, DurableError> {
    let mut lines = Vec::new();
    for (number, line) in jsonl_records(text) {
        let v: serde_json::Value = serde_json::from_str(&line).unwrap();
        let text = |key: &str| match &v[key] {
            serde_json::Value::Null => None,
            other => Some(other.to_string()),
        };
        lines.push((
            number,
            ActivityEvent {
                seq: v["seq"].as_u64().unwrap(),
                kind: kind_named(v["kind"].as_str().unwrap()),
                activity_id: v["activity_id"].as_str().unwrap().to_string(),
                input: text("input"),
                output: text("output"),
                error: v["error"].as_str().map(str::to_string),
                attempt: v["attempt"].as_u64().unwrap() as u32,
                timestamp_ms: v["timestamp_ms"].as_i64().unwrap(),
            },
        ));
    }
    DurableHistory::from_numbered_events(lines)
}

#[test]
fn jsonl_round_trip_resume_replays() {
    let exec = CountingEcho::new();
    let mut run = DurableRun::start("{\"k\":1}".into(), 1);
    run.execute_activity("echo", "\"x\"".into(), &exec, no_retry(), 2).unwrap();
    run.complete("\"x\"".into(), 3).unwrap();
    let jsonl = to_jsonl(run.history());
    let restored = from_jsonl(&jsonl).unwrap();
    assert_eq!(&restored, run.history());

    let mut replayed = DurableRun::resume(restored).unwrap();
    let out = replayed.execute_activity("echo", "\"x\"".into(), &exec, no_retry(), 9).unwrap();
    replayed.complete("\"x\"".into(), 10).unwrap();
    assert_eq!(out, "\"x\"");
    assert_eq!(exec.hits(), 1);
}

#[test]
fn retry_budget_exhausted_stops() {
    let mut run = DurableRun::start("{}".into(), 1);
    let err = run.execute_activity("failing", "null".into(), &AlwaysFail, policy_3(), 2).unwrap_err();
    assert!(matches!(err, DurableError::ActivityFailed { attempt: 3, .. }));
    assert_eq!(run.history().filter_kind(ActivityEventKind::ActivityScheduled).len(), 3);
    assert_eq!(run.history().filter_kind(ActivityEventKind::ActivityFailed).len(), 3);
}

#[test]
fn finished_run_rejects_further_work() {
    let exec = CountingEcho::new();
    let mut run = DurableRun::start("{}".into(), 1);
    run.complete("null".into(), 2).unwrap();
    assert!(run.is_finished());
    assert!(matches!(
        run.execute_activity("echo", "1".into(), &exec, no_retry(), 3),
        Err(DurableError::RunAlreadyFinished)
    ));
    assert!(matches!(run.complete("null".into(), 4), Err(DurableError::RunAlreadyFinished)));
}

#[test]
fn resume_rejects_corrupt_prefix() {
    assert!(matches!(DurableRun::resume(DurableHistory::new()), Err(DurableError::HistoryCorrupted { .. })));
    let mut h = DurableHistory::new();
    h.record(ActivityEventKind::ActivityScheduled, "a", None, None, None, 1, 1);
    assert!(matches!(DurableRun::resume(h), Err(DurableError::HistoryCorrupted { .. })));
}

#[test]
fn resume_extends_journal_with_fresh_activity() {
    let exec = CountingEcho::new();
    let mut run = DurableRun::start("{}".into(), 1);
    run.execute_activity("echo", "1".into(), &exec, no_retry(), 2).unwrap();
    let history = run.into_history();

    let mut resumed = DurableRun::resume(history).unwrap();
    let first = resumed.execute_activity("echo", "1".into(), &exec, no_retry(), 3).unwrap();
    assert_eq!(first, "1");
    let second = resumed.execute_activity("echo", "2".into(), &exec, no_retry(), 4).unwrap();
    assert_eq!(second, "2");
    resumed.complete("{\"sum\":3}".into(), 5).unwrap();
    assert_eq!(exec.hits(), 2, "first activity replayed, second executed once");
    assert_eq!(resumed.history().len(), 6);
}

#[test]
fn replay_mismatch_names_both_sides() {
    let exec = CountingEcho::new();
    let mut run = DurableRun::start("{}".into(), 1);
    run.execute_activity("echo", "1".into(), &exec, no_retry(), 2).unwrap();
    let mut replayed = DurableRun::resume(run.into_history()).unwrap();
    assert_eq!(
        replayed.execute_activity("echo", "99".into(), &exec, no_retry(), 3),
        Err(DurableError::ReplayMismatch {
            activity_id: "echo".into(),
            expected_input: "99".into(),
            found: "kind=activity_scheduled activity_id=\"echo\" input=1".into(),
        })
    );
}

#[test]
fn long_inputs_are_cut_in_mismatch_previews() {
    let exec = CountingEcho::new();
    let mut run = DurableRun::start("{}".into(), 1);
    run.complete("null".into(), 2).unwrap();
    let mut replayed = DurableRun::resume(run.into_history()).unwrap();
    let long = format!("\"{}\"", "a".repeat(200));
    let err = replayed.execute_activity("echo", long.clone(), &exec, no_retry(), 3).unwrap_err();
    let expected_preview = format!("{}…", &long[..128]);
    assert_eq!(
        err,
        DurableError::ReplayMismatch {
            activity_id: "echo".into(),
            expected_input: expected_preview,
            found: "kind=run_completed".into(),
        }
    );
    assert_eq!(exec.hits(), 0);
}

#[test]
fn completing_against_a_recorded_failure_is_a_mismatch() {
    let mut run = DurableRun::start("{}".into(), 1);
    run.fail("boom".into(), 2).unwrap();
    let mut replayed = DurableRun::resume(run.into_history()).unwrap();
    assert_eq!(
        replayed.complete("null".into(), 3),
        Err(DurableError::ReplayMismatch {
            activity_id: "run".into(),
            expected_input: "run_completed".into(),
            found: "kind=run_failed".into(),
        })
    );
    assert_eq!(replayed.fail("boom".into(), 4), Ok(()));
    assert!(replayed.is_finished());
}
