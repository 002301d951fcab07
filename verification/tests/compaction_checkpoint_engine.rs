use orchestration::compaction_checkpoint::engine::{finish_compaction, plan_compaction, CompactionOutcome};
use orchestration::compaction_checkpoint::stream::{
    fold_checkpoints, CompactionCheckpoint, CompactionLogEntry, CompactionMessage, CompactionRole, ViewSegment,
};
use orchestration::compaction_checkpoint::summary::{SummaryError, SummarySections};

fn summary_with_keys(keys: &str) -> String {
    SummarySections { keys: keys.into(), ..SummarySections::default() }.render()
}

fn long_user(index: usize) -> CompactionMessage {
    CompactionMessage::new(CompactionRole::User, &format!("REPLACED-{index:02}-{}", "x".repeat(36)))
}

// floor(1_000 * 0.02): the tail share of a 1_000-token window at 2 %.
const RETAIN: u64 = 20;

fn run(messages: &[CompactionMessage], log: &[CompactionLogEntry], answer: Result<String, SummaryError>) -> CompactionOutcome {
    match plan_compaction(messages, log, RETAIN) {
        Err(reason) => CompactionOutcome::Skipped { reason },
        Ok(plan) => finish_compaction(&plan, answer, "1"),
    }
}

#[test]
fn a_failed_summary_leaves_nothing_behind() {
    let messages: Vec<_> = (0..6).map(long_user).collect();
    let outcome = run(&messages, &[], Err(SummaryError::Unavailable("provider offline".into())));
    assert!(!outcome.is_compacted(), "a failed summary must not compact: {outcome:?}");
    assert_eq!(
        outcome,
        CompactionOutcome::Skipped { reason: "summary unavailable: provider offline".into() }
    );
}

#[test]
fn an_oversized_summary_is_refused() {
    let messages: Vec<_> = (0..6).map(long_user).collect();
    let oversized = summary_with_keys(&"k".repeat(2_000));
    let outcome = run(&messages, &[], Ok(oversized));
    assert!(!outcome.is_compacted(), "an oversized summary must not replace: {outcome:?}");
}

#[test]
fn a_second_compaction_merges_the_prior_summary() {
    let messages: Vec<_> = (0..6).map(long_user).collect();
    let prior = summary_with_keys("FACT-ONE-MUST-SURVIVE");
    let log = vec![
        CompactionLogEntry::Start { marker: "compaction/1".into() },
        CompactionLogEntry::Checkpoint(Box::new(CompactionCheckpoint {
            start_seq: 0,
            end_seq: 3,
            summary: prior.clone(),
            marker: "compaction/1".into(),
        })),
        CompactionLogEntry::End { marker: "compaction/1".into() },
    ];
    let plan = plan_compaction(&messages, &log, RETAIN).expect("a span is planned");
    assert_eq!(plan.prior_summaries, vec![prior.clone()]);
    let merged = summary_with_keys("FACT-ONE-MUST-SURVIVE\nFACT-TWO");
    let outcome = finish_compaction(&plan, Ok(merged), "2");
    let CompactionOutcome::Compacted { checkpoint } = outcome else {
        panic!("the merged summary must be accepted: {outcome:?}");
    };
    assert!(checkpoint.summary.contains("FACT-ONE-MUST-SURVIVE"));
    assert!(checkpoint.end_seq > 3, "the new checkpoint covers the old summary's span");
    assert_eq!(checkpoint.marker, "compaction/2");

    let mut extended = log;
    extended.extend([
        CompactionLogEntry::Start { marker: checkpoint.marker.clone() },
        CompactionLogEntry::Checkpoint(Box::new(checkpoint.clone())),
        CompactionLogEntry::End { marker: checkpoint.marker.clone() },
    ]);
    let folded = fold_checkpoints(messages.len(), &extended);
    let standing: Vec<_> = folded
        .segments
        .iter()
        .filter_map(|segment| match segment {
            ViewSegment::Summary { summary, .. } => Some(summary.clone()),
            ViewSegment::Original { .. } => None,
        })
        .collect();
    assert_eq!(standing, vec![checkpoint.summary], "the old summary must be superseded");
}

#[test]
fn the_plan_keeps_the_newest_message_and_renders_the_span() {
    let messages: Vec<_> = (0..6).map(long_user).collect();
    let plan = plan_compaction(&messages, &[], RETAIN).expect("a span is planned");
    assert_eq!((plan.start_seq, plan.end_seq), (0, 5));
    assert!(plan.transcript.contains("REPLACED-04"));
    assert!(!plan.transcript.contains("REPLACED-05"));
    assert!(plan.prior_summaries.is_empty());
    let request = plan.request();
    assert_eq!(request.transcript, plan.transcript);
}

#[test]
fn a_half_covered_summary_refuses_the_attempt() {
    let messages: Vec<_> = (0..6).map(long_user).collect();
    let log = vec![
        CompactionLogEntry::Start { marker: "compaction/old".into() },
        CompactionLogEntry::Checkpoint(Box::new(CompactionCheckpoint {
            start_seq: 3,
            end_seq: 6,
            summary: summary_with_keys("late"),
            marker: "compaction/old".into(),
        })),
        CompactionLogEntry::End { marker: "compaction/old".into() },
    ];
    assert_eq!(
        plan_compaction(&messages, &log, RETAIN),
        Err("span [0, 5) half-replaces standing summary compaction/old".to_string())
    );
}

#[test]
fn nothing_to_compact_skips() {
    let messages = vec![long_user(0)];
    assert_eq!(plan_compaction(&messages, &[], RETAIN), Err("no pair-safe compressible span".to_string()));
}
