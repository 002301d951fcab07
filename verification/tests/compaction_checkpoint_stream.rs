use orchestration::compaction_checkpoint::stream::{
    detect_unclosed_compactions, fold_checkpoints, render_transcript, CompactionCheckpoint, CompactionLogEntry,
    CompactionMessage, CompactionRole, ViewSegment,
};

fn user(text: &str) -> CompactionMessage {
    CompactionMessage::new(CompactionRole::User, text)
}

fn checkpoint(start: usize, end: usize, summary: &str, marker: &str) -> CompactionLogEntry {
    CompactionLogEntry::Checkpoint(Box::new(CompactionCheckpoint {
        start_seq: start,
        end_seq: end,
        summary: summary.into(),
        marker: marker.into(),
    }))
}

fn start(marker: &str) -> CompactionLogEntry {
    CompactionLogEntry::Start { marker: marker.into() }
}

fn end(marker: &str) -> CompactionLogEntry {
    CompactionLogEntry::End { marker: marker.into() }
}

#[test]
fn a_transcript_without_checkpoints_folds_to_itself() {
    let messages = vec![user("a"), user("b"), user("c")];
    let folded = fold_checkpoints(messages.len(), &[]);
    assert_eq!(folded.segments, vec![ViewSegment::Original { start_seq: 0, end_seq: 3 }]);
    assert!(folded.unclosed_markers.is_empty());
}

#[test]
fn unclosed_marker_pairs_are_detected_and_never_applied() {
    let log = vec![start("compaction/1"), checkpoint(0, 2, "summary", "compaction/1")];
    assert_eq!(detect_unclosed_compactions(&log), vec!["compaction/1"]);
    let folded = fold_checkpoints(3, &log);
    assert_eq!(folded.segments, vec![ViewSegment::Original { start_seq: 0, end_seq: 3 }]);
    assert_eq!(folded.rejected, vec!["marker compaction/1 never closed; its checkpoint is not applied".to_string()]);
}

#[test]
fn a_closed_checkpoint_replaces_its_span_and_a_later_one_supersedes_it() {
    let log = vec![
        start("k1"),
        checkpoint(1, 3, "first", "k1"),
        end("k1"),
        start("k2"),
        checkpoint(0, 4, "second", "k2"),
        end("k2"),
    ];
    let folded = fold_checkpoints(6, &log);
    assert_eq!(
        folded.segments,
        vec![
            ViewSegment::Summary { start_seq: 0, end_seq: 4, summary: "second".into(), marker: "k2".into() },
            ViewSegment::Original { start_seq: 4, end_seq: 6 },
        ]
    );
    assert_eq!(folded.applied_markers, vec!["k1".to_string(), "k2".to_string()]);
    assert!(folded.rejected.is_empty());
}

#[test]
fn half_replacing_a_summary_and_malformed_entries_are_refused() {
    let log = vec![
        start("k1"),
        checkpoint(2, 4, "first", "k1"),
        end("k1"),
        start("k2"),
        checkpoint(3, 5, "second", "k2"),
        end("k2"),
        end("ghost"),
        checkpoint(0, 1, "x", "nobody"),
        start("k3"),
        checkpoint(4, 4, "empty", "k3"),
        end("k3"),
        start("k4"),
        checkpoint(5, 9, "far", "k4"),
        end("k4"),
        start("k5"),
        start("k5"),
        end("k5"),
    ];
    let folded = fold_checkpoints(6, &log);
    assert_eq!(
        folded.rejected,
        vec![
            "marker ghost closed without opening".to_string(),
            "checkpoint nobody has no open marker pair".to_string(),
            "marker k5 opened twice without closing".to_string(),
            "marker k5 closed without a checkpoint".to_string(),
            "checkpoint k2 half-replaces standing summary k1; rejected".to_string(),
            "checkpoint k3 covers an empty span [4, 4)".to_string(),
            "checkpoint k4 reaches past the transcript (9 > 6)".to_string(),
        ]
    );
    assert_eq!(folded.applied_markers, vec!["k1".to_string()]);
    assert_eq!(
        folded.segments,
        vec![
            ViewSegment::Original { start_seq: 0, end_seq: 2 },
            ViewSegment::Summary { start_seq: 2, end_seq: 4, summary: "first".into(), marker: "k1".into() },
            ViewSegment::Original { start_seq: 4, end_seq: 6 },
        ]
    );
}

#[test]
fn render_transcript_spells_out_tool_correlation() {
    let messages = vec![
        CompactionMessage::new(CompactionRole::System, "be nice"),
        CompactionMessage::new(CompactionRole::Assistant, "calling").with_tool_calls(vec!["a".into(), "b".into()]),
        CompactionMessage::new(CompactionRole::Tool, "ok").with_tool_result_id("a"),
    ];
    assert_eq!(
        render_transcript(&messages),
        "[system] be nice\n[assistant] calling (tool_calls: a, b)\n[tool] ok (answers: a)\n"
    );
}
