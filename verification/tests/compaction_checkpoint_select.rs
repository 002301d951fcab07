use orchestration::compaction_checkpoint::select::{compaction_due, pair_safe_end, select_compaction_range};
use orchestration::compaction_checkpoint::stream::{CompactionMessage, CompactionRole};
use orchestration::context_overflow::{trigger_threshold_tokens, RESERVE_TOKENS};

fn user(text: &str) -> CompactionMessage {
    CompactionMessage::new(CompactionRole::User, text)
}

#[test]
fn tail_retention_respects_the_share() {
    let messages: Vec<_> = (0..10).map(|i| user(&format!("m{i:02}{}", "x".repeat(37)))).collect();
    let range = select_compaction_range(&messages, 25).expect("compressible span exists");
    assert_eq!(range.start_seq, 0);
    assert_eq!(range.end_seq, 8);
}

#[test]
fn the_cut_never_splits_a_tool_pair() {
    let messages = vec![
        user("head"),
        CompactionMessage::new(CompactionRole::Assistant, "").with_tool_calls(vec!["c1".into()]),
        CompactionMessage::new(CompactionRole::Tool, "result-1").with_tool_result_id("c1"),
        CompactionMessage::new(CompactionRole::Assistant, "").with_tool_calls(vec!["c2".into()]),
        CompactionMessage::new(CompactionRole::Tool, "result-2").with_tool_result_id("c2"),
        user("tail"),
    ];
    assert_eq!(pair_safe_end(&messages, 2, 0), 1);
    assert_eq!(pair_safe_end(&messages, 4, 0), 3);
    assert_eq!(pair_safe_end(&messages, 1, 0), 1);
    assert_eq!(pair_safe_end(&messages, 3, 0), 3);
    assert_eq!(pair_safe_end(&messages, 6, 0), 6);
}

#[test]
fn every_retreated_cut_is_pair_safe() {
    let messages = vec![
        user("m0"),
        CompactionMessage::new(CompactionRole::Assistant, "").with_tool_calls(vec!["a".into(), "b".into()]),
        CompactionMessage::new(CompactionRole::Tool, "ra").with_tool_result_id("a"),
        CompactionMessage::new(CompactionRole::Tool, "rb").with_tool_result_id("b"),
        user("m4"),
        CompactionMessage::new(CompactionRole::Assistant, "").with_tool_calls(vec!["c".into()]),
        CompactionMessage::new(CompactionRole::Tool, "rc").with_tool_result_id("c"),
        user("m7"),
    ];
    for desired in 0..=messages.len() {
        let end = pair_safe_end(&messages, desired, 0);
        assert!(end <= desired, "the cut only retreats: {desired} -> {end}");
        for (index, message) in messages.iter().enumerate() {
            for call_id in &message.tool_call_ids {
                for (other, other_message) in messages.iter().enumerate() {
                    let answers = other_message.tool_result_id.as_deref() == Some(call_id.as_str());
                    assert!(!(index < end && other >= end) || !answers, "cut {end} splits the pair of {call_id}");
                }
            }
        }
    }
}

#[test]
fn nothing_compressible_yields_no_range() {
    assert!(select_compaction_range(&[], 100).is_none());
    assert!(select_compaction_range(&[user("only")], 100).is_none());
}

#[test]
fn trigger_comparator_is_the_overflow_threshold_boundary() {
    let trigger = trigger_threshold_tokens(10_000, 1_000, RESERVE_TOKENS);
    assert!(!compaction_due(trigger, 10_000, 1_000, RESERVE_TOKENS));
    assert!(compaction_due(trigger + 1, 10_000, 1_000, RESERVE_TOKENS));
}

#[test]
fn leading_system_messages_are_never_compressed_and_newest_survives() {
    let messages = vec![
        CompactionMessage::new(CompactionRole::System, "persona"),
        CompactionMessage::new(CompactionRole::System, "rules"),
        user("a"),
        user("b"),
        user("c"),
    ];
    let range = select_compaction_range(&messages, 0).expect("span");
    assert_eq!((range.start_seq, range.end_seq), (2, 4));
    let all_system = vec![
        CompactionMessage::new(CompactionRole::System, "a"),
        CompactionMessage::new(CompactionRole::System, "b"),
    ];
    assert!(select_compaction_range(&all_system, 0).is_none());
    assert_eq!(user("").estimated_tokens(), 1);
    assert_eq!(user("abcdefgh").estimated_tokens(), 2);
}
