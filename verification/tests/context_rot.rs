use orchestration::context_rot::{
    apply_ops, budget_segments, compact_then_budget, extractive_summary, query_tokens, CompactionOp,
    Compactor, Segment,
};

/// Replaces every non-core segment that repeats a line with its summary.
struct SummariseRepeats;

impl Compactor for SummariseRepeats {
    fn decide(&self, segments: &[Segment], _query: Option<&str>) -> Vec<CompactionOp> {
        segments
            .iter()
            .map(|s| {
                let lines: Vec<&str> = s.content.lines().collect();
                let mut unique = lines.clone();
                unique.sort();
                unique.dedup();
                if s.core || unique.len() == lines.len() {
                    CompactionOp::Retain
                } else {
                    let summary = extractive_summary(&s.content, 120);
                    if summary.is_empty() {
                        CompactionOp::Remove
                    } else {
                        CompactionOp::Replace(summary)
                    }
                }
            })
            .collect()
    }
}

#[test]
fn query_tokens_split_ascii_words_and_cjk_pairs() {
    assert_eq!(query_tokens("Hello, World hello"), vec!["hello".to_string(), "world".to_string()]);
    assert_eq!(query_tokens("乌龙茶偏好"), vec!["乌", "乌龙", "偏好", "茶偏", "龙茶"]);
    assert_eq!(query_tokens("a 茶"), vec!["a", "茶"]);
    assert!(query_tokens("  ,, ").is_empty());
}

#[test]
fn extractive_summary_dedups_trims_and_truncates() {
    assert_eq!(extractive_summary("旧事重提\n".repeat(20).as_str(), 120), "旧事重提");
    assert_eq!(extractive_summary(" a \n\nb\na\r\nc", 100), "a\nb\nc");
    assert_eq!(extractive_summary("abcdef\nghij", 3), "abc");
    assert_eq!(extractive_summary("ab\ncd\nef", 4), "ab\nc");
    assert_eq!(extractive_summary("\n  \n", 10), "");
}

#[test]
fn apply_ops_retains_removes_and_replaces_in_order() {
    let segs = vec![
        Segment::new("a", "one", 0),
        Segment::new("b", "two", 1),
        Segment::new("c", "three", 2).with_core(true),
    ];
    let ops = vec![CompactionOp::Retain, CompactionOp::Remove, CompactionOp::Replace("3".to_string())];
    let out = apply_ops(&segs, &ops);
    assert_eq!(out.len(), 2);
    assert_eq!(out[0], segs[0]);
    assert_eq!(out[1].name, "c");
    assert_eq!(out[1].content, "3");
    assert!(out[1].core);
    assert_eq!(out[1].age_turns, 2);
    assert_eq!(apply_ops(&segs, &ops[..1]).len(), 1);
}

#[test]
fn budget_keeps_core_first_and_cuts_the_first_overflowing_segment() {
    let segs = vec![
        Segment::new("chat", &"x".repeat(30), 0),
        Segment::new("system", &"s".repeat(40), 0).with_core(true),
        Segment::new("notes", &"n".repeat(40), 0),
        Segment::new("tail", "t", 0),
    ];
    let blocks = budget_segments(&segs, 100);
    let names: Vec<&str> = blocks.iter().map(|b| b.name.as_str()).collect();
    assert_eq!(names, vec!["system", "chat", "notes"]);
    assert!(blocks[0].core);
    assert_eq!(blocks[1].content.len(), 30);
    assert_eq!(blocks[2].content, "n".repeat(30));
    let total: usize = blocks.iter().map(|b| b.content.chars().count()).sum();
    assert_eq!(total, 100);
}

#[test]
fn budget_skips_a_segment_when_little_room_remains() {
    let segs = vec![
        Segment::new("system", &"s".repeat(90), 0).with_core(true),
        Segment::new("big", &"b".repeat(40), 0),
        Segment::new("small", "tiny", 0),
    ];
    let blocks = budget_segments(&segs, 100);
    let names: Vec<&str> = blocks.iter().map(|b| b.name.as_str()).collect();
    assert_eq!(names, vec!["system", "small"]);
}

#[test]
fn core_segments_exceeding_the_budget_are_still_kept() {
    let segs = vec![
        Segment::new("persona", &"p".repeat(300), 99).with_core(true),
        Segment::new("chat", "hi", 0),
    ];
    let blocks = budget_segments(&segs, 100);
    assert_eq!(blocks.len(), 1);
    assert_eq!(blocks[0].content.len(), 300);
}

#[test]
fn compact_then_budget_pipeline_works() {
    let segs = vec![
        Segment::new("system", "系统核心设定", 0).with_core(true),
        Segment::new("chat", "新鲜对话内容", 1),
        Segment::new("history", &"冗余历史记录\n".repeat(20), 100),
    ];
    let budgeted = compact_then_budget(&segs, &SummariseRepeats, None, 200);
    assert!(!budgeted.is_empty());
    assert!(budgeted[0].core);
    assert_eq!(budgeted[0].name, "system");
    assert_eq!(budgeted[2].content, "冗余历史记录");
}
