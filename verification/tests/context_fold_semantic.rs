use orchestration::context_fold::semantic::{truncate_chars, BigramOverlapScorer};

#[test]
fn utf8_summary_truncation_safe() {
    let long = "天气预报今天多云转晴明天有雨";
    let t = truncate_chars(long, 6);
    assert_eq!(t.chars().count(), 7);
    assert!(t.ends_with('…'));
    assert_eq!(truncate_chars("短", 6), "短");
    assert_eq!(truncate_chars("任意", 0), "");
}

#[test]
fn bigrams_skip_whitespace() {
    assert_eq!(BigramOverlapScorer::bigrams("a b c"), vec![('a', 'b'), ('b', 'c')]);
    assert!(BigramOverlapScorer::bigrams("x").is_empty());
    assert!(BigramOverlapScorer::bigrams("  ").is_empty());
}

#[test]
fn overlap_counts_distinct_bigrams() {
    // "abab" has distinct {ab, ba}; "abc" has {ab, bc}; they share {ab}.
    assert_eq!(BigramOverlapScorer::overlap_counts("abab", "abc"), (1, 2, 2));
    assert_eq!(BigramOverlapScorer::overlap_counts("乌龙茶", "乌龙茶偏好"), (2, 2, 4));
    assert_eq!(BigramOverlapScorer::overlap_counts("a", "abc"), (0, 0, 2));
}
