use orchestration::repetition_advisory::{
    append_result_context, canonical_arguments, chain_key, params_preview, AdvisoryLevel, JsonValue,
    RepetitionDetector, RepetitionPolicy, RESULT_CONTEXT_MARKER,
};

fn obj(entries: Vec<(&str, JsonValue)>) -> JsonValue {
    JsonValue::object(entries.into_iter().map(|(k, v)| (k.to_string(), v)).collect())
}

fn s(text: &str) -> JsonValue {
    JsonValue::Str(text.to_string())
}

fn n(text: &str) -> JsonValue {
    JsonValue::Number(text.to_string())
}

fn query(text: &str) -> JsonValue {
    obj(vec![("query", s(text))])
}

#[test]
fn chain_key_is_stable_across_object_key_order() {
    let a = obj(vec![
        ("alpha", n("1")),
        ("beta", obj(vec![("x", JsonValue::Bool(true)), ("y", JsonValue::Array(vec![n("1"), n("2")]))])),
    ]);
    let b = obj(vec![
        ("beta", obj(vec![("y", JsonValue::Array(vec![n("1"), n("2")])), ("x", JsonValue::Bool(true))])),
        ("alpha", n("1")),
    ]);
    assert_eq!(chain_key("tool.lookup", &a), chain_key("tool.lookup", &b));
    assert_ne!(chain_key("tool.lookup", &a), chain_key("tool.other", &a));
}

#[test]
fn chain_key_covers_full_arguments_while_preview_truncates() {
    let first = obj(vec![("path", s(&format!("{}1", "a".repeat(50))))]);
    let second = obj(vec![("path", s(&format!("{}2", "a".repeat(50))))]);
    assert_eq!(params_preview(&first, 16), params_preview(&second, 16));
    assert!(params_preview(&first, 16).ends_with('…'));
    assert_ne!(chain_key("tool.lookup", &first), chain_key("tool.lookup", &second));
    let full = canonical_arguments(&first);
    let preview = params_preview(&first, 16);
    assert!(full.starts_with(&preview.trim_end_matches('…').to_string()));
}

#[test]
fn consecutive_identical_calls_count_up_until_a_threshold_fires() {
    let mut detector = RepetitionDetector::new(RepetitionPolicy::default());
    let args = query("same");
    assert!(detector.observe_tool_call("search", &args).is_none());
    assert!(detector.observe_tool_call("search", &args).is_none());
    let third = detector.observe_tool_call("search", &args).expect("the third consecutive occurrence must remind");
    assert_eq!(third.occurrence, 3);
    assert_eq!(detector.streak(), 3);
    assert!(detector.observe_tool_call("search", &args).is_none());
    assert!(detector.observe_tool_call("search", &args).is_some());
}

#[test]
fn a_user_message_clears_the_streak() {
    let mut detector = RepetitionDetector::new(RepetitionPolicy::default());
    let args = query("same");
    detector.observe_tool_call("search", &args);
    detector.observe_tool_call("search", &args);
    assert_eq!(detector.streak(), 2);
    detector.observe_user_message();
    assert_eq!(detector.streak(), 0);
    assert_eq!(detector.streak_key(), None);
    assert!(detector.observe_tool_call("search", &args).is_none());
    assert_eq!(detector.streak(), 1);
}

#[test]
fn a_different_chain_key_breaks_the_streak() {
    let mut detector = RepetitionDetector::new(RepetitionPolicy::default());
    let first = query("one");
    let second = query("two");
    detector.observe_tool_call("search", &first);
    detector.observe_tool_call("search", &first);
    detector.observe_tool_call("search", &second);
    assert_eq!(detector.streak(), 1);
    detector.observe_tool_call("search", &first);
    assert_eq!(detector.streak(), 1);
}

#[test]
fn excluded_tools_are_transparent_to_counting_and_clearing() {
    let policy = RepetitionPolicy::default().with_excluded_tools(vec!["clock".to_string(), "heartbeat".to_string()]);
    let mut detector = RepetitionDetector::new(policy);
    let args = query("same");
    detector.observe_tool_call("search", &args);
    detector.observe_tool_call("search", &args);
    for _ in 0..4 {
        assert!(detector.observe_tool_call("clock", &args).is_none());
    }
    assert_eq!(detector.streak(), 2);
    let third = detector.observe_tool_call("search", &args).expect("the streak survives excluded calls");
    assert_eq!(third.occurrence, 3);
    let mut solo = RepetitionDetector::new(RepetitionPolicy::default().with_excluded_tools(vec!["clock".to_string()]));
    for _ in 0..20 {
        assert!(solo.observe_tool_call("clock", &args).is_none());
    }
    assert_eq!(solo.streak(), 0);
}

#[test]
fn threshold_progression_uses_gentle_then_detailed_text() {
    let mut detector = RepetitionDetector::new(RepetitionPolicy::default());
    let args = query("same");
    let mut fired = Vec::new();
    for occurrence in 1..=8 {
        if let Some(advisory) = detector.observe_tool_call("search", &args) {
            fired.push((occurrence, advisory));
        }
    }
    assert_eq!(fired.iter().map(|(o, _)| *o).collect::<Vec<_>>(), vec![3, 5, 8]);
    assert_eq!(fired[0].1.level, AdvisoryLevel::Gentle);
    assert_eq!(fired[1].1.level, AdvisoryLevel::Gentle);
    assert_eq!(fired[2].1.level, AdvisoryLevel::Detailed);
    let gentle = &fired[0].1.text;
    assert!(gentle.contains("3"), "the gentle text names the count: {gentle}");
    let detailed = &fired[2].1.text;
    assert!(detailed.contains("已尝试次数：8"), "{detailed}");
    assert!(detailed.contains("参数预览"), "{detailed}");
    assert!(detailed.contains("换一个角度") && detailed.contains("向用户询问"), "{detailed}");
}

#[test]
fn thresholds_are_configurable_constants() {
    let mut detector = RepetitionDetector::new(RepetitionPolicy::default().with_thresholds(vec![2, 4]));
    let args = query("same");
    assert!(detector.observe_tool_call("search", &args).is_none());
    let second = detector.observe_tool_call("search", &args).unwrap();
    assert_eq!(second.level, AdvisoryLevel::Gentle);
    assert!(detector.observe_tool_call("search", &args).is_none());
    let fourth = detector.observe_tool_call("search", &args).unwrap();
    assert_eq!(fourth.level, AdvisoryLevel::Detailed);
    let mut quiet = RepetitionDetector::new(RepetitionPolicy::default().with_thresholds(Vec::new()));
    for _ in 0..10 {
        assert!(quiet.observe_tool_call("search", &args).is_none());
    }
}

#[test]
fn advisory_context_appends_after_the_untouched_result_text() {
    let mut detector = RepetitionDetector::new(RepetitionPolicy::default());
    let args = query("same");
    for _ in 0..2 {
        detector.observe_tool_call("search", &args);
    }
    let advisory = detector.observe_tool_call("search", &args).unwrap();
    let rendered = "{\"hits\":3}";
    let combined = append_result_context(rendered, &advisory);
    assert!(combined.starts_with(rendered));
    let marker_at = combined.find(RESULT_CONTEXT_MARKER).expect("the advisory is carried under the marker");
    assert!(marker_at > rendered.len());
    assert!(combined.contains(&advisory.text));
}

#[test]
fn the_advisory_channel_only_advises_and_never_intercepts_execution() {
    let mut detector = RepetitionDetector::new(RepetitionPolicy::default());
    let args = query("same");
    let mut executions = 0u32;
    let mut whole_results = 0u32;
    for _ in 0..9 {
        let rendered = "{\"hits\":3}";
        executions += 1;
        if let Some(advisory) = detector.observe_tool_call("search", &args) {
            assert!(append_result_context(rendered, &advisory).starts_with(rendered));
        }
        whole_results += 1;
    }
    assert_eq!(executions, 9);
    assert_eq!(whole_results, 9);
    assert_eq!(detector.streak(), 9);
}

#[test]
fn canonical_text_sorts_keys_and_quotes_strings() {
    let v = obj(vec![
        ("b", JsonValue::Array(vec![JsonValue::Null, JsonValue::Bool(false), n("2.5")])),
        ("a", s("x\"y")),
    ]);
    assert_eq!(canonical_arguments(&v), "{\"a\":\"x\\\"y\",\"b\":[null,false,2.5]}");
    assert_eq!(chain_key("t", &n("1")), "t\u{1f}1");
    assert_eq!(params_preview(&s("abc"), 10), "\"abc\"");
    assert_eq!(params_preview(&s("abcdef"), 3), "\"ab…");
}

#[test]
fn a_repeated_key_keeps_its_last_value() {
    let v = obj(vec![("k", n("1")), ("k", n("2"))]);
    assert_eq!(canonical_arguments(&v), "{\"k\":2}");
}

#[test]
fn strings_are_written_with_json_escapes() {
    let text = "a\"b\\c\nd\te\u{1}f\u{8}g\u{c}h\ri\u{1f}j/é";
    assert_eq!(
        canonical_arguments(&s(text)),
        "\"a\\\"b\\\\c\\nd\\te\\u0001f\\bg\\fh\\ri\\u001fj/é\""
    );
}
