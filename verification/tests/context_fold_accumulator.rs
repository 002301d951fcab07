use orchestration::context_fold::accumulator::{approx_tokens, TokenAccumulator};

#[test]
fn approx_tokens_basic() {
    assert_eq!(approx_tokens(""), 0);
    assert_eq!(approx_tokens("abcd"), 1);
    assert_eq!(approx_tokens("abcde"), 1);
    assert_eq!(approx_tokens("abcdefgh"), 2);
}

#[test]
fn approx_tokens_chinese() {
    assert_eq!(approx_tokens("你好"), 0);
    assert_eq!(approx_tokens("你好世界你好世界"), 2);
}

#[test]
fn accumulator_initial_empty() {
    let a = TokenAccumulator::new();
    assert_eq!(a.total_tokens(), 0);
    assert_eq!(a.snapshot().session_count, 0);
}

#[test]
fn accumulator_record_session() {
    let mut a = TokenAccumulator::new();
    a.record_session("s1", 100);
    a.record_session("s1", 50);
    a.record_session("s2", 200);
    assert_eq!(a.total_tokens(), 350);
    assert_eq!(a.snapshot().session_count, 2);
    assert_eq!(a.snapshot().per_session.get("s1"), Some(150));
    assert_eq!(a.snapshot().per_session.get("s2"), Some(200));
}

#[test]
fn accumulator_anonymous() {
    let mut a = TokenAccumulator::new();
    a.record_anonymous(10);
    a.record_anonymous(20);
    assert_eq!(a.total_tokens(), 30);
    assert_eq!(a.snapshot().session_count, 2);
}

#[test]
fn snapshot_key_order_is_stable() {
    let mut a = TokenAccumulator::new();
    a.record_session("z", 1);
    a.record_session("a", 2);
    let keys: Vec<String> = a.snapshot().per_session.keys();
    assert_eq!(keys, vec!["a".to_string(), "z".to_string()]);
}

#[test]
fn anonymous_sessions_are_numbered_by_count() {
    let mut a = TokenAccumulator::new();
    a.record_anonymous(10);
    a.record_session("m", 5);
    a.record_anonymous(20);
    assert_eq!(a.snapshot().per_session.get("anon-0"), Some(10));
    assert_eq!(a.snapshot().per_session.get("anon-2"), Some(20));
    assert_eq!(a.snapshot().per_session.keys(), vec!["anon-0".to_string(), "anon-2".to_string(), "m".to_string()]);
    assert_eq!(a.snapshot().per_session.len(), 3);
    assert_eq!(a.snapshot().per_session.get("absent"), None);
}
