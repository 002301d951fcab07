use orchestration::llm::{CompletionMessage, LlmError, NoopLlmFactory, TokenUsage};

#[test]
fn llm_error_displays() {
    let e = LlmError::NotImplemented("test");
    let s = e.to_string();
    assert!(s.contains("not implemented"));
    let e2 = LlmError::RateLimited { retry_after_ms: 5000 };
    let s2 = e2.to_string();
    assert!(s2.contains("rate limited"));
    assert!(s2.contains("5000"));
}

#[test]
fn llm_error_messages_are_exact() {
    assert_eq!(LlmError::Network("down".to_string()).to_string(), "llm network error: down");
    assert_eq!(LlmError::RateLimited { retry_after_ms: 42 }.to_string(), "llm rate limited, retry after 42ms");
    assert_eq!(
        LlmError::NotImplemented("x").to_string(),
        "llm not implemented: x (0 装 PASS; rc 阶段实现)"
    );
}

#[test]
fn noop_factory_spawn_returns_error() {
    let factory = NoopLlmFactory;
    match factory.spawn_error() {
        LlmError::NotImplemented(_) => {}
        other => panic!("expected NotImplemented, got {other:?}"),
    }
    assert_eq!(factory.name(), "noop");
}

#[test]
fn noop_factory_available_models_empty() {
    assert!(NoopLlmFactory.available_models().is_empty());
}

#[test]
fn plain_message_and_usage_values() {
    let m = CompletionMessage { role: "user".into(), content: "hi".into() };
    assert_eq!(m.clone(), m);
    assert_eq!(TokenUsage::default().total_tokens, 0);
}
