use orchestration::prompt_stabilizer::{
    assemble_tiered, EphemeralContextSnapshot, PromptCacheStabilizer, StabilizedMessage, StabilizedRole,
};

#[test]
fn test_prompt_cache_stabilization_assembly() {
    let sys = "You are Apeireth, an autonomous companion.";
    let history = vec![
        StabilizedMessage { role: StabilizedRole::User, content: "Hello!".to_string() },
        StabilizedMessage { role: StabilizedRole::Assistant, content: "Hello! How can I help you today?".to_string() },
    ];
    let ephemeral = EphemeralContextSnapshot {
        current_time_str: "2026-08-29 22:00".to_string(),
        device_status: "Battery 95%".to_string(),
        active_mood: "Happy".to_string(),
    };
    let assembled = PromptCacheStabilizer::assemble_messages(sys, &history, "What time is it?", &ephemeral);
    assert_eq!(assembled.len(), 4);
    assert_eq!(assembled[0].role, StabilizedRole::System);
    assert_eq!(assembled[1].content, "Hello!");
    assert_eq!(assembled[2].content, "Hello! How can I help you today?");
    assert!(assembled[3].content.contains("[Ephemeral Context: Time=2026-08-29 22:00"));
    assert!(assembled[3].content.contains("What time is it?"));
}

#[test]
fn tiered_assembly_orders_by_tier() {
    let s = assemble_tiered(&[(100, "工具指引\n"), (0, "身份: 阿佩瑞斯\n"), (50, "记忆证据\n")]);
    let i0 = s.find("身份").unwrap();
    let i1 = s.find("记忆").unwrap();
    let i2 = s.find("工具").unwrap();
    assert!(i0 < i1 && i1 < i2, "tier 0 identity first: {s}");
}

#[test]
fn tiered_assembly_adds_trailing_newline_when_missing() {
    let s = assemble_tiered(&[(1, "a"), (0, "b")]);
    assert_eq!(s, "b\na\n");
}

#[test]
fn equal_tiers_keep_their_order_and_the_block_text_is_exact() {
    assert_eq!(assemble_tiered(&[(7, "x"), (3, "y\n"), (7, "z")]), "y\nx\nz\n");
    let e = EphemeralContextSnapshot {
        current_time_str: "t".into(),
        device_status: "d".into(),
        active_mood: "m".into(),
    };
    assert_eq!(e.render_block(), "[Ephemeral Context: Time=t, Device=d, Mood=m]");
    let out = PromptCacheStabilizer::assemble_messages("s", &[], "hi", &e);
    assert_eq!(out[1].content, "[Ephemeral Context: Time=t, Device=d, Mood=m]\nhi");
}

#[test]
fn cache_prefix_bytes_count_the_equal_leading_messages() {
    let m1 = vec![
        StabilizedMessage { role: StabilizedRole::System, content: "System Prompt 1234567890".to_string() },
        StabilizedMessage { role: StabilizedRole::User, content: "Old Message".to_string() },
    ];
    let m2 = vec![
        StabilizedMessage { role: StabilizedRole::System, content: "System Prompt 1234567890".to_string() },
        StabilizedMessage { role: StabilizedRole::User, content: "Old Message".to_string() },
        StabilizedMessage { role: StabilizedRole::Assistant, content: "New reply".to_string() },
    ];
    assert_eq!(PromptCacheStabilizer::cache_prefix_bytes(&m1, &m2), (35, 44));
    assert_eq!(PromptCacheStabilizer::cache_prefix_bytes(&[], &m2), (0, 0));
    let _ = PromptCacheStabilizer::new();
}
