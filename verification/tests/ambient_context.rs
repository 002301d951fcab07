use orchestration::ambient_context::{
    sanitize_window_title, scene_from_lowercase, AmbientConfig, AmbientContextMachine, CompanionStance,
    UserActivityScene, MAX_WINDOW_TITLE_CHARS,
};

fn machine() -> AmbientContextMachine {
    AmbientContextMachine::new(AmbientConfig::default(), 0)
}

#[test]
fn test_infer_scene_classification() {
    assert_eq!(
        AmbientContextMachine::infer_scene_from_window("main.rs - Apeireth - Visual Studio Code"),
        UserActivityScene::DeepCoding
    );
    assert_eq!(AmbientContextMachine::infer_scene_from_window("Steam - Elden Ring"), UserActivityScene::ImmersiveGame);
    assert_eq!(
        AmbientContextMachine::infer_scene_from_window("Rust Documentation - Microsoft Edge"),
        UserActivityScene::ReadingAndBrowsing
    );
    assert_eq!(
        AmbientContextMachine::infer_scene_from_window("Apeireth Desktop Companion"),
        UserActivityScene::DirectConversation
    );
}

#[test]
fn test_stance_transitions() {
    let mut machine = machine();
    machine.record_interaction(0);

    let snap1 = machine.update_environment(Some("crates/engine/memory/src/lib.rs - VSCode"), 1000);
    assert_eq!(snap1.scene, UserActivityScene::DeepCoding);
    assert_eq!(snap1.stance, CompanionStance::FocusAssistant);

    let snap2 = machine.update_environment(Some("Genshin Impact"), 2000);
    assert_eq!(snap2.scene, UserActivityScene::ImmersiveGame);
    assert_eq!(snap2.stance, CompanionStance::SilentObserver);

    let snap3 = machine.update_environment(None, 700_000);
    assert_eq!(snap3.scene, UserActivityScene::Idle);
    assert_eq!(snap3.stance, CompanionStance::Resting);
}

#[test]
fn m4_window_title_truncated_to_cap() {
    let long = "x".repeat(5000);
    let snap = machine().update_environment(Some(&long), 1000);
    let title = snap.active_window_title.expect("title present");
    assert_eq!(title.chars().count(), MAX_WINDOW_TITLE_CHARS);

    let zh = "中文标题".repeat(2000);
    let snap2 = machine().update_environment(Some(&zh), 1000);
    let title2 = snap2.active_window_title.expect("title present");
    assert_eq!(title2.chars().count(), MAX_WINDOW_TITLE_CHARS);
}

#[test]
fn m4_window_title_redacts_urls_and_emails() {
    assert_eq!(sanitize_window_title("https://mail.google.com/mail/u/0/#inbox - Gmail"), "[url] - Gmail");
    assert_eq!(sanitize_window_title("www.example.com/page?q=1"), "[url]");
    assert_eq!(sanitize_window_title("Chat with alice@example.com - Slack"), "Chat with [email] - Slack");
    assert_eq!(sanitize_window_title("user@localhost"), "user@localhost");
    assert_eq!(sanitize_window_title("main.rs - VSCode"), "main.rs - VSCode");
    assert_eq!(sanitize_window_title(""), "");
}

#[test]
fn m4_snapshot_retains_sanitized_title_only() {
    let mut machine = machine();
    machine.update_environment(Some("https://secret.internal/hunter2 - Edge"), 1000);
    let snap = machine.current_snapshot(2000);
    let title = snap.active_window_title.expect("title present");
    assert!(title.contains("[url]"), "must be redacted: {title}");
    assert!(!title.contains("hunter2"), "raw URL must not stay: {title}");
}

#[test]
fn m4_documented_substring_false_positive() {
    assert_eq!(
        AmbientContextMachine::infer_scene_from_window("My Secret Game Plan.docx"),
        UserActivityScene::ImmersiveGame
    );
}

#[test]
fn whitespace_runs_collapse_and_case_is_ignored_for_urls() {
    assert_eq!(sanitize_window_title("  HTTP://X.COM \t Page  "), "[url] Page");
    assert_eq!(sanitize_window_title("FTP://host"), "[url]");
    assert_eq!(sanitize_window_title("a@b@c.d"), "[email]");
}

#[test]
fn idle_needs_the_full_timeout_and_keeps_the_scene_before() {
    let mut machine = machine();
    machine.record_interaction(1000);
    machine.update_environment(Some("cargo build"), 1500);
    let snap = machine.update_environment(None, 600_999);
    assert_eq!(snap.scene, UserActivityScene::DeepCoding);
    assert_eq!(snap.stance_reason, "检测到深度开发环境，保持静候并就绪技能辅助");
    let snap = machine.update_environment(None, 601_000);
    assert_eq!(snap.scene, UserActivityScene::Idle);
    assert_eq!(snap.last_interaction_ms, 1000);
}

#[test]
fn scene_from_lowercase_matches_plain_substrings() {
    assert_eq!(scene_from_lowercase("notion - page"), UserActivityScene::ReadingAndBrowsing);
    assert_eq!(scene_from_lowercase("nvim"), UserActivityScene::DeepCoding);
    assert_eq!(scene_from_lowercase("anything else"), UserActivityScene::ReadingAndBrowsing);
    assert_eq!(scene_from_lowercase("STEAM"), UserActivityScene::ReadingAndBrowsing);
    // the lowering happens before the match when inferring from a window title
    assert_eq!(AmbientContextMachine::infer_scene_from_window("STEAM"), UserActivityScene::ImmersiveGame);
}
