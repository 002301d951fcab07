use orchestration::durable::history::ActivityEventKind;
use orchestration::lineage_spawning::{NurturingPhase, ProgenySpecialization};
use orchestration::{CouncilConfig, OrchestratorError, SubagentRole};

#[test]
fn orchestrator_errors_read_as_before() {
    assert_eq!(OrchestratorError::SubagentFailed("x".into()).to_string(), "subagent failed: x");
    assert_eq!(OrchestratorError::HumanDenied("no".into()).to_string(), "human denied: no");
    assert_eq!(OrchestratorError::GovernanceDenied("cap".into()).to_string(), "governance denied: cap");
    assert_eq!(OrchestratorError::Io("disk".into()).to_string(), "io error: disk");
    assert_ne!(SubagentRole::Planner, SubagentRole::Reviewer);
}

#[test]
fn activity_event_kinds_have_snake_case_names() {
    assert_eq!(ActivityEventKind::RunStarted.as_str(), "run_started");
    assert_eq!(ActivityEventKind::ActivityScheduled.as_str(), "activity_scheduled");
    assert_eq!(ActivityEventKind::ActivityCompleted.as_str(), "activity_completed");
    assert_eq!(ActivityEventKind::ActivityFailed.as_str(), "activity_failed");
    assert_eq!(ActivityEventKind::RunCompleted.as_str(), "run_completed");
    assert_eq!(ActivityEventKind::RunFailed.as_str(), "run_failed");
}

#[test]
fn council_config_defaults() {
    let c = CouncilConfig::default();
    assert_eq!(c.max_advisors, 7);
    assert_eq!(c.per_advisor_timeout, std::time::Duration::from_secs(10));
    assert_eq!(c.overall_timeout, std::time::Duration::from_secs(60));
    assert_ne!(NurturingPhase::Phase1Shadowing, NurturingPhase::Phase2DualCoSign);
    assert_ne!(ProgenySpecialization::ScientificDiscovery, ProgenySpecialization::SecurityArbitration);
}
