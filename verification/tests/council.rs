use orchestration::council::advisors_llm::{classify_advisor_reply, seven_system_prompts};
use orchestration::council::{
    aggregate_decision, settle_council, supporters, veto_verdict, retry_feedback, AdvisorDecision, AdvisorFailure,
    AdvisorKind, AdvisorOutcome, CouncilCallError, CouncilDecision, CouncilVerdict, NoopAdvisor,
};

#[test]
fn test_seven_system_prompts_match_documented_templates() {
    let prompts = seven_system_prompts();
    assert_eq!(prompts.len(), 7);
    let expected: [(&str, &str); 7] = [
        ("SafetyAdvisor", "review for safety risks, deny if any unsafe"),
        ("PerformanceAdvisor", "review for performance impact"),
        ("PhilosophyAdvisor", "review for philosophical consistency with 9 anchors"),
        ("HistoryAdvisor", "review for historical precedent"),
        ("StrategyAdvisor", "review for strategic value"),
        ("EthicsAdvisor", "review for ethical implications"),
        ("LegalAdvisor", "review for legal compliance"),
    ];
    for (i, (name, prompt)) in prompts.iter().enumerate() {
        assert_eq!(*name, expected[i].0, "advisor #{} name drift", i);
        assert_eq!(*prompt, expected[i].1, "advisor #{} prompt drift", i);
    }
}

#[test]
fn test_parse_verdict_deny_keywords() {
    let (d, critique) = classify_advisor_reply("Deny: this is unsafe");
    assert_eq!(d, AdvisorDecision::Stop);
    assert!(critique.contains("unsafe"));
    assert_eq!(classify_advisor_reply("VETO").0, AdvisorDecision::Stop);
    assert_eq!(classify_advisor_reply("reject this proposal").0, AdvisorDecision::Stop);
}

#[test]
fn test_parse_verdict_abstain_keywords() {
    assert_eq!(classify_advisor_reply("Abstain: not my domain").0, AdvisorDecision::Abstain);
    assert_eq!(classify_advisor_reply("skip this review").0, AdvisorDecision::Abstain);
}

#[test]
fn test_parse_verdict_default_allow() {
    assert_eq!(classify_advisor_reply("Looks fine, approve.").0, AdvisorDecision::Allow);
}

#[test]
fn test_parse_verdict_oversized_response_truncated_not_panicked() {
    let oversized = format!("deny {}", "a".repeat(3_000));
    let (d, critique) = classify_advisor_reply(&oversized);
    assert_eq!(d, AdvisorDecision::Stop);
    assert_eq!(critique.chars().count(), 2_000);
    assert!(critique.is_char_boundary(critique.len()));
    let zh_only = "复".repeat(5_000);
    let (d, critique) = classify_advisor_reply(&zh_only);
    assert_eq!(critique.chars().count(), 2_000);
    assert_eq!(d, AdvisorDecision::Allow);
    assert!(critique.is_char_boundary(critique.len()));
}

#[test]
fn aggregation_follows_stop_then_majority_then_failures() {
    assert_eq!(aggregate_decision(&[AdvisorDecision::Allow, AdvisorDecision::Stop, AdvisorDecision::Retry], false), CouncilDecision::Stop);
    assert_eq!(aggregate_decision(&[AdvisorDecision::Retry, AdvisorDecision::Retry, AdvisorDecision::Allow], false), CouncilDecision::Retry);
    assert_eq!(aggregate_decision(&[AdvisorDecision::Retry, AdvisorDecision::Allow], false), CouncilDecision::Continue);
    assert_eq!(aggregate_decision(&[AdvisorDecision::Abstain, AdvisorDecision::Abstain], true), CouncilDecision::DeferToHuman);
    assert_eq!(aggregate_decision(&[], true), CouncilDecision::DeferToHuman);
    assert_eq!(aggregate_decision(&[], false), CouncilDecision::Continue);
    assert_eq!(aggregate_decision(&[AdvisorDecision::Abstain, AdvisorDecision::Allow], true), CouncilDecision::Continue);
}

#[test]
fn veto_verdict_is_vetoed_by_the_first_stop_or_retry() {
    let evals = vec![
        (AdvisorKind::Safety, AdvisorDecision::Allow, "ok".to_string()),
        (AdvisorKind::Legal, AdvisorDecision::Retry, "redo".to_string()),
        (AdvisorKind::Ethics, AdvisorDecision::Stop, "no".to_string()),
    ];
    assert_eq!(
        veto_verdict(&evals),
        CouncilVerdict::Vetoed { by: AdvisorKind::Legal, reason: "redo".to_string() }
    );
    assert_eq!(veto_verdict(&evals[..1]), CouncilVerdict::Approved);
}

#[test]
fn retry_feedback_joins_non_blank_retry_critiques() {
    let evals = vec![
        (AdvisorDecision::Retry, "shorter".to_string()),
        (AdvisorDecision::Allow, "fine".to_string()),
        (AdvisorDecision::Retry, "   ".to_string()),
        (AdvisorDecision::Retry, "cite sources".to_string()),
    ];
    assert_eq!(retry_feedback(&evals), "shorter; cite sources");
    assert_eq!(retry_feedback(&evals[1..3]), "Council majority requested another candidate");
    let long = vec![(AdvisorDecision::Retry, "x".repeat(2_500))];
    assert_eq!(retry_feedback(&long).chars().count(), 2_000);
}

#[test]
fn noop_advisors_are_named_by_domain() {
    assert_eq!(NoopAdvisor::new(AdvisorKind::Safety).name(), "noop_safety");
    assert_eq!(NoopAdvisor::new(AdvisorKind::Legal).kind(), AdvisorKind::Legal);
    assert_eq!(CouncilCallError::Provider("timeout".into()).message(), "provider: timeout");
    assert_eq!(CouncilCallError::Malformed("json".into()).message(), "malformed: json");
}

#[test]
fn settling_puts_outcomes_back_in_registration_order_and_categorises_failures() {
    let outcomes = vec![
        (3, "LegalAdvisor".to_string(), AdvisorKind::Legal, AdvisorOutcome::TimedOut),
        (
            1,
            "PerformanceAdvisor".to_string(),
            AdvisorKind::Performance,
            AdvisorOutcome::Verdict { decision: AdvisorDecision::Abstain, validation: Ok(()) },
        ),
        (
            2,
            "EthicsAdvisor".to_string(),
            AdvisorKind::Ethics,
            AdvisorOutcome::CallFailed(CouncilCallError::Provider("503".to_string())),
        ),
        (
            0,
            "SafetyAdvisor".to_string(),
            AdvisorKind::Safety,
            AdvisorOutcome::Verdict { decision: AdvisorDecision::Allow, validation: Ok(()) },
        ),
        (
            4,
            "HistoryAdvisor".to_string(),
            AdvisorKind::History,
            AdvisorOutcome::Verdict {
                decision: AdvisorDecision::Stop,
                validation: Err("score must be finite and in 0.0..=1.0".to_string()),
            },
        ),
    ];
    let (evaluations, failures, decision) = settle_council(outcomes);
    assert_eq!(
        evaluations,
        vec![
            (0, "SafetyAdvisor".to_string(), AdvisorKind::Safety, AdvisorDecision::Allow),
            (1, "PerformanceAdvisor".to_string(), AdvisorKind::Performance, AdvisorDecision::Abstain),
        ]
    );
    assert_eq!(
        failures,
        vec![
            AdvisorFailure {
                advisor: "EthicsAdvisor".to_string(),
                kind: AdvisorKind::Ethics,
                category: "provider_failure".to_string(),
                reason: "provider: 503".to_string(),
            },
            AdvisorFailure {
                advisor: "LegalAdvisor".to_string(),
                kind: AdvisorKind::Legal,
                category: "advisor_timeout".to_string(),
                reason: "advisor timeout elapsed".to_string(),
            },
            AdvisorFailure {
                advisor: "HistoryAdvisor".to_string(),
                kind: AdvisorKind::History,
                category: "malformed".to_string(),
                reason: "score must be finite and in 0.0..=1.0".to_string(),
            },
        ]
    );
    assert_eq!(decision, CouncilDecision::Continue);
    assert_eq!(supporters(&evaluations), vec!["SafetyAdvisor".to_string()]);
}

#[test]
fn settling_with_only_failures_defers_to_a_human() {
    let outcomes = vec![
        (
            0,
            "SafetyAdvisor".to_string(),
            AdvisorKind::Safety,
            AdvisorOutcome::CallFailed(CouncilCallError::Malformed("not json".to_string())),
        ),
        (
            1,
            "StrategyAdvisor".to_string(),
            AdvisorKind::Strategy,
            AdvisorOutcome::Verdict { decision: AdvisorDecision::Abstain, validation: Ok(()) },
        ),
    ];
    let (evaluations, failures, decision) = settle_council(outcomes);
    assert_eq!(evaluations.len(), 1);
    assert_eq!(failures.len(), 1);
    assert_eq!(failures[0].category, "malformed");
    assert_eq!(failures[0].reason, "malformed: not json");
    assert_eq!(decision, CouncilDecision::DeferToHuman);
    assert!(supporters(&evaluations).is_empty());
}
