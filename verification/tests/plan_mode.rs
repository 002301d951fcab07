use orchestration::plan_mode::{fold_plan_mode, PlanMode, PlanModeEvent, PlanModeLedger, PlanModePhase, PlanModeProjection, PlanModeRequestOutcome, PlanModeSwitchBlocked, PlanModeSwitchEffect};


/// 投影折叠确定性: the same event stream folds to the same state, however
/// many times and through whichever entry point it is folded.
#[test]
fn one_event_stream_folds_to_exactly_one_projection() {
    let events = vec![
        PlanModeEvent::Init {
            mode: PlanMode::Executing,
        },
        PlanModeEvent::SwitchRequested {
            target: PlanMode::Planning,
        },
        PlanModeEvent::Apply {
            target: PlanMode::Planning,
        },
        PlanModeEvent::SwitchRequested {
            target: PlanMode::Executing,
        },
        PlanModeEvent::Apply {
            target: PlanMode::Executing,
        },
    ];

    let first = fold_plan_mode(&events);
    let second = fold_plan_mode(&events.clone());
    let via_ledger = PlanModeLedger::from_events(events).projection();

    assert_eq!(first, second, "folding the same stream twice must agree");
    assert_eq!(
        first, via_ledger,
        "the ledger fold must equal the pure fold"
    );
    assert_eq!(first.mode, PlanMode::Executing);
    assert_eq!(first.state_version, 2, "two applies posted");
    assert_eq!(first.pending_switch, None);
}

/// 切换延迟落账: a parked switch never posts mid-turn — the mid-turn flip
/// is refused and the projected posture is unchanged — and posts at the
/// next accepted turn's pre-step.
#[test]
fn a_parked_switch_lands_only_at_an_accepted_turn_pre_step() {
    let mut ledger = PlanModeLedger::new();
    assert_eq!(
        ledger.request_switch(PlanMode::Planning),
        PlanModeRequestOutcome::Queued
    );

    // Round N of a running turn: the switch must not land here.
    assert_eq!(
        ledger.land_pending_switch(PlanModePhase::InTurn),
        Err(PlanModeSwitchBlocked::MidTurnFlip)
    );
    let mid_turn = ledger.projection();
    assert_eq!(mid_turn.mode, PlanMode::Executing, "no mid-turn flip");
    assert_eq!(mid_turn.state_version, 0, "nothing posted");
    assert_eq!(mid_turn.pending_switch, Some(PlanMode::Planning));

    // The next accepted turn's pre-step: it lands exactly here.
    let landed = ledger
        .land_pending_switch(PlanModePhase::AcceptedPreStep)
        .expect("a pre-step landing is never blocked");
    assert_eq!(landed.mode, PlanMode::Planning);
    assert_eq!(landed.state_version, 1);
    assert_eq!(landed.pending_switch, None);
}

/// 执法独立: a switch alters the prompt projection and nothing else. The
/// projection carries no tool-catalog, sandbox, or approval output at all.
#[test]
fn a_switch_alters_only_the_prompt_projection() {
    let planning = PlanModeLedger::from_events(vec![
        PlanModeEvent::Init {
            mode: PlanMode::Executing,
        },
        PlanModeEvent::Apply {
            target: PlanMode::Planning,
        },
    ])
    .projection();
    let executing = fold_plan_mode(&[]);

    assert_ne!(
        planning.prompt_projection(),
        executing.prompt_projection(),
        "the prompt projection is what differs"
    );
    assert!(
        planning.prompt_projection().is_some(),
        "planning projects its behavior convention"
    );
    assert!(
        executing.prompt_projection().is_none(),
        "the default posture projects nothing"
    );
    assert_eq!(
        planning.switch_effect(),
        PlanModeSwitchEffect::PromptProjectionOnly
    );
    assert_eq!(
        executing.switch_effect(),
        PlanModeSwitchEffect::PromptProjectionOnly
    );
}


/// 默认行为零变化: a stream that never engaged plan mode folds to the
/// default posture with no prompt projection and no appended entries.
#[test]
fn an_unengaged_ledger_stays_at_the_default_posture() {
    let mut ledger = PlanModeLedger::new();
    assert_eq!(ledger.projection(), PlanModeProjection::default());
    assert_eq!(ledger.projection().mode, PlanMode::Executing);
    assert_eq!(ledger.projection().state_version, 0);
    assert_eq!(ledger.projection().prompt_projection(), None);

    // Asking for the posture already in force appends nothing at all.
    assert_eq!(
        ledger.request_switch(PlanMode::Executing),
        PlanModeRequestOutcome::NoChange
    );
    assert!(
        ledger.events().is_empty(),
        "zero-change must append nothing"
    );
}

/// Repeated identical requests coalesce instead of stacking, and a later
/// request replaces the parked target (latest intent wins).
#[test]
fn switch_requests_coalesce_and_the_latest_intent_wins() {
    let mut ledger = PlanModeLedger::new();
    assert_eq!(
        ledger.request_switch(PlanMode::Planning),
        PlanModeRequestOutcome::Queued
    );
    assert_eq!(
        ledger.request_switch(PlanMode::Planning),
        PlanModeRequestOutcome::AlreadyQueued
    );
    assert_eq!(
        ledger.request_switch(PlanMode::Executing),
        PlanModeRequestOutcome::Queued
    );
    assert_eq!(
        ledger.projection().pending_switch,
        Some(PlanMode::Executing)
    );

    // Only the first request initialized and parked; the duplicate added
    // nothing; the replacement added one entry.
    assert_eq!(ledger.events().len(), 3);
}


