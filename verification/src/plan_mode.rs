//! Plan mode as a pure fold over one append-only event stream.
//!
//! The posture (planning or executing) belongs to the log: [`fold_plan_mode`]
//! projects the events into a mode and a version. A switch request only
//! parks an intent; it is posted at the pre-step of the next accepted turn
//! and refused mid-turn. A switch changes the prompt projection and nothing
//! else.

use vstd::prelude::*;

verus! {

/// The two collaborative postures.
#[derive(Debug, Clone, Copy, PartialEq, Eq, Structural)]
pub enum PlanMode {
    /// Research, analysis and proposal only (a prompt convention, not enforcement).
    Planning,
    /// The default posture; its prompt projection is empty.
    Executing,
}

impl Default for PlanMode {
    fn default() -> (m: Self)
        ensures
            m == PlanMode::Executing,
    {
        PlanMode::Executing
    }
}

/// The planning posture's behavior-convention prompt text.
pub const PLAN_MODE_BEHAVIOR_CONVENTION: &'static str = "【协作状态 · 计划模式】当前会话处于计划阶段：本阶段只做调研、分析与方案设计，不执行写入、修改或执行类操作，也不调用这类工具；把方案写清楚交由用户确认。结束计划阶段请调用始终在场的 exit_plan_mode 工具。注意：本段是行为约定提示，不改变可用工具清单与审批判定；模式切换在下一被接受回合开始时才生效。";

/// The prompt projection of a posture: the convention text while planning,
/// nothing while executing.
pub open spec fn spec_prompt_projection(m: PlanMode) -> Option<Seq<char>> {
    match m {
        PlanMode::Planning => Some(PLAN_MODE_BEHAVIOR_CONVENTION@),
        PlanMode::Executing => None,
    }
}

impl PlanMode {
    /// The prompt projection of this posture.
    pub fn prompt_projection(self) -> (r: Option<&'static str>)
        ensures
            match (r, spec_prompt_projection(self)) {
                (Some(s), Some(t)) => s@ == t,
                (None, None) => true,
                _ => false,
            },
    {
        match self {
            PlanMode::Planning => Some(PLAN_MODE_BEHAVIOR_CONVENTION),
            PlanMode::Executing => None,
        }
    }
}

/// One entry of the plan-mode ledger.
#[derive(Debug, Clone, Copy, PartialEq, Eq, Structural)]
pub enum PlanModeEvent {
    /// The posture a session starts from.
    Init {
        /// The posture established.
        mode: PlanMode,
    },
    /// A switch parked but not posted.
    SwitchRequested {
        /// The targeted posture.
        target: PlanMode,
    },
    /// The parked switch posted; the version advances by one.
    Apply {
        /// The posture now in force.
        target: PlanMode,
    },
}

/// The folded plan-mode state.
#[derive(Debug, Clone, Copy, PartialEq, Eq, Structural)]
pub struct PlanModeProjection {
    /// The posture in force.
    pub mode: PlanMode,
    /// Number of posted applies since the last initialization.
    pub state_version: u64,
    /// A parked switch not yet posted.
    pub pending_switch: Option<PlanMode>,
}

/// The projection of an empty stream.
pub open spec fn default_projection() -> PlanModeProjection {
    PlanModeProjection { mode: PlanMode::Executing, state_version: 0, pending_switch: None }
}

impl Default for PlanModeProjection {
    fn default() -> (p: Self)
        ensures
            p == default_projection(),
    {
        PlanModeProjection { mode: PlanMode::Executing, state_version: 0, pending_switch: None }
    }
}

/// What a switch may alter.
#[derive(Debug, Clone, Copy, PartialEq, Eq, Structural)]
pub enum PlanModeSwitchEffect {
    /// The prompt projection and nothing else.
    PromptProjectionOnly,
}

impl PlanModeProjection {
    /// The prompt projection of the folded posture.
    pub fn prompt_projection(self) -> (r: Option<&'static str>)
        ensures
            match (r, spec_prompt_projection(self.mode)) {
                (Some(s), Some(t)) => s@ == t,
                (None, None) => true,
                _ => false,
            },
    {
        self.mode.prompt_projection()
    }

    /// What a switch may alter: exactly the prompt projection.
    pub fn switch_effect(self) -> (e: PlanModeSwitchEffect)
        ensures
            e == PlanModeSwitchEffect::PromptProjectionOnly,
    {
        PlanModeSwitchEffect::PromptProjectionOnly
    }
}

/// One fold step.
pub open spec fn fold_step(p: PlanModeProjection, e: PlanModeEvent) -> PlanModeProjection {
    match e {
        PlanModeEvent::Init { mode } => PlanModeProjection { mode, pending_switch: None, ..p },
        PlanModeEvent::SwitchRequested { target } => PlanModeProjection {
            pending_switch: Some(target),
            ..p
        },
        PlanModeEvent::Apply { target } => PlanModeProjection {
            mode: target,
            state_version: (p.state_version + 1) as u64,
            pending_switch: None,
        },
    }
}

/// The projection of a whole stream.
pub open spec fn spec_fold(events: Seq<PlanModeEvent>) -> PlanModeProjection
    decreases events.len(),
{
    if events.len() == 0 {
        default_projection()
    } else {
        fold_step(spec_fold(events.drop_last()), events.last())
    }
}

/// Number of applies in a stream (bounds the version).
pub open spec fn apply_count(events: Seq<PlanModeEvent>) -> nat
    decreases events.len(),
{
    if events.len() == 0 {
        0
    } else {
        apply_count(events.drop_last()) + if events.last() is Apply {
            1nat
        } else {
            0nat
        }
    }
}

proof fn lemma_version_bound(events: Seq<PlanModeEvent>)
    ensures
        spec_fold(events).state_version <= apply_count(events),
        apply_count(events) <= events.len(),
    decreases events.len(),
{
    if events.len() > 0 {
        lemma_version_bound(events.drop_last());
    }
}

/// Folds one event stream into its projection.
pub fn fold_plan_mode(events: &[PlanModeEvent]) -> (p: PlanModeProjection)
    ensures
        p == spec_fold(events@),
{
    let mut p = PlanModeProjection { mode: PlanMode::Executing, state_version: 0, pending_switch: None };
    let mut i: usize = 0;
    while i < events.len()
        invariant
            i <= events@.len(),
            p == spec_fold(events@.take(i as int)),
        decreases events@.len() - i,
    {
        let ghost t = events@.take(i as int + 1);
        assert(t.drop_last() =~= events@.take(i as int));
        proof {
            lemma_version_bound(events@.take(i as int));
        }
        match events[i] {
            PlanModeEvent::Init { mode } => {
                p = PlanModeProjection { mode, state_version: p.state_version, pending_switch: None };
            },
            PlanModeEvent::SwitchRequested { target } => {
                p = PlanModeProjection {
                    mode: p.mode,
                    state_version: p.state_version,
                    pending_switch: Some(target),
                };
            },
            PlanModeEvent::Apply { target } => {
                p = PlanModeProjection {
                    mode: target,
                    state_version: p.state_version + 1,
                    pending_switch: None,
                };
            },
        }
        i = i + 1;
    }
    assert(events@.take(events@.len() as int) =~= events@);
    p
}

/// Where in the turn chain a landing is attempted.
#[derive(Debug, Clone, Copy, PartialEq, Eq, Structural)]
pub enum PlanModePhase {
    /// The pre-step of an accepted turn: the only place a switch may land.
    AcceptedPreStep,
    /// Inside a running turn: requests park, nothing lands.
    InTurn,
}

/// Why a switch could not be posted.
#[derive(Debug, Clone, Copy, PartialEq, Eq, Structural)]
pub enum PlanModeSwitchBlocked {
    /// A switch may never post in the middle of a running turn.
    MidTurnFlip,
}

/// The outcome of parking a switch request.
#[derive(Debug, Clone, Copy, PartialEq, Eq, Structural)]
pub enum PlanModeRequestOutcome {
    /// Parked; it posts at the next accepted pre-step.
    Queued,
    /// The same target was already parked; nothing appended.
    AlreadyQueued,
    /// The posture is already in force and nothing is parked; nothing appended.
    NoChange,
}

/// Append-only plan-mode ledger with the fold exposed at the tip.
#[derive(Debug, Clone, PartialEq, Eq)]
pub struct PlanModeLedger {
    events: Vec<PlanModeEvent>,
}

impl PlanModeLedger {
    /// The entries of the ledger.
    pub closed spec fn spec_events(&self) -> Seq<PlanModeEvent> {
        self.events@
    }

    /// An empty ledger.
    pub fn new() -> (l: Self)
        ensures
            l.spec_events() == Seq::<PlanModeEvent>::empty(),
    {
        PlanModeLedger { events: Vec::new() }
    }

    /// Rebuilds a ledger from a persisted stream.
    pub fn from_events(events: Vec<PlanModeEvent>) -> (l: Self)
        ensures
            l.spec_events() == events@,
    {
        PlanModeLedger { events }
    }

    /// Every entry, in order.
    pub fn events(&self) -> (e: &[PlanModeEvent])
        ensures
            e@ == self.spec_events(),
    {
        self.events.as_slice()
    }

    /// The projection of the entries so far.
    pub fn projection(&self) -> (p: PlanModeProjection)
        ensures
            p == spec_fold(self.spec_events()),
    {
        fold_plan_mode(self.events.as_slice())
    }

    /// Parks a switch request (allowed from any phase; it never changes the
    /// projected posture).
    pub fn request_switch(&mut self, target: PlanMode) -> (r: PlanModeRequestOutcome)
        ensures
            ({
                let p = spec_fold(old(self).spec_events());
                let ev = old(self).spec_events();
                if p.pending_switch == Some(target) {
                    r == PlanModeRequestOutcome::AlreadyQueued && final(self).spec_events() == ev
                } else if p.pending_switch is None && p.mode == target {
                    r == PlanModeRequestOutcome::NoChange && final(self).spec_events() == ev
                } else if ev.len() == 0 {
                    r == PlanModeRequestOutcome::Queued && final(self).spec_events() == seq![
                        PlanModeEvent::Init { mode: p.mode },
                        PlanModeEvent::SwitchRequested { target },
                    ]
                } else {
                    r == PlanModeRequestOutcome::Queued && final(self).spec_events() == ev.push(
                        PlanModeEvent::SwitchRequested { target },
                    )
                }
            }),
    {
        let projection = self.projection();
        if projection.pending_switch == Some(target) {
            return PlanModeRequestOutcome::AlreadyQueued;
        }
        if projection.pending_switch.is_none() && projection.mode == target {
            return PlanModeRequestOutcome::NoChange;
        }
        if self.events.len() == 0 {
            self.events.push(PlanModeEvent::Init { mode: projection.mode });
        }
        self.events.push(PlanModeEvent::SwitchRequested { target });
        proof {
            if old(self).events@.len() == 0 {
                assert(self.events@ =~= seq![
                    PlanModeEvent::Init { mode: projection.mode },
                    PlanModeEvent::SwitchRequested { target },
                ]);
            }
        }
        PlanModeRequestOutcome::Queued
    }

    /// Posts the parked switch, only at an accepted turn's pre-step.
    pub fn land_pending_switch(&mut self, phase: PlanModePhase) -> (r: Result<
        PlanModeProjection,
        PlanModeSwitchBlocked,
    >)
        ensures
            phase != PlanModePhase::AcceptedPreStep ==> r == Err::<
                PlanModeProjection,
                PlanModeSwitchBlocked,
            >(PlanModeSwitchBlocked::MidTurnFlip) && final(self).spec_events() == old(
                self,
            ).spec_events(),
            phase == PlanModePhase::AcceptedPreStep ==> ({
                let ev = old(self).spec_events();
                let ev2 = match spec_fold(ev).pending_switch {
                    Some(t) => ev.push(PlanModeEvent::Apply { target: t }),
                    None => ev,
                };
                final(self).spec_events() == ev2 && r == Ok::<
                    PlanModeProjection,
                    PlanModeSwitchBlocked,
                >(spec_fold(ev2))
            }),
    {
        if phase != PlanModePhase::AcceptedPreStep {
            return Err(PlanModeSwitchBlocked::MidTurnFlip);
        }
        let p = self.projection();
        if let Some(target) = p.pending_switch {
            proof {
                lemma_version_bound(self.events@);
            }
            self.events.push(PlanModeEvent::Apply { target });
        }
        Ok(self.projection())
    }
}

impl Default for PlanModeLedger {
    fn default() -> (l: Self)
        ensures
            l.spec_events() == Seq::<PlanModeEvent>::empty(),
    {
        PlanModeLedger { events: Vec::new() }
    }
}

/// A parked request never changes the projected posture or version: only an
/// apply does.
pub proof fn request_never_flips_the_posture(events: Seq<PlanModeEvent>, target: PlanMode)
    ensures
        spec_fold(events.push(PlanModeEvent::SwitchRequested { target })).mode == spec_fold(events).mode,
        spec_fold(events.push(PlanModeEvent::SwitchRequested { target })).state_version
            == spec_fold(events).state_version,
{
    assert(events.push(PlanModeEvent::SwitchRequested { target }).drop_last() =~= events);
}

/// Landing posts exactly the parked target and advances the version by one;
/// with nothing parked it changes nothing.
pub proof fn landing_posts_the_parked_target(events: Seq<PlanModeEvent>)
    requires
        events.len() < u64::MAX,
    ensures
        match spec_fold(events).pending_switch {
            Some(t) => {
                let after = spec_fold(events.push(PlanModeEvent::Apply { target: t }));
                after.mode == t && after.state_version == spec_fold(events).state_version + 1
                    && after.pending_switch is None
            },
            None => true,
        },
{
    match spec_fold(events).pending_switch {
        Some(t) => {
            assert(events.push(PlanModeEvent::Apply { target: t }).drop_last() =~= events);
            lemma_version_bound(events);
        },
        None => {},
    }
}

/// An unengaged session stays at the default posture with no projection.
pub proof fn empty_stream_is_default()
    ensures
        spec_fold(Seq::<PlanModeEvent>::empty()) == default_projection(),
        spec_prompt_projection(default_projection().mode) is None,
{
}

} // verus!
