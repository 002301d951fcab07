//! Orchestration primitives: deterministic state machines, budgets, parsers
//! and bounded buffers for an agent runtime, with their behaviour stated as
//! contracts.

pub mod durable;
pub mod text;
pub mod cron;
pub mod output_retention;
pub mod job_ring;
pub mod job_board;
pub mod context_overflow;
pub mod plan_mode;
pub mod context_budget;
pub mod cognitive_quota_scheduler;
pub mod ambient_context;
pub mod async_context;
pub mod compaction_checkpoint;
pub mod prompt_stabilizer;
pub mod context_fold;
pub mod durable_schedule;
pub mod durable_inbox;
pub mod repetition_advisory;
pub mod context_rot;
pub mod continuation;
pub mod council;
pub mod llm;
pub mod call_scheduler;
pub mod lineage_spawning;
pub mod orchestrator;

pub use council::{
    AdvisorDecision, AdvisorFailure, AdvisorKind, CouncilCallError, CouncilConfig, CouncilDecision,
    CouncilVerdict,
};
pub use orchestrator::{OrchestratorError, SubagentRole};
