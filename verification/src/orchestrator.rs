//! Subagent roles and orchestration errors.

use vstd::prelude::*;
use crate::text::push_str;

verus! {

broadcast use vstd::string::group_string_axioms;

/// The role of a subagent.
#[derive(Debug, Clone, Copy, PartialEq, Eq, Hash, Structural)]
pub enum SubagentRole {
    Planner,
    Implementer,
    Reviewer,
    Tester,
    Documenter,
}

/// Why orchestration failed.
#[derive(Debug, Clone, PartialEq, Eq)]
pub enum OrchestratorError {
    SubagentFailed(String),
    HumanDenied(String),
    GovernanceDenied(String),
    Io(String),
}

pub open spec fn orchestrator_error_text(e: OrchestratorError) -> Seq<char> {
    match e {
        OrchestratorError::SubagentFailed(m) => "subagent failed: "@ + m@,
        OrchestratorError::HumanDenied(m) => "human denied: "@ + m@,
        OrchestratorError::GovernanceDenied(m) => "governance denied: "@ + m@,
        OrchestratorError::Io(m) => "io error: "@ + m@,
    }
}

impl OrchestratorError {
    /// The message of this error.
    pub fn to_string(&self) -> (s: String)
        ensures
            s@ == orchestrator_error_text(*self),
    {
        let mut s = String::new();
        match self {
            OrchestratorError::SubagentFailed(m) => {
                push_str(&mut s, "subagent failed: ");
                push_str(&mut s, m.as_str());
            },
            OrchestratorError::HumanDenied(m) => {
                push_str(&mut s, "human denied: ");
                push_str(&mut s, m.as_str());
            },
            OrchestratorError::GovernanceDenied(m) => {
                push_str(&mut s, "governance denied: ");
                push_str(&mut s, m.as_str());
            },
            OrchestratorError::Io(m) => {
                push_str(&mut s, "io error: ");
                push_str(&mut s, m.as_str());
            },
        }
        s
    }
}

} // verus!
