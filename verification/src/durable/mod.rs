//! Durable execution primitives: an append-only activity history, a replay
//! engine that never repeats a recorded activity's side effect, the retry
//! budget, and the activity state machine.

pub mod history;
pub mod replay;
pub mod retry;

pub use history::{
    jsonl_records, ActivityEvent, ActivityEventKind, DurableHistory, EventView, RUN_EVENT_ACTOR,
};
pub use replay::{ActivityExecutor, DurableRun};
pub use retry::{
    ActivityState, ActivityStateError, ActivityStateMachine, RetryPolicy, ACTIVITY_STATE_COUNT,
    SUPPORTED_ACTIVITY_STATES,
};

use vstd::prelude::*;
use crate::text::{push_str, push_decimal, decimal};

verus! {

broadcast use vstd::string::group_string_axioms;

/// Distinguishable failures of durable execution; every variant fails closed.
#[derive(Debug, Clone, PartialEq, Eq)]
pub enum DurableError {
    /// The journal is malformed.
    HistoryCorrupted {
        /// Human-readable reason.
        reason: String,
    },
    /// Replay diverged from the recorded schedule.
    ReplayMismatch {
        /// Requested activity.
        activity_id: String,
        /// Expected input.
        expected_input: String,
        /// What the journal holds.
        found: String,
    },
    /// The activity still failed once its retry budget was spent.
    ActivityFailed {
        /// Activity identifier.
        activity_id: String,
        /// Underlying error.
        error: String,
        /// Attempt number at failure.
        attempt: u32,
    },
    /// The run is already finished.
    RunAlreadyFinished,
}

/// A durable error as plain values.
pub enum DurableErrorView {
    HistoryCorrupted { reason: Seq<char> },
    ReplayMismatch { activity_id: Seq<char>, expected_input: Seq<char>, found: Seq<char> },
    ActivityFailed { activity_id: Seq<char>, error: Seq<char>, attempt: u32 },
    RunAlreadyFinished,
}

impl View for DurableError {
    type V = DurableErrorView;

    open spec fn view(&self) -> DurableErrorView {
        match self {
            DurableError::HistoryCorrupted { reason } => DurableErrorView::HistoryCorrupted { reason: reason@ },
            DurableError::ReplayMismatch { activity_id, expected_input, found } => DurableErrorView::ReplayMismatch {
                activity_id: activity_id@,
                expected_input: expected_input@,
                found: found@,
            },
            DurableError::ActivityFailed { activity_id, error, attempt } => DurableErrorView::ActivityFailed {
                activity_id: activity_id@,
                error: error@,
                attempt: *attempt,
            },
            DurableError::RunAlreadyFinished => DurableErrorView::RunAlreadyFinished,
        }
    }
}

/// How Rust's `Debug` writes a string: quoted, with escapes.
pub uninterp spec fn debug_text(s: Seq<char>) -> Seq<char>;

/// Writes `s` as Rust's `Debug` formatting writes a string.
///
/// Trusted: the body is `format!("{:?}", s)` on a `&str`; the text it
/// produces is named [`debug_text`] and nothing more is claimed of it.
#[verifier::external_body]
pub(crate) fn debug_str(s: &str) -> (t: String)
    ensures
        t@ == debug_text(s@),
{
    format!("{:?}", s)
}

/// The message of a durable error.
pub open spec fn durable_error_text(e: DurableErrorView) -> Seq<char> {
    match e {
        DurableErrorView::HistoryCorrupted { reason } => "durable history corrupted: "@ + reason,
        DurableErrorView::ReplayMismatch { activity_id, expected_input, found } => "replay mismatch for activity "@
            + debug_text(activity_id) + ": expected input "@ + expected_input + ", journal has "@ + found,
        DurableErrorView::ActivityFailed { activity_id, error, attempt } => "activity "@ + debug_text(activity_id)
            + " failed (attempt "@ + decimal(attempt as nat) + "): "@ + error,
        DurableErrorView::RunAlreadyFinished => "durable run already finished"@,
    }
}

impl DurableError {
    /// The error's message.
    pub fn to_string(&self) -> (s: String)
        ensures
            s@ == durable_error_text(self@),
    {
        let mut s = String::new();
        match self {
            DurableError::HistoryCorrupted { reason } => {
                push_str(&mut s, "durable history corrupted: ");
                push_str(&mut s, reason.as_str());
            },
            DurableError::ReplayMismatch { activity_id, expected_input, found } => {
                push_str(&mut s, "replay mismatch for activity ");
                let d = debug_str(activity_id.as_str());
                push_str(&mut s, d.as_str());
                push_str(&mut s, ": expected input ");
                push_str(&mut s, expected_input.as_str());
                push_str(&mut s, ", journal has ");
                push_str(&mut s, found.as_str());
            },
            DurableError::ActivityFailed { activity_id, error, attempt } => {
                push_str(&mut s, "activity ");
                let d = debug_str(activity_id.as_str());
                push_str(&mut s, d.as_str());
                push_str(&mut s, " failed (attempt ");
                push_decimal(&mut s, *attempt as u64);
                push_str(&mut s, "): ");
                push_str(&mut s, error.as_str());
            },
            DurableError::RunAlreadyFinished => {
                push_str(&mut s, "durable run already finished");
            },
        }
        s
    }
}

} // verus!
