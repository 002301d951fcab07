//! Retry budget with deterministic exponential backoff, and the gatekeeping
//! state machine for one durable activity invocation.

use vstd::prelude::*;
use vstd::arithmetic::power2::pow2;
use vstd::bits::lemma_u64_shl_is_mul;
use vstd::bits::lemma_u64_pow2_no_overflow;

verus! {

/// Retry policy: attempt budget plus a deterministic, capped exponential backoff.
#[derive(Debug, Clone, Copy, PartialEq, Eq)]
pub struct RetryPolicy {
    /// Maximum number of attempts, the first one included.
    pub max_attempts: u32,
    /// Backoff before the first retry, in milliseconds.
    pub base_backoff_ms: u64,
    /// Upper bound of any backoff, in milliseconds.
    pub max_backoff_ms: u64,
}

impl Default for RetryPolicy {
    fn default() -> (p: Self)
        ensures
            p.max_attempts == 3,
            p.base_backoff_ms == 1_000,
            p.max_backoff_ms == 30_000,
    {
        RetryPolicy { max_attempts: 3, base_backoff_ms: 1_000, max_backoff_ms: 30_000 }
    }
}

/// `base * 2^(r - 1)` saturated at `u64::MAX`, then capped at `max`; zero for `r == 0`.
/// The exponent is clamped at 62.
pub open spec fn spec_backoff_ms(base: u64, max: u64, retry_index: u32) -> u64 {
    if retry_index == 0 {
        0
    } else {
        let shift: nat = if retry_index - 1 <= 62 { (retry_index - 1) as nat } else { 62 };
        let product: int = base * pow2(shift);
        let saturated: int = if product > u64::MAX { u64::MAX as int } else { product };
        if saturated <= max { saturated as u64 } else { max }
    }
}

impl RetryPolicy {
    /// Builds a policy; a zero attempt budget is clamped to one.
    pub fn new(max_attempts: u32, base_backoff_ms: u64, max_backoff_ms: u64) -> (p: Self)
        ensures
            p.max_attempts == (if max_attempts == 0 { 1 } else { max_attempts }),
            p.base_backoff_ms == base_backoff_ms,
            p.max_backoff_ms == max_backoff_ms,
    {
        let max_attempts = if max_attempts == 0 { 1 } else { max_attempts };
        RetryPolicy { max_attempts, base_backoff_ms, max_backoff_ms }
    }

    /// Whether attempt number `attempt` (1-based) may be followed by another attempt.
    pub fn should_retry(&self, attempt: u32) -> (r: bool)
        ensures
            r == (attempt < self.max_attempts),
    {
        attempt < self.max_attempts
    }

    /// Backoff before retry number `retry_index` (1-based; 0 yields 0).
    pub fn backoff_ms(&self, retry_index: u32) -> (ms: u64)
        ensures
            ms == spec_backoff_ms(self.base_backoff_ms, self.max_backoff_ms, retry_index),
            ms <= self.max_backoff_ms,
    {
        if retry_index == 0 {
            return 0;
        }
        let shift: u32 = if retry_index - 1 <= 62 { retry_index - 1 } else { 62 };
        let shift64: u64 = shift as u64;
        proof {
            lemma_u64_pow2_no_overflow(shift64 as nat);
            lemma_u64_shl_is_mul(1, shift64);
        }
        let factor: u64 = 1u64 << shift64;
        let saturated: u64 = match self.base_backoff_ms.checked_mul(factor) {
            Some(v) => v,
            None => u64::MAX,
        };
        if saturated <= self.max_backoff_ms {
            saturated
        } else {
            self.max_backoff_ms
        }
    }
}

/// State of one durable activity invocation.
#[derive(Debug, Clone, Copy, PartialEq, Eq, Hash, Structural)]
pub enum ActivityState {
    /// Created, not yet scheduled.
    Pending,
    /// Scheduling event written.
    Scheduled,
    /// Executor in flight.
    Running,
    /// Success (terminal).
    Succeeded,
    /// Failure (terminal, retryable).
    Failed,
    /// Cancelled (terminal, never retryable).
    Cancelled,
    /// Timed out (terminal, retryable).
    TimedOut,
}

/// Number of activity states.
pub const ACTIVITY_STATE_COUNT: usize = 7;

/// All activity states, in declaration order.
pub const SUPPORTED_ACTIVITY_STATES: [ActivityState; 7] = [
    ActivityState::Pending,
    ActivityState::Scheduled,
    ActivityState::Running,
    ActivityState::Succeeded,
    ActivityState::Failed,
    ActivityState::Cancelled,
    ActivityState::TimedOut,
];

/// Gatekeeping error of the activity state machine.
#[derive(Debug, Clone, PartialEq, Eq)]
pub enum ActivityStateError {
    /// Illegal state transition.
    InvalidTransition {
        /// Current state.
        from: ActivityState,
        /// Requested state.
        to: ActivityState,
    },
    /// The retry budget is spent.
    RetryExhausted {
        /// Activity identifier.
        activity_id: String,
        /// Attempts used.
        attempt: u32,
        /// Budget.
        max_attempts: u32,
    },
}

/// The transition table of the ordinary (non-retry) channel.
pub open spec fn spec_can_transition(from: ActivityState, to: ActivityState) -> bool {
    match (from, to) {
        (ActivityState::Pending, ActivityState::Scheduled) => true,
        (ActivityState::Pending, ActivityState::Cancelled) => true,
        (ActivityState::Scheduled, ActivityState::Running) => true,
        (ActivityState::Scheduled, ActivityState::Cancelled) => true,
        (ActivityState::Running, ActivityState::Succeeded) => true,
        (ActivityState::Running, ActivityState::Failed) => true,
        (ActivityState::Running, ActivityState::TimedOut) => true,
        (ActivityState::Running, ActivityState::Cancelled) => true,
        _ => false,
    }
}

/// Terminal states: every state after `Running`.
pub open spec fn spec_is_terminal(s: ActivityState) -> bool {
    s == ActivityState::Succeeded || s == ActivityState::Failed || s == ActivityState::Cancelled
        || s == ActivityState::TimedOut
}

/// Gatekeeping state machine for one activity invocation.
#[derive(Debug, Clone, PartialEq, Eq)]
pub struct ActivityStateMachine {
    /// Activity identifier.
    pub activity_id: String,
    /// Current state.
    pub state: ActivityState,
    /// Attempts started (0 while pending, 1 after the first schedule, +1 per retry).
    pub attempt: u32,
    /// Injected time at which the current state was entered.
    pub state_changed_at_ms: i64,
    /// Milliseconds accumulated while `Running`.
    pub accumulated_runtime_ms: u64,
}

/// Runtime credited when leaving `Running` at `now` after entering it at `since`.
pub open spec fn spec_elapsed(since: i64, now: i64) -> int {
    if now - since > 0 { now - since } else { 0 }
}

/// What `apply` does to a machine: the runtime accumulated when leaving
/// `Running`, the first schedule setting the attempt to one, and the new state
/// and timestamp.
pub open spec fn spec_applied(
    old: ActivityStateMachine,
    new: ActivityStateMachine,
    next: ActivityState,
    now_ms: i64,
) -> bool {
    &&& new.activity_id@ == old.activity_id@
    &&& new.state == next
    &&& new.state_changed_at_ms == now_ms
    &&& new.accumulated_runtime_ms == (if old.state == ActivityState::Running {
        old.accumulated_runtime_ms + spec_elapsed(old.state_changed_at_ms, now_ms)
    } else {
        old.accumulated_runtime_ms as int
    })
    &&& new.attempt == (if old.state == ActivityState::Pending && next == ActivityState::Scheduled
        && old.attempt == 0 {
        1
    } else {
        old.attempt
    })
}

impl ActivityStateMachine {
    /// New machine: `Pending`, attempt 0, no runtime.
    pub fn new(activity_id: &str, now_ms: i64) -> (m: Self)
        ensures
            m.activity_id@ == activity_id@,
            m.state == ActivityState::Pending,
            m.attempt == 0,
            m.state_changed_at_ms == now_ms,
            m.accumulated_runtime_ms == 0,
    {
        ActivityStateMachine {
            activity_id: activity_id.to_owned(),
            state: ActivityState::Pending,
            attempt: 0,
            state_changed_at_ms: now_ms,
            accumulated_runtime_ms: 0,
        }
    }

    /// Ordinary transition; the retry channel goes through [`Self::retry`].
    pub fn transition(&mut self, next: ActivityState, now_ms: i64) -> (r: Result<(), ActivityStateError>)
        requires
            old(self).state == ActivityState::Running ==> old(self).accumulated_runtime_ms
                + spec_elapsed(old(self).state_changed_at_ms, now_ms) <= u64::MAX,
        ensures
            r is Ok <==> spec_can_transition(old(self).state, next),
            r is Ok ==> spec_applied(*old(self), *final(self), next, now_ms),
            r is Err ==> *final(self) == *old(self) && r == Err::<(), ActivityStateError>(
                ActivityStateError::InvalidTransition { from: old(self).state, to: next },
            ),
    {
        if !self.can_transition(next) {
            return Err(ActivityStateError::InvalidTransition { from: self.state, to: next });
        }
        self.apply(next, now_ms);
        Ok(())
    }

    /// Retry channel: only `Failed` and `TimedOut` re-enter `Scheduled`, within budget.
    pub fn retry(&mut self, policy: &RetryPolicy, now_ms: i64) -> (r: Result<(), ActivityStateError>)
        ensures
            !(old(self).state == ActivityState::Failed || old(self).state == ActivityState::TimedOut)
                ==> *final(self) == *old(self) && r == Err::<(), ActivityStateError>(
                ActivityStateError::InvalidTransition {
                    from: old(self).state,
                    to: ActivityState::Scheduled,
                },
            ),
            (old(self).state == ActivityState::Failed || old(self).state == ActivityState::TimedOut)
                && old(self).attempt >= policy.max_attempts ==> *final(self) == *old(self) && (
            match r {
                Err(ActivityStateError::RetryExhausted { activity_id, attempt, max_attempts }) =>
                    activity_id@ == old(self).activity_id@ && attempt == old(self).attempt
                        && max_attempts == policy.max_attempts,
                _ => false,
            }),
            (old(self).state == ActivityState::Failed || old(self).state == ActivityState::TimedOut)
                && old(self).attempt < policy.max_attempts ==> r is Ok && final(self).activity_id@
                == old(self).activity_id@ && final(self).state == ActivityState::Scheduled
                && final(self).attempt == old(self).attempt + 1 && final(self).state_changed_at_ms
                == now_ms && final(self).accumulated_runtime_ms == old(
                self,
            ).accumulated_runtime_ms,
    {
        match self.state {
            ActivityState::Failed | ActivityState::TimedOut => {},
            other => {
                return Err(
                    ActivityStateError::InvalidTransition { from: other, to: ActivityState::Scheduled },
                );
            },
        }
        if !policy.should_retry(self.attempt) {
            return Err(
                ActivityStateError::RetryExhausted {
                    activity_id: self.activity_id.clone(),
                    attempt: self.attempt,
                    max_attempts: policy.max_attempts,
                },
            );
        }
        self.attempt = self.attempt + 1;
        self.apply(ActivityState::Scheduled, now_ms);
        Ok(())
    }

    /// Whether the ordinary channel allows `next` from the current state.
    pub fn can_transition(&self, next: ActivityState) -> (r: bool)
        ensures
            r == spec_can_transition(self.state, next),
    {
        match (self.state, next) {
            (ActivityState::Pending, ActivityState::Scheduled) => true,
            (ActivityState::Pending, ActivityState::Cancelled) => true,
            (ActivityState::Scheduled, ActivityState::Running) => true,
            (ActivityState::Scheduled, ActivityState::Cancelled) => true,
            (ActivityState::Running, ActivityState::Succeeded) => true,
            (ActivityState::Running, ActivityState::Failed) => true,
            (ActivityState::Running, ActivityState::TimedOut) => true,
            (ActivityState::Running, ActivityState::Cancelled) => true,
            _ => false,
        }
    }

    /// Whether the state is terminal (`Failed`/`TimedOut` keep only the retry channel).
    pub fn is_terminal(&self) -> (r: bool)
        ensures
            r == spec_is_terminal(self.state),
    {
        match self.state {
            ActivityState::Succeeded | ActivityState::Failed | ActivityState::Cancelled
            | ActivityState::TimedOut => true,
            _ => false,
        }
    }

    fn apply(&mut self, next: ActivityState, now_ms: i64)
        requires
            old(self).state == ActivityState::Running ==> old(self).accumulated_runtime_ms
                + spec_elapsed(old(self).state_changed_at_ms, now_ms) <= u64::MAX,
        ensures
            spec_applied(*old(self), *final(self), next, now_ms),
    {
        if self.state == ActivityState::Running {
            let elapsed: u64 = if now_ms > self.state_changed_at_ms {
                (now_ms as i128 - self.state_changed_at_ms as i128) as u64
            } else {
                0
            };
            self.accumulated_runtime_ms = self.accumulated_runtime_ms + elapsed;
        }
        if self.state == ActivityState::Pending && next == ActivityState::Scheduled && self.attempt
            == 0 {
            self.attempt = 1;
        }
        self.state = next;
        self.state_changed_at_ms = now_ms;
    }
}

/// A terminal state admits no ordinary transition: only the retry channel
/// leaves `Failed` or `TimedOut`, and nothing leaves `Succeeded` or `Cancelled`.
pub proof fn terminal_states_are_locked(from: ActivityState, to: ActivityState)
    requires
        spec_is_terminal(from),
    ensures
        !spec_can_transition(from, to),
{
}

/// `Pending` cannot skip `Scheduled` on its way to `Running`.
pub proof fn pending_cannot_skip_scheduling()
    ensures
        !spec_can_transition(ActivityState::Pending, ActivityState::Running),
{
}

/// Backoff never exceeds the cap and never decreases as the retry index grows.
pub proof fn backoff_is_monotone_and_capped(base: u64, max: u64, i: u32, j: u32)
    requires
        i <= j,
    ensures
        spec_backoff_ms(base, max, i) <= spec_backoff_ms(base, max, j),
        spec_backoff_ms(base, max, j) <= max,
{
    if i > 0 {
        let si: nat = if i - 1 <= 62 { (i - 1) as nat } else { 62 };
        let sj: nat = if j - 1 <= 62 { (j - 1) as nat } else { 62 };
        if si < sj {
            vstd::arithmetic::power2::lemma_pow2_strictly_increases(si, sj);
        }
        vstd::arithmetic::mul::lemma_mul_inequality(
            pow2(si) as int,
            pow2(sj) as int,
            base as int,
        );
        vstd::arithmetic::mul::lemma_mul_is_commutative(base as int, pow2(si) as int);
        vstd::arithmetic::mul::lemma_mul_is_commutative(base as int, pow2(sj) as int);
    }
}

} // verus!
