//! Scheduling of the tool calls of one model turn: which may run in
//! parallel, when each starts, and in which order results are handed back.
//!
//! The decisions are a state machine over the slots of a batch; running the
//! calls, waiting for them and the wind-down timer belong to the caller.
//!
//! - An exclusive call starts only when nothing is in flight, and nothing
//!   else starts while it runs: it is a barrier.
//! - Parallel calls start in order while no exclusive call runs and fewer
//!   than `max_parallel` are in flight; the rest wait, none is dropped.
//! - Results are handed back strictly in the model's order, whatever order
//!   the calls finish in.
//! - On abort, calls not yet started settle as cancelled (not started);
//!   calls in flight get the wind-down window, after which those still
//!   running settle as cancelled (wind-down expired). Every call yields
//!   exactly one outcome.

use vstd::prelude::*;
use crate::text::push_str;

verus! {

/// The default limit of parallel calls in flight.
pub const DEFAULT_MAX_PARALLEL: usize = 4;

/// How a call may run.
#[derive(Debug, Clone, Copy, PartialEq, Eq, Structural)]
pub enum ConcurrencyClass {
    /// Alone: a barrier before and after it.
    Exclusive,
    /// In the bounded pool.
    Parallel,
}

/// Why a call was settled without a result.
#[derive(Debug, Clone, Copy, PartialEq, Eq, Structural)]
pub enum CancelKind {
    /// It was still queued when the batch was aborted.
    NotStarted,
    /// It was running and did not finish within the wind-down window.
    WindDownExpired,
}

/// The final fate of one call.
#[derive(Debug, Clone, PartialEq, Eq)]
pub enum SlotOutcome<R> {
    Completed(R),
    Cancelled(CancelKind),
}

impl<R> SlotOutcome<R> {
    /// The result, when the call completed.
    pub fn completed(self) -> (r: Option<R>)
        ensures
            match self {
                SlotOutcome::Completed(x) => r == Some(x),
                SlotOutcome::Cancelled(_) => r is None,
            },
    {
        match self {
            SlotOutcome::Completed(result) => Some(result),
            SlotOutcome::Cancelled(_) => None,
        }
    }

    /// Why it was cancelled, when it was.
    pub fn cancel_kind(&self) -> (k: Option<CancelKind>)
        ensures
            match self {
                SlotOutcome::Completed(_) => k is None,
                SlotOutcome::Cancelled(c) => k == Some(*c),
            },
    {
        match self {
            SlotOutcome::Completed(_) => None,
            SlotOutcome::Cancelled(kind) => Some(*kind),
        }
    }
}

/// The duration of `ms` milliseconds.
///
/// Trusted: calls `Duration::from_millis`; nothing is claimed of the value,
/// which the scheduler only carries to the caller's wind-down timer.
#[verifier::external_body]
fn duration_from_millis(ms: u64) -> std::time::Duration {
    std::time::Duration::from_millis(ms)
}

/// Scheduler settings.
#[derive(Debug, Clone, Copy, PartialEq, Eq)]
pub struct SchedulerConfig {
    /// Parallel calls in flight at most (at least 1).
    pub max_parallel: usize,
    /// The window running calls get after an abort.
    pub wind_down: std::time::Duration,
}

impl Default for SchedulerConfig {
    fn default() -> (c: SchedulerConfig)
        ensures
            c.max_parallel == DEFAULT_MAX_PARALLEL,
    {
        SchedulerConfig { max_parallel: DEFAULT_MAX_PARALLEL, wind_down: duration_from_millis(1_000) }
    }
}

/// Why settings were refused.
#[derive(Debug, Clone, Copy, PartialEq, Eq, Structural)]
pub enum SchedulerConfigError {
    /// `max_parallel` is 0: a pool must admit at least one call.
    NonPositiveParallelism,
}

impl SchedulerConfigError {
    /// The message of this error.
    pub fn message(&self) -> (m: String)
        ensures
            m@ == "max_parallel must be at least 1: a pool that admits nothing is not a pool"@,
    {
        let mut m = String::new();
        push_str(&mut m, "max_parallel must be at least 1: a pool that admits nothing is not a pool");
        m
    }
}

impl SchedulerConfig {
    /// Settings are accepted when `max_parallel` is at least 1.
    pub fn check(&self) -> (r: Result<(), SchedulerConfigError>)
        ensures
            r is Ok <==> self.max_parallel >= 1,
    {
        if self.max_parallel == 0 {
            Err(SchedulerConfigError::NonPositiveParallelism)
        } else {
            Ok(())
        }
    }
}

/// Where one slot of a batch stands.
#[derive(Debug)]
pub enum SlotPhase<R> {
    /// Waiting to start.
    Queued,
    /// Started and not settled.
    InFlight,
    /// Settled; `None` once the outcome has been handed back.
    Settled(Option<SlotOutcome<R>>),
}

/// The outcome a settled slot still holds.
pub open spec fn waiting_outcome<R>(p: SlotPhase<R>) -> Option<SlotOutcome<R>> {
    match p {
        SlotPhase::Settled(o) => o,
        _ => None,
    }
}

pub open spec fn in_flight_count<R>(s: Seq<SlotPhase<R>>) -> nat
    decreases s.len(),
{
    if s.len() == 0 {
        0
    } else {
        in_flight_count(s.drop_last()) + if s.last() is InFlight { 1nat } else { 0nat }
    }
}

proof fn lemma_count_update<R>(s: Seq<SlotPhase<R>>, i: int, x: SlotPhase<R>)
    requires
        0 <= i < s.len(),
    ensures
        in_flight_count(s.update(i, x)) + (if s[i] is InFlight { 1int } else { 0int }) == in_flight_count(s) + (
        if x is InFlight { 1int } else { 0int }),
    decreases s.len(),
{
    let u = s.update(i, x);
    if i == s.len() - 1 {
        assert(u.drop_last() =~= s.drop_last());
    } else {
        assert(u.drop_last() =~= s.drop_last().update(i, x));
        lemma_count_update(s.drop_last(), i, x);
    }
}

proof fn lemma_count_bounds<R>(s: Seq<SlotPhase<R>>, i: int, j: int)
    requires
        0 <= i < s.len(),
        0 <= j < s.len(),
        s[i] is InFlight,
        s[j] is InFlight,
    ensures
        in_flight_count(s) >= 1,
        i != j ==> in_flight_count(s) >= 2,
    decreases s.len(),
{
    let n = s.len() - 1;
    if i == n && j == n {
        if n > 0 {
            lemma_count_nonneg(s.drop_last());
        }
    } else if i == n {
        lemma_count_bounds(s.drop_last(), j, j);
    } else if j == n {
        lemma_count_bounds(s.drop_last(), i, i);
    } else {
        lemma_count_bounds(s.drop_last(), i, j);
    }
}

proof fn lemma_count_nonneg<R>(s: Seq<SlotPhase<R>>)
    ensures
        in_flight_count(s) >= 0,
{
}

proof fn lemma_count_le_len<R>(s: Seq<SlotPhase<R>>)
    ensures
        in_flight_count(s) <= s.len(),
    decreases s.len(),
{
    if s.len() > 0 {
        lemma_count_le_len(s.drop_last());
    }
}

/// The decision state of one batch.
pub struct BatchState<R> {
    classes: Vec<ConcurrencyClass>,
    slots: Vec<SlotPhase<R>>,
    commit_cursor: usize,
    launch_frontier: usize,
    in_flight: usize,
    exclusive_in_flight: bool,
    max_parallel: usize,
    aborted: bool,
}

impl<R> BatchState<R> {
    pub closed spec fn classes_view(&self) -> Seq<ConcurrencyClass> {
        self.classes@
    }

    pub closed spec fn slots_view(&self) -> Seq<SlotPhase<R>> {
        self.slots@
    }

    /// The next slot whose outcome will be handed back.
    pub closed spec fn cursor(&self) -> nat {
        self.commit_cursor as nat
    }

    /// The next slot to start.
    pub closed spec fn frontier(&self) -> nat {
        self.launch_frontier as nat
    }

    pub closed spec fn limit(&self) -> usize {
        self.max_parallel
    }

    pub closed spec fn is_aborted_view(&self) -> bool {
        self.aborted
    }

    /// Some exclusive call is in flight.
    pub open spec fn exclusive_running(&self) -> bool {
        exists|i: int|
            0 <= i < self.slots_view().len() && (#[trigger] self.slots_view()[i]) is InFlight
                && self.classes_view()[i] == ConcurrencyClass::Exclusive
    }

    /// The batch invariant: the barrier and the pool bound hold, slots before
    /// the frontier have started, slots after it wait unless the batch was
    /// aborted, and handed-back slots are behind the cursor.
    pub closed spec fn wf(&self) -> bool {
        let s = self.slots@;
        &&& self.classes@.len() == s.len()
        &&& self.max_parallel >= 1
        &&& self.launch_frontier <= s.len()
        &&& self.commit_cursor <= s.len()
        &&& self.in_flight == in_flight_count(s)
        &&& self.exclusive_in_flight == self.exclusive_running()
        &&& self.exclusive_in_flight ==> self.in_flight == 1
        &&& self.in_flight <= self.max_parallel
        &&& forall|i: int| 0 <= i < self.launch_frontier ==> !(#[trigger] s[i] is Queued)
        &&& forall|i: int| self.launch_frontier <= i < s.len() ==> (#[trigger] s[i] is Queued) || (self.aborted
            && s[i] is Settled)
        &&& self.aborted ==> forall|i: int| 0 <= i < s.len() ==> !(#[trigger] s[i] is Queued)
        &&& forall|i: int| 0 <= i < self.commit_cursor ==> (#[trigger] s[i]) matches SlotPhase::Settled(None)
    }

    /// A batch over calls of the given classes, nothing started yet.
    pub fn new(classes: Vec<ConcurrencyClass>, max_parallel: usize) -> (b: BatchState<R>)
        requires
            max_parallel >= 1,
        ensures
            b.wf(),
            b.classes_view() == classes@,
            b.slots_view().len() == classes@.len(),
            forall|i: int| 0 <= i < classes@.len() ==> (#[trigger] b.slots_view()[i]) is Queued,
            b.cursor() == 0,
            b.frontier() == 0,
            !b.is_aborted_view(),
            b.limit() == max_parallel,
    {
        let mut slots: Vec<SlotPhase<R>> = Vec::new();
        let mut i: usize = 0;
        while i < classes.len()
            invariant
                i <= classes@.len(),
                slots@.len() == i,
                forall|k: int| 0 <= k < i ==> (#[trigger] slots@[k]) is Queued,
                in_flight_count(slots@) == 0,
            decreases classes@.len() - i,
        {
            let ghost before = slots@;
            slots.push(SlotPhase::Queued);
            proof {
                assert(slots@.drop_last() =~= before);
            }
            i = i + 1;
        }
        BatchState {
            classes,
            slots,
            commit_cursor: 0,
            launch_frontier: 0,
            in_flight: 0,
            exclusive_in_flight: false,
            max_parallel,
            aborted: false,
        }
    }

    /// How many calls the batch has.
    pub fn len(&self) -> (n: usize)
        ensures
            n == self.slots_view().len(),
    {
        self.slots.len()
    }

    /// Whether the batch has no calls.
    pub fn is_empty(&self) -> (b: bool)
        ensures
            b == (self.slots_view().len() == 0),
    {
        self.slots.len() == 0
    }

    /// Whether the batch was aborted.
    pub fn is_aborted(&self) -> (b: bool)
        ensures
            b == self.is_aborted_view(),
    {
        self.aborted
    }

    /// Whether every outcome has been handed back.
    pub fn is_done(&self) -> (b: bool)
        ensures
            b == (self.cursor() >= self.slots_view().len()),
    {
        self.commit_cursor >= self.slots.len()
    }

    /// Calls in flight.
    pub fn in_flight(&self) -> (n: usize)
        requires
            self.wf(),
        ensures
            n == in_flight_count(self.slots_view()),
    {
        self.in_flight
    }

    /// Whether the slot at `i` may start now: an exclusive call when nothing
    /// is in flight, a parallel one when no exclusive call runs and the pool
    /// has room.
    pub open spec fn may_start(&self, i: int) -> bool {
        match self.classes_view()[i] {
            ConcurrencyClass::Exclusive => in_flight_count(self.slots_view()) == 0,
            ConcurrencyClass::Parallel => !self.exclusive_running() && in_flight_count(self.slots_view())
                < self.limit(),
        }
    }

    /// Starts what may start, in order: the next queued call starts when it
    /// is exclusive and nothing is in flight, or parallel with no exclusive
    /// call running and room in the pool; the first that may not start
    /// stops the scan. Returns the started slots; the caller runs them.
    pub fn launch_ready(&mut self) -> (started: Vec<usize>)
        requires
            old(self).wf(),
        ensures
            final(self).wf(),
            final(self).classes_view() == old(self).classes_view(),
            final(self).cursor() == old(self).cursor(),
            final(self).limit() == old(self).limit(),
            final(self).is_aborted_view() == old(self).is_aborted_view(),
            final(self).frontier() == old(self).frontier() + started@.len(),
            forall|k: int| 0 <= k < started@.len() ==> started@[k] == old(self).frontier() + k,
            forall|i: int| 0 <= i < old(self).slots_view().len() ==> (#[trigger] final(self).slots_view()[i]) == if old(self).frontier() <= i < final(self).frontier() {
                SlotPhase::InFlight
            } else {
                old(self).slots_view()[i]
            },
            final(self).slots_view().len() == old(self).slots_view().len(),
            !final(self).is_aborted_view() && final(self).frontier() < final(self).slots_view().len()
                ==> !final(self).may_start(final(self).frontier() as int),
    {
        let mut started: Vec<usize> = Vec::new();
        let ghost f0 = self.launch_frontier;
        let ghost s0 = self.slots@;
        while !self.aborted && self.launch_frontier < self.slots.len()
            invariant
                self.wf(),
                self.classes@ == old(self).classes@,
                self.commit_cursor == old(self).commit_cursor,
                self.max_parallel == old(self).max_parallel,
                self.aborted == old(self).aborted,
                f0 == old(self).launch_frontier,
                s0 == old(self).slots@,
                self.slots@.len() == s0.len(),
                self.launch_frontier == f0 + started@.len(),
                forall|k: int| 0 <= k < started@.len() ==> started@[k] == f0 + k,
                forall|i: int| 0 <= i < s0.len() ==> (#[trigger] self.slots@[i]) == if f0 <= i < self.launch_frontier {
                    SlotPhase::InFlight
                } else {
                    s0[i]
                },
            ensures
                self.aborted || self.launch_frontier >= self.slots@.len() || !self.may_start(
                    self.launch_frontier as int,
                ),
            decreases self.slots@.len() - self.launch_frontier,
        {
            let idx = self.launch_frontier;
            let class = self.classes[idx];
            let may_start = match class {
                ConcurrencyClass::Exclusive => self.in_flight == 0,
                ConcurrencyClass::Parallel => !self.exclusive_in_flight && self.in_flight < self.max_parallel,
            };
            if !may_start {
                break;
            }
            let ghost before = self.slots@;
            proof {
                assert(before[idx as int] is Queued);
                lemma_count_update(before, idx as int, SlotPhase::InFlight);
            }
            self.slots.set(idx, SlotPhase::InFlight);
            self.in_flight = self.in_flight + 1;
            if class == ConcurrencyClass::Exclusive {
                self.exclusive_in_flight = true;
                proof {
                    assert(self.slots@[idx as int] is InFlight);
                }
            } else {
                proof {
                    if self.exclusive_running() {
                        let j = choose|j: int|
                            0 <= j < self.slots@.len() && (#[trigger] self.slots@[j]) is InFlight
                                && self.classes@[j] == ConcurrencyClass::Exclusive;
                        assert(j != idx);
                        assert(before[j] is InFlight);
                    }
                }
            }
            self.launch_frontier = idx + 1;
            started.push(idx);
        }
        started
    }
}

impl<R> BatchState<R> {
    /// Records the result of a started call. A slot already settled (for
    /// instance cancelled by the wind-down) keeps its outcome and the late
    /// result is dropped; otherwise the slot settles with the result and
    /// frees its place.
    pub fn settle_completed(&mut self, index: usize, result: R)
        requires
            old(self).wf(),
            index < old(self).slots_view().len(),
            !(old(self).slots_view()[index as int] is Queued),
        ensures
            final(self).wf(),
            final(self).classes_view() == old(self).classes_view(),
            final(self).cursor() == old(self).cursor(),
            final(self).frontier() == old(self).frontier(),
            final(self).limit() == old(self).limit(),
            final(self).is_aborted_view() == old(self).is_aborted_view(),
            final(self).slots_view() == if old(self).slots_view()[index as int] is Settled {
                old(self).slots_view()
            } else {
                old(self).slots_view().update(index as int, SlotPhase::Settled(Some(SlotOutcome::Completed(result))))
            },
    {
        let was_in_flight = match &self.slots[index] {
            SlotPhase::Settled(_) => {
                return;
            },
            SlotPhase::InFlight => true,
            SlotPhase::Queued => false,
        };
        let ghost before = self.slots@;
        let ghost x = SlotPhase::Settled(Some(SlotOutcome::Completed(result)));
        proof {
            lemma_count_update(before, index as int, x);
        }
        self.slots.set(index, SlotPhase::Settled(Some(SlotOutcome::Completed(result))));
        if was_in_flight {
            proof {
                lemma_count_bounds(before, index as int, index as int);
            }
            self.in_flight = self.in_flight - 1;
            if self.classes[index] == ConcurrencyClass::Exclusive {
                self.exclusive_in_flight = false;
                proof {
                    if self.exclusive_running() {
                        let j = choose|j: int|
                            0 <= j < self.slots@.len() && (#[trigger] self.slots@[j]) is InFlight
                                && self.classes@[j] == ConcurrencyClass::Exclusive;
                        lemma_count_bounds(before, index as int, j);
                    }
                }
            } else {
                proof {
                    if old(self).exclusive_in_flight {
                        let j = choose|j: int|
                            0 <= j < before.len() && (#[trigger] before[j]) is InFlight
                                && self.classes@[j] == ConcurrencyClass::Exclusive;
                        lemma_count_bounds(before, index as int, j);
                    }
                    if self.exclusive_running() {
                        let j = choose|j: int|
                            0 <= j < self.slots@.len() && (#[trigger] self.slots@[j]) is InFlight
                                && self.classes@[j] == ConcurrencyClass::Exclusive;
                        assert(before[j] is InFlight);
                    }
                }
            }
        } else {
            proof {
                if self.exclusive_running() {
                    let j = choose|j: int|
                        0 <= j < self.slots@.len() && (#[trigger] self.slots@[j]) is InFlight
                            && self.classes@[j] == ConcurrencyClass::Exclusive;
                    assert(before[j] is InFlight);
                }
                if old(self).exclusive_in_flight {
                    let j = choose|j: int|
                        0 <= j < before.len() && (#[trigger] before[j]) is InFlight
                            && self.classes@[j] == ConcurrencyClass::Exclusive;
                    assert(self.slots@[j] is InFlight);
                }
            }
        }
    }

    /// Aborts the batch: every queued call settles as cancelled (not
    /// started) and nothing starts any more. Returns whether this call
    /// aborted it (the caller then opens the wind-down window); aborting
    /// again changes nothing.
    pub fn abort(&mut self) -> (fresh: bool)
        requires
            old(self).wf(),
        ensures
            final(self).wf(),
            fresh == !old(self).is_aborted_view(),
            final(self).is_aborted_view(),
            final(self).classes_view() == old(self).classes_view(),
            final(self).cursor() == old(self).cursor(),
            final(self).frontier() == old(self).frontier(),
            final(self).limit() == old(self).limit(),
            final(self).slots_view().len() == old(self).slots_view().len(),
            forall|i: int| 0 <= i < old(self).slots_view().len() ==> (#[trigger] final(self).slots_view()[i]) == if old(self).slots_view()[i] is Queued {
                SlotPhase::Settled(Some(SlotOutcome::Cancelled(CancelKind::NotStarted)))
            } else {
                old(self).slots_view()[i]
            },
    {
        if self.aborted {
            proof {
                assert forall|i: int| 0 <= i < self.slots@.len() implies !(#[trigger] self.slots@[i] is Queued) by {}
            }
            return false;
        }
        let ghost s0 = self.slots@;
        self.aborted = true;
        let mut i: usize = 0;
        while i < self.slots.len()
            invariant
                self.slots@.len() == s0.len(),
                self.classes@ == old(self).classes@,
                self.aborted,
                self.commit_cursor == old(self).commit_cursor,
                self.launch_frontier == old(self).launch_frontier,
                self.max_parallel == old(self).max_parallel,
                self.in_flight == old(self).in_flight,
                self.exclusive_in_flight == old(self).exclusive_in_flight,
                s0 == old(self).slots@,
                old(self).wf(),
                i <= s0.len(),
                in_flight_count(self.slots@) == in_flight_count(s0),
                forall|k: int| 0 <= k < s0.len() ==> (#[trigger] self.slots@[k] is InFlight) == (s0[k] is InFlight),
                forall|k: int| 0 <= k < s0.len() ==> (#[trigger] self.slots@[k]) == if k < i && s0[k] is Queued {
                    SlotPhase::Settled(Some(SlotOutcome::Cancelled(CancelKind::NotStarted)))
                } else {
                    s0[k]
                },
            decreases s0.len() - i,
        {
            let queued = match &self.slots[i] {
                SlotPhase::Queued => true,
                _ => false,
            };
            if queued {
                let ghost before = self.slots@;
                let ghost x = SlotPhase::<R>::Settled(Some(SlotOutcome::Cancelled(CancelKind::NotStarted)));
                proof {
                    lemma_count_update(before, i as int, x);
                }
                self.slots.set(i, SlotPhase::Settled(Some(SlotOutcome::Cancelled(CancelKind::NotStarted))));
            }
            i = i + 1;
        }
        proof {
            assert(self.exclusive_running() == old(self).exclusive_running()) by {
                if self.exclusive_running() {
                    let j = choose|j: int|
                        0 <= j < self.slots@.len() && (#[trigger] self.slots@[j]) is InFlight
                            && self.classes@[j] == ConcurrencyClass::Exclusive;
                    assert(s0[j] is InFlight);
                }
                if old(self).exclusive_running() {
                    let j = choose|j: int|
                        0 <= j < s0.len() && (#[trigger] s0[j]) is InFlight && self.classes@[j]
                            == ConcurrencyClass::Exclusive;
                    assert(self.slots@[j] is InFlight);
                }
            }
        }
        true
    }

    /// The wind-down window is over (or no more results can arrive): calls
    /// still in flight settle as cancelled (wind-down expired), queued ones
    /// as not started, settled ones keep their outcome; the batch counts as
    /// aborted.
    pub fn settle_after_wind_down(&mut self)
        requires
            old(self).wf(),
        ensures
            final(self).wf(),
            final(self).is_aborted_view(),
            final(self).classes_view() == old(self).classes_view(),
            final(self).cursor() == old(self).cursor(),
            final(self).frontier() == old(self).frontier(),
            final(self).limit() == old(self).limit(),
            final(self).slots_view().len() == old(self).slots_view().len(),
            forall|i: int| 0 <= i < old(self).slots_view().len() ==> (#[trigger] final(self).slots_view()[i]) == match old(self).slots_view()[i] {
                SlotPhase::InFlight => SlotPhase::Settled(Some(SlotOutcome::Cancelled(CancelKind::WindDownExpired))),
                SlotPhase::Queued => SlotPhase::Settled(Some(SlotOutcome::Cancelled(CancelKind::NotStarted))),
                SlotPhase::Settled(o) => SlotPhase::Settled(o),
            },
    {
        let ghost s0 = self.slots@;
        let mut i: usize = 0;
        while i < self.slots.len()
            invariant
                self.slots@.len() == s0.len(),
                self.classes@ == old(self).classes@,
                self.commit_cursor == old(self).commit_cursor,
                self.launch_frontier == old(self).launch_frontier,
                self.max_parallel == old(self).max_parallel,
                s0 == old(self).slots@,
                old(self).wf(),
                i <= s0.len(),
                forall|k: int| 0 <= k < s0.len() ==> (#[trigger] self.slots@[k]) == if k < i {
                    match s0[k] {
                        SlotPhase::InFlight => SlotPhase::Settled(Some(SlotOutcome::Cancelled(CancelKind::WindDownExpired))),
                        SlotPhase::Queued => SlotPhase::Settled(Some(SlotOutcome::Cancelled(CancelKind::NotStarted))),
                        SlotPhase::Settled(o) => SlotPhase::Settled(o),
                    }
                } else {
                    s0[k]
                },
            decreases s0.len() - i,
        {
            let next = match &self.slots[i] {
                SlotPhase::InFlight => Some(CancelKind::WindDownExpired),
                SlotPhase::Queued => Some(CancelKind::NotStarted),
                SlotPhase::Settled(_) => None,
            };
            match next {
                Some(kind) => {
                    self.slots.set(i, SlotPhase::Settled(Some(SlotOutcome::Cancelled(kind))));
                },
                None => {},
            }
            i = i + 1;
        }
        self.in_flight = 0;
        self.exclusive_in_flight = false;
        self.aborted = true;
        proof {
            assert forall|k: int| 0 <= k < self.slots@.len() implies !(#[trigger] self.slots@[k] is InFlight) by {}
            lemma_count_zero(self.slots@);
        }
    }

    /// Hands back the outcome of the next slot in model order when it has
    /// settled; `None` while it has not (or when all are handed back).
    pub fn take_next(&mut self) -> (r: Option<(usize, SlotOutcome<R>)>)
        requires
            old(self).wf(),
        ensures
            final(self).wf(),
            final(self).classes_view() == old(self).classes_view(),
            final(self).frontier() == old(self).frontier(),
            final(self).limit() == old(self).limit(),
            final(self).is_aborted_view() == old(self).is_aborted_view(),
            ({
                let c = old(self).cursor() as int;
                let s = old(self).slots_view();
                if c < s.len() && waiting_outcome(s[c]) is Some {
                    &&& r == Some((c as usize, waiting_outcome(s[c])->0))
                    &&& final(self).cursor() == c + 1
                    &&& final(self).slots_view() == s.update(c, SlotPhase::Settled(None))
                } else {
                    &&& r is None
                    &&& final(self).cursor() == c
                    &&& final(self).slots_view() == s
                }
            }),
    {
        if self.commit_cursor >= self.slots.len() {
            return None;
        }
        let c = self.commit_cursor;
        let ready = match &self.slots[c] {
            SlotPhase::Settled(Some(_)) => true,
            _ => false,
        };
        if !ready {
            return None;
        }
        let ghost before = self.slots@;
        proof {
            lemma_count_update(before, c as int, SlotPhase::<R>::Settled(None));
        }
        let mut taken = SlotPhase::Settled(None);
        std::mem::swap(&mut taken, &mut self.slots[c]);
        self.commit_cursor = c + 1;
        proof {
            assert(self.slots@ =~= before.update(c as int, SlotPhase::Settled(None)));
            if self.exclusive_running() {
                let j = choose|j: int|
                    0 <= j < self.slots@.len() && (#[trigger] self.slots@[j]) is InFlight
                        && self.classes@[j] == ConcurrencyClass::Exclusive;
                assert(before[j] is InFlight);
            }
            if old(self).exclusive_running() {
                let j = choose|j: int|
                    0 <= j < before.len() && (#[trigger] before[j]) is InFlight && self.classes@[j]
                        == ConcurrencyClass::Exclusive;
                assert(self.slots@[j] is InFlight);
            }
        }
        match taken {
            SlotPhase::Settled(Some(o)) => Some((c, o)),
            _ => None,
        }
    }
}

proof fn lemma_count_zero<R>(s: Seq<SlotPhase<R>>)
    requires
        forall|k: int| 0 <= k < s.len() ==> !(#[trigger] s[k] is InFlight),
    ensures
        in_flight_count(s) == 0,
    decreases s.len(),
{
    if s.len() > 0 {
        assert(!(s[s.len() - 1] is InFlight));
        lemma_count_zero(s.drop_last());
    }
}

/// In every reachable batch state an exclusive call in flight is the only
/// call in flight, the pool never holds more than `max_parallel` calls, and
/// every slot before the hand-back cursor has been handed back exactly once
/// (its outcome is gone and no operation brings one back).
pub proof fn exclusive_calls_run_alone<R>(b: BatchState<R>)
    requires
        b.wf(),
    ensures
        b.exclusive_running() ==> in_flight_count(b.slots_view()) == 1,
        in_flight_count(b.slots_view()) <= b.limit(),
        forall|i: int| 0 <= i < b.cursor() ==> (#[trigger] b.slots_view()[i]) matches SlotPhase::Settled(None),
{
}

} // verus!
