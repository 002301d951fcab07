//! Multi-level cognitive quota scheduler with priority inheritance.
//!
//! A synchronous task registry with five priority run queues. It schedules
//! cognitive computation quotas (tokens, tool steps, cost), not CPU time:
//!
//! - `schedule_next` hands out a copy of the next task's control block; the
//!   caller runs it. Nothing is interrupted mid-flight: `preempt_active`
//!   re-queues the running task at the front of its queue and marks it.
//! - Priority inheritance: a task holding a (book-kept, not enforced)
//!   resource lock is boosted to the priority of a waiter that outranks it,
//!   and falls back to its base priority when the lock is released.
//! - The registry is bounded by [`MAX_TRACKED_TASKS`]: at the bound, the
//!   oldest tracked entry that waits in no run queue is evicted; finished
//!   tasks are reclaimed with `complete_task`.

use vstd::prelude::*;
use crate::text::{push_str, str_eq};

verus! {

/// Five-tier cognitive priority, most urgent first.
#[derive(Debug, Clone, Copy, PartialEq, Eq, PartialOrd, Ord, Hash, Structural)]
pub enum CognitivePriority {
    /// Safety violation, emergency kill-switch, physical disconnect.
    SystemEmergency,
    /// Real-time user foreground interaction.
    InteractiveUser,
    /// Active foreground worker agent.
    ActiveSubAgent,
    /// Background consolidation.
    BackgroundDreaming,
    /// Idle linting, vacuum, log collection.
    IdleMaintenance,
}

/// The rank of a priority: 0 for the most urgent, 4 for the least.
pub open spec fn rank(p: CognitivePriority) -> nat {
    match p {
        CognitivePriority::SystemEmergency => 0,
        CognitivePriority::InteractiveUser => 1,
        CognitivePriority::ActiveSubAgent => 2,
        CognitivePriority::BackgroundDreaming => 3,
        CognitivePriority::IdleMaintenance => 4,
    }
}

fn rank_of(p: CognitivePriority) -> (r: usize)
    ensures
        r == rank(p),
{
    match p {
        CognitivePriority::SystemEmergency => 0,
        CognitivePriority::InteractiveUser => 1,
        CognitivePriority::ActiveSubAgent => 2,
        CognitivePriority::BackgroundDreaming => 3,
        CognitivePriority::IdleMaintenance => 4,
    }
}

/// Run queues follow urgency: an emergency outranks the interactive user,
/// who outranks active sub-agents, then background dreaming, then idle
/// maintenance; every priority has one of the five queues.
pub proof fn queues_follow_urgency()
    ensures
        rank(CognitivePriority::SystemEmergency) < rank(CognitivePriority::InteractiveUser),
        rank(CognitivePriority::InteractiveUser) < rank(CognitivePriority::ActiveSubAgent),
        rank(CognitivePriority::ActiveSubAgent) < rank(CognitivePriority::BackgroundDreaming),
        rank(CognitivePriority::BackgroundDreaming) < rank(CognitivePriority::IdleMaintenance),
        forall|p: CognitivePriority| #[trigger] rank(p) < 5,
{
}

/// `a + b`, saturating at `max`.
pub open spec fn sat_add(a: int, b: int, max: int) -> int {
    if a + b > max {
        max
    } else {
        a + b
    }
}

/// Cognitive computation budget and what has been consumed of it.
#[derive(Debug, Clone, PartialEq)]
pub struct CognitiveQuota {
    /// Token budget.
    pub max_tokens: usize,
    /// Tool-step budget.
    pub max_tool_steps: usize,
    /// Cost budget, in micro-units.
    pub max_cost_micros: u64,
    /// Tokens consumed.
    pub consumed_tokens: usize,
    /// Tool steps consumed.
    pub consumed_tool_steps: usize,
    /// Cost consumed, in micro-units.
    pub consumed_cost_micros: u64,
}

impl CognitiveQuota {
    /// Whether some budget dimension is used up.
    pub open spec fn exhausted(&self) -> bool {
        self.consumed_tokens >= self.max_tokens || self.consumed_tool_steps >= self.max_tool_steps
            || self.consumed_cost_micros >= self.max_cost_micros
    }

    /// A fresh quota with nothing consumed.
    pub fn new(max_tokens: usize, max_tool_steps: usize, max_cost_micros: u64) -> (q: Self)
        ensures
            q.max_tokens == max_tokens,
            q.max_tool_steps == max_tool_steps,
            q.max_cost_micros == max_cost_micros,
            q.consumed_tokens == 0,
            q.consumed_tool_steps == 0,
            q.consumed_cost_micros == 0,
    {
        CognitiveQuota {
            max_tokens,
            max_tool_steps,
            max_cost_micros,
            consumed_tokens: 0,
            consumed_tool_steps: 0,
            consumed_cost_micros: 0,
        }
    }

    /// Whether any budget dimension has been used up.
    pub fn is_exhausted(&self) -> (b: bool)
        ensures
            b == self.exhausted(),
    {
        self.consumed_tokens >= self.max_tokens || self.consumed_tool_steps >= self.max_tool_steps
            || self.consumed_cost_micros >= self.max_cost_micros
    }

    /// Records one step (saturating counters); returns whether budget remains.
    pub fn consume_step(&mut self, tokens: usize, cost_micros: u64) -> (ok: bool)
        ensures
            final(self).max_tokens == old(self).max_tokens,
            final(self).max_tool_steps == old(self).max_tool_steps,
            final(self).max_cost_micros == old(self).max_cost_micros,
            final(self).consumed_tokens == sat_add(old(self).consumed_tokens as int, tokens as int, usize::MAX as int),
            final(self).consumed_tool_steps == sat_add(old(self).consumed_tool_steps as int, 1, usize::MAX as int),
            final(self).consumed_cost_micros == sat_add(
                old(self).consumed_cost_micros as int,
                cost_micros as int,
                u64::MAX as int,
            ),
            ok == !final(self).exhausted(),
    {
        self.consumed_tokens = self.consumed_tokens.saturating_add(tokens);
        self.consumed_tool_steps = self.consumed_tool_steps.saturating_add(1);
        self.consumed_cost_micros = self.consumed_cost_micros.saturating_add(cost_micros);
        !self.is_exhausted()
    }
}

/// Serialized cognitive context frame for deterministic preemption and resumption.
#[derive(Debug, Clone, PartialEq)]
pub struct CognitiveContextFrame {
    /// Task identifier.
    pub task_id: String,
    /// Session identifier.
    pub session_id: String,
    /// Step reached.
    pub step_index: usize,
    /// Call stack.
    pub call_stack: Vec<String>,
    /// Local transcript snapshot.
    pub local_transcript_snapshot: Vec<String>,
    /// Hash of the world state.
    pub world_state_hash: String,
}

/// Cognitive interrupt signals.
#[derive(Debug, Clone, PartialEq)]
pub enum CognitiveInterrupt {
    /// Emergency preemption.
    EmergencyPreempt {
        /// Why.
        reason: String,
    },
    /// A task used up its budget.
    BudgetExhausted {
        /// The task.
        task_id: String,
    },
    /// A task yields voluntarily.
    VoluntaryYield {
        /// The task.
        task_id: String,
    },
}

/// Task control block.
#[derive(Debug, Clone)]
pub struct CognitiveTaskControlBlock {
    /// Task identifier (unique among tracked tasks).
    pub task_id: String,
    /// Session identifier.
    pub session_id: String,
    /// Priority the task was submitted with.
    pub base_priority: CognitivePriority,
    /// Priority it runs at (raised by priority inheritance).
    pub effective_priority: CognitivePriority,
    /// Its quota.
    pub quota: CognitiveQuota,
    /// Its context frame.
    pub context_frame: CognitiveContextFrame,
    /// Whether it was preempted since it was last dispatched.
    pub is_preempted: bool,
}

/// Strings as character sequences.
pub open spec fn views(v: Seq<String>) -> Seq<Seq<char>> {
    v.map_values(|s: String| s@)
}

/// A context frame as plain values.
pub open spec fn frame_view(f: CognitiveContextFrame) -> (Seq<char>, Seq<char>, usize, Seq<Seq<char>>, Seq<Seq<char>>, Seq<char>) {
    (f.task_id@, f.session_id@, f.step_index, views(f.call_stack@), views(f.local_transcript_snapshot@), f.world_state_hash@)
}

/// A control block as plain values.
pub open spec fn tcb_view(t: CognitiveTaskControlBlock) -> (
    Seq<char>,
    Seq<char>,
    CognitivePriority,
    CognitivePriority,
    CognitiveQuota,
    (Seq<char>, Seq<char>, usize, Seq<Seq<char>>, Seq<Seq<char>>, Seq<char>),
    bool,
) {
    (t.task_id@, t.session_id@, t.base_priority, t.effective_priority, t.quota, frame_view(t.context_frame), t.is_preempted)
}

fn clone_strings(v: &Vec<String>) -> (r: Vec<String>)
    ensures
        views(r@) == views(v@),
{
    let mut r: Vec<String> = Vec::new();
    let mut i: usize = 0;
    while i < v.len()
        invariant
            i <= v@.len(),
            views(r@) == views(v@).take(i as int),
        decreases v@.len() - i,
    {
        let ghost before = r@;
        r.push(v[i].clone());
        assert(views(r@) =~= views(before).push(v@[i as int]@));
        assert(views(v@).take(i as int + 1) =~= views(v@).take(i as int).push(v@[i as int]@));
        i = i + 1;
    }
    assert(views(v@).take(i as int) =~= views(v@));
    r
}

fn clone_tcb(t: &CognitiveTaskControlBlock) -> (r: CognitiveTaskControlBlock)
    ensures
        tcb_view(r) == tcb_view(*t),
{
    let q = &t.quota;
    let f = &t.context_frame;
    CognitiveTaskControlBlock {
        task_id: t.task_id.clone(),
        session_id: t.session_id.clone(),
        base_priority: t.base_priority,
        effective_priority: t.effective_priority,
        quota: CognitiveQuota {
            max_tokens: q.max_tokens,
            max_tool_steps: q.max_tool_steps,
            max_cost_micros: q.max_cost_micros,
            consumed_tokens: q.consumed_tokens,
            consumed_tool_steps: q.consumed_tool_steps,
            consumed_cost_micros: q.consumed_cost_micros,
        },
        context_frame: CognitiveContextFrame {
            task_id: f.task_id.clone(),
            session_id: f.session_id.clone(),
            step_index: f.step_index,
            call_stack: clone_strings(&f.call_stack),
            local_transcript_snapshot: clone_strings(&f.local_transcript_snapshot),
            world_state_hash: f.world_state_hash.clone(),
        },
        is_preempted: t.is_preempted,
    }
}

/// Bound on the number of tracked tasks.
pub const MAX_TRACKED_TASKS: usize = 1024;

/// Position of the task with id `id` (the last one, should there be several), or -1.
pub open spec fn task_pos(tasks: Seq<CognitiveTaskControlBlock>, id: Seq<char>) -> int
    decreases tasks.len(),
{
    if tasks.len() == 0 {
        -1
    } else if tasks.last().task_id@ == id {
        tasks.len() - 1
    } else {
        task_pos(tasks.drop_last(), id)
    }
}

/// Position of the lock on `resource`, or -1.
pub open spec fn lock_pos(locks: Seq<(Seq<char>, Seq<char>)>, resource: Seq<char>) -> int
    decreases locks.len(),
{
    if locks.len() == 0 {
        -1
    } else if locks.last().0 == resource {
        locks.len() - 1
    } else {
        lock_pos(locks.drop_last(), resource)
    }
}

/// Whether `id` waits in some run queue.
pub open spec fn in_queues(qs: Seq<Seq<Seq<char>>>, id: Seq<char>) -> bool {
    exists|q: int| 0 <= q < qs.len() && #[trigger] qs[q].contains(id)
}

/// The first position from `i` on whose task waits in no run queue, or -1.
pub open spec fn first_unqueued_from(tasks: Seq<CognitiveTaskControlBlock>, qs: Seq<Seq<Seq<char>>>, i: int) -> int
    decreases tasks.len() - i,
{
    if i < 0 || i >= tasks.len() {
        -1
    } else if !in_queues(qs, tasks[i].task_id@) {
        i
    } else {
        first_unqueued_from(tasks, qs, i + 1)
    }
}

/// The entry evicted at the bound: the oldest tracked task (tasks are kept
/// in submission order) that waits in no run queue, or the oldest of all
/// when every tracked task is queued.
pub open spec fn eviction_pos(tasks: Seq<CognitiveTaskControlBlock>, qs: Seq<Seq<Seq<char>>>) -> int {
    let p = first_unqueued_from(tasks, qs, 0);
    if p >= 0 {
        p
    } else {
        0
    }
}

proof fn lemma_first_unqueued_range(tasks: Seq<CognitiveTaskControlBlock>, qs: Seq<Seq<Seq<char>>>, i: int)
    ensures
        first_unqueued_from(tasks, qs, i) == -1 || (i <= first_unqueued_from(tasks, qs, i) < tasks.len()),
    decreases tasks.len() - i,
{
    if 0 <= i < tasks.len() && in_queues(qs, tasks[i].task_id@) {
        lemma_first_unqueued_range(tasks, qs, i + 1);
    }
}

/// `q` without any occurrence of `id`.
pub open spec fn without(q: Seq<Seq<char>>, id: Seq<char>) -> Seq<Seq<char>>
    decreases q.len(),
{
    if q.len() == 0 {
        q
    } else if q.last() == id {
        without(q.drop_last(), id)
    } else {
        without(q.drop_last(), id).push(q.last())
    }
}

/// `locks` without the entries held by `holder`.
pub open spec fn without_holder(locks: Seq<(Seq<char>, Seq<char>)>, holder: Seq<char>) -> Seq<(Seq<char>, Seq<char>)>
    decreases locks.len(),
{
    if locks.len() == 0 {
        locks
    } else if locks.last().1 == holder {
        without_holder(locks.drop_last(), holder)
    } else {
        without_holder(locks.drop_last(), holder).push(locks.last())
    }
}

/// Index of the first non-empty run queue, or 5.
pub open spec fn first_nonempty(qs: Seq<Seq<Seq<char>>>) -> int {
    if qs[0].len() > 0 {
        0
    } else if qs[1].len() > 0 {
        1
    } else if qs[2].len() > 0 {
        2
    } else if qs[3].len() > 0 {
        3
    } else if qs[4].len() > 0 {
        4
    } else {
        5
    }
}

/// Total number of queued ids.
pub open spec fn queued(qs: Seq<Seq<Seq<char>>>) -> nat {
    qs[0].len() + qs[1].len() + qs[2].len() + qs[3].len() + qs[4].len()
}

/// Dispatch: pop ids from the most urgent non-empty queue, skipping ids of
/// tasks no longer tracked, until a tracked one comes out (or none is left).
pub open spec fn dispatch(qs: Seq<Seq<Seq<char>>>, tasks: Seq<CognitiveTaskControlBlock>) -> (Seq<Seq<Seq<char>>>, Option<Seq<char>>)
    decreases queued(qs),
{
    let i = first_nonempty(qs);
    if qs.len() != 5 || i == 5 {
        (qs, None)
    } else {
        let id = qs[i][0];
        let qs1 = qs.update(i, qs[i].drop_first());
        if task_pos(tasks, id) >= 0 {
            (qs1, Some(id))
        } else {
            dispatch(qs1, tasks)
        }
    }
}

/// A control block with another preemption mark.
pub open spec fn marked(t: CognitiveTaskControlBlock, b: bool) -> CognitiveTaskControlBlock {
    CognitiveTaskControlBlock {
        task_id: t.task_id,
        session_id: t.session_id,
        base_priority: t.base_priority,
        effective_priority: t.effective_priority,
        quota: t.quota,
        context_frame: t.context_frame,
        is_preempted: b,
    }
}

/// A control block running at another priority.
pub open spec fn at_priority(t: CognitiveTaskControlBlock, p: CognitivePriority) -> CognitiveTaskControlBlock {
    CognitiveTaskControlBlock {
        task_id: t.task_id,
        session_id: t.session_id,
        base_priority: t.base_priority,
        effective_priority: p,
        quota: t.quota,
        context_frame: t.context_frame,
        is_preempted: t.is_preempted,
    }
}


proof fn lemma_task_pos(tasks: Seq<CognitiveTaskControlBlock>, id: Seq<char>)
    ensures
        -1 <= task_pos(tasks, id) < tasks.len(),
        task_pos(tasks, id) >= 0 ==> tasks[task_pos(tasks, id)].task_id@ == id,
        task_pos(tasks, id) == -1 ==> forall|i: int| 0 <= i < tasks.len() ==> tasks[i].task_id@ != id,
    decreases tasks.len(),
{
    if tasks.len() > 0 {
        lemma_task_pos(tasks.drop_last(), id);
        if tasks.last().task_id@ != id {
            assert forall|i: int| 0 <= i < tasks.len() && task_pos(tasks, id) == -1 implies tasks[i].task_id@ != id by {
                if i < tasks.len() - 1 {
                    assert(tasks.drop_last()[i] == tasks[i]);
                }
            }
            if task_pos(tasks, id) >= 0 {
                assert(tasks.drop_last()[task_pos(tasks, id)] == tasks[task_pos(tasks, id)]);
            }
        }
    }
}

proof fn lemma_task_pos_unique(tasks: Seq<CognitiveTaskControlBlock>, id: Seq<char>, i: int)
    requires
        0 <= i < tasks.len(),
        tasks[i].task_id@ == id,
        forall|a: int, b: int| 0 <= a < b < tasks.len() ==> tasks[a].task_id@ != tasks[b].task_id@,
    ensures
        task_pos(tasks, id) == i,
{
    lemma_task_pos(tasks, id);
    let p = task_pos(tasks, id);
    if p != i {
        if p < i {
            assert(tasks[p].task_id@ != tasks[i].task_id@);
        } else {
            assert(tasks[i].task_id@ != tasks[p].task_id@);
        }
    }
}

proof fn lemma_lock_pos(locks: Seq<(Seq<char>, Seq<char>)>, r: Seq<char>)
    ensures
        -1 <= lock_pos(locks, r) < locks.len(),
        lock_pos(locks, r) >= 0 ==> locks[lock_pos(locks, r)].0 == r,
        lock_pos(locks, r) == -1 ==> forall|i: int| 0 <= i < locks.len() ==> locks[i].0 != r,
    decreases locks.len(),
{
    if locks.len() > 0 {
        lemma_lock_pos(locks.drop_last(), r);
        if locks.last().0 != r {
            assert forall|i: int| 0 <= i < locks.len() && lock_pos(locks, r) == -1 implies locks[i].0 != r by {
                if i < locks.len() - 1 {
                    assert(locks.drop_last()[i] == locks[i]);
                }
            }
            if lock_pos(locks, r) >= 0 {
                assert(locks.drop_last()[lock_pos(locks, r)] == locks[lock_pos(locks, r)]);
            }
        }
    }
}

fn remove_all(v: &Vec<String>, id: &str) -> (r: Vec<String>)
    ensures
        views(r@) == without(views(v@), id@),
{
    let mut r: Vec<String> = Vec::new();
    let mut i: usize = 0;
    while i < v.len()
        invariant
            i <= v@.len(),
            views(r@) == without(views(v@).take(i as int), id@),
        decreases v@.len() - i,
    {
        assert(views(v@).take(i as int + 1).drop_last() =~= views(v@).take(i as int));
        assert(views(v@).take(i as int + 1).last() == v@[i as int]@);
        if !str_eq(v[i].as_str(), id) {
            let ghost before = r@;
            r.push(v[i].clone());
            assert(views(r@) =~= views(before).push(v@[i as int]@));
        }
        i = i + 1;
    }
    assert(views(v@).take(i as int) =~= views(v@));
    r
}

fn contains_id(q: &Vec<String>, id: &str) -> (b: bool)
    ensures
        b == views(q@).contains(id@),
{
    let mut i: usize = 0;
    while i < q.len()
        invariant
            i <= q@.len(),
            forall|j: int| 0 <= j < i ==> q@[j]@ != id@,
        decreases q@.len() - i,
    {
        if str_eq(q[i].as_str(), id) {
            proof {
                assert(views(q@)[i as int] == id@);
            }
            return true;
        }
        i = i + 1;
    }
    proof {
        if views(q@).contains(id@) {
            let j = choose|j: int| 0 <= j < views(q@).len() && views(q@)[j] == id@;
            assert(q@[j]@ == id@);
        }
    }
    false
}

fn q_push_back(q: &mut Vec<String>, id: String)
    ensures
        views(final(q)@) == views(old(q)@).push(id@),
{
    let ghost v = id@;
    q.push(id);
    assert(views(q@) =~= views(old(q)@).push(v));
}

fn q_push_front(q: &mut Vec<String>, id: String)
    ensures
        views(final(q)@) == seq![id@] + views(old(q)@),
{
    let ghost v = id@;
    q.insert(0, id);
    assert(views(q@) =~= seq![v] + views(old(q)@));
}

fn q_pop_front(q: &mut Vec<String>) -> (id: String)
    requires
        old(q)@.len() > 0,
    ensures
        id@ == views(old(q)@)[0],
        views(final(q)@) == views(old(q)@).drop_first(),
{
    let id = q.remove(0);
    assert(views(q@) =~= views(old(q)@).drop_first());
    id
}

/// Multi-level cognitive quota scheduler.
#[derive(Debug)]
pub struct CognitiveQuotaScheduler {
    queue_emergency: Vec<String>,
    queue_interactive: Vec<String>,
    queue_sub_agent: Vec<String>,
    queue_dreaming: Vec<String>,
    queue_maintenance: Vec<String>,
    tasks: Vec<CognitiveTaskControlBlock>,
    active_running_task: Option<String>,
    held_locks: Vec<(String, String)>,
}

/// Resource/holder pairs as plain values.
pub open spec fn lock_views(v: Seq<(String, String)>) -> Seq<(Seq<char>, Seq<char>)> {
    v.map_values(|e: (String, String)| (e.0@, e.1@))
}

impl CognitiveQuotaScheduler {
    /// The run queues, most urgent first.
    pub closed spec fn queues(&self) -> Seq<Seq<Seq<char>>> {
        seq![
            views(self.queue_emergency@),
            views(self.queue_interactive@),
            views(self.queue_sub_agent@),
            views(self.queue_dreaming@),
            views(self.queue_maintenance@),
        ]
    }

    /// The tracked tasks.
    pub closed spec fn spec_tasks(&self) -> Seq<CognitiveTaskControlBlock> {
        self.tasks@
    }

    /// The task dispatched last and not preempted, completed or superseded since.
    pub closed spec fn active(&self) -> Option<Seq<char>> {
        match self.active_running_task {
            Some(s) => Some(s@),
            None => None,
        }
    }

    /// The lock book: (resource, holding task).
    pub closed spec fn locks(&self) -> Seq<(Seq<char>, Seq<char>)> {
        lock_views(self.held_locks@)
    }

    /// Task ids are unique, the registry is bounded, resources are unique.
    pub closed spec fn wf(&self) -> bool {
        &&& self.tasks@.len() <= MAX_TRACKED_TASKS
        &&& forall|i: int, j: int|
            0 <= i < j < self.tasks@.len() ==> self.tasks@[i].task_id@ != self.tasks@[j].task_id@
        &&& forall|i: int, j: int|
            0 <= i < j < self.held_locks@.len() ==> self.held_locks@[i].0@ != self.held_locks@[j].0@
    }

    /// An empty scheduler.
    pub fn new() -> (s: Self)
        ensures
            s.wf(),
            s.queues() == seq![Seq::<Seq<char>>::empty(), Seq::empty(), Seq::empty(), Seq::empty(), Seq::empty()],
            s.spec_tasks() == Seq::<CognitiveTaskControlBlock>::empty(),
            s.active() is None,
            s.locks() == Seq::<(Seq<char>, Seq<char>)>::empty(),
    {
        let s = CognitiveQuotaScheduler {
            queue_emergency: Vec::new(),
            queue_interactive: Vec::new(),
            queue_sub_agent: Vec::new(),
            queue_dreaming: Vec::new(),
            queue_maintenance: Vec::new(),
            tasks: Vec::new(),
            active_running_task: None,
            held_locks: Vec::new(),
        };
        proof {
            assert(views(Seq::<String>::empty()) =~= Seq::<Seq<char>>::empty());
            assert(s.queue_emergency@ =~= Seq::<String>::empty());
            assert(s.queues() =~= seq![Seq::<Seq<char>>::empty(), Seq::empty(), Seq::empty(), Seq::empty(), Seq::empty()]);
            assert(s.locks() =~= Seq::<(Seq<char>, Seq<char>)>::empty());
        }
        s
    }

    fn push_back_at(&mut self, p: CognitivePriority, id: String)
        ensures
            final(self).queues() == old(self).queues().update(rank(p) as int, old(self).queues()[rank(p) as int].push(id@)),
            final(self).tasks == old(self).tasks,
            final(self).active_running_task == old(self).active_running_task,
            final(self).held_locks == old(self).held_locks,
    {
        let ghost q0 = self.queues();
        match p {
            CognitivePriority::SystemEmergency => q_push_back(&mut self.queue_emergency, id),
            CognitivePriority::InteractiveUser => q_push_back(&mut self.queue_interactive, id),
            CognitivePriority::ActiveSubAgent => q_push_back(&mut self.queue_sub_agent, id),
            CognitivePriority::BackgroundDreaming => q_push_back(&mut self.queue_dreaming, id),
            CognitivePriority::IdleMaintenance => q_push_back(&mut self.queue_maintenance, id),
        }
        proof {
            assert(self.queues() =~= q0.update(rank(p) as int, q0[rank(p) as int].push(id@)));
        }
    }

    fn push_front_at(&mut self, p: CognitivePriority, id: String)
        ensures
            final(self).queues() == old(self).queues().update(rank(p) as int, seq![id@] + old(self).queues()[rank(p) as int]),
            final(self).tasks == old(self).tasks,
            final(self).active_running_task == old(self).active_running_task,
            final(self).held_locks == old(self).held_locks,
    {
        let ghost q0 = self.queues();
        let ghost v = id@;
        match p {
            CognitivePriority::SystemEmergency => q_push_front(&mut self.queue_emergency, id),
            CognitivePriority::InteractiveUser => q_push_front(&mut self.queue_interactive, id),
            CognitivePriority::ActiveSubAgent => q_push_front(&mut self.queue_sub_agent, id),
            CognitivePriority::BackgroundDreaming => q_push_front(&mut self.queue_dreaming, id),
            CognitivePriority::IdleMaintenance => q_push_front(&mut self.queue_maintenance, id),
        }
        proof {
            assert(self.queues() =~= q0.update(rank(p) as int, seq![v] + q0[rank(p) as int]));
        }
    }

    fn remove_at(&mut self, p: CognitivePriority, id: &str)
        ensures
            final(self).queues() == old(self).queues().update(rank(p) as int, without(old(self).queues()[rank(p) as int], id@)),
            final(self).tasks == old(self).tasks,
            final(self).active_running_task == old(self).active_running_task,
            final(self).held_locks == old(self).held_locks,
    {
        let ghost q0 = self.queues();
        match p {
            CognitivePriority::SystemEmergency => {
                self.queue_emergency = remove_all(&self.queue_emergency, id);
            },
            CognitivePriority::InteractiveUser => {
                self.queue_interactive = remove_all(&self.queue_interactive, id);
            },
            CognitivePriority::ActiveSubAgent => {
                self.queue_sub_agent = remove_all(&self.queue_sub_agent, id);
            },
            CognitivePriority::BackgroundDreaming => {
                self.queue_dreaming = remove_all(&self.queue_dreaming, id);
            },
            CognitivePriority::IdleMaintenance => {
                self.queue_maintenance = remove_all(&self.queue_maintenance, id);
            },
        }
        proof {
            assert(self.queues() =~= q0.update(rank(p) as int, without(q0[rank(p) as int], id@)));
        }
    }

    fn pop_first(&mut self) -> (r: Option<String>)
        ensures
            final(self).tasks == old(self).tasks,
            final(self).active_running_task == old(self).active_running_task,
            final(self).held_locks == old(self).held_locks,
            first_nonempty(old(self).queues()) == 5 ==> r is None && final(self).queues() == old(self).queues(),
            first_nonempty(old(self).queues()) < 5 ==> (r matches Some(id) && id@ == old(self).queues()[first_nonempty(
                old(self).queues(),
            )][0] && final(self).queues() == old(self).queues().update(
                first_nonempty(old(self).queues()),
                old(self).queues()[first_nonempty(old(self).queues())].drop_first(),
            )),
    {
        let ghost q0 = self.queues();
        if self.queue_emergency.len() > 0 {
            let id = q_pop_front(&mut self.queue_emergency);
            assert(self.queues() =~= q0.update(0, q0[0].drop_first()));
            Some(id)
        } else if self.queue_interactive.len() > 0 {
            let id = q_pop_front(&mut self.queue_interactive);
            assert(self.queues() =~= q0.update(1, q0[1].drop_first()));
            Some(id)
        } else if self.queue_sub_agent.len() > 0 {
            let id = q_pop_front(&mut self.queue_sub_agent);
            assert(self.queues() =~= q0.update(2, q0[2].drop_first()));
            Some(id)
        } else if self.queue_dreaming.len() > 0 {
            let id = q_pop_front(&mut self.queue_dreaming);
            assert(self.queues() =~= q0.update(3, q0[3].drop_first()));
            Some(id)
        } else if self.queue_maintenance.len() > 0 {
            let id = q_pop_front(&mut self.queue_maintenance);
            assert(self.queues() =~= q0.update(4, q0[4].drop_first()));
            Some(id)
        } else {
            None
        }
    }

    fn find_task(&self, id: &str) -> (r: Option<usize>)
        ensures
            match r {
                Some(i) => i == task_pos(self.tasks@, id@) && i < self.tasks@.len(),
                None => task_pos(self.tasks@, id@) == -1,
            },
    {
        let mut i: usize = self.tasks.len();
        assert(self.tasks@.take(i as int) =~= self.tasks@);
        while i > 0
            invariant
                i <= self.tasks@.len(),
                task_pos(self.tasks@, id@) == task_pos(self.tasks@.take(i as int), id@),
            decreases i,
        {
            assert(self.tasks@.take(i as int).drop_last() =~= self.tasks@.take(i as int - 1));
            if str_eq(self.tasks[i - 1].task_id.as_str(), id) {
                return Some(i - 1);
            }
            i = i - 1;
        }
        None
    }

    fn find_lock(&self, resource: &str) -> (r: Option<usize>)
        ensures
            match r {
                Some(i) => i == lock_pos(self.locks(), resource@) && i < self.held_locks@.len(),
                None => lock_pos(self.locks(), resource@) == -1,
            },
    {
        let ghost ls = self.locks();
        let mut i: usize = self.held_locks.len();
        assert(ls.take(i as int) =~= ls);
        while i > 0
            invariant
                i <= self.held_locks@.len(),
                ls == lock_views(self.held_locks@),
                lock_pos(ls, resource@) == lock_pos(ls.take(i as int), resource@),
            decreases i,
        {
            assert(ls.take(i as int).drop_last() =~= ls.take(i as int - 1));
            if str_eq(self.held_locks[i - 1].0.as_str(), resource) {
                return Some(i - 1);
            }
            i = i - 1;
        }
        None
    }

    fn is_queued(&self, id: &str) -> (b: bool)
        ensures
            b == in_queues(self.queues(), id@),
    {
        let b = contains_id(&self.queue_emergency, id) || contains_id(&self.queue_interactive, id) || contains_id(
            &self.queue_sub_agent,
            id,
        ) || contains_id(&self.queue_dreaming, id) || contains_id(&self.queue_maintenance, id);
        proof {
            let qs = self.queues();
            if b {
                if views(self.queue_emergency@).contains(id@) {
                    assert(qs[0].contains(id@));
                } else if views(self.queue_interactive@).contains(id@) {
                    assert(qs[1].contains(id@));
                } else if views(self.queue_sub_agent@).contains(id@) {
                    assert(qs[2].contains(id@));
                } else if views(self.queue_dreaming@).contains(id@) {
                    assert(qs[3].contains(id@));
                } else {
                    assert(qs[4].contains(id@));
                }
            } else {
                assert forall|q: int| 0 <= q < qs.len() implies !(#[trigger] qs[q].contains(id@)) by {
                    assert(q == 0 || q == 1 || q == 2 || q == 3 || q == 4);
                }
            }
        }
        b
    }

    fn eviction_task(&self) -> (k: usize)
        requires
            self.tasks@.len() > 0,
        ensures
            k == eviction_pos(self.tasks@, self.queues()),
            k < self.tasks@.len(),
    {
        let mut i: usize = 0;
        while i < self.tasks.len()
            invariant
                i <= self.tasks@.len(),
                first_unqueued_from(self.tasks@, self.queues(), 0) == first_unqueued_from(
                    self.tasks@,
                    self.queues(),
                    i as int,
                ),
            decreases self.tasks@.len() - i,
        {
            if !self.is_queued(self.tasks[i].task_id.as_str()) {
                return i;
            }
            i = i + 1;
        }
        0
    }

    /// Submits a task at the back of its effective priority's queue. A task
    /// id already tracked is refused. At the bound, the oldest tracked task
    /// that waits in no run queue is evicted first (the oldest of all when
    /// every one is queued; its queue entries stay and are skipped).
    pub fn submit_task(&mut self, tcb: CognitiveTaskControlBlock) -> (r: Result<(), String>)
        requires
            old(self).wf(),
        ensures
            final(self).wf(),
            task_pos(old(self).spec_tasks(), tcb.task_id@) >= 0 ==> (r matches Err(e) && e@ == "duplicate task_id: "@
                + tcb.task_id@ && final(self).spec_tasks() == old(self).spec_tasks() && final(self).queues()
                == old(self).queues() && final(self).active() == old(self).active() && final(self).locks()
                == old(self).locks()),
            task_pos(old(self).spec_tasks(), tcb.task_id@) < 0 ==> r is Ok && final(self).spec_tasks() == (if old(
                self,
            ).spec_tasks().len() >= MAX_TRACKED_TASKS {
                old(self).spec_tasks().remove(eviction_pos(old(self).spec_tasks(), old(self).queues()))
            } else {
                old(self).spec_tasks()
            }).push(tcb) && final(self).queues() == old(self).queues().update(
                rank(tcb.effective_priority) as int,
                old(self).queues()[rank(tcb.effective_priority) as int].push(tcb.task_id@),
            ) && final(self).active() == old(self).active() && final(self).locks() == old(self).locks(),
    {
        if self.find_task(tcb.task_id.as_str()).is_some() {
            let mut e = String::from_str("duplicate task_id: ");
            push_str(&mut e, tcb.task_id.as_str());
            return Err(e);
        }
        proof {
            lemma_task_pos(self.tasks@, tcb.task_id@);
        }
        let ghost t0 = self.tasks@;
        if self.tasks.len() >= MAX_TRACKED_TASKS {
            let k = self.eviction_task();
            let _ = self.tasks.remove(k);
            proof {
                assert forall|a: int, b: int| 0 <= a < b < self.tasks@.len() implies self.tasks@[a].task_id@
                    != self.tasks@[b].task_id@ by {
                    let a0 = if a < k { a } else { a + 1 };
                    let b0 = if b < k { b } else { b + 1 };
                    assert(self.tasks@[a] == t0[a0]);
                    assert(self.tasks@[b] == t0[b0]);
                }
                assert forall|a: int| 0 <= a < self.tasks@.len() implies self.tasks@[a].task_id@ != tcb.task_id@ by {
                    let a0 = if a < k { a } else { a + 1 };
                    assert(self.tasks@[a] == t0[a0]);
                }
            }
        }
        let id = tcb.task_id.clone();
        let prio = tcb.effective_priority;
        let ghost t1 = self.tasks@;
        self.tasks.push(tcb);
        proof {
            assert forall|a: int, b: int| 0 <= a < b < self.tasks@.len() implies self.tasks@[a].task_id@
                != self.tasks@[b].task_id@ by {
                if b == self.tasks@.len() - 1 {
                    assert(self.tasks@[a] == t1[a]);
                } else {
                    assert(self.tasks@[a] == t1[a]);
                    assert(self.tasks@[b] == t1[b]);
                }
            }
        }
        self.push_back_at(prio, id);
        Ok(())
    }

    /// Dispatches the next task: ids come off the most urgent non-empty queue,
    /// ids of tasks no longer tracked are skipped; the task found becomes the
    /// active one, its preemption mark is cleared, and a copy is returned.
    /// With nothing to dispatch, no task is active.
    pub fn schedule_next(&mut self) -> (r: Option<CognitiveTaskControlBlock>)
        requires
            old(self).wf(),
        ensures
            final(self).wf(),
            final(self).queues() == dispatch(old(self).queues(), old(self).spec_tasks()).0,
            final(self).locks() == old(self).locks(),
            dispatch(old(self).queues(), old(self).spec_tasks()).1 is None ==> r is None && final(self).active() is None
                && final(self).spec_tasks() == old(self).spec_tasks(),
            dispatch(old(self).queues(), old(self).spec_tasks()).1 matches Some(id) ==> ({
                let i = task_pos(old(self).spec_tasks(), id);
                &&& final(self).spec_tasks() == old(self).spec_tasks().update(i, marked(old(self).spec_tasks()[i], false))
                &&& final(self).active() == Some(id)
                &&& r matches Some(t) && tcb_view(t) == tcb_view(marked(old(self).spec_tasks()[i], false))
            }),
            r matches Some(t) ==> is_tracked(old(self).spec_tasks(), t.task_id@) && exists|k: int, p: int|
                0 <= k < 5 && 0 <= p < old(self).queues()[k].len() && #[trigger] old(self).queues()[k][p] == t.task_id@
                    && none_tracked_before(old(self).queues(), old(self).spec_tasks(), k, p) && final(self).queues()
                    == after_serving(old(self).queues(), k, p),
            r is None ==> none_tracked_before(old(self).queues(), old(self).spec_tasks(), 5, 0) && final(self).queues()
                == after_serving(old(self).queues(), 5, 0),
    {
        let ghost target = dispatch(old(self).queues(), old(self).tasks@);
        loop
            invariant
                self.wf(),
                self.tasks == old(self).tasks,
                self.held_locks == old(self).held_locks,
                self.queues().len() == 5,
                dispatch(self.queues(), self.tasks@) == target,
                target == dispatch(old(self).queues(), old(self).spec_tasks()),
            decreases queued(self.queues()),
        {
            let ghost qs = self.queues();
            match self.pop_first() {
                None => {
                    assert(dispatch(qs, self.tasks@) == (qs, None::<Seq<char>>));
                    proof {
                        dispatch_serves_the_most_urgent(old(self).queues(), old(self).spec_tasks());
                    }
                    self.active_running_task = None;
                    return None;
                },
                Some(id) => {
                    let ghost k = first_nonempty(qs);
                    assert(self.queues() == qs.update(k, qs[k].drop_first()));
                    match self.find_task(id.as_str()) {
                        Some(i) => {
                            proof {
                                lemma_task_pos(self.tasks@, id@);
                                assert(dispatch(qs, self.tasks@) == (self.queues(), Some(id@)));
                            }
                            let ghost q_now = self.queues();
                            let mut t = self.tasks.remove(i);
                            t.is_preempted = false;
                            let result = clone_tcb(&t);
                            self.tasks.insert(i, t);
                            proof {
                                assert(self.tasks@ =~= old(self).tasks@.update(i as int, marked(old(self).tasks@[i as int], false)));
                                assert forall|a: int, b: int| 0 <= a < b < self.tasks@.len() implies self.tasks@[a].task_id@
                                    != self.tasks@[b].task_id@ by {
                                    assert(self.tasks@[a].task_id == old(self).tasks@[a].task_id);
                                    assert(self.tasks@[b].task_id == old(self).tasks@[b].task_id);
                                }
                                assert(self.queues() == q_now);
                            }
                            self.active_running_task = Some(id);
                            proof {
                                assert(result.task_id@ == id@);
                                dispatch_serves_the_most_urgent(old(self).queues(), old(self).spec_tasks());
                            }
                            return Some(result);
                        },
                        None => {
                            assert(dispatch(qs, self.tasks@) == dispatch(self.queues(), self.tasks@));
                        },
                    }
                },
            }
        }
    }

    /// Reclaims a finished task: it leaves the registry, every run queue and
    /// the active slot, and the locks it held are dropped from the book.
    /// Returns whether it was tracked.
    pub fn complete_task(&mut self, task_id: &str) -> (existed: bool)
        requires
            old(self).wf(),
        ensures
            final(self).wf(),
            existed == (task_pos(old(self).spec_tasks(), task_id@) >= 0),
            final(self).spec_tasks() == if existed {
                old(self).spec_tasks().remove(task_pos(old(self).spec_tasks(), task_id@))
            } else {
                old(self).spec_tasks()
            },
            final(self).queues() == seq![
                without(old(self).queues()[0], task_id@),
                without(old(self).queues()[1], task_id@),
                without(old(self).queues()[2], task_id@),
                without(old(self).queues()[3], task_id@),
                without(old(self).queues()[4], task_id@),
            ],
            final(self).active() == if old(self).active() == Some(task_id@) {
                None
            } else {
                old(self).active()
            },
            final(self).locks() == without_holder(old(self).locks(), task_id@),
    {
        let ghost t0 = self.tasks@;
        let existed = match self.find_task(task_id) {
            Some(i) => {
                let _ = self.tasks.remove(i);
                proof {
                    assert forall|a: int, b: int| 0 <= a < b < self.tasks@.len() implies self.tasks@[a].task_id@
                        != self.tasks@[b].task_id@ by {
                        let a0 = if a < i { a } else { a + 1 };
                        let b0 = if b < i { b } else { b + 1 };
                        assert(self.tasks@[a] == t0[a0]);
                        assert(self.tasks@[b] == t0[b0]);
                    }
                }
                true
            },
            None => false,
        };
        self.remove_at(CognitivePriority::SystemEmergency, task_id);
        self.remove_at(CognitivePriority::InteractiveUser, task_id);
        self.remove_at(CognitivePriority::ActiveSubAgent, task_id);
        self.remove_at(CognitivePriority::BackgroundDreaming, task_id);
        self.remove_at(CognitivePriority::IdleMaintenance, task_id);
        let clear = match &self.active_running_task {
            Some(a) => str_eq(a.as_str(), task_id),
            None => false,
        };
        if clear {
            self.active_running_task = None;
        }
        let ghost l0 = self.held_locks@;
        let mut kept: Vec<(String, String)> = Vec::new();
        let mut i: usize = 0;
        while i < self.held_locks.len()
            invariant
                i <= self.held_locks@.len(),
                self.held_locks@ == l0,
                lock_views(kept@) == without_holder(lock_views(l0).take(i as int), task_id@),
                forall|a: int| 0 <= a < kept@.len() ==> exists|b: int| 0 <= b < i && #[trigger] kept@[a].0@ == l0[b].0@,
                forall|a: int, b: int| 0 <= a < b < kept@.len() ==> kept@[a].0@ != kept@[b].0@,
                forall|a: int, b: int| 0 <= a < b < l0.len() ==> l0[a].0@ != l0[b].0@,
            decreases l0.len() - i,
        {
            assert(lock_views(l0).take(i as int + 1).drop_last() =~= lock_views(l0).take(i as int));
            assert(lock_views(l0).take(i as int + 1).last() == (l0[i as int].0@, l0[i as int].1@));
            if !str_eq(self.held_locks[i].1.as_str(), task_id) {
                let ghost before = kept@;
                let entry = (self.held_locks[i].0.clone(), self.held_locks[i].1.clone());
                kept.push(entry);
                proof {
                    assert(lock_views(kept@) =~= lock_views(before).push((l0[i as int].0@, l0[i as int].1@)));
                    assert forall|a: int| 0 <= a < kept@.len() implies exists|b: int| 0 <= b < i + 1 && #[trigger] kept@[a].0@
                        == l0[b].0@ by {
                        if a == kept@.len() - 1 {
                            assert(kept@[a].0@ == l0[i as int].0@);
                        } else {
                            assert(kept@[a] == before[a]);
                        }
                    }
                    assert forall|a: int, b: int| 0 <= a < b < kept@.len() implies kept@[a].0@ != kept@[b].0@ by {
                        if b == kept@.len() - 1 {
                            assert(kept@[a] == before[a]);
                            let c = choose|c: int| 0 <= c < i && before[a].0@ == l0[c].0@;
                            assert(l0[c].0@ != l0[i as int].0@);
                        } else {
                            assert(kept@[a] == before[a]);
                            assert(kept@[b] == before[b]);
                        }
                    }
                }
            }
            i = i + 1;
        }
        assert(lock_views(l0).take(i as int) =~= lock_views(l0));
        self.held_locks = kept;
        existed
    }

    /// Marks the active task preempted and puts it back at the front of its
    /// queue; the active slot is cleared either way. Nothing running is
    /// interrupted: the caller decides when to yield. Returns the preempted
    /// task's id, if a tracked task was active.
    pub fn preempt_active(&mut self, _interrupt: CognitiveInterrupt) -> (r: Result<Option<String>, String>)
        requires
            old(self).wf(),
        ensures
            final(self).wf(),
            final(self).active() is None,
            final(self).locks() == old(self).locks(),
            match old(self).active() {
                Some(a) => if task_pos(old(self).spec_tasks(), a) >= 0 {
                    let i = task_pos(old(self).spec_tasks(), a);
                    let t = old(self).spec_tasks()[i];
                    &&& final(self).spec_tasks() == old(self).spec_tasks().update(i, marked(t, true))
                    &&& final(self).queues() == old(self).queues().update(
                        rank(t.effective_priority) as int,
                        seq![a] + old(self).queues()[rank(t.effective_priority) as int],
                    )
                    &&& r matches Ok(Some(s)) && s@ == a
                } else {
                    &&& final(self).spec_tasks() == old(self).spec_tasks()
                    &&& final(self).queues() == old(self).queues()
                    &&& r matches Ok(None)
                },
                None => final(self).spec_tasks() == old(self).spec_tasks() && final(self).queues() == old(self).queues()
                    && r matches Ok(None),
            },
    {
        let active = self.active_running_task.take();
        match active {
            None => Ok(None),
            Some(active_id) => {
                match self.find_task(active_id.as_str()) {
                    None => Ok(None),
                    Some(i) => {
                        proof {
                            lemma_task_pos(self.tasks@, active_id@);
                        }
                        let mut t = self.tasks.remove(i);
                        t.is_preempted = true;
                        let prio = t.effective_priority;
                        self.tasks.insert(i, t);
                        proof {
                            assert(self.tasks@ =~= old(self).tasks@.update(i as int, marked(old(self).tasks@[i as int], true)));
                            assert forall|a: int, b: int| 0 <= a < b < self.tasks@.len() implies self.tasks@[a].task_id@
                                != self.tasks@[b].task_id@ by {
                                assert(self.tasks@[a].task_id == old(self).tasks@[a].task_id);
                                assert(self.tasks@[b].task_id == old(self).tasks@[b].task_id);
                            }
                        }
                        let back = active_id.clone();
                        self.push_front_at(prio, back);
                        Ok(Some(active_id))
                    },
                }
            },
        }
    }

    /// Priority inheritance: when the holder of `resource_id` runs at a lower
    /// priority than `requesting_priority`, it is raised to it and moved to
    /// the front of that priority's queue.
    pub fn boost_priority_for_lock(&mut self, resource_id: &str, requesting_priority: CognitivePriority)
        requires
            old(self).wf(),
        ensures
            final(self).wf(),
            final(self).active() == old(self).active(),
            final(self).locks() == old(self).locks(),
            ({
                let lp = lock_pos(old(self).locks(), resource_id@);
                let holder = old(self).locks()[lp].1;
                let i = task_pos(old(self).spec_tasks(), holder);
                let t = old(self).spec_tasks()[i];
                if lp >= 0 && i >= 0 && rank(requesting_priority) < rank(t.effective_priority) {
                    let q1 = old(self).queues().update(
                        rank(t.effective_priority) as int,
                        without(old(self).queues()[rank(t.effective_priority) as int], holder),
                    );
                    &&& final(self).spec_tasks() == old(self).spec_tasks().update(i, at_priority(t, requesting_priority))
                    &&& final(self).queues() == q1.update(
                        rank(requesting_priority) as int,
                        seq![holder] + q1[rank(requesting_priority) as int],
                    )
                } else {
                    final(self).spec_tasks() == old(self).spec_tasks() && final(self).queues() == old(self).queues()
                }
            }),
    {
        proof {
            lemma_lock_pos(self.locks(), resource_id@);
        }
        let lp = match self.find_lock(resource_id) {
            Some(lp) => lp,
            None => {
                return ;
            },
        };
        let holder = self.held_locks[lp].1.clone();
        proof {
            lemma_task_pos(self.tasks@, holder@);
        }
        let i = match self.find_task(holder.as_str()) {
            Some(i) => i,
            None => {
                return ;
            },
        };
        let current = self.tasks[i].effective_priority;
        if rank_of(requesting_priority) < rank_of(current) {
            let mut t = self.tasks.remove(i);
            t.effective_priority = requesting_priority;
            self.tasks.insert(i, t);
            proof {
                assert(self.tasks@ =~= old(self).tasks@.update(i as int, at_priority(old(self).tasks@[i as int], requesting_priority)));
                assert forall|a: int, b: int| 0 <= a < b < self.tasks@.len() implies self.tasks@[a].task_id@
                    != self.tasks@[b].task_id@ by {
                    assert(self.tasks@[a].task_id == old(self).tasks@[a].task_id);
                    assert(self.tasks@[b].task_id == old(self).tasks@[b].task_id);
                }
            }
            self.remove_at(current, holder.as_str());
            self.push_front_at(requesting_priority, holder);
        }
    }

    /// Books `resource_id` as held by `task_id` (a record for priority
    /// inheritance, not a lock: the caller holds the real one).
    pub fn register_lock(&mut self, resource_id: &str, task_id: &str)
        requires
            old(self).wf(),
        ensures
            final(self).wf(),
            final(self).spec_tasks() == old(self).spec_tasks(),
            final(self).queues() == old(self).queues(),
            final(self).active() == old(self).active(),
            final(self).locks() == if lock_pos(old(self).locks(), resource_id@) >= 0 {
                old(self).locks().update(lock_pos(old(self).locks(), resource_id@), (resource_id@, task_id@))
            } else {
                old(self).locks().push((resource_id@, task_id@))
            },
    {
        proof {
            lemma_lock_pos(self.locks(), resource_id@);
        }
        let ghost l0 = self.held_locks@;
        let entry = (resource_id.to_owned(), task_id.to_owned());
        match self.find_lock(resource_id) {
            Some(lp) => {
                self.held_locks.set(lp, entry);
                proof {
                    assert(self.locks() =~= lock_views(l0).update(lp as int, (resource_id@, task_id@)));
                    assert forall|a: int, b: int| 0 <= a < b < self.held_locks@.len() implies self.held_locks@[a].0@
                        != self.held_locks@[b].0@ by {
                        assert(lock_views(l0)[a].0 == l0[a].0@);
                        assert(lock_views(l0)[b].0 == l0[b].0@);
                    }
                }
            },
            None => {
                self.held_locks.push(entry);
                proof {
                    assert(self.locks() =~= lock_views(l0).push((resource_id@, task_id@)));
                    assert forall|a: int, b: int| 0 <= a < b < self.held_locks@.len() implies self.held_locks@[a].0@
                        != self.held_locks@[b].0@ by {
                        assert(lock_views(l0)[a].0 == l0[a].0@);
                        if b < l0.len() {
                            assert(lock_views(l0)[b].0 == l0[b].0@);
                        }
                    }
                }
            },
        }
    }

    /// Releases `resource_id` from the book; its holder returns to its base
    /// priority and, when that changes its priority, to the back of the base
    /// priority's queue.
    pub fn release_lock(&mut self, resource_id: &str)
        requires
            old(self).wf(),
        ensures
            final(self).wf(),
            final(self).active() == old(self).active(),
            ({
                let lp = lock_pos(old(self).locks(), resource_id@);
                let holder = old(self).locks()[lp].1;
                let i = task_pos(old(self).spec_tasks(), holder);
                let t = old(self).spec_tasks()[i];
                if lp < 0 {
                    final(self).locks() == old(self).locks() && final(self).spec_tasks() == old(self).spec_tasks()
                        && final(self).queues() == old(self).queues()
                } else if i < 0 {
                    final(self).locks() == old(self).locks().remove(lp) && final(self).spec_tasks() == old(
                        self,
                    ).spec_tasks() && final(self).queues() == old(self).queues()
                } else {
                    let q1 = old(self).queues().update(
                        rank(t.effective_priority) as int,
                        without(old(self).queues()[rank(t.effective_priority) as int], holder),
                    );
                    &&& final(self).locks() == old(self).locks().remove(lp)
                    &&& final(self).spec_tasks() == old(self).spec_tasks().update(i, at_priority(t, t.base_priority))
                    &&& final(self).queues() == if t.effective_priority != t.base_priority {
                        q1.update(rank(t.base_priority) as int, q1[rank(t.base_priority) as int].push(holder))
                    } else {
                        old(self).queues()
                    }
                }
            }),
    {
        proof {
            lemma_lock_pos(self.locks(), resource_id@);
        }
        let lp = match self.find_lock(resource_id) {
            Some(lp) => lp,
            None => {
                return ;
            },
        };
        let ghost l0 = self.held_locks@;
        let (_, holder) = self.held_locks.remove(lp);
        proof {
            assert(self.locks() =~= lock_views(l0).remove(lp as int));
            assert forall|a: int, b: int| 0 <= a < b < self.held_locks@.len() implies self.held_locks@[a].0@
                != self.held_locks@[b].0@ by {
                let a0 = if a < lp { a } else { a + 1 };
                let b0 = if b < lp { b } else { b + 1 };
                assert(self.held_locks@[a] == l0[a0]);
                assert(self.held_locks@[b] == l0[b0]);
            }
            lemma_task_pos(self.tasks@, holder@);
        }
        let i = match self.find_task(holder.as_str()) {
            Some(i) => i,
            None => {
                return ;
            },
        };
        let mut t = self.tasks.remove(i);
        let current = t.effective_priority;
        let base = t.base_priority;
        t.effective_priority = base;
        self.tasks.insert(i, t);
        proof {
            assert(self.tasks@ =~= old(self).tasks@.update(i as int, at_priority(old(self).tasks@[i as int], base)));
            assert forall|a: int, b: int| 0 <= a < b < self.tasks@.len() implies self.tasks@[a].task_id@
                != self.tasks@[b].task_id@ by {
                assert(self.tasks@[a].task_id == old(self).tasks@[a].task_id);
                assert(self.tasks@[b].task_id == old(self).tasks@[b].task_id);
            }
        }
        if current != base {
            self.remove_at(current, holder.as_str());
            self.push_back_at(base, holder);
        }
    }

    /// How many tasks are tracked.
    pub fn tracked_task_count(&self) -> (n: usize)
        ensures
            n == self.spec_tasks().len(),
    {
        self.tasks.len()
    }
}

/// Some tracked task carries the id `id`.
pub open spec fn is_tracked(tasks: Seq<CognitiveTaskControlBlock>, id: Seq<char>) -> bool {
    exists|k: int| 0 <= k < tasks.len() && #[trigger] tasks[k].task_id@ == id
}

/// Every id waiting in queue `j` before position `p` (all of queue `j` when
/// `p` is its length) belongs to no tracked task.
pub open spec fn none_tracked_before(qs: Seq<Seq<Seq<char>>>, tasks: Seq<CognitiveTaskControlBlock>, k: int, p: int) -> bool {
    forall|j: int, q: int|
        0 <= j < qs.len() && 0 <= q < qs[j].len() && (j < k || (j == k && q < p)) ==> !is_tracked(
            tasks,
            #[trigger] qs[j][q],
        )
}

proof fn lemma_tracked_pos(tasks: Seq<CognitiveTaskControlBlock>, id: Seq<char>)
    ensures
        task_pos(tasks, id) >= 0 <==> is_tracked(tasks, id),
{
    lemma_task_pos(tasks, id);
    if task_pos(tasks, id) >= 0 {
        assert(tasks[task_pos(tasks, id)].task_id@ == id);
    }
}

/// The run queues after serving position `p` of queue `k`: the more urgent
/// queues emptied (they held only forgotten ids), queue `k` past `p`, the
/// less urgent queues untouched.
pub open spec fn after_serving(qs: Seq<Seq<Seq<char>>>, k: int, p: int) -> Seq<Seq<Seq<char>>> {
    Seq::new(
        qs.len(),
        |j: int|
            if j < k {
                Seq::<Seq<char>>::empty()
            } else if j == k {
                qs[j].skip(p + 1)
            } else {
                qs[j]
            },
    )
}

/// Dispatch serves the most urgent work first: the id it hands out belongs
/// to a tracked task and waits in some queue, and no tracked task waits in
/// a queue of strictly higher urgency (lower rank) or ahead of it in its own
/// queue; it removes that id and the forgotten ids ahead of it, and nothing
/// else. When it hands out nothing, no queue held a tracked task and all are
/// emptied.
pub proof fn dispatch_serves_the_most_urgent(qs: Seq<Seq<Seq<char>>>, tasks: Seq<CognitiveTaskControlBlock>)
    requires
        qs.len() == 5,
    ensures
        dispatch(qs, tasks).1 matches Some(id) ==> is_tracked(tasks, id) && exists|k: int, p: int|
            0 <= k < 5 && 0 <= p < qs[k].len() && #[trigger] qs[k][p] == id && none_tracked_before(qs, tasks, k, p)
                && dispatch(qs, tasks).0 == after_serving(qs, k, p),
        dispatch(qs, tasks).1 is None ==> none_tracked_before(qs, tasks, 5, 0) && dispatch(qs, tasks).0
            == after_serving(qs, 5, 0),
    decreases queued(qs),
{
    let i = first_nonempty(qs);
    if i == 5 {
        assert(qs[0].len() == 0 && qs[1].len() == 0 && qs[2].len() == 0 && qs[3].len() == 0 && qs[4].len() == 0);
        assert forall|j: int| 0 <= j < 5 implies qs[j] =~= Seq::<Seq<char>>::empty() by {}
        assert(qs =~= after_serving(qs, 5, 0));
    } else {
        assert(0 <= i < 5 && qs[i].len() > 0);
        assert(forall|j: int| 0 <= j < i ==> qs[j].len() == 0);
        let id = qs[i][0];
        let qs1 = qs.update(i, qs[i].drop_first());
        lemma_tracked_pos(tasks, id);
        if task_pos(tasks, id) >= 0 {
            assert(qs[i][0] == id);
            assert forall|j: int| 0 <= j < i implies qs[j] =~= Seq::<Seq<char>>::empty() by {}
            assert(qs[i].drop_first() =~= qs[i].skip(1));
            assert(qs1 =~= after_serving(qs, i, 0));
        } else {
            assert(queued(qs1) < queued(qs));
            dispatch_serves_the_most_urgent(qs1, tasks);
            match dispatch(qs1, tasks).1 {
                Some(x) => {
                    let (k1, p1) = choose|k: int, p: int|
                        0 <= k < 5 && 0 <= p < qs1[k].len() && #[trigger] qs1[k][p] == x && none_tracked_before(
                            qs1,
                            tasks,
                            k,
                            p,
                        );
                    let p0 = if k1 == i { p1 + 1 } else { p1 };
                    assert(qs[k1][p0] == x);
                    assert forall|j: int| 0 <= j < i implies qs[j] =~= Seq::<Seq<char>>::empty() by {}
                    assert(k1 >= i) by {
                        if k1 < i {
                            assert(qs1[k1] == qs[k1]);
                        }
                    }
                    if k1 == i {
                        assert(qs1[i].skip(p1 + 1) =~= qs[i].skip(p0 + 1));
                    } else {
                        assert(qs1[k1] == qs[k1]);
                    }
                    assert(after_serving(qs1, k1, p1) =~= after_serving(qs, k1, p0));
                    assert forall|j: int, q: int|
                        0 <= j < qs.len() && 0 <= q < qs[j].len() && (j < k1 || (j == k1 && q < p0)) implies !is_tracked(
                        tasks,
                        #[trigger] qs[j][q],
                    ) by {
                        if j == i {
                            if q > 0 {
                                assert(qs[j][q] == qs1[j][q - 1]);
                            }
                        } else {
                            assert(qs[j][q] == qs1[j][q]);
                        }
                    }
                },
                None => {
                    assert(after_serving(qs1, 5, 0) =~= after_serving(qs, 5, 0));
                    assert forall|j: int, q: int|
                        0 <= j < qs.len() && 0 <= q < qs[j].len() && (j < 5 || (j == 5 && q < 0)) implies !is_tracked(
                        tasks,
                        #[trigger] qs[j][q],
                    ) by {
                        if j == i {
                            if q > 0 {
                                assert(qs[j][q] == qs1[j][q - 1]);
                            }
                        } else {
                            assert(qs[j][q] == qs1[j][q]);
                        }
                    }
                },
            }
        }
    }
}

/// The registry never tracks more than [`MAX_TRACKED_TASKS`] tasks, and
/// task ids in it are unique.
pub proof fn registry_is_bounded(s: CognitiveQuotaScheduler)
    requires
        s.wf(),
    ensures
        s.spec_tasks().len() <= MAX_TRACKED_TASKS,
        forall|i: int, j: int|
            0 <= i < j < s.spec_tasks().len() ==> s.spec_tasks()[i].task_id@ != s.spec_tasks()[j].task_id@,
{
}

/// Completing a task forgets it: with unique ids, once the task is removed
/// no entry carries its id, so completing it again finds nothing.
pub proof fn completed_task_is_forgotten(tasks: Seq<CognitiveTaskControlBlock>, id: Seq<char>)
    requires
        forall|i: int, j: int| 0 <= i < j < tasks.len() ==> tasks[i].task_id@ != tasks[j].task_id@,
        task_pos(tasks, id) >= 0,
    ensures
        task_pos(tasks.remove(task_pos(tasks, id)), id) == -1,
{
    lemma_task_pos(tasks, id);
    let p = task_pos(tasks, id);
    let rest = tasks.remove(p);
    lemma_task_pos(rest, id);
    if task_pos(rest, id) >= 0 {
        let q = task_pos(rest, id);
        let q0 = if q < p { q } else { q + 1 };
        assert(rest[q] == tasks[q0]);
        if q0 < p {
            assert(tasks[q0].task_id@ != tasks[p].task_id@);
        } else {
            assert(tasks[p].task_id@ != tasks[q0].task_id@);
        }
    }
}

impl Default for CognitiveQuotaScheduler {
    fn default() -> (s: Self)
        ensures
            s.wf(),
            s.queues() == seq![Seq::<Seq<char>>::empty(), Seq::empty(), Seq::empty(), Seq::empty(), Seq::empty()],
            s.spec_tasks() == Seq::<CognitiveTaskControlBlock>::empty(),
            s.active() is None,
            s.locks() == Seq::<(Seq<char>, Seq<char>)>::empty(),
    {
        CognitiveQuotaScheduler::new()
    }
}

} // verus!
