//! Job identity and ownership, completion notification, and the follow-up
//! wake limiter for idle owners, over one output ring per job.
//!
//! Observation goes by job id; writing, cancelling and settling need the
//! handle whose owner registered the job. Cancellation affects only segments
//! that have not started. Settling releases every registered waiter once,
//! then hands out the registered listeners once. When the owner has no
//! started segment left on a running job, the settlement carries a
//! follow-up wake decision, capped by consecutive wakes without progress.

use vstd::prelude::*;
use crate::job_ring::{JobRing, RingSlice, RingStats, clamp, min_int};
use crate::text::str_eq;

verus! {

/// Job identifier (sequential on one board).
#[derive(Debug, Clone, Copy, PartialEq, Eq, Hash, PartialOrd, Ord, Structural)]
pub struct JobId(pub u64);

impl JobId {
    /// `job-{n}`, the display text of the identifier.
    pub fn to_string(&self) -> (s: String)
        ensures
            s@ == "job-"@ + crate::text::decimal(self.0 as nat),
    {
        let mut s = String::from_str("job-");
        crate::text::push_decimal(&mut s, self.0);
        s
    }
}

/// The party that started a job and holds its handle.
#[derive(Debug, Clone, PartialEq, Eq, Hash, PartialOrd, Ord)]
pub struct OwnerId(String);

impl OwnerId {
    /// The owner's name.
    pub closed spec fn name(&self) -> Seq<char> {
        self.0@
    }

    /// An owner identifier.
    pub fn new(name: &str) -> (o: Self)
        ensures
            o.name() == name@,
    {
        OwnerId(name.to_owned())
    }

    /// The owner's name.
    pub fn as_str(&self) -> (s: &str)
        ensures
            s@ == self.name(),
    {
        self.0.as_str()
    }

    /// The owner's name as a fresh string.
    pub fn to_string(&self) -> (s: String)
        ensures
            s@ == self.name(),
    {
        self.0.clone()
    }
}

/// Job handle: identity and ownership.
#[derive(Debug, Clone, PartialEq, Eq)]
pub struct JobHandle {
    /// Job identifier.
    pub id: JobId,
    /// Owner.
    pub owner: OwnerId,
}

impl JobHandle {
    /// A handle.
    pub fn new(id: JobId, owner: OwnerId) -> (h: Self)
        ensures
            h.id == id,
            h.owner == owner,
    {
        JobHandle { id, owner }
    }
}

/// Segment index within a job.
pub type SegmentIndex = u32;

/// Segment state; cancellation affects only queued segments.
#[derive(Debug, Clone, Copy, PartialEq, Eq, Structural)]
pub enum SegmentState {
    /// Queued, not started.
    Queued,
    /// Started (never undone by cancellation).
    Started,
    /// Finished.
    Finished,
    /// Skipped at settlement without having started.
    Skipped,
}

/// Job status.
#[derive(Debug, Clone, Copy, PartialEq, Eq, Structural)]
pub enum JobStatus {
    /// Not settled.
    Running,
    /// Settled as completed.
    Completed,
    /// Settled as cancelled.
    Cancelled,
}

/// Settlement outcome.
#[derive(Debug, Clone, Copy, PartialEq, Eq, Structural)]
pub struct JobOutcome {
    /// Final status.
    pub status: JobStatus,
    /// Segments skipped without ever starting.
    pub skipped_segments: SegmentIndex,
}

/// Follow-up wake decision.
#[derive(Debug, Clone, Copy, PartialEq, Eq, Structural)]
pub enum WakeDecision {
    /// Wake (the consecutive count grows by one).
    Proceed,
    /// Over the consecutive-wake cap: suppressed.
    Suppressed,
}

/// Settlement report.
#[derive(Debug, Clone, PartialEq, Eq)]
pub struct SettleReport {
    /// Settlement outcome.
    pub outcome: JobOutcome,
    /// Waiters released by this settlement (each at most once).
    pub waiters_released: usize,
    /// Wake decision for an idle owner; `None` while the owner is busy.
    pub owner_wake: Option<WakeDecision>,
    /// Listener tokens to call now, each exactly once.
    pub listeners: Vec<u64>,
}

/// Consecutive count recorded for `owner`: the first matching entry, else 0.
pub open spec fn wake_count_of(entries: Seq<(Seq<char>, u32)>, owner: Seq<char>) -> u32
    decreases entries.len(),
{
    if entries.len() == 0 {
        0
    } else if entries[0].0 == owner {
        entries[0].1
    } else {
        wake_count_of(entries.drop_first(), owner)
    }
}

/// Follow-up wake limiter for idle owners.
#[derive(Debug)]
pub struct WakeGate {
    max_consecutive_wakes: u32,
    consecutive: Vec<(String, u32)>,
}

/// The recorded (owner name, count) pairs.
pub open spec fn entries_view(v: Seq<(String, u32)>) -> Seq<(Seq<char>, u32)> {
    v.map_values(|e: (String, u32)| (e.0@, e.1))
}

/// What `try_wake` decides and records for a count `c` under cap `max`.
pub open spec fn wake_step(c: u32, max: u32) -> (WakeDecision, u32) {
    if c < max {
        (WakeDecision::Proceed, (c + 1) as u32)
    } else {
        (WakeDecision::Suppressed, c)
    }
}

impl WakeGate {
    /// The cap on consecutive wakes without progress.
    pub closed spec fn cap(&self) -> u32 {
        self.max_consecutive_wakes
    }

    /// The consecutive-wake count of `owner`.
    pub closed spec fn count(&self, owner: Seq<char>) -> u32 {
        wake_count_of(entries_view(self.consecutive@), owner)
    }

    /// A limiter with the given cap and no counts.
    pub fn new(max_consecutive_wakes: u32) -> (g: Self)
        ensures
            g.cap() == max_consecutive_wakes,
            forall|o: Seq<char>| g.count(o) == 0,
    {
        let g = WakeGate { max_consecutive_wakes, consecutive: Vec::new() };
        assert(entries_view(g.consecutive@) =~= Seq::<(Seq<char>, u32)>::empty());
        g
    }

    /// The cap.
    pub fn max_consecutive_wakes(&self) -> (m: u32)
        ensures
            m == self.cap(),
    {
        self.max_consecutive_wakes
    }

    fn find(&self, owner: &OwnerId) -> (r: Option<usize>)
        ensures
            match r {
                Some(i) => i < self.consecutive@.len() && self.consecutive@[i as int].0@ == owner.name()
                    && self.count(owner.name()) == self.consecutive@[i as int].1 && forall|j: int|
                    0 <= j < i ==> self.consecutive@[j].0@ != owner.name(),
                None => self.count(owner.name()) == 0 && forall|j: int|
                    0 <= j < self.consecutive@.len() ==> self.consecutive@[j].0@ != owner.name(),
            },
    {
        let ghost ev = entries_view(self.consecutive@);
        assert(ev.skip(0) =~= ev);
        let mut i: usize = 0;
        while i < self.consecutive.len()
            invariant
                i <= self.consecutive@.len(),
                ev == entries_view(self.consecutive@),
                wake_count_of(ev, owner.name()) == wake_count_of(ev.skip(i as int), owner.name()),
                forall|j: int| 0 <= j < i ==> self.consecutive@[j].0@ != owner.name(),
            decreases self.consecutive@.len() - i,
        {
            assert(ev.skip(i as int).drop_first() =~= ev.skip(i as int + 1));
            if str_eq(self.consecutive[i].0.as_str(), owner.as_str()) {
                return Some(i);
            }
            i = i + 1;
        }
        assert(ev.skip(i as int) =~= Seq::<(Seq<char>, u32)>::empty());
        None
    }

    fn set_count(&mut self, owner: &OwnerId, value: u32)
        ensures
            final(self).cap() == old(self).cap(),
            final(self).count(owner.name()) == value,
            forall|o: Seq<char>| o != owner.name() ==> final(self).count(o) == old(self).count(o),
    {
        let ghost ev0 = entries_view(self.consecutive@);
        match self.find(owner) {
            Some(i) => {
                let name = self.consecutive[i].0.clone();
                self.consecutive.set(i, (name, value));
                proof {
                    let ev1 = entries_view(self.consecutive@);
                    assert(ev1 =~= ev0.update(i as int, (owner.name(), value)));
                    lemma_wake_count_of_update(ev0, i as int, owner.name(), value);
                }
            },
            None => {
                self.consecutive.push((owner.to_string(), value));
                proof {
                    let ev1 = entries_view(self.consecutive@);
                    assert(ev1 =~= ev0.push((owner.name(), value)));
                    lemma_wake_count_of_push(ev0, owner.name(), value);
                }
            },
        }
    }

    /// Asks for a follow-up wake: granted (and counted) below the cap,
    /// suppressed at the cap.
    pub fn try_wake(&mut self, owner: &OwnerId) -> (d: WakeDecision)
        ensures
            final(self).cap() == old(self).cap(),
            d == wake_step(old(self).count(owner.name()), old(self).cap()).0,
            final(self).count(owner.name()) == wake_step(old(self).count(owner.name()), old(self).cap()).1,
            forall|o: Seq<char>| o != owner.name() ==> final(self).count(o) == old(self).count(o),
    {
        let count = match self.find(owner) {
            Some(i) => self.consecutive[i].1,
            None => 0,
        };
        if count < self.max_consecutive_wakes {
            self.set_count(owner, count + 1);
            WakeDecision::Proceed
        } else {
            self.set_count(owner, count);
            WakeDecision::Suppressed
        }
    }

    /// Records real progress: the consecutive count returns to zero.
    pub fn record_progress(&mut self, owner: &OwnerId)
        ensures
            final(self).cap() == old(self).cap(),
            final(self).count(owner.name()) == 0,
            forall|o: Seq<char>| o != owner.name() ==> final(self).count(o) == old(self).count(o),
    {
        self.set_count(owner, 0);
    }

    /// The consecutive count of wakes without progress.
    pub fn consecutive_wakes(&self, owner: &OwnerId) -> (n: u32)
        ensures
            n == self.count(owner.name()),
    {
        match self.find(owner) {
            Some(i) => self.consecutive[i].1,
            None => 0,
        }
    }
}

proof fn lemma_wake_count_of_update(ev: Seq<(Seq<char>, u32)>, i: int, owner: Seq<char>, value: u32)
    requires
        0 <= i < ev.len(),
        ev[i].0 == owner,
        forall|j: int| 0 <= j < i ==> ev[j].0 != owner,
    ensures
        wake_count_of(ev.update(i, (owner, value)), owner) == value,
        forall|o: Seq<char>| o != owner ==> wake_count_of(ev.update(i, (owner, value)), o) == wake_count_of(ev, o),
    decreases ev.len(),
{
    let ev1 = ev.update(i, (owner, value));
    if i > 0 {
        assert(ev1.drop_first() =~= ev.drop_first().update(i - 1, (owner, value)));
        lemma_wake_count_of_update(ev.drop_first(), i - 1, owner, value);
        assert forall|o: Seq<char>| o != owner implies wake_count_of(ev1, o) == wake_count_of(ev, o) by {
            assert(ev1[0] == ev[0]);
            assert(wake_count_of(ev.drop_first().update(i - 1, (owner, value)), o) == wake_count_of(ev.drop_first(), o));
            assert(wake_count_of(ev1.drop_first(), o) == wake_count_of(ev.drop_first(), o));
        }
    } else {
        assert(ev1.drop_first() =~= ev.drop_first());
        assert forall|o: Seq<char>| o != owner implies wake_count_of(ev1, o) == wake_count_of(ev, o) by {
            assert(ev1[0].0 == owner);
            assert(wake_count_of(ev1, o) == wake_count_of(ev1.drop_first(), o));
            if ev.len() > 0 {
                assert(ev[0].0 == owner);
                assert(wake_count_of(ev, o) == wake_count_of(ev.drop_first(), o));
            }
        }
    }
}

proof fn lemma_wake_count_of_push(ev: Seq<(Seq<char>, u32)>, owner: Seq<char>, value: u32)
    requires
        forall|j: int| 0 <= j < ev.len() ==> ev[j].0 != owner,
    ensures
        wake_count_of(ev.push((owner, value)), owner) == value,
        forall|o: Seq<char>| o != owner ==> wake_count_of(ev.push((owner, value)), o) == wake_count_of(ev, o),
    decreases ev.len(),
{
    let ev1 = ev.push((owner, value));
    if ev.len() > 0 {
        assert(ev1.drop_first() =~= ev.drop_first().push((owner, value)));
        lemma_wake_count_of_push(ev.drop_first(), owner, value);
        assert forall|o: Seq<char>| o != owner implies wake_count_of(ev1, o) == wake_count_of(ev, o) by {
            assert(ev1[0] == ev[0]);
            assert(wake_count_of(ev.drop_first().push((owner, value)), o) == wake_count_of(ev.drop_first(), o));
            assert(wake_count_of(ev1.drop_first(), o) == wake_count_of(ev.drop_first(), o));
        }
    } else {
        assert(ev1.drop_first() =~= Seq::<(Seq<char>, u32)>::empty());
        assert forall|o: Seq<char>| o != owner implies wake_count_of(ev1, o) == wake_count_of(ev, o) by {
            assert(ev1[0].0 == owner);
            assert(wake_count_of(ev1, o) == wake_count_of(ev1.drop_first(), o));
            if ev.len() > 0 {
                assert(ev[0].0 == owner);
                assert(wake_count_of(ev, o) == wake_count_of(ev.drop_first(), o));
            }
        }
    }
}

/// Board configuration.
#[derive(Debug, Clone, Copy, PartialEq, Eq, Structural)]
pub struct BoardConfig {
    /// Retention limit of each job's output ring, in bytes.
    pub ring_capacity_bytes: usize,
    /// Cap on consecutive follow-up wakes of an idle owner.
    pub max_consecutive_wakes: u32,
}

impl Default for BoardConfig {
    fn default() -> (c: Self)
        ensures
            c.ring_capacity_bytes == 256 * 1024,
            c.max_consecutive_wakes == 3,
    {
        BoardConfig { ring_capacity_bytes: 256 * 1024, max_consecutive_wakes: 3 }
    }
}

/// Board operation errors.
#[derive(Debug, Clone, Copy, PartialEq, Eq, Structural)]
pub enum BoardError {
    /// No such job.
    UnknownJob(JobId),
    /// The handle's owner does not own the job.
    WrongOwner {
        /// The job named by the handle.
        job: JobId,
    },
    /// The job is already settled.
    AlreadySettled(JobId),
    /// The job is not settled yet.
    NotSettled(JobId),
    /// Bad segment index, or the segment's state refuses the operation.
    BadSegment {
        /// The job.
        job: JobId,
        /// The segment index.
        segment: SegmentIndex,
    },
}

/// A registered completion waiter; poll it with [`JobBoard::poll_completion`].
#[derive(Debug, Clone, Copy, PartialEq, Eq)]
pub struct CompletionWaiter {
    job: JobId,
    slot: usize,
}

impl CompletionWaiter {
    /// The job being awaited.
    pub closed spec fn spec_job(&self) -> JobId {
        self.job
    }
}

/// What registering a completion listener did.
#[derive(Debug, Clone, Copy, PartialEq, Eq, Structural)]
pub enum ListenerRegistration {
    /// Registered: the token is handed out once, at settlement.
    Registered(u64),
    /// The job is already settled: call the listener now with this outcome.
    AlreadySettled(JobOutcome),
}

struct JobRecord {
    owner: OwnerId,
    ring: JobRing,
    segments: Vec<SegmentState>,
    outcome: Option<JobOutcome>,
    waiters_woken: Vec<bool>,
    listeners: Vec<u64>,
    notified: bool,
}

enum JobSlot {
    Live(JobRecord),
    Removed(JobOutcome),
}

/// Number of queued segments.
pub open spec fn count_queued(s: Seq<SegmentState>) -> nat
    decreases s.len(),
{
    if s.len() == 0 {
        0
    } else {
        count_queued(s.drop_last()) + if s.last() == SegmentState::Queued {
            1nat
        } else {
            0nat
        }
    }
}

/// Number of waiters not woken yet.
pub open spec fn count_unwoken(s: Seq<bool>) -> nat
    decreases s.len(),
{
    if s.len() == 0 {
        0
    } else {
        count_unwoken(s.drop_last()) + if !s.last() {
            1nat
        } else {
            0nat
        }
    }
}

/// Queued segments become skipped; the others keep their state.
pub open spec fn skip_queued(s: Seq<SegmentState>) -> Seq<SegmentState> {
    s.map_values(
        |x: SegmentState|
            if x == SegmentState::Queued {
                SegmentState::Skipped
            } else {
                x
            },
    )
}

/// Index of the first queued segment.
pub open spec fn first_queued(s: Seq<SegmentState>, i: int) -> bool {
    0 <= i < s.len() && s[i] == SegmentState::Queued && forall|j: int|
        0 <= j < i ==> s[j] != SegmentState::Queued
}

/// Task board: one output ring per job, identity and ownership checks,
/// completion notification and the follow-up wake limiter.
pub struct JobBoard {
    config: BoardConfig,
    next_id: u64,
    jobs: Vec<JobSlot>,
    wake_gate: WakeGate,
}

impl JobBoard {
    /// Internal consistency: one slot per issued id, every live ring consistent.
    pub closed spec fn wf(&self) -> bool {
        &&& self.jobs@.len() == self.next_id
        &&& self.wake_gate.cap() == self.config.max_consecutive_wakes
        &&& forall|i: int|
            0 <= i < self.jobs@.len() ==> match #[trigger] self.jobs@[i] {
                JobSlot::Live(r) => r.ring.wf() && r.ring.capacity() == self.config.ring_capacity_bytes
                    && r.segments@.len() <= u32::MAX,
                JobSlot::Removed(_) => true,
            }
    }

    /// The board's configuration.
    pub closed spec fn spec_config(&self) -> BoardConfig {
        self.config
    }

    /// The id the next job will get.
    pub closed spec fn next_job(&self) -> u64 {
        self.next_id
    }

    /// Whether `id` names a job that is registered and not removed.
    pub closed spec fn has_job(&self, id: JobId) -> bool {
        id.0 < self.jobs@.len() && self.jobs@[id.0 as int] is Live
    }

    /// Whether `id` was ever issued.
    pub closed spec fn issued(&self, id: JobId) -> bool {
        id.0 < self.jobs@.len()
    }

    /// The owner of a registered job.
    pub closed spec fn owner_of(&self, id: JobId) -> Seq<char> {
        self.jobs@[id.0 as int]->Live_0.owner.name()
    }

    /// The segment states of a registered job.
    pub closed spec fn segments_of(&self, id: JobId) -> Seq<SegmentState> {
        self.jobs@[id.0 as int]->Live_0.segments@
    }

    /// The settlement of a registered job, if settled.
    pub closed spec fn outcome_of(&self, id: JobId) -> Option<JobOutcome> {
        self.jobs@[id.0 as int]->Live_0.outcome
    }

    /// The settlement recorded for an issued job, live or removed.
    pub closed spec fn final_outcome_of(&self, id: JobId) -> Option<JobOutcome> {
        match self.jobs@[id.0 as int] {
            JobSlot::Live(r) => r.outcome,
            JobSlot::Removed(o) => Some(o),
        }
    }

    /// The output ring of a registered job.
    pub closed spec fn ring_of(&self, id: JobId) -> JobRing {
        self.jobs@[id.0 as int]->Live_0.ring
    }

    /// The waiters of a job: `true` once woken.
    pub closed spec fn waiters_of(&self, id: JobId) -> Seq<bool> {
        self.jobs@[id.0 as int]->Live_0.waiters_woken@
    }

    /// The registered listener tokens of a job not yet handed out.
    pub closed spec fn listeners_of(&self, id: JobId) -> Seq<u64> {
        self.jobs@[id.0 as int]->Live_0.listeners@
    }

    /// Whether a job's listeners were already handed out.
    pub closed spec fn notified_of(&self, id: JobId) -> bool {
        self.jobs@[id.0 as int]->Live_0.notified
    }

    /// The consecutive-wake count of an owner.
    pub closed spec fn wakes_of(&self, owner: Seq<char>) -> u32 {
        self.wake_gate.count(owner)
    }

    /// Whether `owner` has no started segment on a running job.
    pub open spec fn owner_idle(&self, owner: Seq<char>) -> bool {
        forall|j: u64|
            #![trigger self.has_job(JobId(j))]
            self.has_job(JobId(j)) && self.outcome_of(JobId(j)) is None && self.owner_of(JobId(j))
                == owner ==> !self.segments_of(JobId(j)).contains(SegmentState::Started)
    }

    /// The error a handle check reports, if any: unknown job, wrong owner,
    /// already settled, in that order.
    pub open spec fn handle_error(&self, h: JobHandle) -> Option<BoardError> {
        if !self.has_job(h.id) {
            Some(BoardError::UnknownJob(h.id))
        } else if self.owner_of(h.id) != h.owner.name() {
            Some(BoardError::WrongOwner { job: h.id })
        } else if self.outcome_of(h.id) is Some {
            Some(BoardError::AlreadySettled(h.id))
        } else {
            None
        }
    }

    /// Every other job is untouched, and the board-wide state too.
    pub closed spec fn others_same(&self, old: &JobBoard, id: JobId) -> bool {
        &&& self.config == old.config
        &&& self.next_id == old.next_id
        &&& self.jobs@.len() == old.jobs@.len()
        &&& forall|i: int| 0 <= i < self.jobs@.len() && i != id.0 ==> self.jobs@[i] == old.jobs@[i]
    }

    /// The jobs and the configuration are untouched.
    pub closed spec fn jobs_same(&self, old: &JobBoard) -> bool {
        self.jobs@ == old.jobs@ && self.config == old.config && self.next_id == old.next_id
    }

    /// Every job that existed before is untouched.
    pub closed spec fn earlier_same(&self, old: &JobBoard) -> bool {
        &&& self.jobs@.len() >= old.jobs@.len()
        &&& forall|i: int| 0 <= i < old.jobs@.len() ==> self.jobs@[i] == old.jobs@[i]
    }

    /// The wake counts and the configuration of the wake limiter are untouched.
    pub closed spec fn wakes_same(&self, old: &JobBoard) -> bool {
        self.wake_gate == old.wake_gate
    }

    /// A new board.
    pub fn new(config: BoardConfig) -> (b: Self)
        ensures
            b.wf(),
            b.spec_config() == config,
            b.next_job() == 0,
            forall|o: Seq<char>| b.wakes_of(o) == 0,
    {
        JobBoard {
            config,
            next_id: 0,
            jobs: Vec::new(),
            wake_gate: WakeGate::new(config.max_consecutive_wakes),
        }
    }

    /// Registers a job owned by `owner` with `queued_segments` queued segments.
    pub fn open_job(&mut self, owner: OwnerId, queued_segments: SegmentIndex) -> (h: JobHandle)
        requires
            old(self).wf(),
            old(self).next_job() < u64::MAX,
        ensures
            final(self).wf(),
            h.id == JobId(old(self).next_job()),
            h.owner == owner,
            final(self).next_job() == old(self).next_job() + 1,
            final(self).has_job(h.id),
            final(self).owner_of(h.id) == owner.name(),
            final(self).segments_of(h.id) == Seq::new(queued_segments as nat, |i: int| SegmentState::Queued),
            final(self).outcome_of(h.id) is None,
            final(self).ring_of(h.id).stream() == Seq::<u8>::empty(),
            final(self).ring_of(h.id).base() == 0,
            final(self).waiters_of(h.id) == Seq::<bool>::empty(),
            final(self).earlier_same(old(self)),
            final(self).spec_config() == old(self).spec_config(),
            final(self).wakes_same(old(self)),
    {
        let id = JobId(self.next_id);
        let mut segments: Vec<SegmentState> = Vec::new();
        let mut k: u32 = 0;
        while k < queued_segments
            invariant
                k <= queued_segments,
                segments@ == Seq::new(k as nat, |i: int| SegmentState::Queued),
            decreases queued_segments - k,
        {
            segments.push(SegmentState::Queued);
            assert(segments@ =~= Seq::new((k + 1) as nat, |i: int| SegmentState::Queued));
            k = k + 1;
        }
        let record = JobRecord {
            owner: owner.clone_owner(),
            ring: JobRing::new(self.config.ring_capacity_bytes),
            segments,
            outcome: None,
            waiters_woken: Vec::new(),
            listeners: Vec::new(),
            notified: false,
        };
        self.jobs.push(JobSlot::Live(record));
        self.next_id = self.next_id + 1;
        proof {
            assert forall|i: int| 0 <= i < self.jobs@.len() implies match #[trigger] self.jobs@[i] {
                JobSlot::Live(r) => r.ring.wf() && r.ring.capacity() == self.config.ring_capacity_bytes
                    && r.segments@.len() <= u32::MAX,
                JobSlot::Removed(_) => true,
            } by {
                if i < old(self).jobs@.len() {
                    assert(self.jobs@[i] == old(self).jobs@[i]);
                }
            }
        }
        JobHandle::new(id, owner)
    }

    /// Current status of a job.
    pub fn status(&self, id: JobId) -> (r: Result<JobStatus, BoardError>)
        requires
            self.wf(),
        ensures
            !self.has_job(id) ==> r == Err::<JobStatus, BoardError>(BoardError::UnknownJob(id)),
            self.has_job(id) ==> r == Ok::<JobStatus, BoardError>(
                match self.outcome_of(id) {
                    Some(o) => o.status,
                    None => JobStatus::Running,
                },
            ),
    {
        match self.record(id) {
            None => Err(BoardError::UnknownJob(id)),
            Some(rec) => Ok(
                match rec.outcome {
                    Some(o) => o.status,
                    None => JobStatus::Running,
                },
            ),
        }
    }

    fn record(&self, id: JobId) -> (r: Option<&JobRecord>)
        requires
            self.wf(),
        ensures
            r is Some <==> self.has_job(id),
            r matches Some(rec) ==> self.jobs@[id.0 as int] == JobSlot::Live(*rec),
    {
        if id.0 >= self.jobs.len() as u64 {
            return None;
        }
        match &self.jobs[id.0 as usize] {
            JobSlot::Live(rec) => Some(rec),
            JobSlot::Removed(_) => None,
        }
    }

    /// Segment states of a job.
    pub fn segment_states(&self, id: JobId) -> (r: Result<Vec<SegmentState>, BoardError>)
        requires
            self.wf(),
        ensures
            !self.has_job(id) ==> r == Err::<Vec<SegmentState>, BoardError>(BoardError::UnknownJob(id)),
            self.has_job(id) ==> (r matches Ok(v) && v@ == self.segments_of(id)),
    {
        match self.record(id) {
            None => Err(BoardError::UnknownJob(id)),
            Some(rec) => {
                let mut v: Vec<SegmentState> = Vec::new();
                let mut i: usize = 0;
                while i < rec.segments.len()
                    invariant
                        i <= rec.segments@.len(),
                        v@ == rec.segments@.take(i as int),
                    decreases rec.segments@.len() - i,
                {
                    v.push(rec.segments[i]);
                    assert(rec.segments@.take(i as int + 1) =~= rec.segments@.take(i as int).push(
                        rec.segments@[i as int],
                    ));
                    i = i + 1;
                }
                assert(v@ =~= rec.segments@);
                Ok(v)
            },
        }
    }

    /// Checks a handle and takes the job's record out of the board for
    /// modification (the slot holds a placeholder until it is put back).
    fn take_checked(&mut self, handle: &JobHandle) -> (r: Result<JobRecord, BoardError>)
        requires
            old(self).wf(),
        ensures
            match old(self).handle_error(*handle) {
                Some(e) => r == Err::<JobRecord, BoardError>(e) && *final(self) == *old(self),
                None => r matches Ok(rec) && old(self).jobs@[handle.id.0 as int] == JobSlot::Live(rec)
                    && final(self).jobs@ == old(self).jobs@.update(
                    handle.id.0 as int,
                    JobSlot::Removed(JobOutcome { status: JobStatus::Running, skipped_segments: 0 }),
                ) && final(self).config == old(self).config && final(self).next_id == old(self).next_id && final(self).wake_gate == old(self).wake_gate,
            },
    {
        let id = handle.id;
        if id.0 >= self.jobs.len() as u64 {
            return Err(BoardError::UnknownJob(id));
        }
        let idx = id.0 as usize;
        match &self.jobs[idx] {
            JobSlot::Removed(_) => {
                return Err(BoardError::UnknownJob(id));
            },
            JobSlot::Live(rec) => {
                if !str_eq(rec.owner.as_str(), handle.owner.as_str()) {
                    return Err(BoardError::WrongOwner { job: id });
                }
                if rec.outcome.is_some() {
                    return Err(BoardError::AlreadySettled(id));
                }
            },
        }
        let placeholder = JobSlot::Removed(JobOutcome { status: JobStatus::Running, skipped_segments: 0 });
        let slot = self.replace_slot(idx, placeholder);
        match slot {
            JobSlot::Live(rec) => Ok(rec),
            JobSlot::Removed(_) => {
                assert(false);
                Err(BoardError::UnknownJob(id))
            },
        }
    }

    fn replace_slot(&mut self, idx: usize, slot: JobSlot) -> (old_slot: JobSlot)
        requires
            idx < old(self).jobs@.len(),
        ensures
            old_slot == old(self).jobs@[idx as int],
            final(self).jobs@ == old(self).jobs@.update(idx as int, slot),
            final(self).config == old(self).config,
            final(self).next_id == old(self).next_id,
            final(self).wake_gate == old(self).wake_gate,
    {
        self.jobs.push(slot);
        let old_slot = self.jobs.swap_remove(idx);
        proof {
            assert(self.jobs@ =~= old(self).jobs@.update(idx as int, slot));
        }
        old_slot
    }

    fn put_back(&mut self, id: JobId, rec: JobRecord)
        requires
            id.0 < old(self).jobs.len(),
        ensures
            final(self).jobs@ == old(self).jobs@.update(id.0 as int, JobSlot::Live(rec)),
            final(self).config == old(self).config,
            final(self).next_id == old(self).next_id,
            final(self).wake_gate == old(self).wake_gate,
    {
        let _ = self.replace_slot(id.0 as usize, JobSlot::Live(rec));
    }

    /// Appends output to a running job (owner checked); returns its start offset.
    pub fn append(&mut self, handle: &JobHandle, bytes: &[u8]) -> (r: Result<u64, BoardError>)
        requires
            old(self).wf(),
            old(self).has_job(handle.id) ==> old(self).ring_of(handle.id).stream().len() + bytes@.len()
                <= u64::MAX,
        ensures
            final(self).wf(),
            old(self).handle_error(*handle) matches Some(e) ==> r == Err::<u64, BoardError>(e) && *final(self) == *old(self),
            old(self).handle_error(*handle) is None ==> ({
                let id = handle.id;
                &&& r == Ok::<u64, BoardError>(old(self).ring_of(id).stream().len() as u64)
                &&& final(self).has_job(id)
                &&& final(self).ring_of(id).stream() == old(self).ring_of(id).stream() + bytes@
                &&& final(self).ring_of(id).cursor() == old(self).ring_of(id).cursor()
                &&& final(self).owner_of(id) == old(self).owner_of(id)
                &&& final(self).segments_of(id) == old(self).segments_of(id)
                &&& final(self).outcome_of(id) == old(self).outcome_of(id)
                &&& final(self).waiters_of(id) == old(self).waiters_of(id)
                &&& final(self).others_same(old(self), id)
                &&& final(self).wakes_same(old(self))
            }),
    {
        let mut rec = self.take_checked(handle)?;
        let off = rec.ring.push(bytes);
        self.put_back(handle.id, rec);
        proof {
            self.lemma_wf_after_update(old(self), handle.id);
        }
        Ok(off)
    }

    proof fn lemma_wf_after_update(&self, old: &JobBoard, id: JobId)
        requires
            old.wf(),
            id.0 < old.jobs@.len(),
            self.jobs@.len() == old.jobs@.len(),
            self.config == old.config,
            self.next_id == old.next_id,
            self.wake_gate == old.wake_gate,
            forall|i: int| 0 <= i < self.jobs@.len() && i != id.0 ==> self.jobs@[i] == old.jobs@[i],
            match self.jobs@[id.0 as int] {
                JobSlot::Live(r) => r.ring.wf() && r.ring.capacity() == self.config.ring_capacity_bytes
                    && r.segments@.len() <= u32::MAX,
                JobSlot::Removed(_) => true,
            },
        ensures
            self.wf(),
            self.others_same(old, id),
    {
        assert forall|i: int| 0 <= i < self.jobs@.len() implies match #[trigger] self.jobs@[i] {
            JobSlot::Live(r) => r.ring.wf() && r.ring.capacity() == self.config.ring_capacity_bytes
                && r.segments@.len() <= u32::MAX,
            JobSlot::Removed(_) => true,
        } by {
            if i != id.0 {
                assert(self.jobs@[i] == old.jobs@[i]);
            }
        }
    }

    /// Starts the first queued segment of a running job (owner checked);
    /// `None` when no segment is queued.
    pub fn start_next_segment(&mut self, handle: &JobHandle) -> (r: Result<Option<SegmentIndex>, BoardError>)
        requires
            old(self).wf(),
        ensures
            final(self).wf(),
            old(self).handle_error(*handle) matches Some(e) ==> r == Err::<Option<SegmentIndex>, BoardError>(e)
                && *final(self) == *old(self),
            old(self).handle_error(*handle) is None ==> ({
                let id = handle.id;
                let s = old(self).segments_of(id);
                &&& final(self).has_job(id)
                &&& match r {
                    Ok(Some(i)) => first_queued(s, i as int) && final(self).segments_of(id) == s.update(
                        i as int,
                        SegmentState::Started,
                    ),
                    Ok(None) => !s.contains(SegmentState::Queued) && final(self).segments_of(id) == s,
                    Err(_) => false,
                }
                &&& final(self).ring_of(id) == old(self).ring_of(id)
                &&& final(self).owner_of(id) == old(self).owner_of(id)
                &&& final(self).outcome_of(id) == old(self).outcome_of(id)
                &&& final(self).waiters_of(id) == old(self).waiters_of(id)
                &&& final(self).others_same(old(self), id)
                &&& final(self).wakes_same(old(self))
            }),
    {
        let mut rec = self.take_checked(handle)?;
        let ghost s = rec.segments@;
        assert(match old(self).jobs@[handle.id.0 as int] {
            JobSlot::Live(r) => r.ring.wf() && r.segments@.len() <= u32::MAX,
            JobSlot::Removed(_) => true,
        });
        let mut i: usize = 0;
        while i < rec.segments.len() && rec.segments[i] != SegmentState::Queued
            invariant
                i <= s.len(),
                rec.segments@ == s,
                forall|j: int| 0 <= j < i ==> s[j] != SegmentState::Queued,
            decreases s.len() - i,
        {
            i = i + 1;
        }
        let found: Option<SegmentIndex> = if i < rec.segments.len() {
            rec.segments.set(i, SegmentState::Started);
            assert(first_queued(s, i as int));
            Some(i as SegmentIndex)
        } else {
            None
        };
        self.put_back(handle.id, rec);
        proof {
            self.lemma_wf_after_update(old(self), handle.id);
        }
        Ok(found)
    }

    /// Finishes a started segment of a running job (owner checked).
    pub fn finish_segment(&mut self, handle: &JobHandle, segment: SegmentIndex) -> (r: Result<(), BoardError>)
        requires
            old(self).wf(),
        ensures
            final(self).wf(),
            old(self).handle_error(*handle) matches Some(e) ==> r == Err::<(), BoardError>(e) && *final(self) == *old(self),
            old(self).handle_error(*handle) is None ==> ({
                let id = handle.id;
                let s = old(self).segments_of(id);
                &&& final(self).has_job(id)
                &&& if segment < s.len() && s[segment as int] == SegmentState::Started {
                    r is Ok && final(self).segments_of(id) == s.update(segment as int, SegmentState::Finished)
                } else {
                    r == Err::<(), BoardError>(BoardError::BadSegment { job: id, segment })
                        && final(self).segments_of(id) == s
                }
                &&& final(self).ring_of(id) == old(self).ring_of(id)
                &&& final(self).owner_of(id) == old(self).owner_of(id)
                &&& final(self).outcome_of(id) == old(self).outcome_of(id)
                &&& final(self).waiters_of(id) == old(self).waiters_of(id)
                &&& final(self).others_same(old(self), id)
                &&& final(self).wakes_same(old(self))
            }),
    {
        let mut rec = self.take_checked(handle)?;
        let idx = segment as usize;
        let ok = idx < rec.segments.len() && rec.segments[idx] == SegmentState::Started;
        if ok {
            rec.segments.set(idx, SegmentState::Finished);
        }
        self.put_back(handle.id, rec);
        proof {
            self.lemma_wf_after_update(old(self), handle.id);
        }
        if ok {
            Ok(())
        } else {
            Err(BoardError::BadSegment { job: handle.id, segment })
        }
    }

    /// Settles a job as completed (owner checked).
    pub fn settle(&mut self, handle: &JobHandle) -> (r: Result<SettleReport, BoardError>)
        requires
            old(self).wf(),
        ensures
            final(self).wf(),
            old(self).handle_error(*handle) matches Some(e) ==> r == Err::<SettleReport, BoardError>(e)
                && *final(self) == *old(self),
            old(self).handle_error(*handle) is None ==> (r matches Ok(rep) && settled_as(
                *old(self),
                *final(self),
                *handle,
                JobStatus::Completed,
                rep,
            )),
    {
        self.terminate(handle, JobStatus::Completed)
    }

    /// Settles a job as cancelled (owner checked): only queued segments are
    /// skipped; output already produced stays readable.
    pub fn cancel(&mut self, handle: &JobHandle) -> (r: Result<SettleReport, BoardError>)
        requires
            old(self).wf(),
        ensures
            final(self).wf(),
            old(self).handle_error(*handle) matches Some(e) ==> r == Err::<SettleReport, BoardError>(e)
                && *final(self) == *old(self),
            old(self).handle_error(*handle) is None ==> (r matches Ok(rep) && settled_as(
                *old(self),
                *final(self),
                *handle,
                JobStatus::Cancelled,
                rep,
            )),
    {
        self.terminate(handle, JobStatus::Cancelled)
    }

    /// Observer read of a job's output (never moves the consumer cursor).
    pub fn read_at(&self, id: JobId, offset: u64) -> (r: Result<RingSlice, BoardError>)
        requires
            self.wf(),
        ensures
            !self.has_job(id) ==> r == Err::<RingSlice, BoardError>(BoardError::UnknownJob(id)),
            self.has_job(id) ==> (r matches Ok(s) && ({
                let ring = self.ring_of(id);
                &&& s.start == clamp(offset as int, ring.base(), ring.stream().len() as int)
                &&& s.bytes@ == ring.stream().skip(s.start as int)
                &&& s.omitted_before == (offset < ring.base())
            })),
    {
        match self.record(id) {
            None => Err(BoardError::UnknownJob(id)),
            Some(rec) => {
                proof {
                    assert(match self.jobs@[id.0 as int] {
                        JobSlot::Live(r) => r.ring.wf(),
                        JobSlot::Removed(_) => true,
                    });
                }
                Ok(rec.ring.read_at(offset))
            },
        }
    }

    /// Consumer read of a job's output: advances that job's consumer cursor.
    pub fn consume(&mut self, id: JobId, max_bytes: usize) -> (r: Result<RingSlice, BoardError>)
        requires
            old(self).wf(),
        ensures
            final(self).wf(),
            !old(self).has_job(id) ==> r == Err::<RingSlice, BoardError>(BoardError::UnknownJob(id))
                && *final(self) == *old(self),
            old(self).has_job(id) ==> (r matches Ok(s) && ({
                let ring = old(self).ring_of(id);
                let ring2 = final(self).ring_of(id);
                &&& s.start == clamp(ring.cursor(), ring.base(), ring.stream().len() as int)
                &&& s.bytes@ == ring.stream().subrange(
                    s.start as int,
                    min_int(s.start + max_bytes, ring.stream().len() as int),
                )
                &&& ring2.cursor() == s.start + s.bytes@.len()
                &&& ring2.stream() == ring.stream()
                &&& ring2.base() == ring.base()
                &&& final(self).has_job(id)
                &&& final(self).owner_of(id) == old(self).owner_of(id)
                &&& final(self).segments_of(id) == old(self).segments_of(id)
                &&& final(self).outcome_of(id) == old(self).outcome_of(id)
                &&& final(self).waiters_of(id) == old(self).waiters_of(id)
                &&& final(self).others_same(old(self), id)
                &&& final(self).wakes_same(old(self))
            })),
    {
        if id.0 >= self.jobs.len() as u64 {
            return Err(BoardError::UnknownJob(id));
        }
        let idx = id.0 as usize;
        if let JobSlot::Removed(_) = &self.jobs[idx] {
            return Err(BoardError::UnknownJob(id));
        }
        let placeholder = JobSlot::Removed(JobOutcome { status: JobStatus::Running, skipped_segments: 0 });
        let slot = self.replace_slot(idx, placeholder);
        match slot {
            JobSlot::Live(mut rec) => {
                proof {
                    assert(match old(self).jobs@[id.0 as int] {
                        JobSlot::Live(r) => r.ring.wf() && r.ring.capacity() == old(self).config.ring_capacity_bytes
                            && r.segments@.len() <= u32::MAX,
                        JobSlot::Removed(_) => true,
                    });
                }
                let s = rec.ring.consume(max_bytes);
                self.put_back(id, rec);
                proof {
                    self.lemma_wf_after_update(old(self), id);
                }
                Ok(s)
            },
            JobSlot::Removed(_) => {
                assert(false);
                Err(BoardError::UnknownJob(id))
            },
        }
    }

    /// Retention and cursor snapshot of a job's ring.
    pub fn ring_stats(&self, id: JobId) -> (r: Result<RingStats, BoardError>)
        requires
            self.wf(),
        ensures
            !self.has_job(id) ==> r == Err::<RingStats, BoardError>(BoardError::UnknownJob(id)),
            self.has_job(id) ==> (r matches Ok(s) && ({
                let ring = self.ring_of(id);
                &&& s.base_offset == ring.base()
                &&& s.end_offset == ring.stream().len()
                &&& s.consumer_cursor == ring.cursor()
                &&& s.retained_bytes == ring.retained().len()
                &&& s.lossy == ring.spec_lossy()
                &&& s.omitted_chunks == ring.spec_omitted_chunks()
                &&& s.omitted_bytes == ring.base()
            })),
    {
        match self.record(id) {
            None => Err(BoardError::UnknownJob(id)),
            Some(rec) => {
                proof {
                    assert(match self.jobs@[id.0 as int] {
                        JobSlot::Live(r) => r.ring.wf(),
                        JobSlot::Removed(_) => true,
                    });
                }
                Ok(rec.ring.stats())
            },
        }
    }

    /// Registers a completion waiter on a job.
    pub fn wait_for_completion(&mut self, id: JobId) -> (r: Result<CompletionWaiter, BoardError>)
        requires
            old(self).wf(),
        ensures
            final(self).wf(),
            !old(self).has_job(id) ==> r == Err::<CompletionWaiter, BoardError>(BoardError::UnknownJob(id))
                && *final(self) == *old(self),
            old(self).has_job(id) ==> (r matches Ok(w) && w.spec_job() == id && ({
                &&& final(self).has_job(id)
                &&& final(self).waiters_of(id) == old(self).waiters_of(id).push(false)
                &&& final(self).ring_of(id) == old(self).ring_of(id)
                &&& final(self).owner_of(id) == old(self).owner_of(id)
                &&& final(self).segments_of(id) == old(self).segments_of(id)
                &&& final(self).outcome_of(id) == old(self).outcome_of(id)
                &&& final(self).others_same(old(self), id)
                &&& final(self).wakes_same(old(self))
            })),
    {
        if id.0 >= self.jobs.len() as u64 {
            return Err(BoardError::UnknownJob(id));
        }
        let idx = id.0 as usize;
        if let JobSlot::Removed(_) = &self.jobs[idx] {
            return Err(BoardError::UnknownJob(id));
        }
        let placeholder = JobSlot::Removed(JobOutcome { status: JobStatus::Running, skipped_segments: 0 });
        let slot = self.replace_slot(idx, placeholder);
        match slot {
            JobSlot::Live(mut rec) => {
                let slot_index = rec.waiters_woken.len();
                rec.waiters_woken.push(false);
                self.put_back(id, rec);
                proof {
                    self.lemma_wf_after_update(old(self), id);
                }
                Ok(CompletionWaiter { job: id, slot: slot_index })
            },
            JobSlot::Removed(_) => {
                assert(false);
                Err(BoardError::UnknownJob(id))
            },
        }
    }

    /// The outcome a waiter receives: `Some` once its job is settled (also
    /// after the job's record was removed), `None` while it runs.
    pub fn poll_completion(&self, waiter: &CompletionWaiter) -> (r: Option<JobOutcome>)
        requires
            self.wf(),
        ensures
            self.issued(waiter.spec_job()) ==> r == self.final_outcome_of(waiter.spec_job()),
            !self.issued(waiter.spec_job()) ==> r is None,
    {
        let idx = waiter.job.0;
        if idx >= self.jobs.len() as u64 {
            return None;
        }
        match &self.jobs[idx as usize] {
            JobSlot::Live(rec) => rec.outcome,
            JobSlot::Removed(o) => Some(*o),
        }
    }

    /// Registers a completion listener: a token handed out once at
    /// settlement, or the outcome at once when the job is already settled.
    pub fn on_completion(&mut self, id: JobId) -> (r: Result<ListenerRegistration, BoardError>)
        requires
            old(self).wf(),
        ensures
            final(self).wf(),
            !old(self).has_job(id) ==> r == Err::<ListenerRegistration, BoardError>(
                BoardError::UnknownJob(id),
            ) && *final(self) == *old(self),
            old(self).has_job(id) && old(self).outcome_of(id) is Some ==> r == Ok::<
                ListenerRegistration,
                BoardError,
            >(ListenerRegistration::AlreadySettled(old(self).outcome_of(id)->Some_0)),
            old(self).has_job(id) && old(self).outcome_of(id) is None ==> (r matches Ok(
                ListenerRegistration::Registered(t),
            ) && final(self).has_job(id) && t == old(self).listeners_of(id).len() && final(self).listeners_of(id) == old(self).listeners_of(id).push(t) && final(self).outcome_of(id) is None),
            old(self).has_job(id) ==> final(self).others_same(old(self), id) && final(self).wake_counts_same(old(self)),
    {
        if id.0 >= self.jobs.len() as u64 {
            return Err(BoardError::UnknownJob(id));
        }
        let idx = id.0 as usize;
        match &self.jobs[idx] {
            JobSlot::Removed(_) => {
                return Err(BoardError::UnknownJob(id));
            },
            JobSlot::Live(rec) => {
                if let Some(o) = rec.outcome {
                    return Ok(ListenerRegistration::AlreadySettled(o));
                }
            },
        }
        let placeholder = JobSlot::Removed(JobOutcome { status: JobStatus::Running, skipped_segments: 0 });
        let slot = self.replace_slot(idx, placeholder);
        match slot {
            JobSlot::Live(mut rec) => {
                let token = rec.listeners.len() as u64;
                rec.listeners.push(token);
                self.put_back(id, rec);
                proof {
                    self.lemma_wf_after_update(old(self), id);
                }
                Ok(ListenerRegistration::Registered(token))
            },
            JobSlot::Removed(_) => {
                assert(false);
                Err(BoardError::UnknownJob(id))
            },
        }
    }

    /// The wake counts are untouched.
    pub closed spec fn wake_counts_same(&self, old: &JobBoard) -> bool {
        self.wake_gate == old.wake_gate
    }

    /// Records real progress of an owner: its consecutive-wake count resets.
    pub fn record_progress(&mut self, owner: &OwnerId)
        requires
            old(self).wf(),
        ensures
            final(self).wf(),
            final(self).wakes_of(owner.name()) == 0,
            forall|o: Seq<char>| o != owner.name() ==> final(self).wakes_of(o) == old(self).wakes_of(o),
            final(self).jobs_same(old(self)),
    {
        self.wake_gate.record_progress(owner);
    }

    /// An owner's consecutive count of wakes without progress.
    pub fn consecutive_wakes(&self, owner: &OwnerId) -> (n: u32)
        ensures
            n == self.wakes_of(owner.name()),
    {
        self.wake_gate.consecutive_wakes(owner)
    }

    /// Releases a settled job's record (its output too); running jobs are refused.
    pub fn remove_job(&mut self, id: JobId) -> (r: Result<(), BoardError>)
        requires
            old(self).wf(),
        ensures
            final(self).wf(),
            !old(self).has_job(id) ==> r == Err::<(), BoardError>(BoardError::UnknownJob(id))
                && *final(self) == *old(self),
            old(self).has_job(id) && old(self).outcome_of(id) is None ==> r == Err::<(), BoardError>(
                BoardError::NotSettled(id),
            ) && *final(self) == *old(self),
            old(self).has_job(id) && old(self).outcome_of(id) is Some ==> r is Ok && !final(self).has_job(id)
                && final(self).issued(id) && final(self).final_outcome_of(id) == old(self).outcome_of(id)
                && final(self).others_same(old(self), id) && final(self).wakes_same(old(self)),
    {
        if id.0 >= self.jobs.len() as u64 {
            return Err(BoardError::UnknownJob(id));
        }
        let idx = id.0 as usize;
        let outcome = match &self.jobs[idx] {
            JobSlot::Removed(_) => {
                return Err(BoardError::UnknownJob(id));
            },
            JobSlot::Live(rec) => match rec.outcome {
                None => {
                    return Err(BoardError::NotSettled(id));
                },
                Some(o) => o,
            },
        };
        let _ = self.replace_slot(idx, JobSlot::Removed(outcome));
        proof {
            self.lemma_wf_after_update(old(self), id);
        }
        Ok(())
    }

    /// Settlement: queued segments skipped, outcome recorded, every unwoken
    /// waiter released once, listeners handed out once, and an idle owner's
    /// follow-up wake decided by the wake limiter.
    fn terminate(&mut self, handle: &JobHandle, status: JobStatus) -> (r: Result<SettleReport, BoardError>)
        requires
            old(self).wf(),
        ensures
            final(self).wf(),
            old(self).handle_error(*handle) matches Some(e) ==> r == Err::<SettleReport, BoardError>(e)
                && *final(self) == *old(self),
            old(self).handle_error(*handle) is None ==> (r matches Ok(rep) && settled_as(
                *old(self),
                *final(self),
                *handle,
                status,
                rep,
            )),
    {
        let mut rec = self.take_checked(handle)?;
        let skipped = skip_queued_segments(&mut rec.segments);
        let outcome = JobOutcome { status, skipped_segments: skipped };
        rec.outcome = Some(outcome);
        let released = release_waiters(&mut rec.waiters_woken);
        let listeners: Vec<u64> = if rec.notified {
            Vec::new()
        } else {
            rec.notified = true;
            let mut taken: Vec<u64> = Vec::new();
            std::mem::swap(&mut taken, &mut rec.listeners);
            taken
        };
        let owner = handle.owner.clone_owner();
        self.put_back(handle.id, rec);
        proof {
            self.lemma_wf_after_update(old(self), handle.id);
        }
        let ghost mid = *self;
        let owner_wake = if self.owner_is_idle(&owner) {
            Some(self.wake_gate.try_wake(&owner))
        } else {
            None
        };
        proof {
            lemma_idle_follows_jobs(mid, *self, owner.name());
        }
        Ok(SettleReport { outcome, waiters_released: released, owner_wake, listeners })
    }

    fn owner_is_idle(&self, owner: &OwnerId) -> (b: bool)
        requires
            self.wf(),
        ensures
            b == self.owner_idle(owner.name()),
    {
        let mut i: usize = 0;
        while i < self.jobs.len()
            invariant
                i <= self.jobs@.len(),
                self.jobs@.len() == self.next_id,
                forall|j: u64|
                    #![trigger self.has_job(JobId(j))]
                    j < i && self.has_job(JobId(j)) && self.outcome_of(JobId(j)) is None
                        && self.owner_of(JobId(j)) == owner.name() ==> !self.segments_of(JobId(j)).contains(SegmentState::Started),
            decreases self.jobs@.len() - i,
        {
            match &self.jobs[i] {
                JobSlot::Removed(_) => {},
                JobSlot::Live(rec) => {
                    if rec.outcome.is_none() && str_eq(rec.owner.as_str(), owner.as_str())
                        && has_started(&rec.segments) {
                        assert(self.has_job(JobId(i as u64)));
                        return false;
                    }
                },
            }
            i = i + 1;
        }
        true
    }
}

proof fn lemma_idle_follows_jobs(a: JobBoard, b: JobBoard, owner: Seq<char>)
    requires
        a.jobs@ == b.jobs@,
    ensures
        a.owner_idle(owner) == b.owner_idle(owner),
{
    if a.owner_idle(owner) {
        assert forall|j: u64|
            b.has_job(JobId(j)) && b.outcome_of(JobId(j)) is None && b.owner_of(JobId(j)) == owner implies !b.segments_of(
            JobId(j),
        ).contains(SegmentState::Started) by {
            assert(a.has_job(JobId(j)));
        }
    }
    if b.owner_idle(owner) {
        assert forall|j: u64|
            a.has_job(JobId(j)) && a.outcome_of(JobId(j)) is None && a.owner_of(JobId(j)) == owner implies !a.segments_of(
            JobId(j),
        ).contains(SegmentState::Started) by {
            assert(b.has_job(JobId(j)));
        }
    }
}

fn has_started(segments: &Vec<SegmentState>) -> (b: bool)
    ensures
        b == segments@.contains(SegmentState::Started),
{
    let mut k: usize = 0;
    while k < segments.len()
        invariant
            k <= segments@.len(),
            forall|q: int| 0 <= q < k ==> segments@[q] != SegmentState::Started,
        decreases segments@.len() - k,
    {
        if segments[k] == SegmentState::Started {
            return true;
        }
        k = k + 1;
    }
    false
}

/// Turns queued segments into skipped ones; returns how many there were.
fn skip_queued_segments(segments: &mut Vec<SegmentState>) -> (skipped: u32)
    requires
        old(segments)@.len() <= u32::MAX,
    ensures
        final(segments)@ == skip_queued(old(segments)@),
        skipped == count_queued(old(segments)@),
{
    let ghost s0 = segments@;
    let mut skipped: u32 = 0;
    let mut i: usize = 0;
    while i < segments.len()
        invariant
            i <= s0.len(),
            s0.len() <= u32::MAX,
            segments@.len() == s0.len(),
            skipped == count_queued(s0.take(i as int)),
            skipped <= i,
            forall|j: int| 0 <= j < i ==> segments@[j] == skip_queued(s0)[j],
            forall|j: int| i <= j < s0.len() ==> segments@[j] == s0[j],
        decreases s0.len() - i,
    {
        assert(s0.take(i as int + 1).drop_last() =~= s0.take(i as int));
        if segments[i] == SegmentState::Queued {
            segments.set(i, SegmentState::Skipped);
            skipped = skipped + 1;
        }
        i = i + 1;
    }
    assert(s0.take(s0.len() as int) =~= s0);
    assert(segments@ =~= skip_queued(s0));
    skipped
}

/// Marks every waiter woken; returns how many were not woken before.
fn release_waiters(woken: &mut Vec<bool>) -> (released: usize)
    ensures
        final(woken)@ == Seq::new(old(woken)@.len(), |i: int| true),
        released == count_unwoken(old(woken)@),
{
    let ghost w0 = woken@;
    let mut released: usize = 0;
    let mut k: usize = 0;
    while k < woken.len()
        invariant
            k <= w0.len(),
            woken@.len() == w0.len(),
            released == count_unwoken(w0.take(k as int)),
            released <= k,
            forall|j: int| 0 <= j < k ==> woken@[j],
            forall|j: int| k <= j < w0.len() ==> woken@[j] == w0[j],
        decreases w0.len() - k,
    {
        assert(w0.take(k as int + 1).drop_last() =~= w0.take(k as int));
        if !woken[k] {
            woken.set(k, true);
            released = released + 1;
        }
        k = k + 1;
    }
    assert(w0.take(w0.len() as int) =~= w0);
    assert(woken@ =~= Seq::new(w0.len(), |i: int| true));
    released
}

impl OwnerId {
    /// A copy of the identifier.
    pub fn clone_owner(&self) -> (o: OwnerId)
        ensures
            o == *self,
    {
        OwnerId(self.0.clone())
    }
}

/// What a successful settlement of `h` with `status` did to the board.
pub open spec fn settled_as(old: JobBoard, new: JobBoard, h: JobHandle, status: JobStatus, rep: SettleReport) -> bool {
    let id = h.id;
    let s0 = old.segments_of(id);
    let owner = h.owner.name();
    &&& rep.outcome == JobOutcome { status, skipped_segments: count_queued(s0) as u32 }
    &&& new.has_job(id)
    &&& new.outcome_of(id) == Some(rep.outcome)
    &&& new.segments_of(id) == skip_queued(s0)
    &&& new.ring_of(id) == old.ring_of(id)
    &&& new.owner_of(id) == old.owner_of(id)
    &&& rep.waiters_released == count_unwoken(old.waiters_of(id))
    &&& new.waiters_of(id) == Seq::new(old.waiters_of(id).len(), |i: int| true)
    &&& rep.listeners@ == if old.notified_of(id) {
        Seq::<u64>::empty()
    } else {
        old.listeners_of(id)
    }
    &&& new.notified_of(id)
    &&& new.listeners_of(id) == if old.notified_of(id) {
        old.listeners_of(id)
    } else {
        Seq::<u64>::empty()
    }
    &&& new.others_same(&old, id)
    &&& rep.owner_wake == if new.owner_idle(owner) {
        Some(wake_step(old.wakes_of(owner), old.spec_config().max_consecutive_wakes).0)
    } else {
        None::<WakeDecision>
    }
    &&& new.wakes_of(owner) == if new.owner_idle(owner) {
        wake_step(old.wakes_of(owner), old.spec_config().max_consecutive_wakes).1
    } else {
        old.wakes_of(owner)
    }
    &&& forall|o: Seq<char>| o != owner ==> new.wakes_of(o) == old.wakes_of(o)
}

/// A settled job refuses further writes, starts, finishes and settlements.
pub proof fn settled_jobs_are_final(b: JobBoard, h: JobHandle)
    requires
        b.has_job(h.id),
        b.owner_of(h.id) == h.owner.name(),
        b.outcome_of(h.id) is Some,
    ensures
        b.handle_error(h) == Some(BoardError::AlreadySettled(h.id)),
{
}

/// A handle whose owner differs from the registered owner is refused.
pub proof fn ownership_is_checked(b: JobBoard, h: JobHandle)
    requires
        b.has_job(h.id),
        b.owner_of(h.id) != h.owner.name(),
    ensures
        b.handle_error(h) == Some(BoardError::WrongOwner { job: h.id }),
{
}

/// Settlement touches only queued segments: every other segment keeps its
/// state, and no segment is left queued.
pub proof fn cancellation_spares_started_segments(s: Seq<SegmentState>)
    ensures
        skip_queued(s).len() == s.len(),
        forall|i: int| 0 <= i < s.len() && s[i] != SegmentState::Queued ==> skip_queued(s)[i] == s[i],
        forall|i: int| 0 <= i < s.len() ==> skip_queued(s)[i] != SegmentState::Queued,
        !skip_queued(s).contains(SegmentState::Queued),
{
}

/// Follow-up wakes without progress never exceed the cap: a wake is granted
/// only below it.
pub proof fn wakes_are_capped(count: u32, cap: u32)
    ensures
        wake_step(count, cap).0 == WakeDecision::Proceed ==> wake_step(count, cap).1 <= cap,
        count >= cap ==> wake_step(count, cap).0 == WakeDecision::Suppressed && wake_step(count, cap).1
            == count,
{
}

} // verus!
