//! The append-only activity event log of a durable run.
//!
//! Every event carries a sequence number that the log itself assigns: the
//! event at position `i` always has `seq == i + 1`. Payloads (`input`,
//! `output`) are held as their compact JSON text, which is also what replay
//! compares. Timestamps are supplied by the caller.

use vstd::prelude::*;
use crate::text::{is_ws, is_whitespace_char, push_str, push_decimal, decimal, str_eq, lines_of, text_lines};
use super::{DurableError, DurableErrorView};

verus! {

broadcast use vstd::string::group_string_axioms;

/// The `activity_id` under which run-level events are recorded.
pub const RUN_EVENT_ACTOR: &'static str = "run";

/// What a history event records.
#[derive(Debug, Clone, Copy, PartialEq, Eq, Structural)]
pub enum ActivityEventKind {
    RunStarted,
    ActivityScheduled,
    ActivityCompleted,
    ActivityFailed,
    RunCompleted,
    RunFailed,
}

pub open spec fn event_kind_text(k: ActivityEventKind) -> Seq<char> {
    match k {
        ActivityEventKind::RunStarted => "run_started"@,
        ActivityEventKind::ActivityScheduled => "activity_scheduled"@,
        ActivityEventKind::ActivityCompleted => "activity_completed"@,
        ActivityEventKind::ActivityFailed => "activity_failed"@,
        ActivityEventKind::RunCompleted => "run_completed"@,
        ActivityEventKind::RunFailed => "run_failed"@,
    }
}

impl ActivityEventKind {
    /// The snake_case name of the kind.
    pub fn as_str(&self) -> (s: &'static str)
        ensures
            s@ == event_kind_text(*self),
    {
        match self {
            ActivityEventKind::RunStarted => "run_started",
            ActivityEventKind::ActivityScheduled => "activity_scheduled",
            ActivityEventKind::ActivityCompleted => "activity_completed",
            ActivityEventKind::ActivityFailed => "activity_failed",
            ActivityEventKind::RunCompleted => "run_completed",
            ActivityEventKind::RunFailed => "run_failed",
        }
    }
}

/// One history entry.
#[derive(Debug, Clone, PartialEq, Eq)]
pub struct ActivityEvent {
    /// Position in the log, 1-based, assigned by the log.
    pub seq: u64,
    pub kind: ActivityEventKind,
    /// The activity; run-level events use [`RUN_EVENT_ACTOR`].
    pub activity_id: String,
    /// Input as compact JSON text (recorded with schedules and run starts).
    pub input: Option<String>,
    /// Output as compact JSON text (recorded with completions).
    pub output: Option<String>,
    /// Error text (recorded with failures).
    pub error: Option<String>,
    /// Attempt number, 1-based; 0 for run-level events.
    pub attempt: u32,
    /// Caller-supplied time, Unix epoch milliseconds.
    pub timestamp_ms: i64,
}

/// An event as plain values.
pub struct EventView {
    pub seq: u64,
    pub kind: ActivityEventKind,
    pub activity_id: Seq<char>,
    pub input: Option<Seq<char>>,
    pub output: Option<Seq<char>>,
    pub error: Option<Seq<char>>,
    pub attempt: u32,
    pub timestamp_ms: i64,
}

pub open spec fn opt_text(o: Option<String>) -> Option<Seq<char>> {
    match o {
        Some(s) => Some(s@),
        None => None,
    }
}

impl View for ActivityEvent {
    type V = EventView;

    open spec fn view(&self) -> EventView {
        EventView {
            seq: self.seq,
            kind: self.kind,
            activity_id: self.activity_id@,
            input: opt_text(self.input),
            output: opt_text(self.output),
            error: opt_text(self.error),
            attempt: self.attempt,
            timestamp_ms: self.timestamp_ms,
        }
    }
}

fn clone_text(o: &Option<String>) -> (r: Option<String>)
    ensures
        opt_text(r) == opt_text(*o),
{
    match o {
        Some(s) => Some(s.clone()),
        None => None,
    }
}

impl ActivityEvent {
    /// A copy of the event.
    pub fn duplicate(&self) -> (e: ActivityEvent)
        ensures
            e@ == self@,
    {
        ActivityEvent {
            seq: self.seq,
            kind: self.kind,
            activity_id: self.activity_id.clone(),
            input: clone_text(&self.input),
            output: clone_text(&self.output),
            error: clone_text(&self.error),
            attempt: self.attempt,
            timestamp_ms: self.timestamp_ms,
        }
    }
}

/// The log with one more event, numbered after the last.
pub open spec fn appended(
    evs: Seq<EventView>,
    kind: ActivityEventKind,
    activity_id: Seq<char>,
    input: Option<Seq<char>>,
    output: Option<Seq<char>>,
    error: Option<Seq<char>>,
    attempt: u32,
    timestamp_ms: i64,
) -> Seq<EventView> {
    evs.push(
        EventView {
            seq: (evs.len() + 1) as u64,
            kind,
            activity_id,
            input,
            output,
            error,
            attempt,
            timestamp_ms,
        },
    )
}

/// The events of `activity_id`.
pub open spec fn of_activity(activity_id: Seq<char>) -> spec_fn(EventView) -> bool {
    |e: EventView| e.activity_id == activity_id
}

/// The events of `kind`.
pub open spec fn of_kind(kind: ActivityEventKind) -> spec_fn(EventView) -> bool {
    |e: EventView| e.kind == kind
}

/// The events stamped at or after `since_ms`.
pub open spec fn stamped_since(since_ms: i64) -> spec_fn(EventView) -> bool {
    |e: EventView| e.timestamp_ms >= since_ms
}

/// The completions of `activity_id`.
pub open spec fn completion_of(activity_id: Seq<char>) -> spec_fn(EventView) -> bool {
    |e: EventView| e.activity_id == activity_id && e.kind == ActivityEventKind::ActivityCompleted
}

/// Every event is numbered by its position.
pub open spec fn numbered_in_order(evs: Seq<EventView>) -> bool {
    forall|i: int| 0 <= i < evs.len() ==> #[trigger] evs[i].seq == i + 1
}

/// The append-only event log.
#[derive(Debug, PartialEq, Eq)]
pub struct DurableHistory {
    events: Vec<ActivityEvent>,
}

impl View for DurableHistory {
    type V = Seq<EventView>;

    closed spec fn view(&self) -> Seq<EventView> {
        self.events@.map_values(|e: ActivityEvent| e@)
    }
}

impl DurableHistory {
    #[verifier::type_invariant]
    spec fn numbered(self) -> bool {
        numbered_in_order(self@)
    }

    /// An empty log.
    pub fn new() -> (h: Self)
        ensures
            h@ == Seq::<EventView>::empty(),
    {
        let h = DurableHistory { events: Vec::new() };
        assert(h@ =~= Seq::<EventView>::empty());
        h
    }

    /// The number of events.
    pub fn len(&self) -> (n: usize)
        ensures
            n == self@.len(),
    {
        self.events.len()
    }

    /// Whether the log holds no event.
    pub fn is_empty(&self) -> (b: bool)
        ensures
            b == (self@.len() == 0),
    {
        self.events.len() == 0
    }

    /// All events, in order of appending; each is numbered by its position.
    pub fn events(&self) -> (r: &[ActivityEvent])
        ensures
            r@.map_values(|e: ActivityEvent| e@) == self@,
            numbered_in_order(self@),
    {
        proof {
            use_type_invariant(self);
        }
        self.events.as_slice()
    }

    /// Appends an event numbered `len + 1`, whatever the caller passed, and
    /// returns that number.
    pub fn record(
        &mut self,
        kind: ActivityEventKind,
        activity_id: &str,
        input: Option<String>,
        output: Option<String>,
        error: Option<String>,
        attempt: u32,
        timestamp_ms: i64,
    ) -> (seq: u64)
        requires
            old(self)@.len() < usize::MAX,
        ensures
            final(self)@ == appended(
                old(self)@,
                kind,
                activity_id@,
                opt_text(input),
                opt_text(output),
                opt_text(error),
                attempt,
                timestamp_ms,
            ),
            seq == old(self)@.len() + 1,
    {
        proof {
            use_type_invariant(&*self);
        }
        let seq = self.events.len() as u64 + 1;
        let ghost before = self@;
        let event = ActivityEvent {
            seq,
            kind,
            activity_id: activity_id.to_string(),
            input,
            output,
            error,
            attempt,
            timestamp_ms,
        };
        let mut events = Vec::new();
        std::mem::swap(&mut events, &mut self.events);
        events.push(event);
        proof {
            assert(events@.map_values(|e: ActivityEvent| e@) =~= appended(
                before,
                kind,
                activity_id@,
                opt_text(input),
                opt_text(output),
                opt_text(error),
                attempt,
                timestamp_ms,
            ));
        }
        self.events = events;
        seq
    }

    /// The events of one activity, in order.
    pub fn filter_activity(&self, activity_id: &str) -> (r: Vec<&ActivityEvent>)
        ensures
            r@.map_values(|e: &ActivityEvent| e@) == self@.filter(of_activity(activity_id@)),
    {
        let ghost evs = self@;
        let ghost pred = of_activity(activity_id@);
        let mut r: Vec<&ActivityEvent> = Vec::new();
        let mut i: usize = 0;
        while i < self.events.len()
            invariant
                evs == self@,
                evs == self.events@.map_values(|e: ActivityEvent| e@),
                pred == of_activity(activity_id@),
                i <= evs.len(),
                r@.map_values(|e: &ActivityEvent| e@) == evs.take(i as int).filter(pred),
            decreases evs.len() - i,
        {
            proof {
                assert(evs.take(i + 1) =~= evs.take(i as int).push(evs[i as int]));
                evs.take(i as int).lemma_filter_push(evs[i as int], pred);
            }
            let ghost before = r@.map_values(|e: &ActivityEvent| e@);
            if str_eq(self.events[i].activity_id.as_str(), activity_id) {
                r.push(&self.events[i]);
                proof {
                    assert(r@.map_values(|e: &ActivityEvent| e@) =~= before.push(evs[i as int]));
                }
            }
            i = i + 1;
        }
        proof {
            assert(evs.take(evs.len() as int) =~= evs);
        }
        r
    }

    /// The events of one kind, in order.
    pub fn filter_kind(&self, kind: ActivityEventKind) -> (r: Vec<&ActivityEvent>)
        ensures
            r@.map_values(|e: &ActivityEvent| e@) == self@.filter(of_kind(kind)),
    {
        let ghost evs = self@;
        let ghost pred = of_kind(kind);
        let mut r: Vec<&ActivityEvent> = Vec::new();
        let mut i: usize = 0;
        while i < self.events.len()
            invariant
                evs == self@,
                evs == self.events@.map_values(|e: ActivityEvent| e@),
                pred == of_kind(kind),
                i <= evs.len(),
                r@.map_values(|e: &ActivityEvent| e@) == evs.take(i as int).filter(pred),
            decreases evs.len() - i,
        {
            proof {
                assert(evs.take(i + 1) =~= evs.take(i as int).push(evs[i as int]));
                evs.take(i as int).lemma_filter_push(evs[i as int], pred);
            }
            let ghost before = r@.map_values(|e: &ActivityEvent| e@);
            if self.events[i].kind == kind {
                r.push(&self.events[i]);
                proof {
                    assert(r@.map_values(|e: &ActivityEvent| e@) =~= before.push(evs[i as int]));
                }
            }
            i = i + 1;
        }
        proof {
            assert(evs.take(evs.len() as int) =~= evs);
        }
        r
    }

    /// The events stamped at or after `since_ms`, in order.
    pub fn since_ms(&self, since_ms: i64) -> (r: Vec<&ActivityEvent>)
        ensures
            r@.map_values(|e: &ActivityEvent| e@) == self@.filter(stamped_since(since_ms)),
    {
        let ghost evs = self@;
        let ghost pred = stamped_since(since_ms);
        let mut r: Vec<&ActivityEvent> = Vec::new();
        let mut i: usize = 0;
        while i < self.events.len()
            invariant
                evs == self@,
                evs == self.events@.map_values(|e: ActivityEvent| e@),
                pred == stamped_since(since_ms),
                i <= evs.len(),
                r@.map_values(|e: &ActivityEvent| e@) == evs.take(i as int).filter(pred),
            decreases evs.len() - i,
        {
            proof {
                assert(evs.take(i + 1) =~= evs.take(i as int).push(evs[i as int]));
                evs.take(i as int).lemma_filter_push(evs[i as int], pred);
            }
            let ghost before = r@.map_values(|e: &ActivityEvent| e@);
            if self.events[i].timestamp_ms >= since_ms {
                r.push(&self.events[i]);
                proof {
                    assert(r@.map_values(|e: &ActivityEvent| e@) =~= before.push(evs[i as int]));
                }
            }
            i = i + 1;
        }
        proof {
            assert(evs.take(evs.len() as int) =~= evs);
        }
        r
    }

    /// The newest `n` events (all of them when fewer), newest first.
    pub fn last_n(&self, n: usize) -> (r: Vec<&ActivityEvent>)
        ensures
            r@.map_values(|e: &ActivityEvent| e@) == self@.skip(
                if n >= self@.len() { 0 } else { self@.len() - n },
            ).reverse(),
    {
        let ghost evs = self@;
        let len = self.events.len();
        let start = if n >= len { 0 } else { len - n };
        let ghost tail = evs.skip(start as int);
        let mut r: Vec<&ActivityEvent> = Vec::new();
        let mut i: usize = len;
        while i > start
            invariant
                evs == self@,
                evs == self.events@.map_values(|e: ActivityEvent| e@),
                len == evs.len(),
                start <= i <= len,
                tail == evs.skip(start as int),
                r@.map_values(|e: &ActivityEvent| e@) == evs.subrange(i as int, len as int).reverse(),
            decreases i - start,
        {
            i = i - 1;
            let ghost before = r@.map_values(|e: &ActivityEvent| e@);
            r.push(&self.events[i]);
            proof {
                assert(r@.map_values(|e: &ActivityEvent| e@) =~= before.push(evs[i as int]));
                assert(evs.subrange(i as int, len as int).reverse() =~= evs.subrange(i + 1, len as int).reverse().push(
                    evs[i as int],
                ));
            }
        }
        proof {
            assert(evs.subrange(start as int, len as int) =~= tail);
        }
        r
    }

    /// How many completions of `activity_id` the log holds.
    pub fn completed_count(&self, activity_id: &str) -> (c: usize)
        ensures
            c == self@.filter(completion_of(activity_id@)).len(),
    {
        let ghost evs = self@;
        let ghost pred = completion_of(activity_id@);
        let mut c: usize = 0;
        let mut i: usize = 0;
        while i < self.events.len()
            invariant
                evs == self@,
                evs == self.events@.map_values(|e: ActivityEvent| e@),
                pred == completion_of(activity_id@),
                i <= evs.len(),
                c == evs.take(i as int).filter(pred).len(),
                c <= i,
            decreases evs.len() - i,
        {
            proof {
                assert(evs.take(i + 1) =~= evs.take(i as int).push(evs[i as int]));
                evs.take(i as int).lemma_filter_push(evs[i as int], pred);
            }
            if self.events[i].kind == ActivityEventKind::ActivityCompleted && str_eq(
                self.events[i].activity_id.as_str(),
                activity_id,
            ) {
                c = c + 1;
            }
            i = i + 1;
        }
        proof {
            assert(evs.take(evs.len() as int) =~= evs);
        }
        c
    }

    /// Rebuilds a log from events read back in order, each with the line it
    /// came from; the first event whose `seq` is not its position refuses
    /// the whole log.
    pub fn from_numbered_events(lines: Vec<(usize, ActivityEvent)>) -> (r: Result<Self, DurableError>)
        ensures
            match first_misnumbered(lines@.map_values(|p: (usize, ActivityEvent)| p.1@)) {
                None => r is Ok && r->Ok_0@ == lines@.map_values(|p: (usize, ActivityEvent)| p.1@),
                Some(i) => r is Err && r->Err_0@ == DurableErrorView::HistoryCorrupted {
                    reason: misnumbered_text(
                        lines@[i].0,
                        lines@[i].1.seq,
                        (i + 1) as nat,
                    ),
                },
            },
    {
        let ghost evs = lines@.map_values(|p: (usize, ActivityEvent)| p.1@);
        let mut events: Vec<ActivityEvent> = Vec::new();
        let ghost all = lines@;
        let mut i: usize = 0;
        while i < lines.len()
            invariant
                all == lines@,
                evs == all.map_values(|p: (usize, ActivityEvent)| p.1@),
                i <= all.len(),
                events@.map_values(|e: ActivityEvent| e@) == evs.take(i as int),
                first_misnumbered(evs.take(i as int)) is None,
            decreases all.len() - i,
        {
            proof {
                assert(evs.take(i + 1).drop_last() =~= evs.take(i as int));
            }
            let line = lines[i].0;
            let event = lines[i].1.duplicate();
            let expected = i as u64 + 1;
            if event.seq != expected {
                proof {
                    assert(evs[i as int] == all[i as int].1@);
                    assert(evs.take(i + 1).last() == evs[i as int]);
                    assert(first_misnumbered(evs.take(i + 1)) == Some(i as int));
                    lemma_misnumbered_prefix_stands(evs, i + 1);
                    assert(first_misnumbered(evs) == Some(i as int));
                }
                let mut reason = String::new();
                push_str(&mut reason, "JSONL line ");
                push_decimal(&mut reason, line as u64);
                push_str(&mut reason, " has seq ");
                push_decimal(&mut reason, event.seq);
                push_str(&mut reason, ", expected monotonic ");
                push_decimal(&mut reason, expected);
                proof {
                    assert(reason@ =~= misnumbered_text(all[i as int].0, all[i as int].1.seq, (i + 1) as nat));
                }
                return Err(DurableError::HistoryCorrupted { reason });
            }
            let ghost before = events@.map_values(|e: ActivityEvent| e@);
            events.push(event);
            proof {
                assert(events@.map_values(|e: ActivityEvent| e@) =~= before.push(evs[i as int]));
            }
            i = i + 1;
        }
        proof {
            assert(evs.take(evs.len() as int) =~= evs);
            lemma_numbered_when_none_misnumbered(evs);
        }
        Ok(DurableHistory { events })
    }
}

impl Clone for DurableHistory {
    fn clone(&self) -> (h: Self)
        ensures
            h@ == self@,
    {
        proof {
            use_type_invariant(self);
        }
        let mut events: Vec<ActivityEvent> = Vec::new();
        let mut i: usize = 0;
        while i < self.events.len()
            invariant
                i <= self.events@.len(),
                numbered_in_order(self@),
                events@.map_values(|e: ActivityEvent| e@) == self@.take(i as int),
            decreases self.events@.len() - i,
        {
            let ghost before = events@.map_values(|e: ActivityEvent| e@);
            events.push(self.events[i].duplicate());
            proof {
                assert(events@.map_values(|e: ActivityEvent| e@) =~= before.push(self@[i as int]));
                assert(self@.take(i + 1) =~= self@.take(i as int).push(self@[i as int]));
            }
            i = i + 1;
        }
        proof {
            assert(self@.take(self@.len() as int) =~= self@);
        }
        DurableHistory { events }
    }
}

impl Default for DurableHistory {
    fn default() -> (h: Self)
        ensures
            h@ == Seq::<EventView>::empty(),
    {
        DurableHistory::new()
    }
}

/// The first position whose event is not numbered by it.
pub open spec fn first_misnumbered(evs: Seq<EventView>) -> Option<int>
    decreases evs.len(),
{
    if evs.len() == 0 {
        None
    } else {
        match first_misnumbered(evs.drop_last()) {
            Some(i) => Some(i),
            None => if evs.last().seq != evs.len() {
                Some(evs.len() - 1)
            } else {
                None
            },
        }
    }
}

pub open spec fn misnumbered_text(line: usize, seq: u64, expected: nat) -> Seq<char> {
    "JSONL line "@ + decimal(line as nat) + " has seq "@ + decimal(seq as nat) + ", expected monotonic "@
        + decimal(expected)
}

proof fn lemma_misnumbered_prefix_stands(evs: Seq<EventView>, k: int)
    requires
        0 <= k <= evs.len(),
        first_misnumbered(evs.take(k)) is Some,
    ensures
        first_misnumbered(evs) == first_misnumbered(evs.take(k)),
    decreases evs.len(),
{
    if k == evs.len() {
        assert(evs.take(k) =~= evs);
    } else {
        assert(evs.drop_last().take(k) =~= evs.take(k));
        lemma_misnumbered_prefix_stands(evs.drop_last(), k);
    }
}

proof fn lemma_numbered_when_none_misnumbered(evs: Seq<EventView>)
    requires
        first_misnumbered(evs) is None,
    ensures
        numbered_in_order(evs),
    decreases evs.len(),
{
    if evs.len() > 0 {
        lemma_numbered_when_none_misnumbered(evs.drop_last());
        assert forall|i: int| 0 <= i < evs.len() implies #[trigger] evs[i].seq == i + 1 by {
            if i < evs.len() - 1 {
                assert(evs[i] == evs.drop_last()[i]);
            }
        }
    }
}

/// The non-blank lines of a JSONL text, each with its 1-based line number.
/// Lines are those of `str::lines`; a line of whitespace only is skipped.
pub fn jsonl_records(text: &str) -> (r: Vec<(usize, String)>)
    ensures
        r@.map_values(|p: (usize, String)| (p.0 as int, p.1@)) == numbered_records(text_lines(text@)),
{
    let lines = lines_of(text);
    let ghost ls = lines@.map_values(|l: String| l@);
    let mut r: Vec<(usize, String)> = Vec::new();
    let mut i: usize = 0;
    while i < lines.len()
        invariant
            ls == lines@.map_values(|l: String| l@),
            i <= ls.len(),
            r@.map_values(|p: (usize, String)| (p.0 as int, p.1@)) == numbered_records(ls.take(i as int)),
        decreases ls.len() - i,
    {
        proof {
            assert(ls.take(i + 1).drop_last() =~= ls.take(i as int));
            assert(ls.take(i + 1).last() == ls[i as int]);
        }
        if !all_whitespace(lines[i].as_str()) {
            let ghost before = r@.map_values(|p: (usize, String)| (p.0 as int, p.1@));
            r.push((i + 1, lines[i].clone()));
            proof {
                assert(r@.map_values(|p: (usize, String)| (p.0 as int, p.1@)) =~= before.push((i + 1, ls[i as int])));
            }
        }
        i = i + 1;
    }
    proof {
        assert(ls.take(ls.len() as int) =~= ls);
    }
    r
}

pub open spec fn blank(l: Seq<char>) -> bool {
    forall|j: int| 0 <= j < l.len() ==> is_ws(#[trigger] l[j])
}

/// The non-blank lines, each with its 1-based position.
pub open spec fn numbered_records(ls: Seq<Seq<char>>) -> Seq<(int, Seq<char>)>
    decreases ls.len(),
{
    if ls.len() == 0 {
        seq![]
    } else if blank(ls.last()) {
        numbered_records(ls.drop_last())
    } else {
        numbered_records(ls.drop_last()).push((ls.len() as int, ls.last()))
    }
}

fn all_whitespace(l: &str) -> (b: bool)
    ensures
        b == blank(l@),
{
    let cs = crate::text::chars_of(l);
    let mut i: usize = 0;
    while i < cs.len()
        invariant
            cs@ == l@,
            i <= cs@.len(),
            forall|j: int| 0 <= j < i ==> is_ws(#[trigger] cs@[j]),
        decreases cs@.len() - i,
    {
        if !is_whitespace_char(cs[i]) {
            return false;
        }
        i = i + 1;
    }
    true
}

} // verus!
