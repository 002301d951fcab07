//! Deterministic replay over a durable history.
//!
//! A [`DurableRun`] holds a history and a cursor into it. While the cursor
//! is inside the recorded history, an activity request is answered from the
//! journal: a recorded attempt chain `(scheduled, failed)* scheduled,
//! completed` gives back the recorded output and runs nothing; a chain that
//! stops after a schedule (a crash between the two writes) re-runs that
//! attempt (at least once); a chain that stops after a failure continues the
//! retry budget; a request that differs from the recorded schedule fails
//! closed. Past the end of the history, activities run fresh through the
//! supplied [`ActivityExecutor`] and are appended.
//!
//! What the executor answers cannot be known in advance, so the contracts
//! speak of the answers it gave, in order: each is one the executor allows
//! itself ([`ActivityExecutor::may_answer`]), there is one per executor call,
//! and for every such sequence the run's result and journal are fixed. A
//! replayed request takes no answer at all: a recorded activity's side
//! effect is never repeated.

use vstd::prelude::*;
use crate::text::{push_str, push_char, push_decimal, decimal, str_eq, chars_of};
use super::history::{
    appended, event_kind_text, opt_text, ActivityEvent, ActivityEventKind, DurableHistory, EventView, RUN_EVENT_ACTOR,
};
use super::retry::RetryPolicy;
use super::{debug_str, debug_text, DurableError, DurableErrorView};

verus! {

broadcast use vstd::string::group_string_axioms;

/// Runs one attempt of an activity, with its side effects.
pub trait ActivityExecutor {
    /// Whether `answer` is one this executor may give when asked to run
    /// `activity_id` on `input`: what an implementation knows of itself.
    /// An implementation that states nothing of itself allows every answer.
    closed spec fn may_answer(&self, activity_id: Seq<char>, input: Seq<char>, answer: Result<Seq<char>, Seq<char>>) -> bool {
        true
    }

    /// Runs `activity_id` on `input` (compact JSON text); `Ok` holds the
    /// output as compact JSON text, `Err` fails this attempt.
    fn execute(&self, activity_id: &str, input: &str) -> (r: Result<String, String>)
        ensures
            self.may_answer(activity_id@, input@, answer_view(r)),
    ;
}

/// The executor's answers, in the order it gave them.
pub type Answers = Seq<Result<Seq<char>, Seq<char>>>;

pub open spec fn answer_view(r: Result<String, String>) -> Result<Seq<char>, Seq<char>> {
    match r {
        Ok(o) => Ok(o@),
        Err(e) => Err(e@),
    }
}

pub open spec fn result_view<T: View>(r: Result<T, DurableError>) -> Result<T::V, DurableErrorView> {
    match r {
        Ok(o) => Ok(o@),
        Err(e) => Err(e@),
    }
}

// ---------------------------------------------------------------------------
// Previews of JSON text in error messages
// ---------------------------------------------------------------------------

/// Bytes of `c` in UTF-8.
pub open spec fn utf8_width(c: char) -> int {
    if (c as u32) < 0x80 {
        1
    } else if (c as u32) < 0x800 {
        2
    } else if (c as u32) < 0x10000 {
        3
    } else {
        4
    }
}

/// Bytes of `s` in UTF-8.
pub open spec fn utf8_len(s: Seq<char>) -> int
    decreases s.len(),
{
    if s.len() == 0 {
        0
    } else {
        utf8_len(s.drop_last()) + utf8_width(s.last())
    }
}

/// The longest prefix of `s` whose UTF-8 bytes fit in `room`.
pub open spec fn fitting_prefix(s: Seq<char>, room: int) -> Seq<char>
    decreases s.len(),
{
    if s.len() == 0 || utf8_width(s[0]) > room {
        seq![]
    } else {
        seq![s[0]] + fitting_prefix(s.drop_first(), room - utf8_width(s[0]))
    }
}

/// A JSON text as an error message shows it: whole up to 128 bytes, else its
/// first 128 bytes and an ellipsis (where the 128th byte falls inside a
/// character, the cut is made before that character).
pub open spec fn preview_text(s: Seq<char>) -> Seq<char> {
    if utf8_len(s) <= 128 {
        s
    } else {
        fitting_prefix(s, 128) + "…"@
    }
}

/// How an event is described in a replay mismatch.
pub open spec fn summary_text(e: EventView) -> Seq<char> {
    "kind="@ + event_kind_text(e.kind) + " activity_id="@ + debug_text(e.activity_id) + " input="@ + match e.input {
        Some(i) => preview_text(i),
        None => "null"@,
    }
}

proof fn lemma_utf8_len_prefix(s: Seq<char>, k: int)
    requires
        0 <= k <= s.len(),
    ensures
        utf8_len(s.take(k)) <= utf8_len(s),
    decreases s.len(),
{
    if k < s.len() {
        assert(s.drop_last().take(k) =~= s.take(k));
        lemma_utf8_len_prefix(s.drop_last(), k);
    } else {
        assert(s.take(k) =~= s);
    }
}

fn char_width(c: char) -> (w: usize)
    ensures
        w == utf8_width(c),
{
    let u = c as u32;
    if u < 0x80 {
        1
    } else if u < 0x800 {
        2
    } else if u < 0x10000 {
        3
    } else {
        4
    }
}

proof fn lemma_utf8_len_step(t: Seq<char>, i: int)
    requires
        0 <= i < t.len(),
    ensures
        utf8_len(t.take(i + 1)) == utf8_len(t.take(i)) + utf8_width(t[i]),
{
    assert(t.take(i + 1).drop_last() =~= t.take(i));
    assert(t.take(i + 1).last() == t[i]);
}

proof fn lemma_fitting_step(t: Seq<char>, i: int, room: int)
    requires
        0 <= i < t.len(),
    ensures
        utf8_width(t[i]) > room ==> fitting_prefix(t.skip(i), room) == Seq::<char>::empty(),
        utf8_width(t[i]) <= room ==> fitting_prefix(t.skip(i), room) == seq![t[i]] + fitting_prefix(
            t.skip(i + 1),
            room - utf8_width(t[i]),
        ),
{
    assert(t.skip(i)[0] == t[i]);
    assert(t.skip(i).drop_first() =~= t.skip(i + 1));
}

fn preview(s: &str) -> (p: String)
    ensures
        p@ == preview_text(s@),
{
    let cs = chars_of(s);
    let ghost t = s@;
    let mut out = String::new();
    let mut used: usize = 0;
    let mut i: usize = 0;
    proof {
        assert(t.skip(0) =~= t);
        assert(t.take(0) =~= Seq::<char>::empty());
        assert(Seq::<char>::empty() + fitting_prefix(t, 128) =~= fitting_prefix(t, 128));
    }
    while i < cs.len()
        invariant
            cs@ == t,
            t == s@,
            i <= t.len(),
            used <= 128,
            used == utf8_len(t.take(i as int)),
            out@ == t.take(i as int),
            fitting_prefix(t, 128) == t.take(i as int) + fitting_prefix(t.skip(i as int), 128 - used),
        decreases t.len() - i,
    {
        let c = cs[i];
        let w = char_width(c);
        proof {
            lemma_utf8_len_step(t, i as int);
            lemma_fitting_step(t, i as int, 128 - used);
        }
        if used + w > 128 {
            proof {
                lemma_utf8_len_prefix(t, i + 1);
                assert(utf8_len(t) > 128);
                assert(fitting_prefix(t.skip(i as int), 128 - used) == Seq::<char>::empty());
                assert(t.take(i as int) + Seq::<char>::empty() =~= t.take(i as int));
                assert(fitting_prefix(t, 128) == t.take(i as int));
            }
            let ghost before = out@;
            push_str(&mut out, "…");
            proof {
                assert(out@ == before + "…"@);
                assert(preview_text(t) == fitting_prefix(t, 128) + "…"@);
            }
            return out;
        }
        proof {
            assert(t.take(i + 1) =~= t.take(i as int) + seq![c]);
            assert(t.take(i as int) + (seq![c] + fitting_prefix(t.skip(i + 1), 128 - used - w)) =~= t.take(i + 1)
                + fitting_prefix(t.skip(i + 1), 128 - used - w));
        }
        push_char(&mut out, c);
        used = used + w;
        i = i + 1;
    }
    proof {
        assert(t.take(t.len() as int) =~= t);
    }
    out
}

fn event_summary(e: &ActivityEvent) -> (s: String)
    ensures
        s@ == summary_text(e@),
{
    let mut s = String::new();
    push_str(&mut s, "kind=");
    push_str(&mut s, e.kind.as_str());
    push_str(&mut s, " activity_id=");
    let d = debug_str(e.activity_id.as_str());
    push_str(&mut s, d.as_str());
    push_str(&mut s, " input=");
    match &e.input {
        Some(i) => {
            let p = preview(i.as_str());
            push_str(&mut s, p.as_str());
        },
        None => {
            push_str(&mut s, "null");
        },
    }
    s
}

// ---------------------------------------------------------------------------
// The run as plain values
// ---------------------------------------------------------------------------

/// A run as plain values: its journal, the replay cursor, and whether the
/// run was completed or failed.
pub struct RunView {
    pub events: Seq<EventView>,
    pub cursor: int,
    pub finished: bool,
}

/// A fresh attempt `attempt`: scheduled, then settled by the executor.
pub open spec fn fresh_from(
    evs: Seq<EventView>,
    id: Seq<char>,
    input: Seq<char>,
    max: u32,
    ts: i64,
    attempt: u32,
    answers: Answers,
) -> (Seq<EventView>, Result<Seq<char>, DurableErrorView>)
    decreases u32::MAX - attempt, 1int,
{
    settle(
        appended(evs, ActivityEventKind::ActivityScheduled, id, Some(input), None, None, attempt, ts),
        id,
        input,
        max,
        ts,
        attempt,
        answers,
    )
}

/// Attempt `attempt`, already scheduled, settled by the executor's next
/// answer: a completion, or a failure retried while the budget lasts.
pub open spec fn settle(
    evs: Seq<EventView>,
    id: Seq<char>,
    input: Seq<char>,
    max: u32,
    ts: i64,
    attempt: u32,
    answers: Answers,
) -> (Seq<EventView>, Result<Seq<char>, DurableErrorView>)
    decreases u32::MAX - attempt, 0int,
{
    match answers[0] {
        Ok(o) => (appended(evs, ActivityEventKind::ActivityCompleted, id, None, Some(o), None, attempt, ts), Ok(o)),
        Err(e) => {
            let failed = appended(evs, ActivityEventKind::ActivityFailed, id, None, None, Some(e), attempt, ts);
            if attempt < max {
                fresh_from(failed, id, input, max, ts, (attempt + 1) as u32, answers.drop_first())
            } else {
                (failed, Err(DurableErrorView::ActivityFailed { activity_id: id, error: e, attempt }))
            }
        },
    }
}

/// How many answers attempt `attempt` and its retries take from the
/// executor: one per attempt, until a completion or the last failure.
pub open spec fn calls_from(max: u32, attempt: u32, answers: Answers) -> nat
    decreases u32::MAX - attempt,
{
    match answers[0] {
        Ok(_) => 1,
        Err(_) => if attempt < max {
            1 + calls_from(max, (attempt + 1) as u32, answers.drop_first())
        } else {
            1
        },
    }
}

/// Replay from position `c`, just after a matching schedule of attempt
/// `attempt`: the journal, the cursor, and the result.
pub open spec fn replay_after(
    evs: Seq<EventView>,
    c: int,
    id: Seq<char>,
    input: Seq<char>,
    max: u32,
    ts: i64,
    attempt: u32,
    answers: Answers,
) -> (Seq<EventView>, int, Result<Seq<char>, DurableErrorView>)
    decreases evs.len() - c,
{
    if c >= evs.len() {
        let (e, r) = settle(evs, id, input, max, ts, attempt, answers);
        (e, e.len() as int, r)
    } else {
        let o = evs[c];
        if o.activity_id != id {
            (
                evs,
                c,
                Err(
                    DurableErrorView::HistoryCorrupted {
                        reason: "outcome activity_id "@ + debug_text(o.activity_id) + " != scheduled "@ + debug_text(id),
                    },
                ),
            )
        } else if o.kind == ActivityEventKind::ActivityCompleted {
            (
                evs,
                c + 1,
                Ok(
                    match o.output {
                        Some(x) => x,
                        None => "null"@,
                    },
                ),
            )
        } else if o.kind == ActivityEventKind::ActivityFailed {
            let err = match o.error {
                Some(x) => x,
                None => Seq::<char>::empty(),
            };
            if c + 1 < evs.len() {
                let n = evs[c + 1];
                if n.kind == ActivityEventKind::ActivityScheduled && n.activity_id == id && n.input == Some(input) {
                    replay_after(evs, c + 2, id, input, max, ts, n.attempt, answers)
                } else {
                    (evs, c + 1, Err(DurableErrorView::ActivityFailed { activity_id: id, error: err, attempt: o.attempt }))
                }
            } else if o.attempt < max {
                let (e, r) = fresh_from(evs, id, input, max, ts, (o.attempt + 1) as u32, answers);
                (e, e.len() as int, r)
            } else {
                (evs, c + 1, Err(DurableErrorView::ActivityFailed { activity_id: id, error: err, attempt: o.attempt }))
            }
        } else {
            (
                evs,
                c,
                Err(
                    DurableErrorView::HistoryCorrupted {
                        reason: "expected activity_completed or activity_failed after scheduled, found "@
                            + event_kind_text(o.kind),
                    },
                ),
            )
        }
    }
}

/// How many answers the replay from position `c` takes from the executor:
/// none while the journal answers, and those of the fresh attempts once the
/// recorded chain runs out before it settled.
pub open spec fn replay_calls(
    evs: Seq<EventView>,
    c: int,
    id: Seq<char>,
    input: Seq<char>,
    max: u32,
    attempt: u32,
    answers: Answers,
) -> nat
    decreases evs.len() - c,
{
    if c >= evs.len() {
        calls_from(max, attempt, answers)
    } else {
        let o = evs[c];
        if o.activity_id != id || o.kind != ActivityEventKind::ActivityFailed {
            0
        } else if c + 1 < evs.len() {
            let n = evs[c + 1];
            if n.kind == ActivityEventKind::ActivityScheduled && n.activity_id == id && n.input == Some(input) {
                replay_calls(evs, c + 2, id, input, max, n.attempt, answers)
            } else {
                0
            }
        } else if o.attempt < max {
            calls_from(max, (o.attempt + 1) as u32, answers)
        } else {
            0
        }
    }
}

/// How many answers one activity request takes from the executor.
pub open spec fn executed_calls(st: RunView, id: Seq<char>, input: Seq<char>, max: u32, answers: Answers) -> nat {
    if st.finished {
        0
    } else if 0 <= st.cursor < st.events.len() {
        let s = st.events[st.cursor];
        if s.kind == ActivityEventKind::ActivityScheduled && s.activity_id == id && s.input == Some(input) {
            replay_calls(st.events, st.cursor + 1, id, input, max, s.attempt, answers)
        } else {
            0
        }
    } else {
        calls_from(max, 1, answers)
    }
}

/// Every answer in `answers` is one `executor` may give for the request.
pub open spec fn answers_allowed<E: ActivityExecutor>(
    executor: &E,
    id: Seq<char>,
    input: Seq<char>,
    answers: Answers,
) -> bool {
    forall|i: int| 0 <= i < answers.len() ==> executor.may_answer(id, input, #[trigger] answers[i])
}

/// One activity request on a run: refused once the run is finished,
/// answered from the journal while the cursor is inside it, run fresh past
/// its end.
pub open spec fn executed(
    st: RunView,
    id: Seq<char>,
    input: Seq<char>,
    max: u32,
    ts: i64,
    answers: Answers,
) -> (RunView, Result<Seq<char>, DurableErrorView>) {
    if st.finished {
        (st, Err(DurableErrorView::RunAlreadyFinished))
    } else if 0 <= st.cursor < st.events.len() {
        let s = st.events[st.cursor];
        if s.kind == ActivityEventKind::RunCompleted || s.kind == ActivityEventKind::RunFailed {
            (
                st,
                Err(
                    DurableErrorView::ReplayMismatch {
                        activity_id: id,
                        expected_input: preview_text(input),
                        found: "kind="@ + event_kind_text(s.kind),
                    },
                ),
            )
        } else if s.kind != ActivityEventKind::ActivityScheduled {
            (
                st,
                Err(
                    DurableErrorView::HistoryCorrupted {
                        reason: "replay expected activity_scheduled, found "@ + event_kind_text(s.kind),
                    },
                ),
            )
        } else if s.activity_id != id || s.input != Some(input) {
            (
                st,
                Err(
                    DurableErrorView::ReplayMismatch {
                        activity_id: id,
                        expected_input: preview_text(input),
                        found: summary_text(s),
                    },
                ),
            )
        } else {
            let (e, c, r) = replay_after(st.events, st.cursor + 1, id, input, max, ts, s.attempt, answers);
            (RunView { events: e, cursor: c, finished: false }, r)
        }
    } else {
        let (e, r) = fresh_from(st.events, id, input, max, ts, 1, answers);
        (RunView { events: e, cursor: e.len() as int, finished: false }, r)
    }
}

/// Ending a run with `kind` (`RunCompleted` carrying `output`, or
/// `RunFailed` carrying `error`): refused once finished, matched against the
/// journal while the cursor is inside it, appended past its end.
pub open spec fn ended(
    st: RunView,
    kind: ActivityEventKind,
    output: Option<Seq<char>>,
    error: Option<Seq<char>>,
    ts: i64,
) -> (RunView, Result<(), DurableErrorView>) {
    let other = if kind == ActivityEventKind::RunCompleted {
        ActivityEventKind::RunFailed
    } else {
        ActivityEventKind::RunCompleted
    };
    if st.finished {
        (st, Err(DurableErrorView::RunAlreadyFinished))
    } else if 0 <= st.cursor < st.events.len() {
        let e = st.events[st.cursor];
        if e.kind == kind {
            (RunView { events: st.events, cursor: st.cursor + 1, finished: true }, Ok(()))
        } else {
            (
                st,
                Err(
                    DurableErrorView::ReplayMismatch {
                        activity_id: RUN_EVENT_ACTOR@,
                        expected_input: event_kind_text(kind),
                        found: if e.kind == other {
                            "kind="@ + event_kind_text(e.kind)
                        } else {
                            summary_text(e)
                        },
                    },
                ),
            )
        }
    } else {
        let evs = appended(st.events, kind, RUN_EVENT_ACTOR@, None, output, error, 0, ts);
        (RunView { events: evs, cursor: evs.len() as int, finished: true }, Ok(()))
    }
}

/// The run a history resumes to, or why it cannot.
pub open spec fn resumed(evs: Seq<EventView>) -> Result<RunView, DurableErrorView> {
    if evs.len() == 0 {
        Err(DurableErrorView::HistoryCorrupted { reason: "empty history cannot be resumed"@ })
    } else if evs[0].kind != ActivityEventKind::RunStarted || evs[0].seq != 1 {
        Err(
            DurableErrorView::HistoryCorrupted {
                reason: "history must begin with run_started seq=1, got kind="@ + event_kind_text(evs[0].kind)
                    + " seq="@ + decimal(evs[0].seq as nat),
            },
        )
    } else {
        Ok(RunView { events: evs, cursor: 1, finished: false })
    }
}

/// Room the journal must have for one request under a budget of `max`
/// attempts: two events per attempt and two more.
pub open spec fn journal_room(max: u32) -> int {
    2 * max + 2
}

pub open spec fn settle_room(max: u32, attempt: u32) -> int {
    if attempt < max {
        2 * (max - attempt) + 1
    } else {
        1
    }
}

// ---------------------------------------------------------------------------
// Laws of replay
// ---------------------------------------------------------------------------

/// A fresh attempt chain keeps the journal before it, starts with its
/// schedule, and replays, from just after that schedule, to the journal and
/// result it produced, whatever the executor would answer the second time.
proof fn lemma_fresh_chain_replays(
    evs: Seq<EventView>,
    id: Seq<char>,
    input: Seq<char>,
    max: u32,
    ts: i64,
    attempt: u32,
    answers: Answers,
    later_ts: i64,
    later_answers: Answers,
)
    ensures
        ({
            let (e, r) = fresh_from(evs, id, input, max, ts, attempt, answers);
            &&& e.len() >= evs.len() + 2
            &&& forall|i: int| 0 <= i < evs.len() ==> #[trigger] e[i] == evs[i]
            &&& e[evs.len() as int].kind == ActivityEventKind::ActivityScheduled
            &&& e[evs.len() as int].activity_id == id
            &&& e[evs.len() as int].input == Some(input)
            &&& e[evs.len() as int].attempt == attempt
            &&& replay_after(e, evs.len() + 1int, id, input, max, later_ts, attempt, later_answers) == (
                e,
                e.len() as int,
                r,
            )
            &&& replay_calls(e, evs.len() + 1int, id, input, max, attempt, later_answers) == 0
        }),
    decreases u32::MAX - attempt,
{
    let scheduled = appended(evs, ActivityEventKind::ActivityScheduled, id, Some(input), None, None, attempt, ts);
    match answers[0] {
        Ok(o) => {},
        Err(x) => {
            let failed = appended(scheduled, ActivityEventKind::ActivityFailed, id, None, None, Some(x), attempt, ts);
            if attempt < max {
                lemma_fresh_chain_replays(
                    failed,
                    id,
                    input,
                    max,
                    ts,
                    (attempt + 1) as u32,
                    answers.drop_first(),
                    later_ts,
                    later_answers,
                );
                let (e, r) = fresh_from(failed, id, input, max, ts, (attempt + 1) as u32, answers.drop_first());
                assert(e[evs.len() + 1int] == failed[evs.len() + 1int]);
                assert(e[evs.len() as int] == failed[evs.len() as int]);
                assert forall|i: int| 0 <= i < evs.len() implies #[trigger] e[i] == evs[i] by {
                    assert(e[i] == failed[i]);
                }
            }
        },
    }
}

/// Replaying a recorded completion gives back the recorded output, appends
/// nothing, moves past the pair and asks the executor for nothing: the
/// recorded activity's side effect is not repeated.
pub proof fn replaying_a_recorded_completion_runs_nothing(
    st: RunView,
    id: Seq<char>,
    input: Seq<char>,
    max: u32,
    ts: i64,
    answers: Answers,
)
    requires
        !st.finished,
        0 <= st.cursor,
        st.cursor + 1 < st.events.len(),
        st.events[st.cursor].kind == ActivityEventKind::ActivityScheduled,
        st.events[st.cursor].activity_id == id,
        st.events[st.cursor].input == Some(input),
        st.events[st.cursor + 1].kind == ActivityEventKind::ActivityCompleted,
        st.events[st.cursor + 1].activity_id == id,
    ensures
        executed(st, id, input, max, ts, answers) == (
            RunView { events: st.events, cursor: st.cursor + 2, finished: false },
            Ok::<Seq<char>, DurableErrorView>(
                match st.events[st.cursor + 1].output {
                    Some(o) => o,
                    None => "null"@,
                },
            ),
        ),
        executed_calls(st, id, input, max, answers) == 0,
{
}

/// What a request run fresh at the end of the journal did, the same request
/// replayed from the same point gives back: the same result, the same
/// journal (nothing appended), the cursor at its end, and not one call of
/// the executor, whatever it would answer.
pub proof fn a_fresh_request_replays_to_the_same_result(
    st: RunView,
    id: Seq<char>,
    input: Seq<char>,
    max: u32,
    ts: i64,
    answers: Answers,
    later_ts: i64,
    later_answers: Answers,
)
    requires
        !st.finished,
        st.cursor == st.events.len(),
    ensures
        ({
            let (after, r) = executed(st, id, input, max, ts, answers);
            &&& executed(
                RunView { events: after.events, cursor: st.cursor, finished: false },
                id,
                input,
                max,
                later_ts,
                later_answers,
            ) == (after, r)
            &&& executed_calls(
                RunView { events: after.events, cursor: st.cursor, finished: false },
                id,
                input,
                max,
                later_answers,
            ) == 0
        }),
{
    lemma_fresh_chain_replays(st.events, id, input, max, ts, 1, answers, later_ts, later_answers);
}

/// Ending a run and replaying the end from the same point agree: the
/// replay appends nothing and finishes the run at the journal's end.
pub proof fn a_recorded_end_replays(
    st: RunView,
    kind: ActivityEventKind,
    output: Option<Seq<char>>,
    error: Option<Seq<char>>,
    ts: i64,
    later_ts: i64,
)
    requires
        !st.finished,
        st.cursor == st.events.len(),
        kind == ActivityEventKind::RunCompleted || kind == ActivityEventKind::RunFailed,
    ensures
        ({
            let (after, r) = ended(st, kind, output, error, ts);
            &&& r is Ok
            &&& ended(
                RunView { events: after.events, cursor: st.cursor, finished: false },
                kind,
                output,
                error,
                later_ts,
            ) == (after, r)
        }),
{
}

/// Once a run has ended (completed or failed), it refuses every further
/// request with `RunAlreadyFinished`: another end, and an activity request,
/// which asks nothing of the executor. The run is left as it was.
pub proof fn a_finished_run_refuses_further_work(
    st: RunView,
    kind: ActivityEventKind,
    output: Option<Seq<char>>,
    error: Option<Seq<char>>,
    ts: i64,
    next_kind: ActivityEventKind,
    next_output: Option<Seq<char>>,
    next_error: Option<Seq<char>>,
    next_ts: i64,
    id: Seq<char>,
    input: Seq<char>,
    max: u32,
    answers: Answers,
)
    requires
        kind == ActivityEventKind::RunCompleted || kind == ActivityEventKind::RunFailed,
    ensures
        ({
            let (after, r) = ended(st, kind, output, error, ts);
            r is Ok ==> {
                &&& after.finished
                &&& st.cursor == st.events.len() ==> after.events == appended(
                    st.events,
                    kind,
                    RUN_EVENT_ACTOR@,
                    None,
                    output,
                    error,
                    0,
                    ts,
                )
                &&& ended(after, next_kind, next_output, next_error, next_ts) == (
                    after,
                    Err::<(), DurableErrorView>(DurableErrorView::RunAlreadyFinished),
                )
                &&& executed(after, id, input, max, next_ts, answers) == (
                    after,
                    Err::<Seq<char>, DurableErrorView>(DurableErrorView::RunAlreadyFinished),
                )
                &&& executed_calls(after, id, input, max, answers) == 0
            }
        }),
{
}

// ---------------------------------------------------------------------------
// The run
// ---------------------------------------------------------------------------

/// One durable run: an append-only journal and a replay cursor into it.
#[derive(Debug)]
pub struct DurableRun {
    history: DurableHistory,
    cursor: usize,
    finished: bool,
}

impl View for DurableRun {
    type V = RunView;

    closed spec fn view(&self) -> RunView {
        RunView { events: self.history@, cursor: self.cursor as int, finished: self.finished }
    }
}

impl DurableRun {
    #[verifier::type_invariant]
    spec fn cursor_in_journal(self) -> bool {
        self.cursor <= self.history@.len()
    }

    /// Starts a run, recording `RunStarted` with `input` (compact JSON text).
    pub fn start(input: String, now_ms: i64) -> (r: Self)
        ensures
            r@ == (RunView {
                events: appended(
                    Seq::empty(),
                    ActivityEventKind::RunStarted,
                    RUN_EVENT_ACTOR@,
                    Some(input@),
                    None,
                    None,
                    0,
                    now_ms,
                ),
                cursor: 1,
                finished: false,
            }),
    {
        let mut history = DurableHistory::new();
        history.record(ActivityEventKind::RunStarted, RUN_EVENT_ACTOR, Some(input), None, None, 0, now_ms);
        DurableRun { history, cursor: 1, finished: false }
    }

    /// Resumes from a journal, which must begin with `run_started`, seq 1.
    /// Even a journal that ends a run can be replayed: the cursor starts
    /// after the first event and the run is not yet finished.
    pub fn resume(history: DurableHistory) -> (r: Result<Self, DurableError>)
        ensures
            match resumed(history@) {
                Ok(v) => r is Ok && r->Ok_0@ == v,
                Err(e) => r is Err && r->Err_0@ == e,
            },
    {
        if history.is_empty() {
            let mut reason = String::new();
            push_str(&mut reason, "empty history cannot be resumed");
            return Err(DurableError::HistoryCorrupted { reason });
        }
        let first = &history.events()[0];
        if first.kind != ActivityEventKind::RunStarted || first.seq != 1 {
            let mut reason = String::new();
            push_str(&mut reason, "history must begin with run_started seq=1, got kind=");
            push_str(&mut reason, first.kind.as_str());
            push_str(&mut reason, " seq=");
            push_decimal(&mut reason, first.seq);
            return Err(DurableError::HistoryCorrupted { reason });
        }
        Ok(DurableRun { history, cursor: 1, finished: false })
    }

    /// The journal.
    pub fn history(&self) -> (h: &DurableHistory)
        ensures
            h@ == self@.events,
    {
        &self.history
    }

    /// Hands the journal over.
    pub fn into_history(self) -> (h: DurableHistory)
        ensures
            h@ == self@.events,
    {
        self.history
    }

    /// Whether the run was completed or failed through this value.
    pub fn is_finished(&self) -> (b: bool)
        ensures
            b == self@.finished,
    {
        self.finished
    }

    fn append(
        &mut self,
        kind: ActivityEventKind,
        activity_id: &str,
        input: Option<String>,
        output: Option<String>,
        error: Option<String>,
        attempt: u32,
        now_ms: i64,
    )
        requires
            old(self)@.events.len() < usize::MAX,
        ensures
            final(self)@.events == appended(
                old(self)@.events,
                kind,
                activity_id@,
                opt_text(input),
                opt_text(output),
                opt_text(error),
                attempt,
                now_ms,
            ),
            final(self)@.cursor == final(self)@.events.len(),
            final(self)@.finished == old(self)@.finished,
    {
        let mut history = DurableHistory::new();
        self.cursor = 0;
        std::mem::swap(&mut history, &mut self.history);
        history.record(kind, activity_id, input, output, error, attempt, now_ms);
        self.history = history;
        self.cursor = self.history.len();
    }

    /// Runs (or replays) one logical activity: one attempt chain
    /// `(scheduled, failed)* scheduled, completed`, or a final failure once
    /// the budget is spent. Retries do not wait; the caller may sleep for
    /// [`RetryPolicy::backoff_ms`] between requests.
    pub fn execute_activity<E: ActivityExecutor>(
        &mut self,
        activity_id: &str,
        input: String,
        executor: &E,
        policy: RetryPolicy,
        now_ms: i64,
    ) -> (r: Result<String, DurableError>)
        requires
            old(self)@.events.len() + journal_room(policy.max_attempts) < usize::MAX,
        ensures
            exists|answers: Answers|
                {
                    &&& answers_allowed(executor, activity_id@, input@, answers)
                    &&& answers.len() == executed_calls(
                        old(self)@,
                        activity_id@,
                        input@,
                        policy.max_attempts,
                        answers,
                    )
                    &&& executed(old(self)@, activity_id@, input@, policy.max_attempts, now_ms, answers) == (
                        final(self)@,
                        result_view(r),
                    )
                },
    {
        proof {
            use_type_invariant(&*self);
        }
        let ghost st = self@;
        let ghost none = Seq::<Result<Seq<char>, Seq<char>>>::empty();
        if self.finished {
            let r = Err(DurableError::RunAlreadyFinished);
            proof {
                assert(executed(st, activity_id@, input@, policy.max_attempts, now_ms, none) == (self@, result_view(r)));
                assert(executed_calls(st, activity_id@, input@, policy.max_attempts, none) == 0);
                assert(answers_allowed(executor, activity_id@, input@, none));
            }
            return r;
        }
        if self.cursor < self.history.len() {
            let s = &self.history.events()[self.cursor];
            proof {
                assert(s@ == st.events[st.cursor]);
            }
            if s.kind == ActivityEventKind::RunCompleted || s.kind == ActivityEventKind::RunFailed {
                let mut found = String::new();
                push_str(&mut found, "kind=");
                push_str(&mut found, s.kind.as_str());
                let r = Err(
                    DurableError::ReplayMismatch {
                        activity_id: activity_id.to_string(),
                        expected_input: preview(input.as_str()),
                        found,
                    },
                );
                proof {
                    assert(executed(st, activity_id@, input@, policy.max_attempts, now_ms, none) == (self@, result_view(r)));
                    assert(executed_calls(st, activity_id@, input@, policy.max_attempts, none) == 0);
                    assert(answers_allowed(executor, activity_id@, input@, none));
                }
                return r;
            }
            if s.kind != ActivityEventKind::ActivityScheduled {
                let mut reason = String::new();
                push_str(&mut reason, "replay expected activity_scheduled, found ");
                push_str(&mut reason, s.kind.as_str());
                let r = Err(DurableError::HistoryCorrupted { reason });
                proof {
                    assert(executed(st, activity_id@, input@, policy.max_attempts, now_ms, none) == (self@, result_view(r)));
                    assert(executed_calls(st, activity_id@, input@, policy.max_attempts, none) == 0);
                    assert(answers_allowed(executor, activity_id@, input@, none));
                }
                return r;
            }
            let same_input = match &s.input {
                Some(recorded) => str_eq(recorded.as_str(), input.as_str()),
                None => false,
            };
            if !str_eq(s.activity_id.as_str(), activity_id) || !same_input {
                let r = Err(
                    DurableError::ReplayMismatch {
                        activity_id: activity_id.to_string(),
                        expected_input: preview(input.as_str()),
                        found: event_summary(s),
                    },
                );
                proof {
                    assert(executed(st, activity_id@, input@, policy.max_attempts, now_ms, none) == (self@, result_view(r)));
                    assert(executed_calls(st, activity_id@, input@, policy.max_attempts, none) == 0);
                    assert(answers_allowed(executor, activity_id@, input@, none));
                }
                return r;
            }
            let attempt = s.attempt;
            self.cursor = self.cursor + 1;
            let (r, Ghost(answers)) = self.replay_chain(activity_id, &input, executor, policy, now_ms, attempt);
            proof {
                assert(executed(st, activity_id@, input@, policy.max_attempts, now_ms, answers) == (self@, result_view(r)));
            }
            r
        } else {
            let (r, Ghost(answers)) = self.execute_fresh(activity_id, &input, executor, policy, now_ms, 1);
            proof {
                assert(executed(st, activity_id@, input@, policy.max_attempts, now_ms, answers) == (self@, result_view(r)));
            }
            r
        }
    }

    fn execute_fresh<E: ActivityExecutor>(
        &mut self,
        activity_id: &str,
        input: &String,
        executor: &E,
        policy: RetryPolicy,
        now_ms: i64,
        attempt: u32,
    ) -> (res: (Result<String, DurableError>, Ghost<Answers>))
        requires
            old(self)@.events.len() + 1 + settle_room(policy.max_attempts, attempt) < usize::MAX,
            !old(self)@.finished,
        ensures
            fresh_from(old(self)@.events, activity_id@, input@, policy.max_attempts, now_ms, attempt, res.1@) == (
                final(self)@.events,
                result_view(res.0),
            ),
            answers_allowed(executor, activity_id@, input@, res.1@),
            res.1@.len() == calls_from(policy.max_attempts, attempt, res.1@),
            final(self)@.cursor == final(self)@.events.len(),
            !final(self)@.finished,
        decreases u32::MAX - attempt, 1int,
    {
        self.append(
            ActivityEventKind::ActivityScheduled,
            activity_id,
            Some(input.clone()),
            None,
            None,
            attempt,
            now_ms,
        );
        self.settle_attempt(activity_id, input, executor, policy, now_ms, attempt)
    }

    fn settle_attempt<E: ActivityExecutor>(
        &mut self,
        activity_id: &str,
        input: &String,
        executor: &E,
        policy: RetryPolicy,
        now_ms: i64,
        attempt: u32,
    ) -> (res: (Result<String, DurableError>, Ghost<Answers>))
        requires
            old(self)@.events.len() + settle_room(policy.max_attempts, attempt) < usize::MAX,
            !old(self)@.finished,
        ensures
            settle(old(self)@.events, activity_id@, input@, policy.max_attempts, now_ms, attempt, res.1@) == (
                final(self)@.events,
                result_view(res.0),
            ),
            answers_allowed(executor, activity_id@, input@, res.1@),
            res.1@.len() == calls_from(policy.max_attempts, attempt, res.1@),
            final(self)@.cursor == final(self)@.events.len(),
            !final(self)@.finished,
        decreases u32::MAX - attempt, 0int,
    {
        let answer = executor.execute(activity_id, input.as_str());
        let ghost a = answer_view(answer);
        let ghost one: Answers = seq![a];
        match answer {
            Ok(output) => {
                self.append(
                    ActivityEventKind::ActivityCompleted,
                    activity_id,
                    None,
                    Some(output.clone()),
                    None,
                    attempt,
                    now_ms,
                );
                (Ok(output), Ghost(one))
            },
            Err(error) => {
                self.append(
                    ActivityEventKind::ActivityFailed,
                    activity_id,
                    None,
                    None,
                    Some(error.clone()),
                    attempt,
                    now_ms,
                );
                if policy.should_retry(attempt) {
                    let (r, Ghost(rest)) = self.execute_fresh(
                        activity_id,
                        input,
                        executor,
                        policy,
                        now_ms,
                        attempt + 1,
                    );
                    let ghost all: Answers = one + rest;
                    proof {
                        assert(all.drop_first() =~= rest);
                        assert(all[0] == a);
                    }
                    (r, Ghost(all))
                } else {
                    (
                        Err(DurableError::ActivityFailed { activity_id: activity_id.to_string(), error, attempt }),
                        Ghost(one),
                    )
                }
            },
        }
    }

    fn replay_chain<E: ActivityExecutor>(
        &mut self,
        activity_id: &str,
        input: &String,
        executor: &E,
        policy: RetryPolicy,
        now_ms: i64,
        attempt: u32,
    ) -> (res: (Result<String, DurableError>, Ghost<Answers>))
        requires
            old(self)@.events.len() + journal_room(policy.max_attempts) < usize::MAX,
            !old(self)@.finished,
        ensures
            replay_after(
                old(self)@.events,
                old(self)@.cursor,
                activity_id@,
                input@,
                policy.max_attempts,
                now_ms,
                attempt,
                res.1@,
            ) == (final(self)@.events, final(self)@.cursor, result_view(res.0)),
            answers_allowed(executor, activity_id@, input@, res.1@),
            res.1@.len() == replay_calls(
                old(self)@.events,
                old(self)@.cursor,
                activity_id@,
                input@,
                policy.max_attempts,
                attempt,
                res.1@,
            ),
            !final(self)@.finished,
        decreases old(self)@.events.len() - old(self)@.cursor,
    {
        proof {
            use_type_invariant(&*self);
        }
        let ghost none = Seq::<Result<Seq<char>, Seq<char>>>::empty();
        let ghost st = self@;
        if self.cursor >= self.history.len() {
            return self.settle_attempt(activity_id, input, executor, policy, now_ms, attempt);
        }
        let c = self.cursor;
        let o = &self.history.events()[c];
        proof {
            assert(o@ == st.events[c as int]);
        }
        if !str_eq(o.activity_id.as_str(), activity_id) {
            let mut reason = String::new();
            push_str(&mut reason, "outcome activity_id ");
            let d = debug_str(o.activity_id.as_str());
            push_str(&mut reason, d.as_str());
            push_str(&mut reason, " != scheduled ");
            let d2 = debug_str(activity_id);
            push_str(&mut reason, d2.as_str());
            return (Err(DurableError::HistoryCorrupted { reason }), Ghost(none));
        }
        if o.kind == ActivityEventKind::ActivityCompleted {
            let output = match &o.output {
                Some(x) => x.clone(),
                None => "null".to_string(),
            };
            self.cursor = c + 1;
            return (Ok(output), Ghost(none));
        }
        if o.kind == ActivityEventKind::ActivityFailed {
            let error = match &o.error {
                Some(x) => x.clone(),
                None => String::new(),
            };
            let failed_attempt = o.attempt;
            self.cursor = c + 1;
            if c + 1 < self.history.len() {
                let n = &self.history.events()[c + 1];
                proof {
                    assert(n@ == st.events[c + 1]);
                }
                let same_input = match &n.input {
                    Some(recorded) => str_eq(recorded.as_str(), input.as_str()),
                    None => false,
                };
                if n.kind == ActivityEventKind::ActivityScheduled && str_eq(n.activity_id.as_str(), activity_id)
                    && same_input {
                    let next_attempt = n.attempt;
                    self.cursor = c + 2;
                    return self.replay_chain(activity_id, input, executor, policy, now_ms, next_attempt);
                }
                return (
                    Err(
                        DurableError::ActivityFailed {
                            activity_id: activity_id.to_string(),
                            error,
                            attempt: failed_attempt,
                        },
                    ),
                    Ghost(none),
                );
            }
            if policy.should_retry(failed_attempt) {
                return self.execute_fresh(activity_id, input, executor, policy, now_ms, failed_attempt + 1);
            }
            return (
                Err(
                    DurableError::ActivityFailed {
                        activity_id: activity_id.to_string(),
                        error,
                        attempt: failed_attempt,
                    },
                ),
                Ghost(none),
            );
        }
        let mut reason = String::new();
        push_str(&mut reason, "expected activity_completed or activity_failed after scheduled, found ");
        push_str(&mut reason, o.kind.as_str());
        (Err(DurableError::HistoryCorrupted { reason }), Ghost(none))
    }

    /// Completes the run with `output` (compact JSON text); replaying a
    /// recorded completion only moves the cursor.
    pub fn complete(&mut self, output: String, now_ms: i64) -> (r: Result<(), DurableError>)
        requires
            old(self)@.events.len() < usize::MAX,
        ensures
            ended(old(self)@, ActivityEventKind::RunCompleted, Some(output@), None, now_ms) == (
                final(self)@,
                result_view(r),
            ),
    {
        self.end(ActivityEventKind::RunCompleted, Some(output), None, now_ms)
    }

    /// Fails the run with `error`; replaying a recorded failure only moves
    /// the cursor.
    pub fn fail(&mut self, error: String, now_ms: i64) -> (r: Result<(), DurableError>)
        requires
            old(self)@.events.len() < usize::MAX,
        ensures
            ended(old(self)@, ActivityEventKind::RunFailed, None, Some(error@), now_ms) == (
                final(self)@,
                result_view(r),
            ),
    {
        self.end(ActivityEventKind::RunFailed, None, Some(error), now_ms)
    }

    fn end(&mut self, kind: ActivityEventKind, output: Option<String>, error: Option<String>, now_ms: i64) -> (r:
        Result<(), DurableError>)
        requires
            old(self)@.events.len() < usize::MAX,
            kind == ActivityEventKind::RunCompleted || kind == ActivityEventKind::RunFailed,
        ensures
            ended(old(self)@, kind, opt_text(output), opt_text(error), now_ms) == (final(self)@, result_view(r)),
    {
        proof {
            use_type_invariant(&*self);
        }
        let ghost st = self@;
        if self.finished {
            return Err(DurableError::RunAlreadyFinished);
        }
        if self.cursor < self.history.len() {
            let e = &self.history.events()[self.cursor];
            proof {
                assert(e@ == st.events[st.cursor]);
            }
            if e.kind == kind {
                self.cursor = self.cursor + 1;
                self.finished = true;
                return Ok(());
            }
            let mut expected = String::new();
            push_str(&mut expected, kind.as_str());
            let found = if e.kind == ActivityEventKind::RunCompleted || e.kind == ActivityEventKind::RunFailed {
                let mut f = String::new();
                push_str(&mut f, "kind=");
                push_str(&mut f, e.kind.as_str());
                f
            } else {
                event_summary(e)
            };
            return Err(
                DurableError::ReplayMismatch { activity_id: RUN_EVENT_ACTOR.to_string(), expected_input: expected, found },
            );
        }
        self.append(kind, RUN_EVENT_ACTOR, None, output, error, 0, now_ms);
        self.finished = true;
        Ok(())
    }
}

} // verus!
