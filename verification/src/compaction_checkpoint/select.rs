//! Selection: when to compact, and which span to compress.
//!
//! - When: [`compaction_due`] is the boundary comparator of the shared
//!   overflow trigger threshold, so "crossed the trigger" means one thing.
//! - Which span: [`select_compaction_range`] keeps the leading system run and
//!   a tail within the retained-tail budget verbatim, compresses the rest,
//!   and retreats the cut to a tool-pair-safe boundary: the cut never falls
//!   between a tool call and its tool result.

use vstd::prelude::*;
use crate::context_overflow::{exceeds_trigger, spec_trigger};
use crate::text::str_eq;
use super::stream::{opt_view, str_views, CompactionMessage, CompactionRole};

verus! {

/// The span one compaction surface-replaces, as message indices.
#[derive(Debug, Clone, Copy, PartialEq, Eq, Structural)]
pub struct CompactionRange {
    /// First replaced message index (inclusive).
    pub start_seq: usize,
    /// First unreplaced message index (exclusive).
    pub end_seq: usize,
}

/// Whether `estimated_tokens` is strictly above the shared overflow trigger.
pub fn compaction_due(estimated_tokens: u64, window_tokens: u64, overhead_tokens: u64, reserve_tokens: u64) -> (b:
    bool)
    ensures
        b == (estimated_tokens > spec_trigger(window_tokens as int, overhead_tokens as int, reserve_tokens as int)),
{
    exceeds_trigger(estimated_tokens, window_tokens, overhead_tokens, reserve_tokens)
}

/// The tool call ids issued by message `i`.
pub open spec fn calls_at(ms: Seq<CompactionMessage>, i: int) -> Seq<Seq<char>> {
    str_views(ms[i].tool_call_ids@)
}

/// The tool call id answered by message `i`.
pub open spec fn result_at(ms: Seq<CompactionMessage>, i: int) -> Option<Seq<char>> {
    opt_view(ms[i].tool_result_id)
}

/// Index of the first of the first `n` messages that issues call `id`, or -1.
pub open spec fn first_call(ms: Seq<CompactionMessage>, id: Seq<char>, n: int) -> int
    decreases n,
{
    if n <= 0 {
        -1
    } else {
        let p = first_call(ms, id, n - 1);
        if p >= 0 {
            p
        } else if calls_at(ms, n - 1).contains(id) {
            n - 1
        } else {
            -1
        }
    }
}

/// Index of the first of the first `n` messages that answers call `id`, or -1.
pub open spec fn first_result(ms: Seq<CompactionMessage>, id: Seq<char>, n: int) -> int
    decreases n,
{
    if n <= 0 {
        -1
    } else {
        let p = first_result(ms, id, n - 1);
        if p >= 0 {
            p
        } else if result_at(ms, n - 1) == Some(id) {
            n - 1
        } else {
            -1
        }
    }
}

/// Whether a cut at `end` (compressing from `start`) splits a pair at message
/// `i`: `i` is in the compressed span and is the first call site of an id
/// first answered at or after `end`, or the first answer to an id first
/// called at or after `end`.
pub open spec fn violates(ms: Seq<CompactionMessage>, end: int, start: int, i: int) -> bool {
    start <= i && i < end && i < ms.len() && (splits_call(ms, end, i) || splits_result(ms, end, i))
}

/// Message `i` is the first call site of an id first answered at or after `end`.
pub open spec fn splits_call(ms: Seq<CompactionMessage>, end: int, i: int) -> bool {
    exists|k: int|
        0 <= k < calls_at(ms, i).len() && first_call(ms, #[trigger] calls_at(ms, i)[k], ms.len() as int) == i
            && first_result(ms, calls_at(ms, i)[k], ms.len() as int) >= end
}

/// Message `i` is the first answer of an id first called at or after `end`.
pub open spec fn splits_result(ms: Seq<CompactionMessage>, end: int, i: int) -> bool {
    match result_at(ms, i) {
        Some(r) => first_result(ms, r, ms.len() as int) == i && first_call(ms, r, ms.len() as int) >= end,
        None => false,
    }
}

/// The first index from `i` on that splits a pair, or `end`.
pub open spec fn first_violation(ms: Seq<CompactionMessage>, end: int, start: int, i: int) -> int
    decreases end - i,
{
    if i >= end {
        end
    } else if violates(ms, end, start, i) {
        i
    } else {
        first_violation(ms, end, start, i + 1)
    }
}

/// One retreat step: the earliest pair-splitting index, or `end` itself.
pub open spec fn retreat(ms: Seq<CompactionMessage>, end: int, start: int) -> int {
    first_violation(ms, end, start, start)
}

/// The cut after retreating until no pair is split.
pub open spec fn safe_end(ms: Seq<CompactionMessage>, end: int, start: int) -> int
    decreases end,
{
    let r = retreat(ms, end, start);
    if 0 <= r < end {
        safe_end(ms, r, start)
    } else {
        end
    }
}

fn issues(m: &CompactionMessage, id: &str) -> (b: bool)
    ensures
        b == str_views(m.tool_call_ids@).contains(id@),
{
    let mut k: usize = 0;
    while k < m.tool_call_ids.len()
        invariant
            k <= m.tool_call_ids@.len(),
            forall|j: int| 0 <= j < k ==> m.tool_call_ids@[j]@ != id@,
        decreases m.tool_call_ids@.len() - k,
    {
        if str_eq(m.tool_call_ids[k].as_str(), id) {
            assert(str_views(m.tool_call_ids@)[k as int] == id@);
            return true;
        }
        k = k + 1;
    }
    assert forall|j: int| 0 <= j < str_views(m.tool_call_ids@).len() implies str_views(m.tool_call_ids@)[j] != id@ by {
        assert(str_views(m.tool_call_ids@)[j] == m.tool_call_ids@[j]@);
    }
    false
}

fn answers(m: &CompactionMessage, id: &str) -> (b: bool)
    ensures
        b == (opt_view(m.tool_result_id) == Some(id@)),
{
    match &m.tool_result_id {
        Some(r) => str_eq(r.as_str(), id),
        None => false,
    }
}

proof fn lemma_first_call_stable(ms: Seq<CompactionMessage>, id: Seq<char>, a: int, b: int)
    requires
        a <= b,
        first_call(ms, id, a) >= 0,
    ensures
        first_call(ms, id, b) == first_call(ms, id, a),
    decreases b - a,
{
    if a < b {
        lemma_first_call_stable(ms, id, a, b - 1);
    }
}

proof fn lemma_first_result_stable(ms: Seq<CompactionMessage>, id: Seq<char>, a: int, b: int)
    requires
        a <= b,
        first_result(ms, id, a) >= 0,
    ensures
        first_result(ms, id, b) == first_result(ms, id, a),
    decreases b - a,
{
    if a < b {
        lemma_first_result_stable(ms, id, a, b - 1);
    }
}

proof fn lemma_first_call_none(ms: Seq<CompactionMessage>, id: Seq<char>, a: int, b: int)
    requires
        0 <= a <= b,
        first_call(ms, id, a) == -1,
        forall|j: int| a <= j < b ==> !calls_at(ms, j).contains(id),
    ensures
        first_call(ms, id, b) == -1,
    decreases b - a,
{
    if a < b {
        lemma_first_call_none(ms, id, a, b - 1);
    }
}

proof fn lemma_first_result_none(ms: Seq<CompactionMessage>, id: Seq<char>, a: int, b: int)
    requires
        0 <= a <= b,
        first_result(ms, id, a) == -1,
        forall|j: int| a <= j < b ==> result_at(ms, j) != Some(id),
    ensures
        first_result(ms, id, b) == -1,
    decreases b - a,
{
    if a < b {
        lemma_first_result_none(ms, id, a, b - 1);
    }
}

fn first_call_index(ms: &[CompactionMessage], id: &str) -> (r: Option<usize>)
    ensures
        match r {
            Some(i) => i == first_call(ms@, id@, ms@.len() as int) && i < ms@.len(),
            None => first_call(ms@, id@, ms@.len() as int) == -1,
        },
{
    let mut i: usize = 0;
    while i < ms.len()
        invariant
            i <= ms@.len(),
            first_call(ms@, id@, i as int) == -1,
        decreases ms@.len() - i,
    {
        if issues(&ms[i], id) {
            proof {
                assert(first_call(ms@, id@, i as int + 1) == i);
                lemma_first_call_stable(ms@, id@, i as int + 1, ms@.len() as int);
            }
            return Some(i);
        }
        i = i + 1;
    }
    None
}

fn first_result_index(ms: &[CompactionMessage], id: &str) -> (r: Option<usize>)
    ensures
        match r {
            Some(i) => i == first_result(ms@, id@, ms@.len() as int) && i < ms@.len(),
            None => first_result(ms@, id@, ms@.len() as int) == -1,
        },
{
    let mut i: usize = 0;
    while i < ms.len()
        invariant
            i <= ms@.len(),
            first_result(ms@, id@, i as int) == -1,
        decreases ms@.len() - i,
    {
        if answers(&ms[i], id) {
            proof {
                assert(first_result(ms@, id@, i as int + 1) == i);
                lemma_first_result_stable(ms@, id@, i as int + 1, ms@.len() as int);
            }
            return Some(i);
        }
        i = i + 1;
    }
    None
}

fn splits_at(ms: &[CompactionMessage], end: usize, start: usize, i: usize) -> (b: bool)
    requires
        start <= i < end,
        i < ms@.len(),
    ensures
        b == violates(ms@, end as int, start as int, i as int),
{
    let m = &ms[i];
    let ghost calls = calls_at(ms@, i as int);
    let mut k: usize = 0;
    while k < m.tool_call_ids.len()
        invariant
            k <= m.tool_call_ids@.len(),
            m == ms@[i as int],
            calls == calls_at(ms@, i as int),
            i < ms@.len(),
            start <= i < end,
            forall|j: int|
                0 <= j < k ==> !(first_call(ms@, #[trigger] calls[j], ms@.len() as int) == i && first_result(
                    ms@,
                    calls[j],
                    ms@.len() as int,
                ) >= end),
        decreases m.tool_call_ids@.len() - k,
    {
        let c = m.tool_call_ids[k].as_str();
        assert(calls[k as int] == c@);
        let fc = first_call_index(ms, c);
        let fr = first_result_index(ms, c);
        let hit = match (fc, fr) {
            (Some(ci), Some(ri)) => ci == i && ri >= end,
            _ => false,
        };
        if hit {
            proof {
                assert(calls_at(ms@, i as int)[k as int] == c@);
                assert(0 <= k < calls_at(ms@, i as int).len() && first_call(ms@, calls_at(ms@, i as int)[k as int], ms@.len() as int) == i
                    && first_result(ms@, calls_at(ms@, i as int)[k as int], ms@.len() as int) >= end);
                assert(splits_call(ms@, end as int, i as int));
            }
            return true;
        }
        k = k + 1;
    }
    match &m.tool_result_id {
        Some(r) => {
            let fr = first_result_index(ms, r.as_str());
            let fc = first_call_index(ms, r.as_str());
            match (fr, fc) {
                (Some(ri), Some(ci)) => ri == i && ci >= end,
                _ => false,
            }
        },
        None => false,
    }
}

fn retreat_of(ms: &[CompactionMessage], end: usize, start: usize) -> (r: usize)
    requires
        end <= ms@.len(),
    ensures
        r == retreat(ms@, end as int, start as int),
        r <= end,
        r < end ==> start <= r,
{
    let mut i: usize = start;
    while i < end
        invariant
            end <= ms@.len(),
            start <= i,
            first_violation(ms@, end as int, start as int, start as int) == first_violation(
                ms@,
                end as int,
                start as int,
                i as int,
            ),
        decreases end - i,
    {
        if splits_at(ms, end, start, i) {
            return i;
        }
        i = i + 1;
    }
    end
}

/// Retreats `desired_end` (at most the message count) until no tool call /
/// tool result pair straddles the cut between `start_seq` and it. The cut
/// only moves backwards.
pub fn pair_safe_end(messages: &[CompactionMessage], desired_end: usize, start_seq: usize) -> (end: usize)
    ensures
        end == safe_end(
            messages@,
            if desired_end <= messages@.len() {
                desired_end as int
            } else {
                messages@.len() as int
            },
            start_seq as int,
        ),
{
    let mut end: usize = if desired_end <= messages.len() {
        desired_end
    } else {
        messages.len()
    };
    let ghost target = safe_end(messages@, end as int, start_seq as int);
    loop
        invariant
            target == safe_end(
                messages@,
                if desired_end <= messages@.len() {
                    desired_end as int
                } else {
                    messages@.len() as int
                },
                start_seq as int,
            ),
            end <= messages@.len(),
            safe_end(messages@, end as int, start_seq as int) == target,
        decreases end,
    {
        let r = retreat_of(messages, end, start_seq);
        if r == end {
            return end;
        }
        end = r;
    }
}

/// Length of the leading run of system messages, counting from `i`.
pub open spec fn system_run_from(ms: Seq<CompactionMessage>, i: int) -> int
    decreases ms.len() - i,
{
    if i >= ms.len() || ms[i].role != CompactionRole::System {
        i
    } else {
        system_run_from(ms, i + 1)
    }
}

/// Estimated tokens of a message: `chars / 4`, at least one.
pub open spec fn message_tokens(m: CompactionMessage) -> int {
    if m.text@.len() / 4 >= 1 {
        (m.text@.len() / 4) as int
    } else {
        1
    }
}

/// Where the retained tail begins: messages are taken from the newest
/// backwards while they fit the remaining budget, never below `start`.
pub open spec fn tail_start(ms: Seq<CompactionMessage>, start: int, end: int, budget: int) -> int
    decreases end,
{
    if end <= start || end <= 0 {
        end
    } else {
        let c = message_tokens(ms[end - 1]);
        if c > budget {
            end
        } else {
            tail_start(ms, start, end - 1, budget - c)
        }
    }
}

/// The span a compaction would replace: after the leading system run, before
/// the retained tail (the newest message always retained), retreated to a
/// pair-safe cut; none when that leaves nothing.
pub open spec fn selected(ms: Seq<CompactionMessage>, retain: int) -> Option<(int, int)> {
    if ms.len() < 2 {
        None
    } else {
        let s = system_run_from(ms, 0);
        let e1 = tail_start(ms, s, ms.len() as int, retain);
        let e2 = if e1 <= ms.len() - 1 {
            e1
        } else {
            ms.len() - 1
        };
        let e3 = safe_end(ms, e2, s);
        if e3 <= s {
            None
        } else {
            Some((s, e3))
        }
    }
}

proof fn lemma_system_run_from_at_least(ms: Seq<CompactionMessage>, i: int)
    ensures
        system_run_from(ms, i) >= i,
    decreases ms.len() - i,
{
    if !(i >= ms.len() || ms[i].role != CompactionRole::System) {
        lemma_system_run_from_at_least(ms, i + 1);
    }
}

proof fn lemma_safe_end_at_most(ms: Seq<CompactionMessage>, end: int, start: int)
    ensures
        safe_end(ms, end, start) <= end,
    decreases end,
{
    let r = retreat(ms, end, start);
    if 0 <= r < end {
        lemma_safe_end_at_most(ms, r, start);
    }
}

/// A selected span lies inside the transcript, is not empty, and leaves the
/// newest message out.
pub proof fn lemma_selected_bounds(ms: Seq<CompactionMessage>, retain: int)
    ensures
        selected(ms, retain) matches Some((s, e)) ==> 0 <= s < e < ms.len(),
{
    if ms.len() >= 2 {
        lemma_system_run_from_at_least(ms, 0);
        let s = system_run_from(ms, 0);
        let e1 = tail_start(ms, s, ms.len() as int, retain);
        let e2 = if e1 <= ms.len() - 1 {
            e1
        } else {
            ms.len() - 1
        };
        lemma_safe_end_at_most(ms, e2, s);
    }
}

/// Selects the span one compaction would surface-replace: the leading system
/// messages are never compressed; the tail is retained verbatim within
/// `retain_tail_tokens`, greedy from the newest message backwards; the
/// newest message always survives; the cut retreats to a pair-safe
/// boundary. `None` when nothing compressible remains.
pub fn select_compaction_range(messages: &[CompactionMessage], retain_tail_tokens: u64) -> (r: Option<
    CompactionRange,
>)
    ensures
        match selected(messages@, retain_tail_tokens as int) {
            Some((s, e)) => r == Some(CompactionRange { start_seq: s as usize, end_seq: e as usize }),
            None => r is None,
        },
{
    if messages.len() < 2 {
        return None;
    }
    let n = messages.len();
    let mut start_seq: usize = 0;
    while start_seq < n && messages[start_seq].role == CompactionRole::System
        invariant
            n == messages@.len(),
            start_seq <= n,
            system_run_from(messages@, 0) == system_run_from(messages@, start_seq as int),
        decreases n - start_seq,
    {
        start_seq = start_seq + 1;
    }
    let mut end_seq: usize = n;
    let mut tail_budget: u64 = retain_tail_tokens;
    let mut fits = true;
    while end_seq > start_seq && fits
        invariant
            n == messages@.len(),
            n >= 2,
            start_seq <= end_seq <= n,
            system_run_from(messages@, 0) == start_seq,
            tail_start(messages@, start_seq as int, n as int, retain_tail_tokens as int) == tail_start(
                messages@,
                start_seq as int,
                end_seq as int,
                tail_budget as int,
            ),
            !fits ==> tail_start(messages@, start_seq as int, end_seq as int, tail_budget as int) == end_seq,
        decreases end_seq + if fits {
            1int
        } else {
            0int
        },
    {
        let cost = messages[end_seq - 1].estimated_tokens();
        if cost > tail_budget {
            fits = false;
        } else {
            tail_budget = tail_budget - cost;
            end_seq = end_seq - 1;
        }
    }
    if end_seq > n - 1 {
        end_seq = n - 1;
    }
    let cut = pair_safe_end(messages, end_seq, start_seq);
    if cut <= start_seq {
        return None;
    }
    Some(CompactionRange { start_seq, end_seq: cut })
}

proof fn lemma_no_violation_before(ms: Seq<CompactionMessage>, end: int, start: int, i: int)
    requires
        first_violation(ms, end, start, i) == end,
    ensures
        forall|j: int| i <= j < end ==> !violates(ms, end, start, j),
    decreases end - i,
{
    if i < end {
        lemma_no_violation_before(ms, end, start, i + 1);
    }
}

proof fn lemma_violation_bounds(ms: Seq<CompactionMessage>, end: int, start: int, i: int)
    ensures
        first_violation(ms, end, start, i) <= end || i > end,
        first_violation(ms, end, start, i) >= i || i > end,
    decreases end - i,
{
    if i < end {
        lemma_violation_bounds(ms, end, start, i + 1);
    }
}

/// The retreated cut never splits a tool pair and never moves forward: no
/// message between `start` and the cut is the first call of an id first
/// answered at or after the cut, nor the first answer of an id first called
/// at or after it.
pub proof fn the_cut_never_splits_a_tool_pair(ms: Seq<CompactionMessage>, end: int, start: int)
    requires
        0 <= start,
        0 <= end,
    ensures
        safe_end(ms, end, start) <= end,
        forall|i: int| !violates(ms, safe_end(ms, end, start), start, i),
    decreases end,
{
    let r = retreat(ms, end, start);
    lemma_violation_bounds(ms, end, start, start);
    if 0 <= r < end {
        the_cut_never_splits_a_tool_pair(ms, r, start);
    } else {
        if start <= end {
            assert(r == end);
            lemma_no_violation_before(ms, end, start, start);
        }
        assert forall|i: int| !violates(ms, safe_end(ms, end, start), start, i) by {
            if violates(ms, end, start, i) {
                assert(start <= i < end);
            }
        }
    }
}

} // verus!
