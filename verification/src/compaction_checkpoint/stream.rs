//! The append-only compaction log and the deterministic derived-view fold.
//!
//! A compaction records one [`CompactionCheckpoint`]: in the derived view its
//! `[start_seq, end_seq)` span is swapped for its summary, while the original
//! messages stay in the transcript. Every checkpoint write is bracketed by a
//! marker pair (`start -> checkpoint -> end`); a pair whose closing entry
//! never arrived is reported by [`detect_unclosed_compactions`] and never
//! applied by [`fold_checkpoints`].

use vstd::prelude::*;
use crate::context_fold::accumulator::approx_tokens;
use crate::text::{decimal, push_char, push_decimal, push_str, str_eq};

verus! {

/// Role classes the compaction planner distinguishes.
#[derive(Debug, Clone, Copy, PartialEq, Eq, Hash, Structural)]
pub enum CompactionRole {
    /// Persistent system instruction.
    System,
    /// User turn.
    User,
    /// Assistant turn, possibly carrying tool calls.
    Assistant,
    /// Tool result answering one tool call.
    Tool,
}

/// The transcript shape the planner needs: role, text, and tool call / tool
/// result correlation.
#[derive(Debug, Clone, PartialEq, Eq)]
pub struct CompactionMessage {
    /// Role class.
    pub role: CompactionRole,
    /// Visible text.
    pub text: String,
    /// Tool call ids this message issues.
    pub tool_call_ids: Vec<String>,
    /// Tool call id this message answers.
    pub tool_result_id: Option<String>,
}

/// Strings as character sequences.
pub open spec fn str_views(v: Seq<String>) -> Seq<Seq<char>> {
    v.map_values(|s: String| s@)
}

/// An optional string as an optional character sequence.
pub open spec fn opt_view(o: Option<String>) -> Option<Seq<char>> {
    match o {
        Some(s) => Some(s@),
        None => None,
    }
}

impl CompactionMessage {
    /// A message without tool correlation.
    pub fn new(role: CompactionRole, text: &str) -> (m: Self)
        ensures
            m.role == role,
            m.text@ == text@,
            m.tool_call_ids@ == Seq::<String>::empty(),
            m.tool_result_id is None,
    {
        CompactionMessage { role, text: text.to_owned(), tool_call_ids: Vec::new(), tool_result_id: None }
    }

    /// The same message issuing the given tool calls.
    pub fn with_tool_calls(self, ids: Vec<String>) -> (m: Self)
        ensures
            m.role == self.role,
            m.text@ == self.text@,
            m.tool_call_ids@ == ids@,
            opt_view(m.tool_result_id) == opt_view(self.tool_result_id),
    {
        let mut m = self;
        m.tool_call_ids = ids;
        m
    }

    /// The same message answering the given tool call.
    pub fn with_tool_result_id(self, id: &str) -> (m: Self)
        ensures
            m.role == self.role,
            m.text@ == self.text@,
            m.tool_call_ids@ == self.tool_call_ids@,
            opt_view(m.tool_result_id) == Some(id@),
    {
        let mut m = self;
        m.tool_result_id = Some(id.to_owned());
        m
    }

    /// Estimated tokens of the text (`chars / 4`), at least one, so a
    /// retained tail cannot absorb empty messages for free.
    pub fn estimated_tokens(&self) -> (n: u64)
        ensures
            n == if self.text@.len() / 4 >= 1 {
                self.text@.len() / 4
            } else {
                1
            },
    {
        let t = approx_tokens(self.text.as_str());
        if t >= 1 {
            t as u64
        } else {
            1
        }
    }
}

/// One compaction: the summary that surface-replaces a span of messages.
#[derive(Debug, Clone, PartialEq, Eq)]
pub struct CompactionCheckpoint {
    /// First covered message index (inclusive).
    pub start_seq: usize,
    /// First uncovered message index (exclusive).
    pub end_seq: usize,
    /// The summary standing in for the span.
    pub summary: String,
    /// Marker identity shared by the bracketing log entries.
    pub marker: String,
}

/// One append-only log entry; one compaction writes `Start -> Checkpoint -> End`.
#[derive(Debug, Clone, PartialEq, Eq)]
pub enum CompactionLogEntry {
    /// Opens the marker lock of one compaction write.
    Start {
        /// Marker identity.
        marker: String,
    },
    /// The checkpoint itself.
    Checkpoint(Box<CompactionCheckpoint>),
    /// Closes the marker lock.
    End {
        /// Marker identity.
        marker: String,
    },
}

/// One segment of the derived view.
#[derive(Debug, Clone, PartialEq, Eq)]
pub enum ViewSegment {
    /// Original messages `[start_seq, end_seq)`, verbatim.
    Original {
        /// First covered index (inclusive).
        start_seq: usize,
        /// First uncovered index (exclusive).
        end_seq: usize,
    },
    /// A closed checkpoint's summary standing in for `[start_seq, end_seq)`.
    Summary {
        /// First replaced index (inclusive).
        start_seq: usize,
        /// First unreplaced index (exclusive).
        end_seq: usize,
        /// The summary.
        summary: String,
        /// Marker of the checkpoint that produced it.
        marker: String,
    },
}

/// The result of folding a compaction log over a transcript.
#[derive(Debug, Clone, PartialEq, Eq, Default)]
pub struct FoldedView {
    /// View segments, in stream order.
    pub segments: Vec<ViewSegment>,
    /// Markers whose pair never closed; their checkpoints are not applied.
    pub unclosed_markers: Vec<String>,
    /// Entries the fold refused, each with a reason.
    pub rejected: Vec<String>,
    /// Markers of the applied checkpoints, in application order.
    pub applied_markers: Vec<String>,
}

/// A role's name in rendered transcripts.
pub open spec fn role_name(r: CompactionRole) -> Seq<char> {
    match r {
        CompactionRole::System => "system"@,
        CompactionRole::User => "user"@,
        CompactionRole::Assistant => "assistant"@,
        CompactionRole::Tool => "tool"@,
    }
}

/// Strings joined with `sep`.
pub open spec fn join_with(parts: Seq<Seq<char>>, sep: Seq<char>) -> Seq<char>
    decreases parts.len(),
{
    if parts.len() == 0 {
        seq![]
    } else if parts.len() == 1 {
        parts[0]
    } else {
        join_with(parts.drop_last(), sep) + sep + parts.last()
    }
}

/// One message as a transcript line: `[role] text`, its tool calls, the
/// call it answers, and a newline.
pub open spec fn rendered_message(m: CompactionMessage) -> Seq<char> {
    let calls = str_views(m.tool_call_ids@);
    "["@ + role_name(m.role) + "] "@ + m.text@ + (if calls.len() > 0 {
        " (tool_calls: "@ + join_with(calls, ", "@) + ")"@
    } else {
        seq![]
    }) + (match m.tool_result_id {
        Some(a) => " (answers: "@ + a@ + ")"@,
        None => seq![],
    }) + "\n"@
}

/// A message span rendered as summary material.
pub open spec fn rendered(ms: Seq<CompactionMessage>) -> Seq<char>
    decreases ms.len(),
{
    if ms.len() == 0 {
        seq![]
    } else {
        rendered(ms.drop_last()) + rendered_message(ms.last())
    }
}

fn role_str(r: CompactionRole) -> (s: &'static str)
    ensures
        s@ == role_name(r),
{
    match r {
        CompactionRole::System => "system",
        CompactionRole::User => "user",
        CompactionRole::Assistant => "assistant",
        CompactionRole::Tool => "tool",
    }
}

fn push_joined(out: &mut String, parts: &Vec<String>, sep: &str)
    ensures
        final(out)@ == old(out)@ + join_with(str_views(parts@), sep@),
{
    let ghost base = out@;
    let ghost ps = str_views(parts@);
    let mut i: usize = 0;
    while i < parts.len()
        invariant
            i <= parts@.len(),
            ps == str_views(parts@),
            out@ == base + join_with(ps.take(i as int), sep@),
        decreases parts@.len() - i,
    {
        assert(ps.take(i as int + 1).drop_last() =~= ps.take(i as int));
        if i > 0 {
            push_str(out, sep);
        } else {
            assert(ps.take(0) =~= Seq::<Seq<char>>::empty());
        }
        push_str(out, parts[i].as_str());
        i = i + 1;
    }
    assert(ps.take(i as int) =~= ps);
}

/// Renders a message span as summary material: the real conversation, in
/// stream order, with tool correlation spelled out.
pub fn render_transcript(messages: &[CompactionMessage]) -> (out: String)
    ensures
        out@ == rendered(messages@),
{
    let mut out = String::new();
    let mut i: usize = 0;
    while i < messages.len()
        invariant
            i <= messages@.len(),
            out@ == rendered(messages@.take(i as int)),
        decreases messages@.len() - i,
    {
        assert(messages@.take(i as int + 1).drop_last() =~= messages@.take(i as int));
        let m = &messages[i];
        let ghost before = out@;
        push_char(&mut out, '[');
        push_str(&mut out, role_str(m.role));
        push_str(&mut out, "] ");
        push_str(&mut out, m.text.as_str());
        let ghost mid = out@;
        if m.tool_call_ids.len() > 0 {
            push_str(&mut out, " (tool_calls: ");
            push_joined(&mut out, &m.tool_call_ids, ", ");
            push_char(&mut out, ')');
        }
        let ghost mid2 = out@;
        match &m.tool_result_id {
            Some(a) => {
                push_str(&mut out, " (answers: ");
                push_str(&mut out, a.as_str());
                push_char(&mut out, ')');
            },
            None => {},
        }
        let ghost mid3 = out@;
        push_char(&mut out, '\n');
        proof {
            reveal_strlit("[");
            reveal_strlit(")");
            reveal_strlit("\n");
            let calls = str_views(m.tool_call_ids@);
            assert(mid =~= before + "["@ + role_name(m.role) + "] "@ + m.text@);
            assert(mid2 =~= mid + (if calls.len() > 0 {
                " (tool_calls: "@ + join_with(calls, ", "@) + ")"@
            } else {
                seq![]
            }));
            assert(mid3 =~= mid2 + (match m.tool_result_id {
                Some(a) => " (answers: "@ + a@ + ")"@,
                None => seq![],
            }));
            assert(out@ =~= before + rendered_message(*m));
        }
        i = i + 1;
    }
    assert(messages@.take(i as int) =~= messages@);
    out
}

// ---------------------------------------------------------------------------
// Log scan
// ---------------------------------------------------------------------------

/// A checkpoint as plain values: start, end, summary, marker.
pub open spec fn cp_view(c: CompactionCheckpoint) -> (usize, usize, Seq<char>, Seq<char>) {
    (c.start_seq, c.end_seq, c.summary@, c.marker@)
}

/// Position of the open slot with marker `m`, or -1.
pub open spec fn open_pos(open: Seq<(Seq<char>, Option<(usize, usize, Seq<char>, Seq<char>)>)>, m: Seq<char>) -> int
    decreases open.len(),
{
    if open.len() == 0 {
        -1
    } else {
        let p = open_pos(open.drop_last(), m);
        if p >= 0 {
            p
        } else if open.last().0 == m {
            open.len() - 1
        } else {
            -1
        }
    }
}

/// What a log scan holds: open marker slots (with the checkpoint they
/// staged), refusals, and the checkpoints whose pair closed.
pub type ScanState = (
    Seq<(Seq<char>, Option<(usize, usize, Seq<char>, Seq<char>)>)>,
    Seq<Seq<char>>,
    Seq<(usize, usize, Seq<char>, Seq<char>)>,
);

/// One log entry applied to the scan state.
pub open spec fn scan_step(st: ScanState, e: CompactionLogEntry) -> ScanState {
    let (open, rejected, closed) = st;
    match e {
        CompactionLogEntry::Start { marker } => {
            let m = marker@;
            if open_pos(open, m) >= 0 {
                (open, rejected.push("marker "@ + m + " opened twice without closing"@), closed)
            } else {
                (open.push((m, None)), rejected, closed)
            }
        },
        CompactionLogEntry::Checkpoint(c) => {
            let cv = cp_view(*c);
            let p = open_pos(open, cv.3);
            if p >= 0 {
                if open[p].1 is None {
                    (open.update(p, (open[p].0, Some(cv))), rejected, closed)
                } else {
                    (open, rejected.push("marker "@ + open[p].0 + " staged two checkpoints before closing"@), closed)
                }
            } else {
                (open, rejected.push("checkpoint "@ + cv.3 + " has no open marker pair"@), closed)
            }
        },
        CompactionLogEntry::End { marker } => {
            let m = marker@;
            let p = open_pos(open, m);
            if p >= 0 {
                match open[p].1 {
                    Some(cv) => (open.remove(p), rejected, closed.push(cv)),
                    None => (open.remove(p), rejected.push("marker "@ + m + " closed without a checkpoint"@), closed),
                }
            } else {
                (open, rejected.push("marker "@ + m + " closed without opening"@), closed)
            }
        },
    }
}

/// The scan state after the whole log.
pub open spec fn scan_of(log: Seq<CompactionLogEntry>) -> ScanState
    decreases log.len(),
{
    if log.len() == 0 {
        (seq![], seq![], seq![])
    } else {
        scan_step(scan_of(log.drop_last()), log.last())
    }
}

/// Notes for slots left open with a staged checkpoint, in slot order.
pub open spec fn never_closed_notes(open: Seq<(Seq<char>, Option<(usize, usize, Seq<char>, Seq<char>)>)>) -> Seq<
    Seq<char>,
>
    decreases open.len(),
{
    if open.len() == 0 {
        seq![]
    } else {
        let prev = never_closed_notes(open.drop_last());
        if open.last().1 is Some {
            prev.push("marker "@ + open.last().0 + " never closed; its checkpoint is not applied"@)
        } else {
            prev
        }
    }
}

/// The markers of the slots left open.
pub open spec fn unclosed_of(log: Seq<CompactionLogEntry>) -> Seq<Seq<char>> {
    scan_of(log).0.map_values(|s: (Seq<char>, Option<(usize, usize, Seq<char>, Seq<char>)>)| s.0)
}

struct OpenMarker {
    marker: String,
    staged: Option<CompactionCheckpoint>,
}

fn clone_checkpoint(c: &CompactionCheckpoint) -> (r: CompactionCheckpoint)
    ensures
        cp_view(r) == cp_view(*c),
{
    CompactionCheckpoint { start_seq: c.start_seq, end_seq: c.end_seq, summary: c.summary.clone(), marker: c.marker.clone() }
}

spec fn slot_view(s: OpenMarker) -> (Seq<char>, Option<(usize, usize, Seq<char>, Seq<char>)>) {
    (
        s.marker@,
        match s.staged {
            Some(c) => Some(cp_view(c)),
            None => None,
        },
    )
}

spec fn slots_view(v: Seq<OpenMarker>) -> Seq<(Seq<char>, Option<(usize, usize, Seq<char>, Seq<char>)>)> {
    v.map_values(|s: OpenMarker| slot_view(s))
}

spec fn cps_view(v: Seq<CompactionCheckpoint>) -> Seq<(usize, usize, Seq<char>, Seq<char>)> {
    v.map_values(|c: CompactionCheckpoint| cp_view(c))
}

fn find_open(open: &Vec<OpenMarker>, m: &str) -> (r: Option<usize>)
    ensures
        match r {
            Some(p) => p == open_pos(slots_view(open@), m@) && p < open@.len(),
            None => open_pos(slots_view(open@), m@) == -1,
        },
{
    let ghost sv = slots_view(open@);
    let mut i: usize = 0;
    while i < open.len()
        invariant
            i <= open@.len(),
            sv == slots_view(open@),
            open_pos(sv.take(i as int), m@) == -1,
        decreases open@.len() - i,
    {
        assert(sv.take(i as int + 1).drop_last() =~= sv.take(i as int));
        if str_eq(open[i].marker.as_str(), m) {
            proof {
                assert(open_pos(sv.take(i as int + 1), m@) == i);
                lemma_open_pos_stable(sv, i as int + 1);
            }
            return Some(i);
        }
        i = i + 1;
    }
    assert(sv.take(i as int) =~= sv);
    None
}

proof fn lemma_open_pos_stable(sv: Seq<(Seq<char>, Option<(usize, usize, Seq<char>, Seq<char>)>)>, a: int)
    requires
        0 <= a <= sv.len(),
        exists|m: Seq<char>| open_pos(sv.take(a), m) >= 0,
    ensures
        forall|m: Seq<char>| open_pos(sv.take(a), m) >= 0 ==> open_pos(sv, m) == open_pos(sv.take(a), m),
    decreases sv.len() - a,
{
    if a < sv.len() {
        assert(sv.take(a + 1).drop_last() =~= sv.take(a));
        let w = choose|m: Seq<char>| open_pos(sv.take(a), m) >= 0;
        assert(open_pos(sv.take(a + 1), w) >= 0);
        lemma_open_pos_stable(sv, a + 1);
    } else {
        assert(sv.take(a) =~= sv);
    }
}

fn note(prefix: &str, m: &str, suffix: &str) -> (s: String)
    ensures
        s@ == prefix@ + m@ + suffix@,
{
    let mut s = String::new();
    push_str(&mut s, prefix);
    push_str(&mut s, m);
    push_str(&mut s, suffix);
    assert(s@ =~= prefix@ + m@ + suffix@);
    s
}

struct LogScan {
    open: Vec<OpenMarker>,
    rejected: Vec<String>,
    closed: Vec<CompactionCheckpoint>,
}

fn scan_log(log: &[CompactionLogEntry]) -> (scan: LogScan)
    ensures
        (slots_view(scan.open@), str_views(scan.rejected@), cps_view(scan.closed@)) == scan_of(log@),
{
    let mut open: Vec<OpenMarker> = Vec::new();
    let mut rejected: Vec<String> = Vec::new();
    let mut closed: Vec<CompactionCheckpoint> = Vec::new();
    let mut i: usize = 0;
    assert(slots_view(open@) =~= Seq::empty());
    assert(str_views(rejected@) =~= Seq::empty());
    assert(cps_view(closed@) =~= Seq::empty());
    while i < log.len()
        invariant
            i <= log@.len(),
            (slots_view(open@), str_views(rejected@), cps_view(closed@)) == scan_of(log@.take(i as int)),
        decreases log@.len() - i,
    {
        assert(log@.take(i as int + 1).drop_last() =~= log@.take(i as int));
        let ghost st = (slots_view(open@), str_views(rejected@), cps_view(closed@));
        let ghost before_r = rejected@;
        let ghost before_o = open@;
        let ghost before_c = closed@;
        match &log[i] {
            CompactionLogEntry::Start { marker } => {
                match find_open(&open, marker.as_str()) {
                    Some(_) => {
                        let n = note("marker ", marker.as_str(), " opened twice without closing");
                        rejected.push(n);
                        assert(str_views(rejected@) =~= str_views(before_r).push(n@));
                    },
                    None => {
                        let slot = OpenMarker { marker: marker.clone(), staged: None };
                        open.push(slot);
                        assert(slots_view(open@) =~= slots_view(before_o).push(slot_view(slot)));
                    },
                }
            },
            CompactionLogEntry::Checkpoint(c) => {
                match find_open(&open, c.marker.as_str()) {
                    Some(p) => {
                        if open[p].staged.is_none() {
                            let cp = clone_checkpoint(c);
                            let name = open[p].marker.clone();
                            let slot = OpenMarker { marker: name, staged: Some(cp) };
                            open.set(p, slot);
                            assert(slots_view(open@) =~= slots_view(before_o).update(p as int, slot_view(slot)));
                        } else {
                            let n = note("marker ", open[p].marker.as_str(), " staged two checkpoints before closing");
                            rejected.push(n);
                            assert(str_views(rejected@) =~= str_views(before_r).push(n@));
                        }
                    },
                    None => {
                        let n = note("checkpoint ", c.marker.as_str(), " has no open marker pair");
                        rejected.push(n);
                        assert(str_views(rejected@) =~= str_views(before_r).push(n@));
                    },
                }
            },
            CompactionLogEntry::End { marker } => {
                match find_open(&open, marker.as_str()) {
                    Some(p) => {
                        let slot = open.remove(p);
                        assert(slots_view(open@) =~= slots_view(before_o).remove(p as int));
                        match slot.staged {
                            Some(cp) => {
                                closed.push(cp);
                                assert(cps_view(closed@) =~= cps_view(before_c).push(cp_view(cp)));
                            },
                            None => {
                                let n = note("marker ", marker.as_str(), " closed without a checkpoint");
                                rejected.push(n);
                                assert(str_views(rejected@) =~= str_views(before_r).push(n@));
                            },
                        }
                    },
                    None => {
                        let n = note("marker ", marker.as_str(), " closed without opening");
                        rejected.push(n);
                        assert(str_views(rejected@) =~= str_views(before_r).push(n@));
                    },
                }
            },
        }
        i = i + 1;
    }
    assert(log@.take(i as int) =~= log@);
    LogScan { open, rejected, closed }
}

/// Markers whose compaction write never closed (the crash-detection read):
/// their checkpoints are never folded into any view.
pub fn detect_unclosed_compactions(log: &[CompactionLogEntry]) -> (r: Vec<String>)
    ensures
        str_views(r@) == unclosed_of(log@),
{
    let scan = scan_log(log);
    let ghost sv = slots_view(scan.open@);
    let mut r: Vec<String> = Vec::new();
    let mut i: usize = 0;
    while i < scan.open.len()
        invariant
            i <= scan.open@.len(),
            sv == slots_view(scan.open@),
            str_views(r@) == sv.take(i as int).map_values(
                |s: (Seq<char>, Option<(usize, usize, Seq<char>, Seq<char>)>)| s.0,
            ),
        decreases scan.open@.len() - i,
    {
        let ghost before = r@;
        let name = scan.open[i].marker.clone();
        r.push(name);
        assert(sv[i as int].0 == name@);
        assert(sv.take(i as int + 1) =~= sv.take(i as int).push(sv[i as int]));
        assert(str_views(r@) =~= str_views(before).push(name@));
        assert(str_views(r@) =~= sv.take(i as int + 1).map_values(
            |s: (Seq<char>, Option<(usize, usize, Seq<char>, Seq<char>)>)| s.0,
        ));
        i = i + 1;
    }
    assert(sv.take(i as int) =~= sv);
    r
}

// ---------------------------------------------------------------------------
// Fold
// ---------------------------------------------------------------------------

/// A view segment as plain values: whether it is a summary, its span, and
/// (for a summary) its text and marker.
pub type SegView = (bool, usize, usize, Seq<char>, Seq<char>);

/// A segment's plain values.
pub open spec fn seg_view(s: ViewSegment) -> SegView {
    match s {
        ViewSegment::Original { start_seq, end_seq } => (false, start_seq, end_seq, seq![], seq![]),
        ViewSegment::Summary { start_seq, end_seq, summary, marker } => (true, start_seq, end_seq, summary@, marker@),
    }
}

/// Segments as plain values.
pub open spec fn segs_view(v: Seq<ViewSegment>) -> Seq<SegView> {
    v.map_values(|s: ViewSegment| seg_view(s))
}

/// The summary segment of a checkpoint.
pub open spec fn summary_seg(cv: (usize, usize, Seq<char>, Seq<char>)) -> SegView {
    (true, cv.0, cv.1, cv.2, cv.3)
}

/// An original segment.
pub open spec fn original_seg(s: usize, e: usize) -> SegView {
    (false, s, e, seq![], seq![])
}

/// Spans `[a0, a1)` and `[s, e)` do not meet.
pub open spec fn disjoint_span(a0: int, a1: int, s: int, e: int) -> bool {
    a1 <= s || e <= a0
}

/// Span `[a0, a1)` lies inside `[s, e)`.
pub open spec fn covered_span(a0: int, a1: int, s: int, e: int) -> bool {
    s <= a0 && a1 <= e
}

/// Index of the first summary segment that `[s, e)` overlaps only in part, or -1.
pub open spec fn first_partial_summary(segs: Seq<SegView>, s: int, e: int) -> int
    decreases segs.len(),
{
    if segs.len() == 0 {
        -1
    } else {
        let p = first_partial_summary(segs.drop_last(), s, e);
        let g = segs.last();
        if p >= 0 {
            p
        } else if g.0 && !disjoint_span(g.1 as int, g.2 as int, s, e) && !covered_span(g.1 as int, g.2 as int, s, e) {
            segs.len() - 1
        } else {
            -1
        }
    }
}

/// One segment carried through the rebuild around checkpoint `cv`: kept when
/// disjoint, superseded when covered, trimmed to its uncovered parts when
/// overlapped; the summary goes in at the first segment it reaches.
pub open spec fn rebuild_step(
    acc: (Seq<SegView>, bool),
    g: SegView,
    cv: (usize, usize, Seq<char>, Seq<char>),
) -> (Seq<SegView>, bool) {
    let (next, ins) = acc;
    let s = cv.0;
    let e = cv.1;
    if disjoint_span(g.1 as int, g.2 as int, s as int, e as int) {
        if !ins && e <= g.1 {
            (next.push(summary_seg(cv)).push(g), true)
        } else {
            (next.push(g), ins)
        }
    } else if covered_span(g.1 as int, g.2 as int, s as int, e as int) {
        if !ins {
            (next.push(summary_seg(cv)), true)
        } else {
            (next, ins)
        }
    } else {
        let n1 = if g.1 < s {
            next.push(original_seg(g.1, s))
        } else {
            next
        };
        let n2 = if !ins {
            n1.push(summary_seg(cv))
        } else {
            n1
        };
        let n3 = if e < g.2 {
            n2.push(original_seg(e, g.2))
        } else {
            n2
        };
        (n3, true)
    }
}

/// All segments carried through the rebuild.
pub open spec fn rebuild(segs: Seq<SegView>, cv: (usize, usize, Seq<char>, Seq<char>)) -> (Seq<SegView>, bool)
    decreases segs.len(),
{
    if segs.len() == 0 {
        (seq![], false)
    } else {
        rebuild_step(rebuild(segs.drop_last(), cv), segs.last(), cv)
    }
}

/// One closed checkpoint applied to the segments, or why it is refused.
pub open spec fn apply_cp(segs: Seq<SegView>, cv: (usize, usize, Seq<char>, Seq<char>), count: usize) -> Result<
    Seq<SegView>,
    Seq<char>,
> {
    if cv.0 >= cv.1 {
        Err(
            "checkpoint "@ + cv.3 + " covers an empty span ["@ + decimal(cv.0 as nat) + ", "@ + decimal(cv.1 as nat)
                + ")"@,
        )
    } else if cv.1 > count {
        Err(
            "checkpoint "@ + cv.3 + " reaches past the transcript ("@ + decimal(cv.1 as nat) + " > "@ + decimal(
                count as nat,
            ) + ")"@,
        )
    } else if first_partial_summary(segs, cv.0 as int, cv.1 as int) >= 0 {
        Err(
            "checkpoint "@ + cv.3 + " half-replaces standing summary "@ + segs[first_partial_summary(
                segs,
                cv.0 as int,
                cv.1 as int,
            )].4 + "; rejected"@,
        )
    } else if !rebuild(segs, cv).1 {
        Err("checkpoint "@ + cv.3 + " covers no standing segment; rejected"@)
    } else {
        Ok(rebuild(segs, cv).0)
    }
}

/// The view before any checkpoint: one original segment over the transcript.
pub open spec fn initial_segments(count: usize) -> Seq<SegView> {
    if count == 0 {
        seq![]
    } else {
        seq![original_seg(0, count)]
    }
}

/// The closed checkpoints applied in closing order: segments, refusals,
/// applied markers.
pub open spec fn fold_all(count: usize, closed: Seq<(usize, usize, Seq<char>, Seq<char>)>) -> (
    Seq<SegView>,
    Seq<Seq<char>>,
    Seq<Seq<char>>,
)
    decreases closed.len(),
{
    if closed.len() == 0 {
        (initial_segments(count), seq![], seq![])
    } else {
        let prev = fold_all(count, closed.drop_last());
        let cv = closed.last();
        match apply_cp(prev.0, cv, count) {
            Ok(n) => (n, prev.1, prev.2.push(cv.3)),
            Err(r) => (prev.0, prev.1.push(r), prev.2),
        }
    }
}

fn clone_segment(g: &ViewSegment) -> (r: ViewSegment)
    ensures
        seg_view(r) == seg_view(*g),
{
    match g {
        ViewSegment::Original { start_seq, end_seq } => ViewSegment::Original { start_seq: *start_seq, end_seq: *end_seq },
        ViewSegment::Summary { start_seq, end_seq, summary, marker } => ViewSegment::Summary {
            start_seq: *start_seq,
            end_seq: *end_seq,
            summary: summary.clone(),
            marker: marker.clone(),
        },
    }
}

fn span_of(g: &ViewSegment) -> (r: (usize, usize))
    ensures
        r.0 == seg_view(*g).1,
        r.1 == seg_view(*g).2,
{
    match g {
        ViewSegment::Original { start_seq, end_seq } => (*start_seq, *end_seq),
        ViewSegment::Summary { start_seq, end_seq, .. } => (*start_seq, *end_seq),
    }
}

fn summary_segment(cp: &CompactionCheckpoint) -> (r: ViewSegment)
    ensures
        seg_view(r) == summary_seg(cp_view(*cp)),
{
    ViewSegment::Summary {
        start_seq: cp.start_seq,
        end_seq: cp.end_seq,
        summary: cp.summary.clone(),
        marker: cp.marker.clone(),
    }
}

fn push_seg(v: &mut Vec<ViewSegment>, g: ViewSegment)
    ensures
        segs_view(final(v)@) == segs_view(old(v)@).push(seg_view(g)),
{
    let ghost gv = seg_view(g);
    v.push(g);
    assert(segs_view(v@) =~= segs_view(old(v)@).push(gv));
}

fn partial_summary(segments: &Vec<ViewSegment>, s: usize, e: usize) -> (r: Option<usize>)
    ensures
        match r {
            Some(p) => p == first_partial_summary(segs_view(segments@), s as int, e as int) && p < segments@.len(),
            None => first_partial_summary(segs_view(segments@), s as int, e as int) == -1,
        },
{
    let ghost sv = segs_view(segments@);
    let mut i: usize = 0;
    while i < segments.len()
        invariant
            i <= segments@.len(),
            sv == segs_view(segments@),
            first_partial_summary(sv.take(i as int), s as int, e as int) == -1,
        decreases segments@.len() - i,
    {
        assert(sv.take(i as int + 1).drop_last() =~= sv.take(i as int));
        let g = &segments[i];
        let (a0, a1) = span_of(g);
        let is_summary = match g {
            ViewSegment::Summary { .. } => true,
            ViewSegment::Original { .. } => false,
        };
        if is_summary && !(a1 <= s || e <= a0) && !(s <= a0 && a1 <= e) {
            proof {
                assert(first_partial_summary(sv.take(i as int + 1), s as int, e as int) == i);
                lemma_partial_stable(sv, s as int, e as int, i as int + 1);
            }
            return Some(i);
        }
        i = i + 1;
    }
    assert(sv.take(i as int) =~= sv);
    None
}

proof fn lemma_partial_is_summary(sv: Seq<SegView>, s: int, e: int)
    ensures
        first_partial_summary(sv, s, e) >= 0 ==> first_partial_summary(sv, s, e) < sv.len() && sv[first_partial_summary(
            sv,
            s,
            e,
        )].0,
    decreases sv.len(),
{
    if sv.len() > 0 {
        lemma_partial_is_summary(sv.drop_last(), s, e);
        let p = first_partial_summary(sv.drop_last(), s, e);
        if p >= 0 {
            assert(sv.drop_last()[p] == sv[p]);
        }
    }
}

proof fn lemma_partial_stable(sv: Seq<SegView>, s: int, e: int, a: int)
    requires
        0 <= a <= sv.len(),
        first_partial_summary(sv.take(a), s, e) >= 0,
    ensures
        first_partial_summary(sv, s, e) == first_partial_summary(sv.take(a), s, e),
    decreases sv.len() - a,
{
    if a < sv.len() {
        assert(sv.take(a + 1).drop_last() =~= sv.take(a));
        lemma_partial_stable(sv, s, e, a + 1);
    } else {
        assert(sv.take(a) =~= sv);
    }
}

fn span_note(cp: &CompactionCheckpoint, middle: &str, a: usize, sep: &str, b: usize, tail: &str) -> (r: String)
    ensures
        r@ == "checkpoint "@ + cp.marker@ + middle@ + decimal(a as nat) + sep@ + decimal(b as nat) + tail@,
{
    let mut r = String::from_str("checkpoint ");
    push_str(&mut r, cp.marker.as_str());
    push_str(&mut r, middle);
    push_decimal(&mut r, a as u64);
    push_str(&mut r, sep);
    push_decimal(&mut r, b as u64);
    push_str(&mut r, tail);
    r
}

fn apply_checkpoint(segments: &mut Vec<ViewSegment>, cp: &CompactionCheckpoint, count: usize) -> (r: Result<(), String>)
    ensures
        match apply_cp(segs_view(old(segments)@), cp_view(*cp), count) {
            Ok(n) => r is Ok && segs_view(final(segments)@) == n,
            Err(e) => (r matches Err(x) && x@ == e) && final(segments)@ == old(segments)@,
        },
{
    let s = cp.start_seq;
    let e = cp.end_seq;
    if s >= e {
        return Err(span_note(cp, " covers an empty span [", s, ", ", e, ")"));
    }
    if e > count {
        return Err(span_note(cp, " reaches past the transcript (", e, " > ", count, ")"));
    }
    match partial_summary(segments, s, e) {
        Some(p) => {
            proof {
                lemma_partial_is_summary(segs_view(segments@), s as int, e as int);
                assert(segs_view(segments@)[p as int] == seg_view(segments@[p as int]));
            }
            let name = match &segments[p] {
                ViewSegment::Summary { marker, .. } => marker.as_str(),
                ViewSegment::Original { .. } => "",
            };
            let mut r = note("checkpoint ", cp.marker.as_str(), " half-replaces standing summary ");
            push_str(&mut r, name);
            push_str(&mut r, "; rejected");
            assert(name@ == segs_view(segments@)[p as int].4);
            return Err(r);
        },
        None => {},
    }
    let ghost sv = segs_view(segments@);
    let ghost cv = cp_view(*cp);
    let mut next: Vec<ViewSegment> = Vec::new();
    let mut inserted = false;
    let mut i: usize = 0;
    assert(segs_view(next@) =~= Seq::<SegView>::empty());
    while i < segments.len()
        invariant
            i <= segments@.len(),
            sv == segs_view(segments@),
            cv == cp_view(*cp),
            s == cv.0,
            e == cv.1,
            (segs_view(next@), inserted) == rebuild(sv.take(i as int), cv),
        decreases segments@.len() - i,
    {
        assert(sv.take(i as int + 1).drop_last() =~= sv.take(i as int));
        let g = &segments[i];
        let (a0, a1) = span_of(g);
        if a1 <= s || e <= a0 {
            if !inserted && e <= a0 {
                push_seg(&mut next, summary_segment(cp));
                inserted = true;
            }
            push_seg(&mut next, clone_segment(g));
        } else if s <= a0 && a1 <= e {
            if !inserted {
                push_seg(&mut next, summary_segment(cp));
                inserted = true;
            }
        } else {
            if a0 < s {
                push_seg(&mut next, ViewSegment::Original { start_seq: a0, end_seq: s });
            }
            if !inserted {
                push_seg(&mut next, summary_segment(cp));
                inserted = true;
            }
            if e < a1 {
                push_seg(&mut next, ViewSegment::Original { start_seq: e, end_seq: a1 });
            }
        }
        i = i + 1;
    }
    assert(sv.take(i as int) =~= sv);
    if !inserted {
        return Err(note("checkpoint ", cp.marker.as_str(), " covers no standing segment; rejected"));
    }
    *segments = next;
    Ok(())
}

/// Folds a compaction log over a transcript of `message_count` messages.
///
/// A pure function of its inputs. Only checkpoints whose marker pair closed
/// are applied, in closing order: each replaces the segments its span covers
/// and trims an original segment it overlaps, and is refused when it would
/// half-replace a standing summary, is empty, reaches past the transcript,
/// or covers nothing.
pub fn fold_checkpoints(message_count: usize, log: &[CompactionLogEntry]) -> (v: FoldedView)
    ensures
        segs_view(v.segments@) == fold_all(message_count, scan_of(log@).2).0,
        str_views(v.unclosed_markers@) == unclosed_of(log@),
        str_views(v.rejected@) == scan_of(log@).1 + never_closed_notes(scan_of(log@).0) + fold_all(
            message_count,
            scan_of(log@).2,
        ).1,
        str_views(v.applied_markers@) == fold_all(message_count, scan_of(log@).2).2,
{
    let scan = scan_log(log);
    let ghost sv = slots_view(scan.open@);
    let ghost closed = cps_view(scan.closed@);
    let mut unclosed: Vec<String> = Vec::new();
    let mut rejected = scan.rejected;
    let ghost r0 = str_views(rejected@);
    let mut i: usize = 0;
    while i < scan.open.len()
        invariant
            i <= scan.open@.len(),
            sv == slots_view(scan.open@),
            str_views(unclosed@) == sv.take(i as int).map_values(
                |s: (Seq<char>, Option<(usize, usize, Seq<char>, Seq<char>)>)| s.0,
            ),
            str_views(rejected@) == r0 + never_closed_notes(sv.take(i as int)),
        decreases scan.open@.len() - i,
    {
        assert(sv.take(i as int + 1).drop_last() =~= sv.take(i as int));
        let slot = &scan.open[i];
        let ghost before_u = unclosed@;
        let ghost before_r = rejected@;
        let name = slot.marker.clone();
        unclosed.push(name);
        assert(sv[i as int].0 == name@);
        assert(sv.take(i as int + 1) =~= sv.take(i as int).push(sv[i as int]));
        assert(str_views(unclosed@) =~= str_views(before_u).push(name@));
        assert(str_views(unclosed@) =~= sv.take(i as int + 1).map_values(
            |s: (Seq<char>, Option<(usize, usize, Seq<char>, Seq<char>)>)| s.0,
        ));
        if slot.staged.is_some() {
            let n = note("marker ", slot.marker.as_str(), " never closed; its checkpoint is not applied");
            rejected.push(n);
            assert(str_views(rejected@) =~= str_views(before_r).push(n@));
        }
        i = i + 1;
    }
    assert(sv.take(i as int) =~= sv);
    let mut segments: Vec<ViewSegment> = Vec::new();
    if message_count > 0 {
        segments.push(ViewSegment::Original { start_seq: 0, end_seq: message_count });
    }
    assert(segs_view(segments@) =~= initial_segments(message_count));
    let mut applied: Vec<String> = Vec::new();
    let ghost r1 = str_views(rejected@);
    assert(str_views(applied@) =~= Seq::<Seq<char>>::empty());
    let mut k: usize = 0;
    while k < scan.closed.len()
        invariant
            k <= scan.closed@.len(),
            closed == cps_view(scan.closed@),
            segs_view(segments@) == fold_all(message_count, closed.take(k as int)).0,
            str_views(rejected@) == r1 + fold_all(message_count, closed.take(k as int)).1,
            str_views(applied@) == fold_all(message_count, closed.take(k as int)).2,
        decreases scan.closed@.len() - k,
    {
        assert(closed.take(k as int + 1).drop_last() =~= closed.take(k as int));
        let cp = &scan.closed[k];
        let ghost before_r = rejected@;
        let ghost before_a = applied@;
        match apply_checkpoint(&mut segments, cp, message_count) {
            Ok(()) => {
                let name = cp.marker.clone();
                applied.push(name);
                assert(str_views(applied@) =~= str_views(before_a).push(name@));
            },
            Err(reason) => {
                let ghost rv = reason@;
                rejected.push(reason);
                assert(str_views(rejected@) =~= str_views(before_r).push(rv));
            },
        }
        k = k + 1;
    }
    assert(closed.take(k as int) =~= closed);
    FoldedView { segments, unclosed_markers: unclosed, rejected, applied_markers: applied }
}

/// Only checkpoints whose marker pair closed are ever applied: every applied
/// marker is the marker of a closed checkpoint, and the fold applies them in
/// closing order.
pub proof fn only_closed_checkpoints_apply(count: usize, closed: Seq<(usize, usize, Seq<char>, Seq<char>)>)
    ensures
        forall|i: int|
            0 <= i < fold_all(count, closed).2.len() ==> exists|j: int|
                0 <= j < closed.len() && #[trigger] fold_all(count, closed).2[i] == closed[j].3,
        fold_all(count, closed).2.len() <= closed.len(),
    decreases closed.len(),
{
    if closed.len() > 0 {
        let prev = closed.drop_last();
        only_closed_checkpoints_apply(count, prev);
        let f = fold_all(count, closed);
        let pf = fold_all(count, prev);
        assert forall|i: int| 0 <= i < f.2.len() implies exists|j: int| 0 <= j < closed.len() && #[trigger] f.2[i]
            == closed[j].3 by {
            if i < pf.2.len() {
                assert(f.2[i] == pf.2[i]);
                let j = choose|j: int| 0 <= j < prev.len() && pf.2[i] == prev[j].3;
                assert(closed[j] == prev[j]);
            } else {
                assert(f.2[i] == closed.last().3);
                assert(closed[closed.len() - 1] == closed.last());
            }
        }
    }
}

/// The segments cover `[lo, hi)` exactly: each is non-empty, the first
/// starts at `lo`, each ends where the next starts, and the last ends at `hi`.
pub open spec fn tiles(segs: Seq<SegView>, lo: int, hi: int) -> bool {
    if segs.len() == 0 {
        lo == hi
    } else {
        &&& segs[0].1 == lo
        &&& segs.last().2 == hi
        &&& forall|i: int| 0 <= i < segs.len() ==> (#[trigger] segs[i]).1 < segs[i].2
        &&& forall|i: int| 0 <= i < segs.len() - 1 ==> (#[trigger] segs[i]).2 == segs[i + 1].1
    }
}

/// Where a tiling from 0 ends.
pub open spec fn tiled_end(segs: Seq<SegView>) -> int {
    if segs.len() == 0 {
        0
    } else {
        segs.last().2 as int
    }
}

proof fn lemma_tiles_push(segs: Seq<SegView>, lo: int, mid: int, g: SegView)
    requires
        tiles(segs, lo, mid),
        g.1 == mid,
        g.1 < g.2,
    ensures
        tiles(segs.push(g), lo, g.2 as int),
{
    let t = segs.push(g);
    assert forall|i: int| 0 <= i < t.len() implies (#[trigger] t[i]).1 < t[i].2 by {
        if i < segs.len() {
            assert(t[i] == segs[i]);
        }
    }
    assert forall|i: int| 0 <= i < t.len() - 1 implies (#[trigger] t[i]).2 == t[i + 1].1 by {
        assert(t[i] == segs[i]);
        if i + 1 < segs.len() {
            assert(t[i + 1] == segs[i + 1]);
        } else {
            assert(segs[i] == segs.last());
        }
    }
}

proof fn lemma_tiles_drop_last(segs: Seq<SegView>, lo: int, hi: int)
    requires
        tiles(segs, lo, hi),
        segs.len() > 0,
    ensures
        tiles(segs.drop_last(), lo, segs.last().1 as int),
        lo <= segs.last().1,
{
    let d = segs.drop_last();
    if d.len() > 0 {
        assert(d.last() == segs[segs.len() - 2]);
        assert forall|i: int| 0 <= i < d.len() implies (#[trigger] d[i]).1 < d[i].2 by {
            assert(d[i] == segs[i]);
        }
        assert forall|i: int| 0 <= i < d.len() - 1 implies (#[trigger] d[i]).2 == d[i + 1].1 by {
            assert(d[i] == segs[i]);
            assert(d[i + 1] == segs[i + 1]);
        }
        lemma_tiles_start_below(segs, lo, hi, segs.len() - 1);
    }
}

proof fn lemma_tiles_start_below(segs: Seq<SegView>, lo: int, hi: int, k: int)
    requires
        tiles(segs, lo, hi),
        0 <= k < segs.len(),
    ensures
        lo <= segs[k].1,
    decreases k,
{
    if k > 0 {
        lemma_tiles_start_below(segs, lo, hi, k - 1);
        assert(segs[k - 1].2 == segs[k].1);
        assert(segs[k - 1].1 < segs[k - 1].2);
    }
}

/// The rebuild around a non-empty checkpoint `[s, e)` keeps a tiling from
/// 0: while the segments end at or before `s` nothing changes; once they
/// reach past `s`, the summary is in and the result tiles up to the later of
/// their end and `e`.
proof fn lemma_rebuild_tiles(segs: Seq<SegView>, cv: (usize, usize, Seq<char>, Seq<char>))
    requires
        tiles(segs, 0, tiled_end(segs)),
        cv.0 < cv.1,
    ensures
        ({
            let (out, ins) = rebuild(segs, cv);
            let b = tiled_end(segs);
            &&& b <= cv.0 ==> !ins && out == segs
            &&& b > cv.0 ==> ins && tiles(out, 0, if b >= cv.1 { b } else { cv.1 as int })
        }),
    decreases segs.len(),
{
    if segs.len() > 0 {
        let d = segs.drop_last();
        let g = segs.last();
        lemma_tiles_drop_last(segs, 0, tiled_end(segs));
        assert(tiled_end(d) == g.1) by {
            if d.len() > 0 {
                assert(d.last() == segs[segs.len() - 2]);
                assert(segs[segs.len() - 2].2 == segs[segs.len() - 1].1);
            }
        }
        lemma_rebuild_tiles(d, cv);
        let (out0, ins0) = rebuild(d, cv);
        let s = cv.0 as int;
        let e = cv.1 as int;
        let a = g.1 as int;
        let b = g.2 as int;
        assert(a < b) by {
            assert(segs[segs.len() - 1] == g);
        }
        let sum = summary_seg(cv);
        if a <= s {
            assert(out0 == d && !ins0);
            if b <= s {
                assert(segs =~= d.push(g));
            } else if s <= a && b <= e {
                lemma_tiles_push(d, 0, a, sum);
            } else {
                if a < s {
                    lemma_tiles_push(d, 0, a, original_seg(g.1, cv.0));
                    lemma_tiles_push(d.push(original_seg(g.1, cv.0)), 0, s, sum);
                    if e < b {
                        lemma_tiles_push(d.push(original_seg(g.1, cv.0)).push(sum), 0, e, original_seg(cv.1, g.2));
                    }
                } else {
                    lemma_tiles_push(d, 0, a, sum);
                    if e < b {
                        lemma_tiles_push(d.push(sum), 0, e, original_seg(cv.1, g.2));
                    }
                }
            }
        } else {
            let m = if a >= e { a } else { e };
            assert(ins0 && tiles(out0, 0, m));
            if e <= a {
                lemma_tiles_push(out0, 0, a, g);
            } else if b <= e {
            } else {
                lemma_tiles_push(out0, 0, e, original_seg(cv.1, g.2));
            }
        }
    }
}

/// The folded view tiles the transcript: its segments cover `[0, count)`
/// exactly, in order, whatever checkpoints were applied or refused.
pub proof fn folded_segments_tile_the_transcript(count: usize, closed: Seq<(usize, usize, Seq<char>, Seq<char>)>)
    ensures
        tiles(fold_all(count, closed).0, 0, count as int),
    decreases closed.len(),
{
    if closed.len() == 0 {
        if count > 0 {
            assert(initial_segments(count)[0] == original_seg(0, count));
        }
    } else {
        let prev = fold_all(count, closed.drop_last());
        folded_segments_tile_the_transcript(count, closed.drop_last());
        let cv = closed.last();
        if apply_cp(prev.0, cv, count) is Ok {
            assert(tiled_end(prev.0) == count);
            lemma_rebuild_tiles(prev.0, cv);
        }
    }
}

} // verus!
