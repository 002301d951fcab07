//! Context segments, their edit operations, and the budgeted assembly that
//! follows compaction.
//!
//! Core segments are never compacted or dropped: after the edits are
//! applied, every core segment is kept whole, and the non-core segments fill
//! what remains of a character budget in order; the first one that does not
//! fit is cut to the remaining room when more than 20 characters remain,
//! which ends the assembly, and skipped otherwise.
//!
//! The query tokens used for relevance are lower-cased ASCII words and CJK
//! character pairs, sorted and without repeats.

use vstd::prelude::*;
use crate::text::{push_char, push_str, chars_of, string_from_chars, str_eq, lex_lt, lex_less,
    lemma_lex_lt_irreflexive, lemma_lex_lt_transitive, lemma_lex_lt_total};
use crate::cron::{split_on, split_chars, trim, trimmed, lower_char, to_lower_char};

verus! {

broadcast use vstd::string::group_string_axioms;

/// A context segment to score and edit.
#[derive(Debug, Clone, PartialEq, Eq)]
pub struct Segment {
    pub name: String,
    pub content: String,
    /// Core segments are never compacted or dropped.
    pub core: bool,
    /// Turns since the segment was current.
    pub age_turns: usize,
}

#[verifier::ext_equal]
pub struct SegmentView {
    pub name: Seq<char>,
    pub content: Seq<char>,
    pub core: bool,
    pub age_turns: usize,
}

impl View for Segment {
    type V = SegmentView;

    open spec fn view(&self) -> SegmentView {
        SegmentView { name: self.name@, content: self.content@, core: self.core, age_turns: self.age_turns }
    }
}

pub open spec fn segment_views(v: Seq<Segment>) -> Seq<SegmentView> {
    v.map_values(|s: Segment| s@)
}

impl Segment {
    /// A non-core segment.
    pub fn new(name: &str, content: &str, age_turns: usize) -> (s: Segment)
        ensures
            s@ == (SegmentView { name: name@, content: content@, core: false, age_turns }),
    {
        let mut n = String::new();
        push_str(&mut n, name);
        let mut c = String::new();
        push_str(&mut c, content);
        Segment { name: n, content: c, core: false, age_turns }
    }

    /// Sets whether the segment is core.
    pub fn with_core(self, core: bool) -> (s: Segment)
        ensures
            s@ == (SegmentView { core, ..self@ }),
    {
        let mut s = self;
        s.core = core;
        s
    }
}

fn clone_segment(s: &Segment) -> (c: Segment)
    ensures
        c@ == s@,
{
    Segment { name: s.name.clone(), content: s.content.clone(), core: s.core, age_turns: s.age_turns }
}

// ---------------------------------------------------------------------------
// Query tokens
// ---------------------------------------------------------------------------

/// Whether `c` is an alphabetic character in Unicode's sense.
pub uninterp spec fn unicode_alphabetic(c: char) -> bool;

/// Trusted: calls `char::is_alphabetic`, whose result depends on the
/// character alone (Unicode's `Alphabetic` property); it is named
/// [`unicode_alphabetic`] and nothing more is claimed of it.
#[verifier::external_body]
fn is_alphabetic(c: char) -> (b: bool)
    ensures
        b == unicode_alphabetic(c),
{
    c.is_alphabetic()
}

pub open spec fn ascii_alnum(c: char) -> bool {
    ('0' <= c && c <= '9') || ('a' <= c && c <= 'z') || ('A' <= c && c <= 'Z')
}


/// A CJK-range letter: beyond U+2E80 and alphabetic.
pub open spec fn cjk_letter(c: char) -> bool {
    c > '\u{2e80}' && unicode_alphabetic(c)
}

/// The scanner over a query: the tokens so far, the ASCII word being read,
/// and the previous CJK letter.
pub open spec fn token_scan(cs: Seq<char>) -> (Seq<Seq<char>>, Seq<char>, Option<char>)
    decreases cs.len(),
{
    if cs.len() == 0 {
        (seq![], seq![], None)
    } else {
        let (out, word, prev) = token_scan(cs.drop_last());
        let c = cs.last();
        let flushed = if word.len() > 0 { out.push(word) } else { out };
        if ascii_alnum(c) {
            (out, word.push(lower_char(c)), None)
        } else if cjk_letter(c) {
            let pair = match prev {
                Some(p) => seq![p, c],
                None => seq![c],
            };
            (flushed.push(pair), seq![], Some(c))
        } else {
            (flushed, seq![], None)
        }
    }
}

/// The tokens of a query in reading order, repeats included.
pub open spec fn raw_tokens(cs: Seq<char>) -> Seq<Seq<char>> {
    let (out, word, _) = token_scan(cs);
    if word.len() > 0 { out.push(word) } else { out }
}

pub open spec fn strictly_sorted(v: Seq<Seq<char>>) -> bool {
    forall|i: int, j: int| 0 <= i < j < v.len() ==> lex_lt(#[trigger] v[i], #[trigger] v[j])
}

pub open spec fn string_views(v: Seq<String>) -> Seq<Seq<char>> {
    v.map_values(|s: String| s@)
}

/// Inserts `t` into a strictly sorted list unless it is already there.
fn insert_sorted_unique(v: &mut Vec<String>, t: String)
    requires
        strictly_sorted(string_views(old(v)@)),
    ensures
        strictly_sorted(string_views(final(v)@)),
        forall|x: Seq<char>| string_views(final(v)@).contains(x) <==> (string_views(old(v)@).contains(x) || x == t@),
{
    let ghost vs = string_views(v@);
    let mut i: usize = 0;
    while i < v.len() && lex_less(v[i].as_str(), t.as_str())
        invariant
            vs == string_views(v@),
            strictly_sorted(vs),
            i <= vs.len(),
            forall|k: int| 0 <= k < i ==> lex_lt(#[trigger] vs[k], t@),
        decreases vs.len() - i,
    {
        i = i + 1;
    }
    if i < v.len() && str_eq(v[i].as_str(), t.as_str()) {
        proof {
            assert forall|x: Seq<char>| vs.contains(x) <==> (vs.contains(x) || x == t@) by {
                if x == t@ {
                    assert(vs[i as int] == x);
                }
            }
        }
        return;
    }
    proof {
        if i < vs.len() {
            lemma_lex_lt_total(vs[i as int], t@);
            assert forall|k: int| i <= k < vs.len() implies lex_lt(t@, #[trigger] vs[k]) by {
                if k > i {
                    lemma_lex_lt_transitive(t@, vs[i as int], vs[k]);
                }
            }
        }
    }
    let ghost tv = t@;
    v.insert(i, t);
    proof {
        let n = string_views(v@);
        assert(n =~= vs.insert(i as int, tv));
        assert forall|a: int, b: int| 0 <= a < b < n.len() implies lex_lt(#[trigger] n[a], #[trigger] n[b]) by {
            if b < i {
            } else if b == i {
            } else if a < i {
                assert(lex_lt(vs[a], vs[b - 1]));
            } else if a == i {
            } else {
                assert(lex_lt(vs[a - 1], vs[b - 1]));
            }
        }
        assert forall|x: Seq<char>| n.contains(x) <==> (vs.contains(x) || x == tv) by {
            if n.contains(x) {
                let k = choose|k: int| 0 <= k < n.len() && n[k] == x;
                if k < i {
                    assert(vs[k] == x);
                } else if k > i {
                    assert(vs[k - 1] == x);
                }
            }
            if vs.contains(x) {
                let k = choose|k: int| 0 <= k < vs.len() && vs[k] == x;
                if k < i {
                    assert(n[k] == x);
                } else {
                    assert(n[k + 1] == x);
                }
            }
            if x == tv {
                assert(n[i as int] == x);
            }
        }
    }
}

/// Relevance tokens of a query: lower-cased ASCII words and CJK character
/// pairs (a lone CJK letter after a break stands alone), sorted, each once.
pub fn query_tokens(query: &str) -> (r: Vec<String>)
    ensures
        strictly_sorted(string_views(r@)),
        forall|t: Seq<char>| string_views(r@).contains(t) <==> raw_tokens(query@).contains(t),
{
    broadcast use vstd::seq_lib::lemma_seq_contains_after_push;
    let cs = chars_of(query);
    let mut out: Vec<String> = Vec::new();
    let mut word: Vec<char> = Vec::new();
    let mut prev: Option<char> = None;
    let ghost mut raw: Seq<Seq<char>> = seq![];
    let mut i: usize = 0;
    proof {
        assert(cs@.take(0) =~= Seq::<char>::empty());
    }
    while i < cs.len()
        invariant
            cs@ == query@,
            i <= cs@.len(),
            token_scan(cs@.take(i as int)) == (raw, word@, prev),
            strictly_sorted(string_views(out@)),
            forall|t: Seq<char>| string_views(out@).contains(t) <==> raw.contains(t),
        decreases cs@.len() - i,
    {
        let c = cs[i];
        proof {
            assert(cs@.take(i + 1).drop_last() =~= cs@.take(i as int));
            assert(cs@.take(i + 1).last() == c);
        }
        let ghost raw0 = raw;
        let ghost word0 = word@;
        if ('0' <= c && c <= '9') || ('a' <= c && c <= 'z') || ('A' <= c && c <= 'Z') {
            word.push(to_lower_char(c));
            prev = None;
        } else {
            let cjk = c > '\u{2e80}' && is_alphabetic(c);
            if word.len() > 0 {
                let w = string_from_chars(word.as_slice());
                let ghost out0 = string_views(out@);
                insert_sorted_unique(&mut out, w);
                proof {
                    let r0 = raw;
                    raw = raw.push(word0);
                    assert forall|t: Seq<char>| string_views(out@).contains(t) <==> raw.contains(t) by {
                        assert(out0.contains(t) <==> r0.contains(t));
                        vstd::seq_lib::lemma_seq_contains_after_push(r0, word0, t);
                    }
                }
                word = Vec::new();
            }
            if cjk {
                let mut pair = String::new();
                match prev {
                    Some(p) => {
                        push_char(&mut pair, p);
                        push_char(&mut pair, c);
                        proof {
                            assert(pair@ =~= seq![p, c]);
                        }
                    },
                    None => {
                        push_char(&mut pair, c);
                        proof {
                            assert(pair@ =~= seq![c]);
                        }
                    },
                }
                let ghost pv = pair@;
                let ghost out1 = string_views(out@);
                insert_sorted_unique(&mut out, pair);
                proof {
                    let r1 = raw;
                    raw = raw.push(pv);
                    assert forall|t: Seq<char>| string_views(out@).contains(t) <==> raw.contains(t) by {
                        assert(out1.contains(t) <==> r1.contains(t));
                        vstd::seq_lib::lemma_seq_contains_after_push(r1, pv, t);
                    }
                }
                prev = Some(c);
            } else {
                prev = None;
            }
        }
        proof {
            assert(word@ =~= token_scan(cs@.take(i + 1)).1);
        }
        i = i + 1;
    }
    proof {
        assert(cs@.take(cs@.len() as int) =~= cs@);
    }
    if word.len() > 0 {
        let ghost wv = word@;
        let w = string_from_chars(word.as_slice());
        insert_sorted_unique(&mut out, w);
        proof {
            raw = raw.push(wv);
        }
    }
    out
}

// ---------------------------------------------------------------------------
// Extractive summary
// ---------------------------------------------------------------------------

/// Some earlier line trims to `t`.
pub open spec fn seen_before(ls: Seq<Seq<char>>, t: Seq<char>) -> bool {
    exists|j: int| 0 <= j < ls.len() && trim(#[trigger] ls[j]) == t
}

/// The summary over lines: each trimmed non-empty line once, in order,
/// joined by newlines; once the text reaches `max` characters the rest is
/// ignored. The flag says whether that happened.
pub open spec fn summary_acc(ls: Seq<Seq<char>>, max: nat) -> (Seq<char>, bool)
    decreases ls.len(),
{
    if ls.len() == 0 {
        (seq![], false)
    } else {
        let (out, stopped) = summary_acc(ls.drop_last(), max);
        let t = trim(ls.last());
        if stopped || t.len() == 0 || seen_before(ls.drop_last(), t) {
            (out, stopped)
        } else {
            let o = if out.len() > 0 { out.push('\n') + t } else { t };
            (o, o.len() >= max)
        }
    }
}

/// The extractive summary: lines deduplicated in order, cut to `max` chars.
pub open spec fn extractive(content: Seq<char>, max: nat) -> Seq<char> {
    let o = summary_acc(split_on(content, '\n'), max).0;
    if o.len() <= max { o } else { o.take(max as int) }
}

proof fn lemma_summary_stays_stopped(ls: Seq<Seq<char>>, k: int, max: nat)
    requires
        0 <= k <= ls.len(),
        summary_acc(ls.take(k), max).1,
    ensures
        summary_acc(ls, max) == summary_acc(ls.take(k), max),
    decreases ls.len() - k,
{
    if k < ls.len() {
        let t = ls.take(k + 1);
        assert(t.drop_last() =~= ls.take(k));
        lemma_summary_stays_stopped(ls, k + 1, max);
    } else {
        assert(ls.take(k) =~= ls);
    }
}

fn seen_in(trims: &Vec<Vec<char>>, t: &Vec<char>) -> (b: bool)
    ensures
        b == exists|j: int| 0 <= j < trims@.len() && (#[trigger] trims@[j])@ == t@,
{
    let mut j: usize = 0;
    while j < trims.len()
        invariant
            j <= trims@.len(),
            forall|k: int| 0 <= k < j ==> (#[trigger] trims@[k])@ != t@,
        decreases trims@.len() - j,
    {
        if crate::text::chars_eq(trims[j].as_slice(), t.as_slice()) {
            return true;
        }
        j = j + 1;
    }
    false
}

/// Deterministic extractive summary: trimmed non-empty lines, each once, in
/// order, joined by newlines, stopping once `max_chars` is reached, then cut
/// to `max_chars` characters.
pub fn extractive_summary(content: &str, max_chars: usize) -> (s: String)
    ensures
        s@ == extractive(content@, max_chars as nat),
{
    let cs = chars_of(content);
    let lines = split_chars(cs.as_slice(), '\n');
    let ghost ls = crate::cron::views(lines@);
    let mut trims: Vec<Vec<char>> = Vec::new();
    let mut out: Vec<char> = Vec::new();
    let mut stopped = false;
    let mut i: usize = 0;
    proof {
        assert(ls.take(0) =~= Seq::<Seq<char>>::empty());
    }
    while i < lines.len() && !stopped
        invariant
            ls == crate::cron::views(lines@),
            ls == split_on(content@, '\n'),
            i <= ls.len(),
            trims@.len() == i,
            forall|j: int| 0 <= j < i ==> (#[trigger] trims@[j])@ == trim(ls[j]),
            summary_acc(ls.take(i as int), max_chars as nat) == (out@, stopped),
        decreases ls.len() - i,
    {
        let t = trimmed(lines[i].as_slice());
        let ghost tk = ls.take(i + 1);
        proof {
            assert(tk.drop_last() =~= ls.take(i as int));
            assert(tk.last() == ls[i as int]);
        }
        let dup = seen_in(&trims, &t);
        proof {
            if dup {
                let j = choose|j: int| 0 <= j < trims@.len() && (#[trigger] trims@[j])@ == t@;
                assert(trim(tk.drop_last()[j]) == t@);
            }
            if seen_before(tk.drop_last(), t@) {
                let j = choose|j: int| 0 <= j < tk.drop_last().len() && trim(#[trigger] tk.drop_last()[j]) == t@;
                assert(trims@[j]@ == t@);
            }
        }
        if t.len() > 0 && !dup {
            let ghost before = out@;
            if out.len() > 0 {
                out.push('\n');
            }
            let mut k: usize = 0;
            let ghost mid = out@;
            while k < t.len()
                invariant
                    k <= t@.len(),
                    out@ == mid + t@.take(k as int),
                decreases t@.len() - k,
            {
                out.push(t[k]);
                proof {
                    assert(t@.take(k + 1) =~= t@.take(k as int).push(t@[k as int]));
                }
                k = k + 1;
            }
            proof {
                assert(t@.take(t@.len() as int) =~= t@);
                if before.len() > 0 {
                    assert(out@ =~= before.push('\n') + t@);
                } else {
                    assert(out@ =~= t@);
                }
            }
            stopped = out.len() >= max_chars;
        }
        trims.push(t);
        i = i + 1;
    }
    proof {
        if stopped {
            lemma_summary_stays_stopped(ls, i as int, max_chars as nat);
        } else {
            assert(ls.take(ls.len() as int) =~= ls);
        }
    }
    let n = if out.len() <= max_chars { out.len() } else { max_chars };
    let mut r = String::new();
    let mut k: usize = 0;
    while k < n
        invariant
            n <= out@.len(),
            k <= n,
            r@ == out@.take(k as int),
        decreases n - k,
    {
        push_char(&mut r, out[k]);
        proof {
            assert(out@.take(k + 1) =~= out@.take(k as int).push(out@[k as int]));
        }
        k = k + 1;
    }
    proof {
        if out@.len() <= max_chars {
            assert(out@.take(n as int) =~= out@);
        }
    }
    r
}

// ---------------------------------------------------------------------------
// Edits and budgeted assembly
// ---------------------------------------------------------------------------

/// An edit of one segment.
#[derive(Debug, Clone, PartialEq, Eq)]
pub enum CompactionOp {
    /// Keep the segment as it is.
    Retain,
    /// Drop the segment.
    Remove,
    /// Replace the segment's content.
    Replace(String),
}

/// Decides one edit per segment; implemented by its users (a rule-based
/// one compacts segments whose rot score reaches a threshold and always
/// retains core segments).
/// A query as plain text, when there is one.
pub open spec fn query_view(query: Option<&str>) -> Option<Seq<char>> {
    match query {
        Some(q) => Some(q@),
        None => None,
    }
}

pub trait Compactor {
    /// Whether `ops` is an edit list this compactor may decide for
    /// `segments` under `query`: what an implementation knows of itself.
    /// An implementation that states nothing of itself allows every list.
    closed spec fn may_decide(&self, segments: Seq<SegmentView>, query: Option<Seq<char>>, ops: Seq<CompactionOp>) -> bool {
        true
    }

    /// The edits for `segments`, paired with them in order.
    fn decide(&self, segments: &[Segment], query: Option<&str>) -> (ops: Vec<CompactionOp>)
        ensures
            self.may_decide(segment_views(segments@), query_view(query), ops@),
    ;
}

/// The segments after their edits, paired in order (extra segments or
/// edits are ignored).
pub open spec fn applied(ss: Seq<SegmentView>, ops: Seq<CompactionOp>) -> Seq<SegmentView>
    decreases ss.len(),
{
    if ss.len() == 0 || ops.len() == 0 {
        seq![]
    } else {
        let rest = applied(ss.drop_first(), ops.drop_first());
        match ops[0] {
            CompactionOp::Retain => seq![ss[0]] + rest,
            CompactionOp::Remove => rest,
            CompactionOp::Replace(t) => seq![SegmentView { content: t@, ..ss[0] }] + rest,
        }
    }
}

/// Applies the edits to the segments.
pub fn apply_ops(segments: &[Segment], ops: &[CompactionOp]) -> (r: Vec<Segment>)
    ensures
        segment_views(r@) == applied(segment_views(segments@), ops@),
{
    let ghost all = applied(segment_views(segments@), ops@);
    let mut out: Vec<Segment> = Vec::new();
    let mut i: usize = 0;
    proof {
        assert(segment_views(segments@).skip(0) =~= segment_views(segments@));
        assert(ops@.skip(0) =~= ops@);
        assert(segment_views(out@) + all =~= all);
    }
    while i < segments.len() && i < ops.len()
        invariant
            i <= segments@.len(),
            i <= ops@.len(),
            all == applied(segment_views(segments@), ops@),
            segment_views(out@) + applied(segment_views(segments@).skip(i as int), ops@.skip(i as int)) == all,
        decreases segments@.len() - i,
    {
        let ghost ss = segment_views(segments@).skip(i as int);
        let ghost os = ops@.skip(i as int);
        let ghost before = segment_views(out@);
        proof {
            assert(ss.drop_first() =~= segment_views(segments@).skip(i + 1));
            assert(os.drop_first() =~= ops@.skip(i + 1));
            assert(ss[0] == segments@[i as int]@);
            assert(os[0] == ops@[i as int]);
        }
        match &ops[i] {
            CompactionOp::Retain => {
                let c = clone_segment(&segments[i]);
                let ghost cv = c@;
                out.push(c);
                proof {
                    assert(segment_views(out@) =~= before.push(cv));
                    assert(before.push(cv) + applied(ss.drop_first(), os.drop_first()) =~= before + (seq![ss[0]]
                        + applied(ss.drop_first(), os.drop_first())));
                }
            },
            CompactionOp::Remove => {},
            CompactionOp::Replace(text) => {
                let mut c = clone_segment(&segments[i]);
                c.content = text.clone();
                let ghost cv = c@;
                out.push(c);
                proof {
                    assert(segment_views(out@) =~= before.push(cv));
                    assert(before.push(cv) + applied(ss.drop_first(), os.drop_first()) =~= before + (seq![cv]
                        + applied(ss.drop_first(), os.drop_first())));
                }
            },
        }
        i = i + 1;
    }
    proof {
        let ss = segment_views(segments@).skip(i as int);
        let os = ops@.skip(i as int);
        assert(ss.len() == 0 || os.len() == 0);
        assert(segment_views(out@) + applied(ss, os) =~= segment_views(out@));
    }
    out
}

/// One block of the assembled context.
#[derive(Debug, Clone, PartialEq, Eq)]
pub struct BudgetedBlock {
    pub name: String,
    pub content: String,
    pub core: bool,
}

#[verifier::ext_equal]
pub struct BlockView {
    pub name: Seq<char>,
    pub content: Seq<char>,
    pub core: bool,
}

impl View for BudgetedBlock {
    type V = BlockView;

    open spec fn view(&self) -> BlockView {
        BlockView { name: self.name@, content: self.content@, core: self.core }
    }
}

pub open spec fn block_views(v: Seq<BudgetedBlock>) -> Seq<BlockView> {
    v.map_values(|b: BudgetedBlock| b@)
}

pub open spec fn block_of(s: SegmentView) -> BlockView {
    BlockView { name: s.name, content: s.content, core: s.core }
}

/// The core segments as blocks, in order.
pub open spec fn core_blocks(ss: Seq<SegmentView>) -> Seq<BlockView>
    decreases ss.len(),
{
    if ss.len() == 0 {
        seq![]
    } else {
        let rest = core_blocks(ss.drop_first());
        if ss[0].core { seq![block_of(ss[0])] + rest } else { rest }
    }
}

/// The characters of the core segments.
pub open spec fn core_chars(ss: Seq<SegmentView>) -> int
    decreases ss.len(),
{
    if ss.len() == 0 {
        0
    } else {
        core_chars(ss.drop_first()) + if ss[0].core { ss[0].content.len() as int } else { 0 }
    }
}

/// The non-core segments that fill the room left after `used` characters:
/// each one that fits is kept whole; the first that does not is cut to the
/// remaining room when more than 20 characters remain (and nothing follows
/// it), and skipped otherwise.
pub open spec fn fill(ss: Seq<SegmentView>, budget: int, used: int) -> Seq<BlockView>
    decreases ss.len(),
{
    if ss.len() == 0 {
        seq![]
    } else {
        let s = ss[0];
        if s.core {
            fill(ss.drop_first(), budget, used)
        } else if used + s.content.len() <= budget {
            seq![block_of(s)] + fill(ss.drop_first(), budget, used + s.content.len())
        } else {
            let remaining = if budget > used { budget - used } else { 0 };
            if remaining > 20 {
                seq![BlockView { content: s.content.take(remaining), ..block_of(s) }]
            } else {
                fill(ss.drop_first(), budget, used)
            }
        }
    }
}

/// The assembled blocks: all core segments whole, then the non-core fill.
pub open spec fn budgeted(ss: Seq<SegmentView>, budget: int) -> Seq<BlockView> {
    core_blocks(ss) + fill(ss, budget, core_chars(ss))
}

fn block_from(s: &Segment) -> (b: BudgetedBlock)
    ensures
        b@ == block_of(s@),
{
    BudgetedBlock { name: s.name.clone(), content: s.content.clone(), core: s.core }
}

fn char_count(s: &String) -> (n: usize)
    ensures
        n == s@.len(),
{
    let cs = chars_of(s.as_str());
    cs.len()
}

/// Assembles edited segments into blocks within a character budget: every
/// core segment whole, then the non-core ones in order as room allows.
pub fn budget_segments(edited: &[Segment], total_budget_chars: usize) -> (r: Vec<BudgetedBlock>)
    ensures
        block_views(r@) == budgeted(segment_views(edited@), total_budget_chars as int),
{
    let ghost ss = segment_views(edited@);
    let ghost budget = total_budget_chars as int;
    let mut out: Vec<BudgetedBlock> = Vec::new();
    let mut current: usize = 0;
    let mut overflowed = false;
    let ghost mut used: int = 0;
    let mut i: usize = 0;
    proof {
        assert(ss.skip(0) =~= ss);
        assert(block_views(out@) + core_blocks(ss) =~= core_blocks(ss));
    }
    while i < edited.len()
        invariant
            ss == segment_views(edited@),
            i <= ss.len(),
            block_views(out@) + core_blocks(ss.skip(i as int)) == core_blocks(ss),
            used + core_chars(ss.skip(i as int)) == core_chars(ss),
            used >= 0,
            overflowed == (used > usize::MAX),
            !overflowed ==> current as int == used,
        decreases ss.len() - i,
    {
        let ghost rest = ss.skip(i as int);
        proof {
            assert(rest.drop_first() =~= ss.skip(i + 1));
            assert(rest[0] == edited@[i as int]@);
        }
        if edited[i].core {
            let ghost before = block_views(out@);
            let b = block_from(&edited[i]);
            let ghost bv = b@;
            out.push(b);
            let n = char_count(&edited[i].content);
            if !overflowed {
                if current > usize::MAX - n {
                    overflowed = true;
                } else {
                    current = current + n;
                }
            }
            proof {
                used = used + n;
                assert(block_views(out@) =~= before.push(bv));
                assert(before.push(bv) + core_blocks(rest.drop_first()) =~= before + (seq![bv] + core_blocks(
                    rest.drop_first(),
                )));
            }
        }
        i = i + 1;
    }
    proof {
        assert(ss.skip(i as int).len() == 0);
        assert(block_views(out@) =~= core_blocks(ss));
        assert(ss.skip(0) =~= ss);
        assert(block_views(out@) + fill(ss, budget, used) =~= budgeted(ss, budget));
    }
    let mut j: usize = 0;
    let mut done = false;
    while j < edited.len() && !done
        invariant
            ss == segment_views(edited@),
            budget == total_budget_chars as int,
            j <= ss.len(),
            used >= 0,
            overflowed == (used > usize::MAX),
            !overflowed ==> current as int == used,
            done ==> block_views(out@) == budgeted(ss, budget),
            !done ==> block_views(out@) + fill(ss.skip(j as int), budget, used) == budgeted(ss, budget),
        decreases ss.len() - j,
    {
        let ghost rest = ss.skip(j as int);
        let ghost before = block_views(out@);
        proof {
            assert(rest.drop_first() =~= ss.skip(j + 1));
            assert(rest[0] == edited@[j as int]@);
        }
        if !edited[j].core {
            let n = char_count(&edited[j].content);
            if !overflowed && current <= total_budget_chars && n <= total_budget_chars - current {
                let b = block_from(&edited[j]);
                let ghost bv = b@;
                out.push(b);
                current = current + n;
                proof {
                    used = used + n;
                    assert(block_views(out@) =~= before.push(bv));
                    assert(before.push(bv) + fill(rest.drop_first(), budget, used) =~= before + (seq![bv]
                        + fill(rest.drop_first(), budget, used)));
                }
            } else {
                let remaining: usize = if !overflowed && total_budget_chars > current {
                    total_budget_chars - current
                } else {
                    0
                };
                proof {
                    assert(!(used + n <= budget));
                    assert(remaining == (if budget > used { budget - used } else { 0 }));
                }
                if remaining > 20 {
                    let cs = chars_of(edited[j].content.as_str());
                    let mut cut = String::new();
                    let mut k: usize = 0;
                    while k < remaining
                        invariant
                            k <= remaining,
                            remaining < cs@.len(),
                            cut@ == cs@.take(k as int),
                        decreases remaining - k,
                    {
                        push_char(&mut cut, cs[k]);
                        proof {
                            assert(cs@.take(k + 1) =~= cs@.take(k as int).push(cs@[k as int]));
                        }
                        k = k + 1;
                    }
                    let b = BudgetedBlock { name: edited[j].name.clone(), content: cut, core: false };
                    let ghost bv = b@;
                    out.push(b);
                    done = true;
                    proof {
                        assert(block_views(out@) =~= before.push(bv));
                        assert(before.push(bv) =~= before + seq![bv]);
                    }
                }
            }
        }
        j = j + 1;
    }
    proof {
        if !done {
            assert(ss.skip(j as int).len() == 0);
            assert(block_views(out@) + fill(ss.skip(j as int), budget, used) =~= block_views(out@));
        }
    }
    out
}

/// Decides the edits with `compactor` (asked once, with `segments` and
/// `query`), applies the edits it decided, and assembles the result within
/// the budget.
pub fn compact_then_budget<C: Compactor>(
    segments: &[Segment],
    compactor: &C,
    query: Option<&str>,
    total_budget_chars: usize,
) -> (r: Vec<BudgetedBlock>)
    ensures
        exists|ops: Seq<CompactionOp>|
            {
                &&& compactor.may_decide(segment_views(segments@), query_view(query), ops)
                &&& block_views(r@) == budgeted(applied(segment_views(segments@), ops), total_budget_chars as int)
            },
{
    let ops = compactor.decide(segments, query);
    let edited = apply_ops(segments, ops.as_slice());
    let r = budget_segments(edited.as_slice(), total_budget_chars);
    proof {
        assert(block_views(r@) == budgeted(applied(segment_views(segments@), ops@), total_budget_chars as int));
    }
    r
}

/// The characters in a list of blocks.
pub open spec fn blocks_chars(bs: Seq<BlockView>) -> int
    decreases bs.len(),
{
    if bs.len() == 0 { 0 } else { blocks_chars(bs.drop_first()) + bs[0].content.len() }
}

proof fn lemma_blocks_chars_concat(a: Seq<BlockView>, b: Seq<BlockView>)
    ensures
        blocks_chars(a + b) == blocks_chars(a) + blocks_chars(b),
    decreases a.len(),
{
    if a.len() > 0 {
        assert((a + b).drop_first() =~= a.drop_first() + b);
        lemma_blocks_chars_concat(a.drop_first(), b);
    } else {
        assert(a + b =~= b);
    }
}

proof fn lemma_core_blocks_chars(ss: Seq<SegmentView>)
    ensures
        blocks_chars(core_blocks(ss)) == core_chars(ss),
        forall|i: int| 0 <= i < ss.len() && (#[trigger] ss[i]).core ==> core_blocks(ss).contains(block_of(ss[i])),
    decreases ss.len(),
{
    if ss.len() > 0 {
        let rest = ss.drop_first();
        lemma_core_blocks_chars(rest);
        if ss[0].core {
            lemma_blocks_chars_concat(seq![block_of(ss[0])], core_blocks(rest));
            assert(blocks_chars(seq![block_of(ss[0])]) == ss[0].content.len()) by {
                assert(seq![block_of(ss[0])].drop_first() =~= Seq::<BlockView>::empty());
                reveal_with_fuel(blocks_chars, 2);
            }
        }
        assert forall|i: int| 0 <= i < ss.len() && (#[trigger] ss[i]).core implies core_blocks(ss).contains(block_of(ss[i])) by {
            if i == 0 {
                assert(core_blocks(ss)[0] == block_of(ss[0]));
            } else {
                assert(ss[i] == rest[i - 1]);
                let k = choose|k: int| 0 <= k < core_blocks(rest).len() && core_blocks(rest)[k] == block_of(rest[i - 1]);
                if ss[0].core {
                    assert(core_blocks(ss)[k + 1] == block_of(ss[i]));
                } else {
                    assert(core_blocks(ss)[k] == block_of(ss[i]));
                }
            }
        }
    }
}

proof fn lemma_fill_chars(ss: Seq<SegmentView>, budget: int, used: int)
    requires
        used >= 0,
    ensures
        blocks_chars(fill(ss, budget, used)) <= if budget > used { budget - used } else { 0 },
        forall|k: int| 0 <= k < fill(ss, budget, used).len() ==> !(#[trigger] fill(ss, budget, used)[k]).core,
    decreases ss.len(),
{
    if ss.len() > 0 {
        let s = ss[0];
        let rest = ss.drop_first();
        if s.core {
            lemma_fill_chars(rest, budget, used);
        } else if used + s.content.len() <= budget {
            lemma_fill_chars(rest, budget, used + s.content.len());
            lemma_blocks_chars_concat(seq![block_of(s)], fill(rest, budget, used + s.content.len()));
            assert(blocks_chars(seq![block_of(s)]) == s.content.len()) by {
                assert(seq![block_of(s)].drop_first() =~= Seq::<BlockView>::empty());
                reveal_with_fuel(blocks_chars, 2);
            }
            let f = fill(ss, budget, used);
            assert forall|k: int| 0 <= k < f.len() implies !(#[trigger] f[k]).core by {
                if k > 0 {
                    assert(f[k] == fill(rest, budget, used + s.content.len())[k - 1]);
                }
            }
        } else {
            let remaining = if budget > used { budget - used } else { 0 };
            if remaining > 20 {
                let b = BlockView { content: s.content.take(remaining), ..block_of(s) };
                assert(blocks_chars(seq![b]) == b.content.len()) by {
                    assert(seq![b].drop_first() =~= Seq::<BlockView>::empty());
                    reveal_with_fuel(blocks_chars, 2);
                }
            } else {
                lemma_fill_chars(rest, budget, used);
            }
        }
    }
}

/// The assembly keeps every core segment whole, marks only core segments
/// as core, and the non-core text stays within what the core segments
/// leave of the budget: the total is at most the larger of the budget and
/// the core characters.
pub proof fn budgeting_keeps_core_and_meets_the_rest_of_the_budget(ss: Seq<SegmentView>, budget: int)
    ensures
        forall|i: int| 0 <= i < ss.len() && (#[trigger] ss[i]).core ==> budgeted(ss, budget).contains(block_of(ss[i])),
        blocks_chars(budgeted(ss, budget)) <= if budget > core_chars(ss) { budget } else { core_chars(ss) },
{
    lemma_core_blocks_chars(ss);
    assert(core_chars(ss) >= 0) by {
        lemma_core_chars_nonneg(ss);
    }
    lemma_fill_chars(ss, budget, core_chars(ss));
    lemma_blocks_chars_concat(core_blocks(ss), fill(ss, budget, core_chars(ss)));
    assert forall|i: int| 0 <= i < ss.len() && (#[trigger] ss[i]).core implies budgeted(ss, budget).contains(block_of(ss[i])) by {
        let k = choose|k: int| 0 <= k < core_blocks(ss).len() && core_blocks(ss)[k] == block_of(ss[i]);
        assert(budgeted(ss, budget)[k] == block_of(ss[i]));
    }
}

proof fn lemma_core_chars_nonneg(ss: Seq<SegmentView>)
    ensures
        core_chars(ss) >= 0,
    decreases ss.len(),
{
    if ss.len() > 0 {
        lemma_core_chars_nonneg(ss.drop_first());
    }
}

} // verus!
