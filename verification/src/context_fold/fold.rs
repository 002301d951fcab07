//! Fold strategies and the fold / unfold operations.
//!
//! All cuts land on character boundaries. Truncate (and Summary, which has
//! no summarizer here) keep the longest prefix within the limit; HeadTail
//! keeps a head and a tail of half the limit each with a placeholder for the
//! middle; MarkerReplace replaces everything with a placeholder. The two
//! placeholder strategies keep the original text in their marker.

use vstd::prelude::*;
use vstd::string::StrSliceExecFns;
use crate::context_fold::marker::{FoldMarker, MarkerKind, marker_placeholder, placeholder, tag};
use crate::output_retention::{byte_len, str_byte_len, kept_chars, lemma_byte_len_prefix_monotone, char_width};
use crate::text::{chars_of, push_str, push_char, decimal, digit_char, occurs, occurs_at};

verus! {

broadcast use vstd::string::group_string_axioms;

/// How to collapse text that exceeds the limit.
#[derive(Debug, Clone, Copy, PartialEq, Eq, Structural)]
pub enum FoldStrategy {
    /// Truncation at the byte limit (character-boundary safe).
    Truncate,
    /// Head and tail of half the limit each, the middle marked.
    HeadTail,
    /// The whole content replaced by a lossless marker.
    MarkerReplace,
    /// Summary; without a summarizer this truncates.
    Summary,
}

/// Result of a fold.
#[derive(Debug, Clone, PartialEq, Eq)]
pub struct FoldResult {
    /// Folded text.
    pub folded: String,
    /// Markers needed to restore the original (empty for lossy strategies).
    pub markers: Vec<FoldMarker>,
    /// Original UTF-8 byte length.
    pub original_len: usize,
    /// Folded UTF-8 byte length.
    pub folded_len: usize,
}

/// Fold failure.
#[derive(Debug, Clone, Copy, PartialEq, Eq, Structural)]
pub enum FoldError {
    /// The limit must be positive.
    InvalidLimit,
}

impl FoldError {
    /// The error's message.
    pub fn to_string(&self) -> (s: String)
        ensures
            s@ == "fold limit must be > 0"@,
    {
        String::from_str("fold limit must be > 0")
    }
}

/// `k` is the smallest number of leading characters whose byte length
/// reaches `start` (the first character boundary at or after byte `start`).
pub open spec fn first_boundary_from(s: Seq<char>, start: int, k: int) -> bool {
    &&& 0 <= k <= s.len()
    &&& (byte_len(s.take(k)) >= start || k == s.len())
    &&& k > 0 ==> byte_len(s.take(k - 1)) < start
}

/// The outcome of a truncating fold at `limit`.
pub open spec fn truncated(r: FoldResult, s: Seq<char>, limit: int) -> bool {
    exists|k: int|
        kept_chars(s, limit, k) && r.folded@ == s.take(k) && r.folded_len == byte_len(s.take(k))
            && r.markers@.len() == 0
}

/// The outcome of a head-tail fold cutting after `h` and before `t` characters.
pub open spec fn head_tail(r: FoldResult, s: Seq<char>, h: int, t: int) -> bool {
    let m = r.markers@[0];
    &&& r.markers@.len() == 1
    &&& m.kind == MarkerKind::HeadTail
    &&& m.payload@ == s.subrange(h, t)
    &&& r.folded@ == s.take(h) + marker_placeholder(m) + s.skip(t)
    &&& r.folded_len == byte_len(r.folded@)
}

/// What `fold` returns for content above the limit.
pub open spec fn folded_outcome(r: FoldResult, s: Seq<char>, strategy: FoldStrategy, limit: int) -> bool {
    match strategy {
        FoldStrategy::Truncate | FoldStrategy::Summary => truncated(r, s, limit),
        FoldStrategy::MarkerReplace => {
            let m = r.markers@[0];
            &&& r.markers@.len() == 1
            &&& m.kind == MarkerKind::Full
            &&& m.payload@ == s
            &&& r.folded@ == marker_placeholder(m)
            &&& r.folded_len == byte_len(r.folded@)
        },
        FoldStrategy::HeadTail => exists|h: int, t: int| #[trigger] head_tail_cut(r, s, limit, h, t),
    }
}

/// A head-tail fold with head cut `h` and tail cut `t`: the head is the
/// longest prefix within half the limit, the tail starts at the first
/// boundary at or after `len - half`; overlapping cuts fall back to truncation.
pub open spec fn head_tail_cut(r: FoldResult, s: Seq<char>, limit: int, h: int, t: int) -> bool {
    let half = limit / 2;
    let start = if byte_len(s) >= half {
        byte_len(s) - half
    } else {
        0
    };
    kept_chars(s, half, h) && first_boundary_from(s, start, t) && if h >= t {
        truncated(r, s, limit)
    } else {
        head_tail(r, s, h, t)
    }
}

/// Number of leading characters kept within `budget` bytes.
fn boundary_at_most(cs: &Vec<char>, budget: usize) -> (k: usize)
    ensures
        kept_chars(cs@, budget as int, k as int),
{
    let mut used: usize = 0;
    let mut k: usize = 0;
    assert(cs@.take(0) =~= Seq::<char>::empty());
    while k < cs.len()
        invariant
            k <= cs@.len(),
            used == byte_len(cs@.take(k as int)),
            used <= budget,
        decreases cs@.len() - k,
    {
        let w = char_width_exec(cs[k]);
        proof {
            lemma_byte_len_prefix_monotone(cs@, k as int, k as int + 1);
            lemma_push_width(cs@, k as int);
        }
        if w > budget - used {
            return k;
        }
        used = used + w;
        k = k + 1;
    }
    k
}

/// Smallest number of leading characters whose byte length reaches `start`.
fn boundary_at_least(cs: &Vec<char>, start: usize) -> (k: usize)
    requires
        byte_len(cs@) <= usize::MAX,
    ensures
        first_boundary_from(cs@, start as int, k as int),
{
    let mut used: usize = 0;
    let mut k: usize = 0;
    assert(cs@.take(0) =~= Seq::<char>::empty());
    while k < cs.len() && used < start
        invariant
            k <= cs@.len(),
            used == byte_len(cs@.take(k as int)),
            k > 0 ==> byte_len(cs@.take(k - 1)) < start,
            byte_len(cs@) <= usize::MAX,
        decreases cs@.len() - k,
    {
        let w = char_width_exec(cs[k]);
        proof {
            lemma_push_width(cs@, k as int);
            lemma_byte_len_prefix_monotone(cs@, k as int + 1, cs@.len() as int);
            assert(cs@.take(cs@.len() as int) =~= cs@);
            assert(cs@.take(k as int + 1).take(k as int) =~= cs@.take(k as int));
        }
        used = used + w;
        k = k + 1;
    }
    k
}

proof fn lemma_push_width(s: Seq<char>, i: int)
    requires
        0 <= i < s.len(),
    ensures
        byte_len(s.take(i + 1)) == byte_len(s.take(i)) + char_width(s[i]),
{
    assert(s.take(i + 1) =~= s.take(i) + seq![s[i]]);
    crate::output_retention::lemma_byte_len_concat(s.take(i), seq![s[i]]);
    assert(seq![s[i]].drop_first() =~= Seq::<char>::empty());
    assert(byte_len(seq![s[i]].drop_first()) == 0);
}

fn char_width_exec(c: char) -> (w: usize)
    ensures
        w == char_width(c),
{
    let v = c as u32;
    if v <= 0x7F {
        1
    } else if v <= 0x7FF {
        2
    } else if v <= 0xFFFF {
        3
    } else {
        4
    }
}

fn truncate_at(content: &str, cs: &Vec<char>, limit: usize) -> (r: FoldResult)
    requires
        cs@ == content@,
    ensures
        truncated(r, content@, limit as int),
        r.original_len == byte_len(content@),
{
    let k = boundary_at_most(cs, limit);
    let kept = content.substring_char(0, k);
    let folded = kept.to_owned();
    let folded_len = str_byte_len(kept);
    let original_len = str_byte_len(content);
    let r = FoldResult { folded, markers: Vec::new(), original_len, folded_len };
    assert(kept_chars(content@, limit as int, k as int) && r.folded@ == content@.take(k as int));
    r
}

/// Folds `content` under `strategy`: content within `limit` bytes is
/// returned unchanged; a zero limit is refused.
pub fn fold(content: &str, strategy: FoldStrategy, limit: usize) -> (r: Result<FoldResult, FoldError>)
    ensures
        limit == 0 <==> r == Err::<FoldResult, FoldError>(FoldError::InvalidLimit),
        r matches Ok(res) ==> res.original_len == byte_len(content@),
        r matches Ok(res) ==> (if byte_len(content@) <= limit {
            res.folded@ == content@ && res.markers@.len() == 0 && res.folded_len == res.original_len
        } else {
            folded_outcome(res, content@, strategy, limit as int)
        }),
{
    if limit == 0 {
        return Err(FoldError::InvalidLimit);
    }
    let original_len = str_byte_len(content);
    if original_len <= limit {
        return Ok(
            FoldResult {
                folded: content.to_owned(),
                markers: Vec::new(),
                original_len,
                folded_len: original_len,
            },
        );
    }
    let cs = chars_of(content);
    match strategy {
        FoldStrategy::Truncate | FoldStrategy::Summary => Ok(truncate_at(content, &cs, limit)),
        FoldStrategy::HeadTail => {
            let half = limit / 2;
            let head_end = boundary_at_most(&cs, half);
            let start: usize = if original_len >= half {
                original_len - half
            } else {
                0
            };
            let tail_start = boundary_at_least(&cs, start);
            if head_end >= tail_start {
                let r = truncate_at(content, &cs, limit);
                assert(head_tail_cut(r, content@, limit as int, head_end as int, tail_start as int));
                return Ok(r);
            }
            let n = cs.len();
            let marker = FoldMarker {
                kind: MarkerKind::HeadTail,
                payload: content.substring_char(head_end, tail_start).to_owned(),
            };
            let mut folded = content.substring_char(0, head_end).to_owned();
            let p = marker.format_placeholder();
            push_str(&mut folded, p.as_str());
            push_str(&mut folded, content.substring_char(tail_start, n));
            let folded_len = str_byte_len(folded.as_str());
            let mut markers: Vec<FoldMarker> = Vec::new();
            markers.push(marker);
            let r = FoldResult { folded, markers, original_len, folded_len };
            proof {
                assert(content@.subrange(tail_start as int, n as int) =~= content@.skip(tail_start as int));
                assert(head_tail(r, content@, head_end as int, tail_start as int));
                assert(head_tail_cut(r, content@, limit as int, head_end as int, tail_start as int));
            }
            Ok(r)
        },
        FoldStrategy::MarkerReplace => {
            let marker = FoldMarker { kind: MarkerKind::Full, payload: content.to_owned() };
            let folded = marker.format_placeholder();
            let folded_len = str_byte_len(folded.as_str());
            let mut markers: Vec<FoldMarker> = Vec::new();
            markers.push(marker);
            Ok(FoldResult { folded, markers, original_len, folded_len })
        },
    }
}

/// Leftmost, non-overlapping replacement of every `pat` by `rep` (what
/// `str::replace` does for a non-empty pattern).
pub open spec fn replace_all(s: Seq<char>, pat: Seq<char>, rep: Seq<char>) -> Seq<char>
    decreases s.len(),
{
    if pat.len() == 0 || s.len() < pat.len() {
        s
    } else if s.take(pat.len() as int) == pat {
        rep + replace_all(s.skip(pat.len() as int), pat, rep)
    } else {
        seq![s[0]] + replace_all(s.drop_first(), pat, rep)
    }
}

/// Replaces every occurrence of `pat` in `s` by `rep`, left to right.
pub fn replace_chars(s: &Vec<char>, pat: &Vec<char>, rep: &str) -> (out: String)
    requires
        pat@.len() > 0,
    ensures
        out@ == replace_all(s@, pat@, rep@),
{
    let mut out = String::new();
    let mut i: usize = 0;
    let n = s.len();
    let m = pat.len();
    assert(s@.skip(0) =~= s@);
    while i < n
        invariant
            n == s@.len(),
            m == pat@.len(),
            m > 0,
            i <= n,
            out@ + replace_all(s@.skip(i as int), pat@, rep@) == replace_all(s@, pat@, rep@),
        decreases n - i,
    {
        let ghost rest = s@.skip(i as int);
        let mut matched = n - i >= m;
        let mut j: usize = 0;
        while matched && j < m
            invariant
                n == s@.len(),
                m == pat@.len(),
                i <= n,
                matched ==> n - i >= m,
                j <= m,
                matched ==> forall|q: int| 0 <= q < j ==> s@[i + q] == pat@[q],
                !matched ==> (n - i < m || exists|q: int| 0 <= q < m && s@[i + q] != pat@[q]),
            decreases m - j + (if matched { 1int } else { 0int }),
        {
            if s[i + j] != pat[j] {
                matched = false;
            } else {
                j = j + 1;
            }
        }
        if matched {
            proof {
                assert(rest.take(m as int) =~= pat@);
                assert(rest.skip(m as int) =~= s@.skip(i + m));
            }
            push_str(&mut out, rep);
            i = i + m;
        } else {
            proof {
                if n - i >= m {
                    let q = choose|q: int| 0 <= q < m && s@[i + q] != pat@[q];
                    assert(rest.take(m as int)[q] != pat@[q]);
                    assert(rest.take(m as int) != pat@);
                }
                assert(rest.drop_first() =~= s@.skip(i + 1));
                if n - i < m {
                    assert(replace_all(rest, pat@, rep@) == rest);
                }
            }
            push_char(&mut out, s[i]);
            proof {
                if n - i < m {
                    assert(replace_all(s@.skip(i + 1), pat@, rep@) == s@.skip(i + 1));
                    assert(rest =~= seq![s@[i as int]] + s@.skip(i + 1));
                }
            }
            i = i + 1;
        }
    }
    proof {
        assert(s@.skip(n as int) =~= Seq::<char>::empty());
    }
    out
}

/// The result of applying the markers' replacements in order.
pub open spec fn spec_unfold(s: Seq<char>, markers: Seq<FoldMarker>) -> Seq<char>
    decreases markers.len(),
{
    if markers.len() == 0 {
        s
    } else {
        let prev = spec_unfold(s, markers.drop_last());
        let m = markers.last();
        replace_all(prev, marker_placeholder(m), m.payload@)
    }
}

proof fn lemma_placeholder_nonempty(m: FoldMarker)
    ensures
        marker_placeholder(m).len() > 0,
{
    reveal_strlit("<<");
}

/// Restores content from a folded text and its markers, replacing each
/// marker's placeholder by its payload, marker by marker.
pub fn unfold(content: &str, markers: &[FoldMarker]) -> (out: String)
    ensures
        out@ == spec_unfold(content@, markers@),
{
    let mut out = content.to_owned();
    let mut i: usize = 0;
    while i < markers.len()
        invariant
            i <= markers@.len(),
            out@ == spec_unfold(content@, markers@.take(i as int)),
        decreases markers@.len() - i,
    {
        assert(markers@.take(i as int + 1).drop_last() =~= markers@.take(i as int));
        let p = markers[i].format_placeholder();
        let pc = chars_of(p.as_str());
        let oc = chars_of(out.as_str());
        proof {
            lemma_placeholder_nonempty(markers@[i as int]);
        }
        out = replace_chars(&oc, &pc, markers[i].payload.as_str());
        i = i + 1;
    }
    assert(markers@.take(markers@.len() as int) =~= markers@);
    out
}

proof fn lemma_replace_no_lead_short(s: Seq<char>, pat: Seq<char>, rep: Seq<char>)
    requires
        pat.len() > 0,
        s.len() < pat.len(),
    ensures
        replace_all(s, pat, rep) == s,
{
}

/// MarkerReplace is lossless: unfolding its output with its markers gives
/// back the original text.
pub proof fn marker_replace_round_trip(s: Seq<char>, r: FoldResult)
    requires
        folded_outcome(r, s, FoldStrategy::MarkerReplace, 1),
    ensures
        spec_unfold(r.folded@, r.markers@) == s,
{
    let m = r.markers@[0];
    let p = marker_placeholder(m);
    lemma_placeholder_nonempty(m);
    assert(r.markers@.drop_last() =~= Seq::<FoldMarker>::empty());
    assert(spec_unfold(r.folded@, Seq::<FoldMarker>::empty()) == r.folded@);
    assert(p.take(p.len() as int) =~= p);
    assert(p.skip(p.len() as int) =~= Seq::<char>::empty());
    assert(replace_all(Seq::<char>::empty(), p, m.payload@) == Seq::<char>::empty());
    assert(replace_all(p, p, m.payload@) == m.payload@ + replace_all(p.skip(p.len() as int), p, m.payload@));
    assert(m.payload@ + Seq::<char>::empty() =~= s);
}

proof fn lemma_decimal_no_lt(n: nat)
    ensures
        forall|i: int| 0 <= i < decimal(n).len() ==> decimal(n)[i] != '<',
    decreases n,
{
    assert forall|d: nat| d < 10 implies #[trigger] digit_char(d) != '<' by {
        assert(digit_char(d) as u32 == d + 48);
    }
    if n >= 10 {
        lemma_decimal_no_lt(n / 10);
        let q = decimal(n / 10);
        let c = digit_char(n % 10);
        assert(c != '<');
        assert(decimal(n) == q.push(c));
        assert forall|i: int| 0 <= i < decimal(n).len() implies decimal(n)[i] != '<' by {
            if i < q.len() {
                assert(decimal(n)[i] == q[i]);
            } else {
                assert(decimal(n)[i] == c);
            }
        }
    } else {
        assert(digit_char(n) != '<');
        assert(decimal(n) == seq![digit_char(n)]);
    }
}

/// A placeholder opens with `<<` and holds no other `<`.
proof fn lemma_placeholder_shape(m: FoldMarker)
    ensures
        marker_placeholder(m).len() > 2,
        marker_placeholder(m)[0] == '<',
        marker_placeholder(m)[1] == '<',
        forall|k: int| 2 <= k < marker_placeholder(m).len() ==> marker_placeholder(m)[k] != '<',
{
    reveal_strlit("<<");
    reveal_strlit(":");
    reveal_strlit(" bytes>>");
    reveal_strlit("FOLDED");
    reveal_strlit("HEADTAIL");
    reveal_strlit("SEMANTIC");
    let d = decimal(byte_len(m.payload@));
    lemma_decimal_no_lt(byte_len(m.payload@));
    let t = tag(m.kind);
    let p = marker_placeholder(m);
    assert(p =~= "<<"@ + t + ":"@ + d + " bytes>>"@);
    assert forall|k: int| 2 <= k < p.len() implies p[k] != '<' by {
        if k < 2 + t.len() {
            assert(p[k] == t[k - 2]);
        } else if k < 3 + t.len() {
            assert(p[k] == ':');
        } else if k < 3 + t.len() + d.len() {
            assert(p[k] == d[k - 3 - t.len()]);
        } else {
            assert(p[k] == " bytes>>"@[k - 3 - t.len() - d.len()]);
        }
    }
}

proof fn lemma_replace_absent(s: Seq<char>, pat: Seq<char>, rep: Seq<char>)
    requires
        pat.len() > 0,
        !occurs(s, pat),
    ensures
        replace_all(s, pat, rep) == s,
    decreases s.len(),
{
    if s.len() >= pat.len() {
        let l = pat.len() as int;
        assert(s.take(l) =~= s.subrange(0, l));
        assert(!occurs_at(s, pat, 0));
        let t = s.drop_first();
        assert(!occurs(t, pat)) by {
            if occurs(t, pat) {
                let i = choose|i: int| occurs_at(t, pat, i);
                assert(t.subrange(i, i + l) =~= s.subrange(i + 1, i + 1 + l));
                assert(occurs_at(s, pat, i + 1));
            }
        }
        lemma_replace_absent(t, pat, rep);
        assert(seq![s[0]] + t =~= s);
    }
}

proof fn lemma_replace_after_prefix(a: Seq<char>, b: Seq<char>, pat: Seq<char>, rep: Seq<char>)
    requires
        pat.len() > 0,
        forall|i: int| 0 <= i < a.len() ==> !occurs_at(a + b, pat, i),
    ensures
        replace_all(a + b, pat, rep) == a + replace_all(b, pat, rep),
    decreases a.len(),
{
    let l = pat.len() as int;
    if a.len() > 0 {
        let s = a + b;
        let a2 = a.drop_first();
        if s.len() >= l {
            assert(s.take(l) =~= s.subrange(0, l));
            assert(!occurs_at(s, pat, 0));
        }
        assert(s.drop_first() =~= a2 + b);
        assert forall|i: int| 0 <= i < a2.len() implies !occurs_at(a2 + b, pat, i) by {
            assert(!occurs_at(s, pat, i + 1));
            if i + l <= (a2 + b).len() {
                assert((a2 + b).subrange(i, i + l) =~= s.subrange(i + 1, i + 1 + l));
            }
        }
        lemma_replace_after_prefix(a2, b, pat, rep);
        assert(seq![a[0]] + (a2 + replace_all(b, pat, rep)) =~= a + replace_all(b, pat, rep));
        if s.len() < l {
            lemma_replace_no_lead_short(b, pat, rep);
        }
    } else {
        assert(a + b =~= b);
    }
}

/// HeadTail is lossless whenever the content holds no occurrence of the
/// marker's placeholder: unfolding gives back the original.
pub proof fn head_tail_round_trip(s: Seq<char>, r: FoldResult, h: int, t: int)
    requires
        head_tail(r, s, h, t),
        0 <= h < t <= s.len(),
        !occurs(s, marker_placeholder(r.markers@[0])),
    ensures
        spec_unfold(r.folded@, r.markers@) == s,
{
    let m = r.markers@[0];
    let p = marker_placeholder(m);
    let l = p.len() as int;
    lemma_placeholder_shape(m);
    assert(r.markers@.drop_last() =~= Seq::<FoldMarker>::empty());
    assert(spec_unfold(r.folded@, Seq::<FoldMarker>::empty()) == r.folded@);
    let head = s.take(h);
    let tail = s.skip(t);
    let f = r.folded@;
    assert(f =~= head + (p + tail));
    assert forall|i: int| 0 <= i < head.len() implies !occurs_at(head + (p + tail), p, i) by {
        if occurs_at(f, p, i) {
            if i + l <= h {
                assert(f.subrange(i, i + l) =~= s.subrange(i, i + l));
                assert(occurs_at(s, p, i));
            } else {
                let d = h - i;
                assert(f[h] == p[0]);
                assert(p[d] == f.subrange(i, i + l)[d]);
                if d == 1 {
                    assert(f[h + 1] == p[1]);
                    assert(p[2] == f.subrange(i, i + l)[2]);
                }
            }
        }
    }
    lemma_replace_after_prefix(head, p + tail, p, m.payload@);
    assert((p + tail).take(l) =~= p);
    assert((p + tail).skip(l) =~= tail);
    assert(!occurs(tail, p)) by {
        if occurs(tail, p) {
            let i = choose|i: int| occurs_at(tail, p, i);
            assert(tail.subrange(i, i + l) =~= s.subrange(t + i, t + i + l));
            assert(occurs_at(s, p, t + i));
        }
    }
    lemma_replace_absent(tail, p, m.payload@);
    assert(head + (s.subrange(h, t) + tail) =~= s);
}

} // verus!
