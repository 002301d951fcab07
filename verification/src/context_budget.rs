//! Context budget assembly and progressive-disclosure catalog.
//!
//! - [`ContextAssembler`]: ordered injection blocks, a total character
//!   budget, protection of core blocks, and a greedy "cut the largest
//!   non-core block first" pass.
//! - [`ProgressiveCatalog`]: catalog-first injection (`topic: summary (N)`)
//!   with an honest omission note when the catalog budget overflows.
//!
//! Long-tail cuts can keep a head/tail preview with a marker line and a
//! retrieval guide once the full original has been written elsewhere
//! ([`truncate_with_spill`]); when that write failed the full original stays
//! inline. Writing the file is the caller's part: this module decides what
//! goes into the context and how spill files are named.
//!
//! Lengths are counted in Unicode scalar values, the view Verus gives to
//! `str`, so every cut lands on a character boundary.

use vstd::prelude::*;
use vstd::string::{StrSliceExecFns, StringSliceAdditionalSpecFns};
use crate::text::{chars_of, is_ws, is_whitespace_char, push_char, push_decimal, push_str, str_eq, decimal};

verus! {

broadcast use vstd::string::group_string_axioms;

// ---------------------------------------------------------------------------
// Blocks
// ---------------------------------------------------------------------------

/// Named injection block: content plus core/cap policy.
#[derive(Debug, Clone, PartialEq, Eq)]
pub struct ContextBlock {
    /// Block name (budget report, diagnostics).
    pub name: String,
    /// Block body (may contain newlines).
    pub content: String,
    /// Core blocks are never cut by the total-budget pass.
    pub core: bool,
    /// Per-block character cap (`None`: no cap, still subject to the total).
    pub cap_chars: Option<usize>,
}

/// A block as plain values: name, content, core flag, cap.
pub open spec fn block_view(b: ContextBlock) -> (Seq<char>, Seq<char>, bool, Option<usize>) {
    (b.name@, b.content@, b.core, b.cap_chars)
}

impl ContextBlock {
    /// A non-core, uncapped block.
    pub fn new(name: &str, content: &str) -> (b: Self)
        ensures
            b.name@ == name@,
            b.content@ == content@,
            !b.core,
            b.cap_chars is None,
    {
        ContextBlock { name: name.to_owned(), content: content.to_owned(), core: false, cap_chars: None }
    }

    /// The same block, marked core or not.
    pub fn with_core(self, is_core: bool) -> (b: Self)
        ensures
            b.name@ == self.name@,
            b.content@ == self.content@,
            b.core == is_core,
            b.cap_chars == self.cap_chars,
    {
        let mut b = self;
        b.core = is_core;
        b
    }

    /// The same block with a per-block character cap.
    pub fn with_cap(self, cap: usize) -> (b: Self)
        ensures
            b.name@ == self.name@,
            b.content@ == self.content@,
            b.core == self.core,
            b.cap_chars == Some(cap),
    {
        let mut b = self;
        b.cap_chars = Some(cap);
        b
    }
}

// ---------------------------------------------------------------------------
// Head/tail previews and spill naming
// ---------------------------------------------------------------------------

/// Sub-directory, under the caller's data directory, that receives the full
/// originals of truncated long tails.
pub const SPILL_SUBDIR: &'static str = "spill";

/// Head and tail previews kept around one long-tail cut.
#[derive(Debug, Clone, PartialEq, Eq)]
pub struct PreviewSplit {
    /// First `keep_chars / 2` characters of the content.
    pub head: String,
    /// How many characters the omitted middle lost.
    pub omitted_chars: usize,
    /// Last `keep_chars - keep_chars / 2` characters of the content.
    pub tail: String,
}

/// Splits `content` into head and tail previews totalling `keep_chars`
/// characters (halved; the tail keeps the odd one). With `keep_chars` at or
/// above the length, the whole content is the head and nothing is omitted.
pub fn split_head_tail(content: &str, keep_chars: usize) -> (p: PreviewSplit)
    ensures
        keep_chars >= content@.len() ==> p.head@ == content@ && p.omitted_chars == 0 && p.tail@
            == Seq::<char>::empty(),
        keep_chars < content@.len() ==> p.head@ == content@.take((keep_chars / 2) as int)
            && p.omitted_chars == content@.len() - keep_chars && p.tail@ == content@.skip(
            content@.len() - (keep_chars - keep_chars / 2),
        ),
{
    let total = content.unicode_len();
    if keep_chars >= total {
        return PreviewSplit { head: content.to_owned(), omitted_chars: 0, tail: String::new() };
    }
    let head_chars = keep_chars / 2;
    let tail_chars = keep_chars - head_chars;
    let head = content.substring_char(0, head_chars).to_owned();
    let tail = content.substring_char(total - tail_chars, total).to_owned();
    proof {
        assert(content@.subrange(0, head_chars as int) =~= content@.take(head_chars as int));
        assert(content@.subrange((total - tail_chars) as int, total as int) =~= content@.skip(
            (total - tail_chars) as int,
        ));
    }
    PreviewSplit { head, omitted_chars: total - keep_chars, tail }
}

/// The marker line standing in for the omitted middle of a cut.
pub open spec fn marker_text(omitted: nat) -> Seq<char> {
    "…[中间 "@ + decimal(omitted) + " 字符已省略]…"@
}

/// The marker line that stands in for the omitted middle of a truncated long
/// tail.
pub fn omission_marker(omitted_chars: usize) -> (s: String)
    ensures
        s@ == marker_text(omitted_chars as nat),
{
    let mut s = String::from_str("…[中间 ");
    push_decimal(&mut s, omitted_chars as u64);
    push_str(&mut s, " 字符已省略]…");
    s
}

/// The retrieval guide for a full original stored at `path`.
pub open spec fn guide_text(path: Seq<char>) -> Seq<char> {
    "完整内容已存于 "@ + path + "，可用文件读取按偏移取回或检索关键词定位"@
}

/// The one-line retrieval guide attached to truncated content; `path` is the
/// displayed path of the full original.
pub fn retrieval_guide(path: &str) -> (s: String)
    ensures
        s@ == guide_text(path@),
{
    let mut s = String::from_str("完整内容已存于 ");
    push_str(&mut s, path);
    push_str(&mut s, "，可用文件读取按偏移取回或检索关键词定位");
    s
}

/// The outcome of a spill-backed truncation.
#[derive(Debug, Clone, PartialEq, Eq)]
pub struct SpilledTruncation {
    /// What goes into the context: the preview with marker and guide, or the
    /// full original.
    pub text: String,
    /// Where the full original lives; `None` when nothing was spilled.
    pub spilled_path: Option<String>,
    /// The write failure that forced the inline fallback, if any.
    pub spill_error: Option<String>,
}

/// The preview text of a cut whose full original lives at `path`: head,
/// marker, tail and guide on four lines.
pub open spec fn preview_text(content: Seq<char>, keep: nat, path: Seq<char>) -> Seq<char> {
    let n = content.len();
    let head = content.take((keep / 2) as int);
    let tail = content.skip(n - (keep - keep / 2));
    head + seq!['\n'] + marker_text((n - keep) as nat) + seq!['\n'] + tail + seq!['\n'] + guide_text(path)
}

/// Whether `content` is longer than `keep_chars`, i.e. whether a cut (and a
/// spill of the full original) is due.
pub fn needs_cut(content: &str, keep_chars: usize) -> (b: bool)
    ensures
        b == (content@.len() > keep_chars),
{
    content.unicode_len() > keep_chars
}

/// Truncates `content` to a `keep_chars` head/tail preview with a marker and
/// a retrieval guide, given what writing the full original produced
/// (`spill_outcome`: the path, or the failure).
///
/// Content at or below `keep_chars` comes back unchanged and nothing counts as
/// spilled; a failed write keeps the full original inline.
pub fn truncate_with_spill(content: &str, keep_chars: usize, spill_outcome: Result<String, String>) -> (t:
    SpilledTruncation)
    ensures
        content@.len() <= keep_chars ==> t.text@ == content@ && t.spilled_path is None && t.spill_error is None,
        content@.len() > keep_chars ==> match spill_outcome {
            Ok(path) => t.text@ == preview_text(content@, keep_chars as nat, path@) && t.spilled_path
                == Some(path) && t.spill_error is None,
            Err(e) => t.text@ == content@ && t.spilled_path is None && t.spill_error == Some(e),
        },
{
    if !needs_cut(content, keep_chars) {
        return SpilledTruncation { text: content.to_owned(), spilled_path: None, spill_error: None };
    }
    match spill_outcome {
        Ok(path) => {
            let split = split_head_tail(content, keep_chars);
            let mut text = split.head;
            push_char(&mut text, '\n');
            let marker = omission_marker(split.omitted_chars);
            push_str(&mut text, marker.as_str());
            push_char(&mut text, '\n');
            push_str(&mut text, split.tail.as_str());
            push_char(&mut text, '\n');
            let guide = retrieval_guide(path.as_str());
            push_str(&mut text, guide.as_str());
            SpilledTruncation { text, spilled_path: Some(path), spill_error: None }
        },
        Err(e) => SpilledTruncation { text: content.to_owned(), spilled_path: None, spill_error: Some(e) },
    }
}

/// A character kept in a spill scope: ASCII letters, digits, `-` and `_`
/// stay, anything else becomes `_`.
pub open spec fn scope_char(c: char) -> char {
    if ('a' <= c && c <= 'z') || ('A' <= c && c <= 'Z') || ('0' <= c && c <= '9') || c == '-' || c == '_' {
        c
    } else {
        '_'
    }
}

/// `s` without leading underscores.
pub open spec fn strip_leading_underscores(s: Seq<char>) -> Seq<char>
    decreases s.len(),
{
    if s.len() > 0 && s[0] == '_' {
        strip_leading_underscores(s.drop_first())
    } else {
        s
    }
}

/// `s` without trailing underscores.
pub open spec fn strip_trailing_underscores(s: Seq<char>) -> Seq<char>
    decreases s.len(),
{
    if s.len() > 0 && s.last() == '_' {
        strip_trailing_underscores(s.drop_last())
    } else {
        s
    }
}

/// The scope reduced to a safe path segment: mapped characters, at most 48
/// of them, without surrounding underscores; `session` when nothing is left.
pub open spec fn safe_scope(scope: Seq<char>) -> Seq<char> {
    let limited = if scope.len() <= 48 {
        scope
    } else {
        scope.take(48)
    };
    let t = strip_trailing_underscores(strip_leading_underscores(limited.map_values(|c: char| scope_char(c))));
    if t.len() == 0 {
        "session"@
    } else {
        t
    }
}

fn scope_char_of(c: char) -> (r: char)
    ensures
        r == scope_char(c),
{
    if ('a' <= c && c <= 'z') || ('A' <= c && c <= 'Z') || ('0' <= c && c <= '9') || c == '-' || c == '_' {
        c
    } else {
        '_'
    }
}

fn sanitize_scope(scope: &str) -> (r: String)
    ensures
        r@ == safe_scope(scope@),
{
    let cs = chars_of(scope);
    let n: usize = if cs.len() <= 48 {
        cs.len()
    } else {
        48
    };
    let ghost limited = if scope@.len() <= 48 {
        scope@
    } else {
        scope@.take(48)
    };
    let ghost mapped = limited.map_values(|c: char| scope_char(c));
    let mut m: Vec<char> = Vec::new();
    let mut i: usize = 0;
    while i < n
        invariant
            n == limited.len(),
            n <= cs@.len(),
            cs@ == scope@,
            i <= n,
            mapped == limited.map_values(|c: char| scope_char(c)),
            limited == scope@.take(n as int),
            m@ == mapped.take(i as int),
        decreases n - i,
    {
        m.push(scope_char_of(cs[i]));
        assert(mapped.take(i as int + 1) =~= mapped.take(i as int).push(mapped[i as int]));
        i = i + 1;
    }
    assert(m@ =~= mapped);
    let mut a: usize = 0;
    assert(m@.skip(0) =~= m@);
    while a < m.len() && m[a] == '_'
        invariant
            a <= m@.len(),
            strip_leading_underscores(m@) == strip_leading_underscores(m@.skip(a as int)),
        decreases m@.len() - a,
    {
        assert(m@.skip(a as int).drop_first() =~= m@.skip(a as int + 1));
        a = a + 1;
    }
    let ghost t = m@.skip(a as int);
    assert(strip_leading_underscores(t) == t);
    let mut b: usize = m.len();
    assert(t.take(b - a) =~= t);
    while b > a && m[b - 1] == '_'
        invariant
            a <= b <= m@.len(),
            t == m@.skip(a as int),
            strip_trailing_underscores(t) == strip_trailing_underscores(t.take(b - a)),
        decreases b,
    {
        assert(t.take(b - a).drop_last() =~= t.take(b - 1 - a));
        b = b - 1;
    }
    assert(strip_trailing_underscores(t.take(b - a)) == t.take(b - a));
    if a == b {
        return String::from_str("session");
    }
    let mut r = String::new();
    let mut k: usize = a;
    while k < b
        invariant
            a <= k <= b <= m@.len(),
            r@ == m@.subrange(a as int, k as int),
        decreases b - k,
    {
        push_char(&mut r, m[k]);
        assert(m@.subrange(a as int, k as int + 1) =~= m@.subrange(a as int, k as int).push(m@[k as int]));
        k = k + 1;
    }
    assert(r@ =~= t.take(b - a));
    r
}

/// The short content hash of spill file names: a multiply-xor fold of the
/// bytes (not a security primitive).
pub open spec fn fold_hash(bytes: Seq<u8>) -> u32
    decreases bytes.len(),
{
    if bytes.len() == 0 {
        0x811c_9dc5u32
    } else {
        let h = fold_hash(bytes.drop_last()) ^ (bytes.last() as u32);
        ((h as nat * 0x0100_0193nat) % 0x1_0000_0000nat) as u32
    }
}

fn short_hash(bytes: &[u8]) -> (h: u32)
    ensures
        h == fold_hash(bytes@),
{
    let mut hash: u32 = 0x811c_9dc5;
    let mut i: usize = 0;
    while i < bytes.len()
        invariant
            i <= bytes@.len(),
            hash == fold_hash(bytes@.take(i as int)),
        decreases bytes@.len() - i,
    {
        assert(bytes@.take(i as int + 1).drop_last() =~= bytes@.take(i as int));
        hash = hash ^ (bytes[i] as u32);
        hash = hash.wrapping_mul(0x0100_0193);
        i = i + 1;
    }
    assert(bytes@.take(bytes@.len() as int) =~= bytes@);
    hash
}

/// Lowercase hexadecimal digit for `d < 16`.
pub open spec fn hex_char(d: nat) -> char {
    if d < 10 {
        ((d + 48) as u32) as char
    } else {
        ((d + 87) as u32) as char
    }
}

/// The lowest `width` hexadecimal digits of `n`, most significant first.
pub open spec fn hex_digits(n: nat, width: nat) -> Seq<char>
    decreases width,
{
    if width == 0 {
        seq![]
    } else {
        hex_digits(n / 16, (width - 1) as nat).push(hex_char(n % 16))
    }
}

pub(crate) fn push_hex(s: &mut String, n: u32, width: u32)
    ensures
        final(s)@ == old(s)@ + hex_digits(n as nat, width as nat),
    decreases width,
{
    if width > 0 {
        push_hex(s, n / 16, width - 1);
        let d = n % 16;
        let c: char = if d < 10 {
            ((d + 48) as u8) as char
        } else {
            ((d + 87) as u8) as char
        };
        push_char(s, c);
        assert(old(s)@ + hex_digits(n as nat, width as nat) =~= old(s)@ + hex_digits((n / 16) as nat, (width - 1) as nat) + seq![c]);
    } else {
        assert(old(s)@ + hex_digits(n as nat, width as nat) =~= old(s)@);
    }
}

/// `digits` left-padded with zeros to at least `width` characters.
pub open spec fn zero_padded(digits: Seq<char>, width: nat) -> Seq<char> {
    if digits.len() >= width {
        digits
    } else {
        Seq::new((width - digits.len()) as nat, |i: int| '0') + digits
    }
}

/// The spill file name: `spill-<scope>-<sequence, six digits>-<hash, eight hex digits>.txt`.
pub open spec fn spill_name(scope: Seq<char>, sequence: nat, content_bytes: Seq<u8>) -> Seq<char> {
    "spill-"@ + safe_scope(scope) + "-"@ + zero_padded(decimal(sequence), 6) + "-"@ + hex_digits(
        fold_hash(content_bytes) as nat,
        8,
    ) + ".txt"@
}

/// Collision-resistant spill file name: the scope as a safe path segment,
/// the writer's sequence number and a short hash of the content's bytes.
pub fn spill_file_name(scope: &str, sequence: u64, content: &str) -> (name: String)
    ensures
        name@ == spill_name(scope@, sequence as nat, content.spec_bytes()),
{
    let mut name = String::from_str("spill-");
    let safe = sanitize_scope(scope);
    push_str(&mut name, safe.as_str());
    push_char(&mut name, '-');
    proof {
        reveal_strlit("spill-");
        reveal_strlit("-");
        assert(name@ =~= "spill-"@ + safe_scope(scope@) + "-"@);
    }
    let digits = crate::text::decimal_string(sequence);
    let len = digits.unicode_len();
    let mut pad: usize = len;
    let ghost before = name@;
    while pad < 6
        invariant
            len <= pad <= 6 || (pad == len && len >= 6),
            len == decimal(sequence as nat).len(),
            name@ == before + Seq::new((pad - len) as nat, |i: int| '0'),
        decreases 6 - pad,
    {
        push_char(&mut name, '0');
        assert(Seq::new((pad + 1 - len) as nat, |i: int| '0') =~= Seq::new((pad - len) as nat, |i: int| '0').push('0'));
        pad = pad + 1;
    }
    push_str(&mut name, digits.as_str());
    proof {
        if len >= 6 {
            assert(Seq::new((pad - len) as nat, |i: int| '0') =~= Seq::<char>::empty());
        }
        assert(name@ =~= before + zero_padded(decimal(sequence as nat), 6));
    }
    let ghost mid = name@;
    push_char(&mut name, '-');
    let h = short_hash(content.as_bytes());
    push_hex(&mut name, h, 8);
    push_str(&mut name, ".txt");
    proof {
        assert(name@ =~= mid + "-"@ + hex_digits(fold_hash(content.spec_bytes()) as nat, 8) + ".txt"@);
    }
    name
}

/// `name` joined under the directory `dir`, the way a path gains a relative
/// component: a separator is added unless `dir` is empty or ends with one.
pub open spec fn path_join(dir: Seq<char>, name: Seq<char>) -> Seq<char> {
    if dir.len() == 0 {
        name
    } else if dir.last() == '/' {
        dir + name
    } else {
        dir + seq!['/'] + name
    }
}

/// Where spill files go: `<data_dir>/spill/`. Writing them is the caller's
/// part; this value names the directory.
#[derive(Debug, Clone, PartialEq, Eq)]
pub struct SpillWriter {
    spill_dir: String,
}

impl SpillWriter {
    /// The directory, as text.
    pub closed spec fn dir(&self) -> Seq<char> {
        self.spill_dir@
    }

    /// Spill files land in `data_dir/spill/` ([`SPILL_SUBDIR`]).
    pub fn new(data_dir: &str) -> (w: Self)
        ensures
            w.dir() == path_join(data_dir@, SPILL_SUBDIR@),
    {
        let mut dir = data_dir.to_owned();
        let n = data_dir.unicode_len();
        if n > 0 && data_dir.get_char(n - 1) != '/' {
            push_char(&mut dir, '/');
        }
        push_str(&mut dir, SPILL_SUBDIR);
        SpillWriter { spill_dir: dir }
    }

    /// The directory spill files are written to.
    pub fn spill_dir(&self) -> (d: &str)
        ensures
            d@ == self.dir(),
    {
        self.spill_dir.as_str()
    }
}

// ---------------------------------------------------------------------------
// Budgeted assembly
// ---------------------------------------------------------------------------

/// Length a block keeps before the total-budget pass: its characters, capped.
pub open spec fn capped_len(content_len: nat, cap: Option<usize>) -> nat {
    match cap {
        Some(c) => if content_len <= c {
            content_len
        } else {
            c as nat
        },
        None => content_len,
    }
}

/// Each block's capped length, in block order.
pub open spec fn initial_plan(blocks: Seq<ContextBlock>) -> Seq<usize> {
    Seq::new(blocks.len(), |i: int| capped_len(blocks[i].content@.len(), blocks[i].cap_chars) as usize)
}

/// Sum of a sequence of lengths.
pub open spec fn total_of(p: Seq<usize>) -> nat
    decreases p.len(),
{
    if p.len() == 0 {
        0
    } else {
        total_of(p.drop_last()) + p.last() as nat
    }
}

/// Indices of the non-core blocks, in block order.
pub open spec fn non_core_indices(blocks: Seq<ContextBlock>) -> Seq<usize>
    decreases blocks.len(),
{
    if blocks.len() == 0 {
        seq![]
    } else {
        let prev = non_core_indices(blocks.drop_last());
        if blocks.last().core {
            prev
        } else {
            prev.push((blocks.len() - 1) as usize)
        }
    }
}

/// Position in `cands` of the candidate with the largest planned length,
/// the earliest among equals.
pub open spec fn best_pos(p: Seq<usize>, cands: Seq<usize>) -> int
    decreases cands.len(),
{
    if cands.len() <= 1 {
        0
    } else {
        let r = best_pos(p, cands.drop_last());
        if p[cands.last() as int] > p[cands[r] as int] {
            cands.len() - 1
        } else {
            r
        }
    }
}

/// The cut order: candidates by descending planned length, equal lengths in
/// their original order (what a stable sort by descending length gives).
pub open spec fn cut_order(p: Seq<usize>, cands: Seq<usize>) -> Seq<usize>
    decreases cands.len(),
{
    let k = best_pos(p, cands);
    if cands.len() == 0 || !(0 <= k < cands.len()) {
        seq![]
    } else {
        seq![cands[k]] + cut_order(p, cands.remove(k))
    }
}

/// The greedy pass: along `order`, each block with something left loses
/// as much as the remaining excess over `budget`, until the total fits.
pub open spec fn apply_cuts(p: Seq<usize>, order: Seq<usize>, total: int, budget: int) -> Seq<usize>
    decreases order.len(),
{
    if order.len() == 0 || total <= budget {
        p
    } else {
        let i = order[0] as int;
        let rest = order.drop_first();
        if !(0 <= i < p.len()) || p[i] == 0 {
            apply_cuts(p, rest, total, budget)
        } else {
            let len = p[i] as int;
            let over = total - budget;
            let cut = if len <= over {
                len
            } else {
                over
            };
            apply_cuts(p.update(i, (len - cut) as usize), rest, total - cut, budget)
        }
    }
}

/// The retained length of every block after the per-block caps and the
/// greedy total-budget pass.
pub open spec fn plan_lengths(blocks: Seq<ContextBlock>, budget: nat) -> Seq<usize> {
    let p = initial_plan(blocks);
    apply_cuts(p, cut_order(p, non_core_indices(blocks)), total_of(p) as int, budget as int)
}

/// Whether every character of `s` is whitespace (what `trim().is_empty()` tests).
pub open spec fn all_ws(s: Seq<char>) -> bool {
    forall|i: int| 0 <= i < s.len() ==> is_ws(s[i])
}

/// The first `n` blocks after their cuts, whitespace-only bodies dropped.
pub open spec fn assembled(
    blocks: Seq<ContextBlock>,
    plan: Seq<usize>,
    n: nat,
) -> Seq<(Seq<char>, Seq<char>, bool, Option<usize>)>
    decreases n,
{
    if n == 0 {
        seq![]
    } else {
        let prev = assembled(blocks, plan, (n - 1) as nat);
        let b = blocks[n - 1];
        let body = b.content@.take(plan[n - 1] as int);
        if all_ws(body) {
            prev
        } else {
            prev.push((b.name@, body, b.core, b.cap_chars))
        }
    }
}

/// The cuts among the first `n` blocks, in order: `(index, kept length)`
/// of every block whose planned length is shorter than its content.
pub open spec fn cut_list(blocks: Seq<ContextBlock>, plan: Seq<usize>, n: nat) -> Seq<(usize, usize)>
    decreases n,
{
    if n == 0 {
        seq![]
    } else {
        let prev = cut_list(blocks, plan, (n - 1) as nat);
        if (plan[n - 1] as int) < blocks[n - 1].content@.len() {
            prev.push(((n - 1) as usize, plan[n - 1]))
        } else {
            prev
        }
    }
}

/// A body cut to `keep` characters in spill mode: unchanged when it fits; a
/// head/tail preview with a retrieval guide once its full original was
/// spilled to `outcome`'s path; the full original when the spill failed.
pub open spec fn spilled_body(content: Seq<char>, keep: usize, outcome: Result<String, String>) -> Seq<char> {
    if content.len() <= keep {
        content
    } else {
        match outcome {
            Ok(path) => preview_text(content, keep as nat, path@),
            Err(_) => content,
        }
    }
}

/// The first `n` blocks in spill mode: every cut block's body is the
/// spill-mode cut with its spill outcome (the outcomes follow the cuts in
/// order); whitespace-only bodies dropped.
pub open spec fn assembled_spilled(
    blocks: Seq<ContextBlock>,
    plan: Seq<usize>,
    outcomes: Seq<Result<String, String>>,
    n: nat,
) -> Seq<(Seq<char>, Seq<char>, bool, Option<usize>)>
    decreases n,
{
    if n == 0 {
        seq![]
    } else {
        let prev = assembled_spilled(blocks, plan, outcomes, (n - 1) as nat);
        let b = blocks[n - 1];
        let body = spilled_body(
            b.content@,
            plan[n - 1],
            outcomes[cut_list(blocks, plan, (n - 1) as nat).len() as int],
        );
        if all_ws(body) {
            prev
        } else {
            prev.push((b.name@, body, b.core, b.cap_chars))
        }
    }
}

proof fn lemma_best_pos_range(p: Seq<usize>, cands: Seq<usize>)
    requires
        cands.len() > 0,
    ensures
        0 <= best_pos(p, cands) < cands.len(),
    decreases cands.len(),
{
    if cands.len() > 1 {
        lemma_best_pos_range(p, cands.drop_last());
    }
}

proof fn lemma_cut_list_grows(blocks: Seq<ContextBlock>, plan: Seq<usize>, n: nat)
    ensures
        forall|a: nat, b: nat| a <= b <= n ==> #[trigger] cut_list(blocks, plan, a).len() <= #[trigger] cut_list(
            blocks,
            plan,
            b,
        ).len(),
    decreases n,
{
    if n > 0 {
        lemma_cut_list_grows(blocks, plan, (n - 1) as nat);
        assert forall|a: nat, b: nat| a <= b <= n implies #[trigger] cut_list(blocks, plan, a).len()
            <= #[trigger] cut_list(blocks, plan, b).len() by {
            if b == n && a < n {
                assert(cut_list(blocks, plan, a).len() <= cut_list(blocks, plan, (n - 1) as nat).len());
            }
        }
    }
}

/// Ordered injection pipeline: per-block cap, then a greedy total-budget cut.
pub struct ContextAssembler {
    blocks: Vec<ContextBlock>,
    total_budget_chars: usize,
}

impl ContextAssembler {
    /// The registered blocks, in order.
    pub closed spec fn spec_blocks(&self) -> Seq<ContextBlock> {
        self.blocks@
    }

    /// The total budget (after the floor).
    pub closed spec fn budget(&self) -> usize {
        self.total_budget_chars
    }

    /// An assembler with no blocks. Budgets below 100 are raised to 100 so a
    /// core persona block always has a usable floor.
    pub fn new(total_budget_chars: usize) -> (a: Self)
        ensures
            a.spec_blocks() == Seq::<ContextBlock>::empty(),
            a.budget() == if total_budget_chars < 100 {
                100
            } else {
                total_budget_chars
            },
    {
        let budget = if total_budget_chars < 100 {
            100
        } else {
            total_budget_chars
        };
        ContextAssembler { blocks: Vec::new(), total_budget_chars: budget }
    }

    /// The configured total budget (after the floor).
    pub fn total_budget_chars(&self) -> (n: usize)
        ensures
            n == self.budget(),
    {
        self.total_budget_chars
    }

    /// Registers a block after the others.
    pub fn push(self, block: ContextBlock) -> (a: Self)
        ensures
            a.spec_blocks() == self.spec_blocks().push(block),
            a.budget() == self.budget(),
    {
        let mut a = self;
        a.blocks.push(block);
        a
    }

    /// `(name, character count)` of every registered block, before budgeting.
    pub fn budget_report(&self) -> (r: Vec<(String, usize)>)
        ensures
            r@.len() == self.spec_blocks().len(),
            forall|i: int|
                0 <= i < r@.len() ==> (#[trigger] r@[i]).0@ == self.spec_blocks()[i].name@ && r@[i].1
                    == self.spec_blocks()[i].content@.len(),
    {
        let mut r: Vec<(String, usize)> = Vec::new();
        let mut i: usize = 0;
        while i < self.blocks.len()
            invariant
                i <= self.blocks@.len(),
                r@.len() == i,
                forall|j: int|
                    0 <= j < i ==> (#[trigger] r@[j]).0@ == self.blocks@[j].name@ && r@[j].1
                        == self.blocks@[j].content@.len(),
            decreases self.blocks@.len() - i,
        {
            let b = &self.blocks[i];
            r.push((b.name.clone(), b.content.as_str().unicode_len()));
            i = i + 1;
        }
        r
    }

    fn initial_lengths(&self) -> (p: Vec<usize>)
        ensures
            p@ == initial_plan(self.blocks@),
    {
        let mut p: Vec<usize> = Vec::new();
        let mut i: usize = 0;
        while i < self.blocks.len()
            invariant
                i <= self.blocks@.len(),
                p@ == initial_plan(self.blocks@).take(i as int),
            decreases self.blocks@.len() - i,
        {
            let b = &self.blocks[i];
            let len = b.content.as_str().unicode_len();
            let keep = match b.cap_chars {
                Some(c) => if len <= c {
                    len
                } else {
                    c
                },
                None => len,
            };
            p.push(keep);
            assert(initial_plan(self.blocks@).take(i as int + 1) =~= initial_plan(self.blocks@).take(
                i as int,
            ).push(keep));
            i = i + 1;
        }
        assert(initial_plan(self.blocks@).take(i as int) =~= initial_plan(self.blocks@));
        p
    }

    fn candidates(&self) -> (c: Vec<usize>)
        ensures
            c@ == non_core_indices(self.blocks@),
    {
        let mut c: Vec<usize> = Vec::new();
        let mut i: usize = 0;
        while i < self.blocks.len()
            invariant
                i <= self.blocks@.len(),
                c@ == non_core_indices(self.blocks@.take(i as int)),
            decreases self.blocks@.len() - i,
        {
            assert(self.blocks@.take(i as int + 1).drop_last() =~= self.blocks@.take(i as int));
            if !self.blocks[i].core {
                c.push(i);
            }
            i = i + 1;
        }
        assert(self.blocks@.take(i as int) =~= self.blocks@);
        c
    }

    /// The retained length of every block: per-block caps, then the greedy
    /// cut of the largest non-core blocks while the total exceeds the budget.
    pub fn planned_lengths(&self) -> (p: Vec<usize>)
        ensures
            p@ == plan_lengths(self.spec_blocks(), self.budget() as nat),
            forall|i: int, j: int|
                0 <= i < p@.len() && 0 <= j < p@.len() && i != j && !self.spec_blocks()[i].core
                    && !self.spec_blocks()[j].core && p@[i] < initial_plan(self.spec_blocks())[i] && cut_before(
                    initial_plan(self.spec_blocks()),
                    j,
                    i,
                ) ==> p@[j] == 0,
            total_of(initial_plan(self.spec_blocks())) <= self.budget() ==> p@ == initial_plan(self.spec_blocks()),
            total_of(initial_plan(self.spec_blocks())) > self.budget() ==> total_of(p@) >= self.budget() && (total_of(p@)
                == self.budget() || forall|i: int| 0 <= i < p@.len() && !self.spec_blocks()[i].core ==> p@[i] == 0),
    {
        proof {
            lemma_plan_bounded(self.blocks@, self.total_budget_chars as nat);
            assert(self.blocks@.len() == self.blocks.len());
            longest_blocks_are_cut_first(self.blocks@, self.total_budget_chars as nat);
            the_budget_pass_removes_the_excess(self.blocks@, self.total_budget_chars as nat);
        }
        let mut planned = self.initial_lengths();
        let ghost p0 = planned@;
        let n = planned.len();
        let mut total: u128 = 0;
        let mut i: usize = 0;
        while i < n
            invariant
                n == planned@.len(),
                planned@ == p0,
                i <= n,
                total == total_of(p0.take(i as int)),
                total <= i * 0x1_0000_0000_0000_0000,
            decreases n - i,
        {
            assert(p0.take(i as int + 1).drop_last() =~= p0.take(i as int));
            total = total + planned[i] as u128;
            i = i + 1;
        }
        assert(p0.take(n as int) =~= p0);
        let cands = self.candidates();
        proof {
            lemma_non_core_in_range(self.blocks@);
            assert(forall|q: int| 0 <= q < cands@.len() ==> #[trigger] cands@[q] < p0.len());
        }
        let order = cut_order_of(&planned, cands);
        proof {
            lemma_cut_order_in_range(p0, non_core_indices(self.blocks@), n as int);
        }
        let budget = self.total_budget_chars as u128;
        let ghost target = apply_cuts(p0, order@, total as int, budget as int);
        let mut idx: usize = 0;
        assert(order@.skip(0) =~= order@);
        while idx < order.len() && total > budget
            invariant
                idx <= order@.len(),
                planned@.len() == n,
                forall|j: int| 0 <= j < order@.len() ==> order@[j] < n,
                apply_cuts(planned@, order@.skip(idx as int), total as int, budget as int) == target,
            decreases order@.len() - idx,
        {
            assert(order@.skip(idx as int).drop_first() =~= order@.skip(idx as int + 1));
            let k = order[idx];
            let len = planned[k];
            if len != 0 {
                let over = total - budget;
                let cut: usize = if (len as u128) <= over {
                    len
                } else {
                    over as usize
                };
                planned.set(k, len - cut);
                total = total - cut as u128;
            }
            idx = idx + 1;
        }
        planned
    }

    /// Budgeted assembly keeping names, core flags and caps: every block cut
    /// to its planned length (a prefix), whitespace-only bodies dropped.
    pub fn assemble_budgeted_blocks(&self) -> (r: Vec<ContextBlock>)
        ensures
            r@.map_values(|b: ContextBlock| block_view(b)) == assembled(
                self.spec_blocks(),
                plan_lengths(self.spec_blocks(), self.budget() as nat),
                self.spec_blocks().len(),
            ),
    {
        let plan = self.planned_lengths();
        self.finish_blocks(&plan)
    }

    fn finish_blocks(&self, plan: &Vec<usize>) -> (r: Vec<ContextBlock>)
        requires
            plan@ == plan_lengths(self.blocks@, self.total_budget_chars as nat),
        ensures
            r@.map_values(|b: ContextBlock| block_view(b)) == assembled(self.blocks@, plan@, self.blocks@.len()),
    {
        proof {
            lemma_plan_bounded(self.blocks@, self.total_budget_chars as nat);
        }
        let mut r: Vec<ContextBlock> = Vec::new();
        let mut i: usize = 0;
        while i < self.blocks.len()
            invariant
                i <= self.blocks@.len(),
                plan@.len() == self.blocks@.len(),
                forall|j: int| 0 <= j < plan@.len() ==> plan@[j] <= self.blocks@[j].content@.len(),
                r@.map_values(|b: ContextBlock| block_view(b)) == assembled(self.blocks@, plan@, i as nat),
            decreases self.blocks@.len() - i,
        {
            let b = &self.blocks[i];
            let keep = plan[i];
            let body = b.content.as_str().substring_char(0, keep);
            proof {
                assert(body@ =~= b.content@.take(keep as int));
            }
            if !all_whitespace(body) {
                let nb = ContextBlock { name: b.name.clone(), content: body.to_owned(), core: b.core, cap_chars: b.cap_chars };
                let ghost before = r@;
                r.push(nb);
                proof {
                    assert(r@.map_values(|b: ContextBlock| block_view(b)) =~= before.map_values(
                        |b: ContextBlock| block_view(b),
                    ).push(block_view(nb)));
                }
            }
            i = i + 1;
        }
        r
    }

    /// The registered blocks, in order.
    pub fn blocks(&self) -> (b: &Vec<ContextBlock>)
        ensures
            b@ == self.spec_blocks(),
    {
        &self.blocks
    }

    /// The cuts the budget plan calls for, in block order: `(index, kept
    /// length)` of every block planned shorter than its content. In spill
    /// mode the caller spills the full content of each such block first.
    pub fn planned_cuts(&self) -> (r: Vec<(usize, usize)>)
        ensures
            r@ == cut_list(
                self.spec_blocks(),
                plan_lengths(self.spec_blocks(), self.budget() as nat),
                self.spec_blocks().len(),
            ),
    {
        let plan = self.planned_lengths();
        proof {
            lemma_plan_bounded(self.blocks@, self.total_budget_chars as nat);
        }
        let mut r: Vec<(usize, usize)> = Vec::new();
        let mut i: usize = 0;
        while i < self.blocks.len()
            invariant
                i <= self.blocks@.len(),
                plan@.len() == self.blocks@.len(),
                plan@ == plan_lengths(self.blocks@, self.total_budget_chars as nat),
                r@ == cut_list(self.blocks@, plan@, i as nat),
            decreases self.blocks@.len() - i,
        {
            let len = self.blocks[i].content.as_str().unicode_len();
            if plan[i] < len {
                r.push((i, plan[i]));
            }
            i = i + 1;
        }
        r
    }

    /// Budgeted assembly in spill mode: every planned cut becomes a head/tail
    /// preview with a retrieval guide, given the outcome of spilling that
    /// block's full original (`outcomes[k]` for the `k`-th planned cut: the
    /// path written, or why the write failed, in which case the full original
    /// stays inline); whitespace-only bodies dropped.
    pub fn assemble_with_spills(&self, outcomes: &[Result<String, String>]) -> (r: Vec<ContextBlock>)
        requires
            outcomes@.len() == cut_list(
                self.spec_blocks(),
                plan_lengths(self.spec_blocks(), self.budget() as nat),
                self.spec_blocks().len(),
            ).len(),
        ensures
            r@.map_values(|b: ContextBlock| block_view(b)) == assembled_spilled(
                self.spec_blocks(),
                plan_lengths(self.spec_blocks(), self.budget() as nat),
                outcomes@,
                self.spec_blocks().len(),
            ),
    {
        let plan = self.planned_lengths();
        proof {
            lemma_plan_bounded(self.blocks@, self.total_budget_chars as nat);
            lemma_cut_list_grows(self.blocks@, plan@, self.blocks@.len() as nat);
        }
        let mut r: Vec<ContextBlock> = Vec::new();
        let mut k: usize = 0;
        let mut i: usize = 0;
        while i < self.blocks.len()
            invariant
                i <= self.blocks@.len(),
                plan@.len() == self.blocks@.len(),
                plan@ == plan_lengths(self.blocks@, self.total_budget_chars as nat),
                forall|j: int| 0 <= j < plan@.len() ==> plan@[j] <= self.blocks@[j].content@.len(),
                outcomes@.len() == cut_list(self.blocks@, plan@, self.blocks@.len() as nat).len(),
                forall|a: nat, b: nat|
                    a <= b <= self.blocks@.len() ==> #[trigger] cut_list(self.blocks@, plan@, a).len()
                        <= #[trigger] cut_list(self.blocks@, plan@, b).len(),
                k == cut_list(self.blocks@, plan@, i as nat).len(),
                r@.map_values(|b: ContextBlock| block_view(b)) == assembled_spilled(
                    self.blocks@,
                    plan@,
                    outcomes@,
                    i as nat,
                ),
            decreases self.blocks@.len() - i,
        {
            let b = &self.blocks[i];
            let keep = plan[i];
            let len = b.content.as_str().unicode_len();
            let body: String = if keep < len {
                proof {
                    assert(cut_list(self.blocks@, plan@, i as nat + 1).len() == k + 1);
                }
                let outcome = match &outcomes[k] {
                    Ok(path) => Ok(path.clone()),
                    Err(e) => Err(e.clone()),
                };
                proof {
                    assert(spilled_body(b.content@, keep, outcome) == spilled_body(
                        b.content@,
                        keep,
                        outcomes@[k as int],
                    ));
                }
                k = k + 1;
                truncate_with_spill(b.content.as_str(), keep, outcome).text
            } else {
                b.content.clone()
            };
            if !all_whitespace(body.as_str()) {
                let nb = ContextBlock { name: b.name.clone(), content: body, core: b.core, cap_chars: b.cap_chars };
                let ghost before = r@;
                r.push(nb);
                proof {
                    assert(r@.map_values(|b: ContextBlock| block_view(b)) =~= before.map_values(
                        |b: ContextBlock| block_view(b),
                    ).push(block_view(nb)));
                }
            }
            i = i + 1;
        }
        r
    }

    /// Budgeted assembly, contents only.
    pub fn assemble_budgeted(&self) -> (r: Vec<String>)
        ensures
            r@.map_values(|s: String| s@) == assembled(
                self.spec_blocks(),
                plan_lengths(self.spec_blocks(), self.budget() as nat),
                self.spec_blocks().len(),
            ).map_values(|v: (Seq<char>, Seq<char>, bool, Option<usize>)| v.1),
    {
        let blocks = self.assemble_budgeted_blocks();
        let ghost bv = blocks@.map_values(|b: ContextBlock| block_view(b));
        let mut r: Vec<String> = Vec::new();
        let mut i: usize = 0;
        while i < blocks.len()
            invariant
                i <= blocks@.len(),
                bv == blocks@.map_values(|b: ContextBlock| block_view(b)),
                r@.map_values(|s: String| s@) == bv.take(i as int).map_values(
                    |v: (Seq<char>, Seq<char>, bool, Option<usize>)| v.1,
                ),
            decreases blocks@.len() - i,
        {
            let ghost before = r@;
            let c = blocks[i].content.clone();
            r.push(c);
            proof {
                assert(bv[i as int].1 == c@);
                assert(bv.take(i as int + 1) =~= bv.take(i as int).push(bv[i as int]));
                assert(r@.map_values(|s: String| s@) =~= before.map_values(|s: String| s@).push(c@));
                assert(r@.map_values(|s: String| s@) =~= bv.take(i as int + 1).map_values(
                    |v: (Seq<char>, Seq<char>, bool, Option<usize>)| v.1,
                ));
            }
            i = i + 1;
        }
        assert(bv.take(i as int) =~= bv);
        r
    }
}

fn all_whitespace(s: &str) -> (b: bool)
    ensures
        b == all_ws(s@),
{
    let cs = chars_of(s);
    let mut i: usize = 0;
    while i < cs.len()
        invariant
            i <= cs@.len(),
            cs@ == s@,
            forall|j: int| 0 <= j < i ==> is_ws(cs@[j]),
        decreases cs@.len() - i,
    {
        if !is_whitespace_char(cs[i]) {
            return false;
        }
        i = i + 1;
    }
    true
}

fn best_position(p: &Vec<usize>, cands: &Vec<usize>) -> (k: usize)
    requires
        cands@.len() > 0,
        forall|q: int| 0 <= q < cands@.len() ==> #[trigger] cands@[q] < p@.len(),
    ensures
        k == best_pos(p@, cands@),
        k < cands@.len(),
{
    let mut r: usize = 0;
    let mut j: usize = 1;
    while j < cands.len()
        invariant
            1 <= j <= cands@.len(),
            r < j,
            r == best_pos(p@, cands@.take(j as int)),
            forall|q: int| 0 <= q < cands@.len() ==> #[trigger] cands@[q] < p@.len(),
        decreases cands@.len() - j,
    {
        assert(cands@.take(j as int + 1).drop_last() =~= cands@.take(j as int));
        if p[cands[j]] > p[cands[r]] {
            r = j;
        }
        j = j + 1;
    }
    assert(cands@.take(j as int) =~= cands@);
    r
}

fn cut_order_of(p: &Vec<usize>, cands: Vec<usize>) -> (order: Vec<usize>)
    requires
        forall|q: int| 0 <= q < cands@.len() ==> #[trigger] cands@[q] < p@.len(),
    ensures
        order@ == cut_order(p@, cands@),
{
    let ghost c0 = cands@;
    let mut rest = cands;
    let mut order: Vec<usize> = Vec::new();
    while rest.len() > 0
        invariant
            order@ + cut_order(p@, rest@) == cut_order(p@, c0),
            forall|q: int| 0 <= q < rest@.len() ==> #[trigger] rest@[q] < p@.len(),
        decreases rest@.len(),
    {
        let k = best_position(p, &rest);
        let ghost before = rest@;
        order.push(rest[k]);
        let _ = rest.remove(k);
        proof {
            lemma_best_pos_range(p@, before);
            assert forall|q: int| 0 <= q < rest@.len() implies #[trigger] rest@[q] < p@.len() by {
                if q < k {
                    assert(rest@[q] == before[q]);
                } else {
                    assert(rest@[q] == before[q + 1]);
                }
            }
            assert(cut_order(p@, before) == seq![before[k as int]] + cut_order(p@, rest@));
            assert(order@ + cut_order(p@, rest@) =~= (order@.drop_last()) + cut_order(p@, before));
        }
    }
    assert(order@ + cut_order(p@, rest@) =~= order@);
    order
}

proof fn lemma_non_core_in_range(blocks: Seq<ContextBlock>)
    ensures
        forall|j: int|
            0 <= j < non_core_indices(blocks).len() ==> #[trigger] non_core_indices(blocks)[j] < blocks.len(),
    decreases blocks.len(),
{
    if blocks.len() > 0 {
        lemma_non_core_in_range(blocks.drop_last());
        let prev = non_core_indices(blocks.drop_last());
        assert forall|j: int| 0 <= j < non_core_indices(blocks).len() implies #[trigger] non_core_indices(
            blocks,
        )[j] < blocks.len() by {
            if j < prev.len() {
                assert(non_core_indices(blocks)[j] == prev[j]);
            }
        }
    }
}

proof fn lemma_cut_order_in_range(p: Seq<usize>, cands: Seq<usize>, n: int)
    requires
        forall|j: int| 0 <= j < cands.len() ==> #[trigger] cands[j] < n,
    ensures
        forall|j: int| 0 <= j < cut_order(p, cands).len() ==> #[trigger] cut_order(p, cands)[j] < n,
    decreases cands.len(),
{
    if cands.len() > 0 {
        lemma_best_pos_range(p, cands);
        let k = best_pos(p, cands);
        let rest = cands.remove(k);
        assert forall|j: int| 0 <= j < rest.len() implies #[trigger] rest[j] < n by {
            if j < k {
                assert(rest[j] == cands[j]);
            } else {
                assert(rest[j] == cands[j + 1]);
            }
        }
        lemma_cut_order_in_range(p, rest, n);
        let tail = cut_order(p, rest);
        assert(cut_order(p, cands) == seq![cands[k]] + tail);
        assert forall|j: int| 0 <= j < cut_order(p, cands).len() implies #[trigger] cut_order(p, cands)[j] < n by {
            if j > 0 {
                assert(cut_order(p, cands)[j] == tail[j - 1]);
            }
        }
    }
}

/// Block `j` goes before block `i` in the cutting order of plan `p`: it
/// is longer, or as long and registered earlier.
pub open spec fn cut_before(p: Seq<usize>, j: int, i: int) -> bool {
    p[j] > p[i] || (p[j] == p[i] && j < i)
}

/// Strictly increasing indices.
pub open spec fn increasing(s: Seq<usize>) -> bool {
    forall|a: int, b: int| 0 <= a < b < s.len() ==> s[a] < s[b]
}

proof fn lemma_non_core_shape(blocks: Seq<ContextBlock>)
    requires
        blocks.len() <= usize::MAX,
    ensures
        increasing(non_core_indices(blocks)),
        forall|i: int| 0 <= i < blocks.len() && !blocks[i].core ==> non_core_indices(blocks).contains(i as usize),
        forall|j: int| 0 <= j < non_core_indices(blocks).len() ==> #[trigger] non_core_indices(blocks)[j] < blocks.len(),
    decreases blocks.len(),
{
    lemma_non_core_in_range(blocks);
    if blocks.len() > 0 {
        let init = blocks.drop_last();
        lemma_non_core_shape(init);
        let prev = non_core_indices(init);
        let cur = non_core_indices(blocks);
        assert forall|a: int, b: int| 0 <= a < b < cur.len() implies cur[a] < cur[b] by {
            if b < prev.len() {
                assert(cur[a] == prev[a] && cur[b] == prev[b]);
            } else {
                assert(cur[a] == prev[a]);
                assert(prev[a] < init.len());
                assert(cur[b] == (blocks.len() - 1) as usize);
            }
        }
        assert forall|i: int| 0 <= i < blocks.len() && !blocks[i].core implies cur.contains(i as usize) by {
            if i < init.len() {
                assert(init[i] == blocks[i]);
                let q = choose|q: int| 0 <= q < prev.len() && prev[q] == i as usize;
                assert(cur[q] == prev[q]);
            } else {
                assert(cur[cur.len() - 1] == (blocks.len() - 1) as usize);
            }
        }
    }
}

proof fn lemma_best_pos_max(p: Seq<usize>, cands: Seq<usize>)
    requires
        cands.len() > 0,
    ensures
        0 <= best_pos(p, cands) < cands.len(),
        forall|q: int| 0 <= q < cands.len() ==> p[#[trigger] cands[q] as int] <= p[cands[best_pos(p, cands)] as int],
        forall|q: int| 0 <= q < best_pos(p, cands) ==> p[#[trigger] cands[q] as int] < p[cands[best_pos(p, cands)] as int],
    decreases cands.len(),
{
    if cands.len() > 1 {
        let init = cands.drop_last();
        lemma_best_pos_max(p, init);
        let r = best_pos(p, init);
        assert forall|q: int| 0 <= q < init.len() implies cands[q] == init[q] by {}
    }
}

/// The cutting order is the non-core blocks in descending length, equal
/// lengths in registration order: it holds every candidate once, and no
/// block in it goes before one that precedes it.
proof fn lemma_cut_order_sorted(p: Seq<usize>, cands: Seq<usize>)
    requires
        increasing(cands),
    ensures
        forall|x: usize| cands.contains(x) ==> cut_order(p, cands).contains(x),
        forall|x: usize| cut_order(p, cands).contains(x) ==> cands.contains(x),
        forall|a: int, b: int| 0 <= a < b < cut_order(p, cands).len() ==> cut_order(p, cands)[a] != cut_order(p, cands)[b],
        forall|a: int, b: int|
            0 <= a < b < cut_order(p, cands).len() ==> !cut_before(
                p,
                cut_order(p, cands)[b] as int,
                cut_order(p, cands)[a] as int,
            ),
    decreases cands.len(),
{
    if cands.len() > 0 {
        lemma_best_pos_max(p, cands);
        let k = best_pos(p, cands);
        let c = cands[k];
        let rest = cands.remove(k);
        assert forall|q: int| 0 <= q < rest.len() implies rest[q] == (if q < k { cands[q] } else { cands[q + 1] }) by {}
        assert(increasing(rest)) by {
            assert forall|a: int, b: int| 0 <= a < b < rest.len() implies rest[a] < rest[b] by {
                let a0 = if a < k { a } else { a + 1 };
                let b0 = if b < k { b } else { b + 1 };
                assert(rest[a] == cands[a0] && rest[b] == cands[b0]);
            }
        }
        lemma_cut_order_sorted(p, rest);
        let tail = cut_order(p, rest);
        let order = cut_order(p, cands);
        assert(order == seq![c] + tail);
        assert forall|x: usize| cands.contains(x) implies order.contains(x) by {
            let q = choose|q: int| 0 <= q < cands.len() && cands[q] == x;
            if q == k {
                assert(order[0] == x);
            } else {
                let q1 = if q < k { q } else { q - 1 };
                assert(rest[q1] == x);
                assert(rest.contains(x));
                let t = choose|t: int| 0 <= t < tail.len() && tail[t] == x;
                assert(order[t + 1] == x);
            }
        }
        assert forall|x: usize| order.contains(x) implies cands.contains(x) by {
            let t = choose|t: int| 0 <= t < order.len() && order[t] == x;
            if t == 0 {
                assert(cands[k] == x);
            } else {
                assert(order[t] == tail[t - 1]);
                assert(tail[t - 1] == x);
                assert(tail.contains(x));
                assert(rest.contains(x));
                let q1 = choose|q: int| 0 <= q < rest.len() && rest[q] == x;
                let q = if q1 < k { q1 } else { q1 + 1 };
                assert(cands[q] == x);
            }
        }
        assert forall|a: int, b: int|
            #![trigger order[a], order[b]]
            0 <= a < b < order.len() implies order[a] != order[b] && !cut_before(
            p,
            order[b] as int,
            order[a] as int,
        ) by {
            if a == 0 {
                let y = tail[b - 1];
                assert(order[b] == y);
                assert(tail.contains(y));
                assert(rest.contains(y));
                let q1 = choose|q: int| 0 <= q < rest.len() && rest[q] == y;
                let q = if q1 < k { q1 } else { q1 + 1 };
                assert(cands[q] == y);
                assert(q != k);
                if q < k {
                    assert(cands[q] < cands[k]);
                } else {
                    assert(cands[k] < cands[q]);
                }
                assert(y != c);
                assert(p[y as int] <= p[c as int]);
                if q < k {
                    assert(p[y as int] < p[c as int]);
                } else {
                    assert(c < y);
                }
            } else {
                assert(order[a] == tail[a - 1] && order[b] == tail[b - 1]);
            }
        }
    }
}

/// Along a cutting order without repeats: blocks outside the order keep
/// their length, and a block only loses characters once every block ahead
/// of it in the order has been cut to nothing.
proof fn lemma_apply_cuts_in_order(p: Seq<usize>, order: Seq<usize>, total: int, budget: int)
    requires
        forall|a: int, b: int| 0 <= a < b < order.len() ==> order[a] != order[b],
        forall|a: int| 0 <= a < order.len() ==> #[trigger] order[a] < p.len(),
    ensures
        apply_cuts(p, order, total, budget).len() == p.len(),
        forall|x: usize| x < p.len() && !order.contains(x) ==> apply_cuts(p, order, total, budget)[x as int] == p[x as int],
        forall|a: int, b: int|
            0 <= a < b < order.len() && apply_cuts(p, order, total, budget)[order[b] as int] < p[order[b] as int]
                ==> apply_cuts(p, order, total, budget)[order[a] as int] == 0,
    decreases order.len(),
{
    lemma_apply_cuts_bounded(p, order, total, budget);
    if order.len() == 0 || total <= budget {
    } else {
        let i = order[0] as int;
        let rest = order.drop_first();
        assert forall|a: int| 0 <= a < rest.len() implies rest[a] == order[a + 1] by {}
        assert(!rest.contains(i as usize)) by {
            if rest.contains(i as usize) {
                let t = choose|t: int| 0 <= t < rest.len() && rest[t] == i as usize;
                assert(order[t + 1] == order[0]);
            }
        }
        let r = apply_cuts(p, order, total, budget);
        if p[i] == 0 {
            lemma_apply_cuts_in_order(p, rest, total, budget);
            assert forall|x: usize| x < p.len() && !order.contains(x) implies r[x as int] == p[x as int] by {
                if rest.contains(x) {
                    let t = choose|t: int| 0 <= t < rest.len() && rest[t] == x;
                    assert(order[t + 1] == x);
                }
            }
            assert forall|a: int, b: int| 0 <= a < b < order.len() && r[order[b] as int] < p[order[b] as int] implies r[order[a] as int] == 0 by {
                if a == 0 {
                    assert(r[i] == p[i]);
                } else {
                    assert(order[a] == rest[a - 1] && order[b] == rest[b - 1]);
                }
            }
        } else {
            let len = p[i] as int;
            let over = total - budget;
            let cut = if len <= over { len } else { over };
            let p1 = p.update(i, (len - cut) as usize);
            lemma_apply_cuts_in_order(p1, rest, total - cut, budget);
            assert(r == apply_cuts(p1, rest, total - cut, budget));
            assert forall|x: usize| x < p.len() && !order.contains(x) implies r[x as int] == p[x as int] by {
                if rest.contains(x) {
                    let t = choose|t: int| 0 <= t < rest.len() && rest[t] == x;
                    assert(order[t + 1] == x);
                }
                assert(order[0] != x);
                assert(x as int != i);
            }
            assert forall|a: int, b: int| 0 <= a < b < order.len() && r[order[b] as int] < p[order[b] as int] implies r[order[a] as int] == 0 by {
                let ob = order[b] as int;
                assert(order[b] != order[0]);
                assert(p1[ob] == p[ob]);
                if a == 0 {
                    assert(r[i] == p1[i]);
                    if cut != len {
                        assert(total - cut <= budget);
                        assert(r == p1);
                    }
                } else {
                    assert(order[a] == rest[a - 1] && order[b] == rest[b - 1]);
                }
            }
        }
    }
}

/// Along an order without repeats, the greedy pass removes exactly the
/// excess over the budget, or empties every block of the order trying.
proof fn lemma_apply_cuts_amount(p: Seq<usize>, order: Seq<usize>, total: int, budget: int)
    requires
        forall|a: int, b: int| 0 <= a < b < order.len() ==> order[a] != order[b],
        forall|a: int| 0 <= a < order.len() ==> #[trigger] order[a] < p.len(),
        total == total_of(p),
    ensures
        total <= budget ==> apply_cuts(p, order, total, budget) == p,
        total > budget ==> total_of(apply_cuts(p, order, total, budget)) >= budget && (total_of(
            apply_cuts(p, order, total, budget),
        ) == budget || forall|t: int| 0 <= t < order.len() ==> apply_cuts(p, order, total, budget)[#[trigger] order[t] as int] == 0),
    decreases order.len(),
{
    if order.len() == 0 || total <= budget {
    } else {
        let i = order[0] as int;
        let rest = order.drop_first();
        assert forall|a: int| 0 <= a < rest.len() implies rest[a] == order[a + 1] by {}
        let r = apply_cuts(p, order, total, budget);
        lemma_apply_cuts_in_order(p, order, total, budget);
        if p[i] == 0 {
            lemma_apply_cuts_amount(p, rest, total, budget);
            lemma_apply_cuts_in_order(p, rest, total, budget);
            assert(!rest.contains(i as usize)) by {
                if rest.contains(i as usize) {
                    let t = choose|t: int| 0 <= t < rest.len() && rest[t] == i as usize;
                    assert(order[t + 1] == order[0]);
                }
            }
            assert(r[i] == p[i]);
            assert forall|t: int| 0 <= t < order.len() && total_of(r) != budget implies r[#[trigger] order[t] as int] == 0 by {
                if t > 0 {
                    assert(order[t] == rest[t - 1]);
                }
            }
        } else {
            let len = p[i] as int;
            let over = total - budget;
            let cut = if len <= over { len } else { over };
            let p1 = p.update(i, (len - cut) as usize);
            lemma_total_update(p, i, (len - cut) as usize);
            lemma_apply_cuts_amount(p1, rest, total - cut, budget);
            lemma_apply_cuts_in_order(p1, rest, total - cut, budget);
            assert(!rest.contains(i as usize)) by {
                if rest.contains(i as usize) {
                    let t = choose|t: int| 0 <= t < rest.len() && rest[t] == i as usize;
                    assert(order[t + 1] == order[0]);
                }
            }
            assert(r == apply_cuts(p1, rest, total - cut, budget));
            assert(r[i] == p1[i]);
            assert forall|t: int| 0 <= t < order.len() && total_of(r) != budget implies r[#[trigger] order[t] as int] == 0 by {
                if t > 0 {
                    assert(order[t] == rest[t - 1]);
                }
            }
        }
    }
}

/// The budget pass removes exactly the excess: when the blocks fit they are
/// kept whole; when they do not, the total left is never below the budget,
/// and it is the budget unless every non-core block was cut to nothing.
pub proof fn the_budget_pass_removes_the_excess(blocks: Seq<ContextBlock>, budget: nat)
    requires
        blocks.len() <= usize::MAX,
    ensures
        total_of(initial_plan(blocks)) <= budget ==> plan_lengths(blocks, budget) == initial_plan(blocks),
        total_of(initial_plan(blocks)) > budget ==> total_of(plan_lengths(blocks, budget)) >= budget && (total_of(
            plan_lengths(blocks, budget),
        ) == budget || forall|i: int| 0 <= i < blocks.len() && !blocks[i].core ==> plan_lengths(blocks, budget)[i]
            == 0),
{
    let p = initial_plan(blocks);
    let cands = non_core_indices(blocks);
    lemma_non_core_shape(blocks);
    lemma_cut_order_sorted(p, cands);
    lemma_cut_order_in_range(p, cands, blocks.len() as int);
    let order = cut_order(p, cands);
    lemma_apply_cuts_amount(p, order, total_of(p) as int, budget as int);
    let r = plan_lengths(blocks, budget);
    assert(r == apply_cuts(p, order, total_of(p) as int, budget as int));
    if total_of(p) > budget && total_of(r) != budget {
        assert forall|i: int| 0 <= i < blocks.len() && !blocks[i].core implies r[i] == 0 by {
            assert(cands.contains(i as usize));
            assert(order.contains(i as usize));
            let t = choose|t: int| 0 <= t < order.len() && order[t] == i as usize;
            assert(r[order[t] as int] == 0);
        }
    }
}

/// The budget pass cuts the longest non-core blocks first (equal lengths in
/// registration order), each to nothing before the next one is touched: a
/// non-core block is shortened only when every non-core block that is
/// longer than it, or as long and registered earlier, has been cut to
/// nothing. Core blocks are never shortened.
pub proof fn longest_blocks_are_cut_first(blocks: Seq<ContextBlock>, budget: nat)
    requires
        blocks.len() <= usize::MAX,
    ensures
        forall|i: int, j: int|
            0 <= i < blocks.len() && 0 <= j < blocks.len() && i != j && !blocks[i].core && !blocks[j].core
                && plan_lengths(blocks, budget)[i] < initial_plan(blocks)[i] && cut_before(initial_plan(blocks), j, i)
                ==> plan_lengths(blocks, budget)[j] == 0,
        forall|i: int| 0 <= i < blocks.len() && blocks[i].core ==> plan_lengths(blocks, budget)[i] == initial_plan(blocks)[i],
{
    let p = initial_plan(blocks);
    let cands = non_core_indices(blocks);
    lemma_non_core_shape(blocks);
    lemma_cut_order_sorted(p, cands);
    lemma_cut_order_in_range(p, cands, blocks.len() as int);
    let order = cut_order(p, cands);
    lemma_apply_cuts_in_order(p, order, total_of(p) as int, budget as int);
    let r = plan_lengths(blocks, budget);
    assert(r == apply_cuts(p, order, total_of(p) as int, budget as int));
    assert forall|i: int, j: int|
        0 <= i < blocks.len() && 0 <= j < blocks.len() && i != j && !blocks[i].core && !blocks[j].core && r[i] < p[i]
            && cut_before(p, j, i) implies r[j] == 0 by {
        assert(cands.contains(i as usize) && cands.contains(j as usize));
        assert(order.contains(i as usize) && order.contains(j as usize));
        let bi = choose|t: int| 0 <= t < order.len() && order[t] == i as usize;
        let bj = choose|t: int| 0 <= t < order.len() && order[t] == j as usize;
        assert(bi != bj);
        if bi < bj {
            assert(!cut_before(p, order[bj] as int, order[bi] as int));
        }
        assert(bj < bi);
        assert(r[order[bi] as int] < p[order[bi] as int]);
    }
    assert forall|i: int| 0 <= i < blocks.len() && blocks[i].core implies r[i] == p[i] by {
        if order.contains(i as usize) {
            assert(cands.contains(i as usize));
            let q = choose|q: int| 0 <= q < cands.len() && cands[q] == i as usize;
            lemma_non_core_member_at(blocks, q);
        }
    }
}

proof fn lemma_non_core_member_at(blocks: Seq<ContextBlock>, q: int)
    requires
        blocks.len() <= usize::MAX,
        0 <= q < non_core_indices(blocks).len(),
    ensures
        non_core_indices(blocks)[q] < blocks.len(),
        !blocks[non_core_indices(blocks)[q] as int].core,
    decreases blocks.len(),
{
    lemma_non_core_in_range(blocks);
    if blocks.len() > 0 {
        let init = blocks.drop_last();
        let prev = non_core_indices(init);
        lemma_non_core_in_range(init);
        if q < prev.len() {
            lemma_non_core_member_at(init, q);
            assert(non_core_indices(blocks)[q] == prev[q]);
            assert(blocks[prev[q] as int] == init[prev[q] as int]);
        } else {
            assert(!blocks.last().core);
            assert(non_core_indices(blocks)[q] == (blocks.len() - 1) as usize);
            assert(blocks[blocks.len() - 1] == blocks.last());
        }
    }
}

proof fn lemma_apply_cuts_bounded(p: Seq<usize>, order: Seq<usize>, total: int, budget: int)
    ensures
        apply_cuts(p, order, total, budget).len() == p.len(),
        forall|j: int| 0 <= j < p.len() ==> #[trigger] apply_cuts(p, order, total, budget)[j] <= p[j],
    decreases order.len(),
{
    if order.len() == 0 || total <= budget {
    } else {
        let i = order[0] as int;
        let rest = order.drop_first();
        if !(0 <= i < p.len()) || p[i] == 0 {
            lemma_apply_cuts_bounded(p, rest, total, budget);
        } else {
            let len = p[i] as int;
            let over = total - budget;
            let cut = if len <= over {
                len
            } else {
                over
            };
            let p1 = p.update(i, (len - cut) as usize);
            lemma_apply_cuts_bounded(p1, rest, total - cut, budget);
            assert forall|j: int| 0 <= j < p.len() implies #[trigger] apply_cuts(p, order, total, budget)[j]
                <= p[j] by {
                assert(apply_cuts(p1, rest, total - cut, budget)[j] <= p1[j]);
            }
        }
    }
}

proof fn lemma_plan_bounded(blocks: Seq<ContextBlock>, budget: nat)
    ensures
        plan_lengths(blocks, budget).len() == blocks.len(),
        forall|j: int| 0 <= j < blocks.len() ==> #[trigger] plan_lengths(blocks, budget)[j] <= blocks[j].content@.len(),
{
    let p = initial_plan(blocks);
    lemma_apply_cuts_bounded(p, cut_order(p, non_core_indices(blocks)), total_of(p) as int, budget as int);
    assert forall|j: int| 0 <= j < blocks.len() implies #[trigger] plan_lengths(blocks, budget)[j]
        <= blocks[j].content@.len() by {
        assert(plan_lengths(blocks, budget)[j] <= p[j]);
    }
}

proof fn lemma_total_update(p: Seq<usize>, i: int, v: usize)
    requires
        0 <= i < p.len(),
    ensures
        total_of(p.update(i, v)) == total_of(p) - p[i] + v,
    decreases p.len(),
{
    let q = p.update(i, v);
    if i < p.len() - 1 {
        assert(q.drop_last() =~= p.drop_last().update(i, v));
        lemma_total_update(p.drop_last(), i, v);
    } else {
        assert(q.drop_last() =~= p.drop_last());
    }
}

proof fn lemma_total_ext(a: Seq<usize>, b: Seq<usize>)
    requires
        a.len() == b.len(),
        forall|j: int| 0 <= j < a.len() ==> a[j] == b[j],
    ensures
        total_of(a) == total_of(b),
{
    assert(a =~= b);
}

/// Entries of `order` that are valid indices of `p`... leave every other
/// entry of `p` as it was.
proof fn lemma_apply_cuts_frame(p: Seq<usize>, order: Seq<usize>, total: int, budget: int, j: int)
    requires
        0 <= j < p.len(),
        !order.contains(j as usize),
    ensures
        apply_cuts(p, order, total, budget)[j] == p[j],
    decreases order.len(),
{
    if order.len() == 0 || total <= budget {
    } else {
        let i = order[0] as int;
        let rest = order.drop_first();
        assert(!rest.contains(j as usize)) by {
            if rest.contains(j as usize) {
                let w = choose|w: int| 0 <= w < rest.len() && rest[w] == j as usize;
                assert(order[w + 1] == j as usize);
            }
        }
        assert(order[0] != j as usize);
        if !(0 <= i < p.len()) || p[i] == 0 {
            lemma_apply_cuts_frame(p, rest, total, budget, j);
        } else {
            let len = p[i] as int;
            let over = total - budget;
            let cut = if len <= over {
                len
            } else {
                over
            };
            lemma_apply_cuts_frame(p.update(i, (len - cut) as usize), rest, total - cut, budget, j);
        }
    }
}

/// After the greedy pass either the total fits the budget, or every block
/// named in the order has been cut to nothing.
proof fn lemma_apply_cuts_outcome(p: Seq<usize>, order: Seq<usize>, total: int, budget: int)
    requires
        total == total_of(p),
        budget >= 0,
    ensures
        total_of(apply_cuts(p, order, total, budget)) <= budget || forall|w: int|
            0 <= w < order.len() && order[w] < p.len() ==> #[trigger] apply_cuts(p, order, total, budget)[order[w] as int] == 0,
    decreases order.len(),
{
    lemma_apply_cuts_bounded(p, order, total, budget);
    if order.len() == 0 || total <= budget {
    } else {
        let i = order[0] as int;
        let rest = order.drop_first();
        let r = apply_cuts(p, order, total, budget);
        if !(0 <= i < p.len()) || p[i] == 0 {
            lemma_apply_cuts_outcome(p, rest, total, budget);
            assert(r == apply_cuts(p, rest, total, budget));
            if total_of(r) > budget {
                assert forall|w: int| 0 <= w < order.len() && order[w] < p.len() implies #[trigger] r[order[w] as int]
                    == 0 by {
                    if w > 0 {
                        assert(order[w] == rest[w - 1]);
                    } else {
                        assert(r[i] <= p[i]);
                    }
                }
            }
        } else {
            let len = p[i] as int;
            let over = total - budget;
            let cut = if len <= over {
                len
            } else {
                over
            };
            let p1 = p.update(i, (len - cut) as usize);
            lemma_total_update(p, i, (len - cut) as usize);
            lemma_apply_cuts_outcome(p1, rest, total - cut, budget);
            lemma_apply_cuts_bounded(p1, rest, total - cut, budget);
            assert(r == apply_cuts(p1, rest, total - cut, budget));
            if total_of(r) > budget {
                if cut == over {
                    assert(r == p1);
                }
                assert forall|w: int| 0 <= w < order.len() && order[w] < p.len() implies #[trigger] r[order[w] as int]
                    == 0 by {
                    if w > 0 {
                        assert(order[w] == rest[w - 1]);
                    } else {
                        assert(r[i] <= p1[i]);
                    }
                }
            }
        }
    }
}

proof fn lemma_non_core_members(blocks: Seq<ContextBlock>)
    requires
        blocks.len() <= usize::MAX,
    ensures
        forall|j: int| 0 <= j < blocks.len() && !blocks[j].core ==> non_core_indices(blocks).contains(j as usize),
        forall|w: int| 0 <= w < non_core_indices(blocks).len() ==> !blocks[#[trigger] non_core_indices(blocks)[w] as int].core,
    decreases blocks.len(),
{
    lemma_non_core_in_range(blocks);
    if blocks.len() > 0 {
        let prev = non_core_indices(blocks.drop_last());
        lemma_non_core_members(blocks.drop_last());
        lemma_non_core_in_range(blocks.drop_last());
        assert forall|j: int| 0 <= j < blocks.len() && !blocks[j].core implies non_core_indices(blocks).contains(
            j as usize,
        ) by {
            if j < blocks.len() - 1 {
                assert(blocks.drop_last()[j] == blocks[j]);
                let w = choose|w: int| 0 <= w < prev.len() && prev[w] == j as usize;
                assert(non_core_indices(blocks)[w] == j as usize);
            } else {
                assert(non_core_indices(blocks).last() == j as usize);
            }
        }
        assert forall|w: int| 0 <= w < non_core_indices(blocks).len() implies !blocks[#[trigger] non_core_indices(
            blocks,
        )[w] as int].core by {
            if w < prev.len() {
                assert(non_core_indices(blocks)[w] == prev[w]);
                assert(prev[w] < blocks.len() - 1);
                assert(!blocks.drop_last()[prev[w] as int].core);
                assert(blocks.drop_last()[prev[w] as int] == blocks[prev[w] as int]);
            } else {
                assert(non_core_indices(blocks)[w] == (blocks.len() - 1) as usize);
                assert(!blocks.last().core);
            }
        }
    }
}

proof fn lemma_cut_order_members(p: Seq<usize>, cands: Seq<usize>)
    ensures
        forall|x: usize| cands.contains(x) <==> cut_order(p, cands).contains(x),
    decreases cands.len(),
{
    if cands.len() > 0 {
        lemma_best_pos_range(p, cands);
        let k = best_pos(p, cands);
        let rest = cands.remove(k);
        lemma_cut_order_members(p, rest);
        let c = cut_order(p, cands);
        assert(c == seq![cands[k]] + cut_order(p, rest));
        assert forall|x: usize| cands.contains(x) implies c.contains(x) by {
            let w = choose|w: int| 0 <= w < cands.len() && cands[w] == x;
            if w == k {
                assert(c[0] == x);
            } else {
                let w2 = if w < k {
                    w
                } else {
                    w - 1
                };
                assert(rest[w2] == x);
                assert(rest.contains(x));
                let v = choose|v: int| 0 <= v < cut_order(p, rest).len() && cut_order(p, rest)[v] == x;
                assert(c[v + 1] == x);
            }
        }
        assert forall|x: usize| c.contains(x) implies cands.contains(x) by {
            let v = choose|v: int| 0 <= v < c.len() && c[v] == x;
            if v == 0 {
                assert(cands[k] == x);
            } else {
                assert(cut_order(p, rest)[v - 1] == x);
                assert(cut_order(p, rest).contains(x));
                assert(rest.contains(x));
                let w = choose|w: int| 0 <= w < rest.len() && rest[w] == x;
                if w < k {
                    assert(cands[w] == x);
                } else {
                    assert(cands[w + 1] == x);
                }
            }
        }
    }
}

/// The capped lengths with every non-core block at zero.
pub open spec fn core_plan(blocks: Seq<ContextBlock>) -> Seq<usize> {
    Seq::new(blocks.len(), |i: int| if blocks[i].core {
        initial_plan(blocks)[i]
    } else {
        0usize
    })
}

/// Core blocks are never cut by the total-budget pass: they keep their
/// capped length; no block grows past its capped length.
pub proof fn core_blocks_are_never_cut(blocks: Seq<ContextBlock>, budget: nat)
    requires
        blocks.len() <= usize::MAX,
    ensures
        plan_lengths(blocks, budget).len() == blocks.len(),
        forall|i: int| 0 <= i < blocks.len() && blocks[i].core ==> #[trigger] plan_lengths(blocks, budget)[i]
            == initial_plan(blocks)[i],
        forall|i: int| 0 <= i < blocks.len() ==> #[trigger] plan_lengths(blocks, budget)[i] <= initial_plan(blocks)[i],
{
    let p = initial_plan(blocks);
    let cands = non_core_indices(blocks);
    let order = cut_order(p, cands);
    lemma_apply_cuts_bounded(p, order, total_of(p) as int, budget as int);
    lemma_non_core_members(blocks);
    lemma_cut_order_members(p, cands);
    assert forall|i: int| 0 <= i < blocks.len() && blocks[i].core implies #[trigger] plan_lengths(blocks, budget)[i]
        == initial_plan(blocks)[i] by {
        if order.contains(i as usize) {
            assert(cands.contains(i as usize));
            let w = choose|w: int| 0 <= w < cands.len() && cands[w] == i as usize;
            assert(!blocks[cands[w] as int].core);
            assert(cands[w] as int == i);
        }
        lemma_apply_cuts_frame(p, order, total_of(p) as int, budget as int, i);
    }
}

/// Within budget nothing is cut: every block keeps its capped length.
pub proof fn nothing_is_cut_within_budget(blocks: Seq<ContextBlock>, budget: nat)
    requires
        total_of(initial_plan(blocks)) <= budget,
    ensures
        plan_lengths(blocks, budget) == initial_plan(blocks),
{
    let p = initial_plan(blocks);
    if cut_order(p, non_core_indices(blocks)).len() > 0 {
    }
}

/// The assembled total respects the budget, unless the core blocks alone
/// exceed it, in which case every non-core block is cut to nothing.
pub proof fn budget_is_met_unless_core_exceeds(blocks: Seq<ContextBlock>, budget: nat)
    requires
        blocks.len() <= usize::MAX,
    ensures
        total_of(plan_lengths(blocks, budget)) <= budget || plan_lengths(blocks, budget) == core_plan(blocks),
{
    let p = initial_plan(blocks);
    let cands = non_core_indices(blocks);
    let order = cut_order(p, cands);
    let r = plan_lengths(blocks, budget);
    core_blocks_are_never_cut(blocks, budget);
    lemma_apply_cuts_outcome(p, order, total_of(p) as int, budget as int);
    if total_of(r) > budget {
        lemma_non_core_members(blocks);
        lemma_cut_order_members(p, cands);
        assert forall|i: int| 0 <= i < blocks.len() implies #[trigger] r[i] == core_plan(blocks)[i] by {
            if !blocks[i].core {
                assert(cands.contains(i as usize));
                assert(order.contains(i as usize));
                lemma_non_core_in_range(blocks);
                lemma_cut_order_in_range(p, cands, blocks.len() as int);
                let w = choose|w: int| 0 <= w < order.len() && order[w] == i as usize;
                assert(r[order[w] as int] == 0);
            }
        }
        assert(r =~= core_plan(blocks));
    }
}

// ---------------------------------------------------------------------------
// Progressive catalog
// ---------------------------------------------------------------------------

/// Catalog entry: a topic-level summary.
#[derive(Debug, Clone, PartialEq, Eq)]
pub struct CatalogEntry {
    /// Topic name.
    pub topic: String,
    /// One-line summary (typically a representative memory).
    pub summary: String,
    /// Number of items under this topic.
    pub count: usize,
}

impl CatalogEntry {
    /// A catalog entry.
    pub fn new(topic: &str, summary: &str, count: usize) -> (e: Self)
        ensures
            e.topic@ == topic@,
            e.summary@ == summary@,
            e.count == count,
    {
        CatalogEntry { topic: topic.to_owned(), summary: summary.to_owned(), count }
    }
}

/// The catalog line of an entry: `- topic: summary (N条)`.
pub open spec fn entry_line(e: CatalogEntry) -> Seq<char> {
    "- "@ + e.topic@ + ": "@ + e.summary@ + " ("@ + decimal(e.count as nat) + "条)"@
}

/// The note closing a catalog that left `n` topics out.
pub open spec fn omitted_note(n: nat) -> Seq<char> {
    "…另有 "@ + decimal(n) + " 个主题未展开 (目录预算内)"@
}

/// One pass over the catalog lines: `(kept lines, characters used, omitted
/// count)`. A line is kept when it fits the remaining budget, or when nothing
/// has been kept yet.
pub open spec fn catalog_pass(lines: Seq<Seq<char>>, budget: nat) -> (Seq<Seq<char>>, nat, nat)
    decreases lines.len(),
{
    if lines.len() == 0 {
        (seq![], 0, 0)
    } else {
        let prev = catalog_pass(lines.drop_last(), budget);
        let line = lines.last();
        if prev.1 + line.len() > budget && prev.0.len() > 0 {
            (prev.0, prev.1, prev.2 + 1)
        } else {
            (prev.0.push(line), prev.1 + line.len(), prev.2)
        }
    }
}

/// Lines joined with `\n`.
pub open spec fn join_lines(lines: Seq<Seq<char>>) -> Seq<char>
    decreases lines.len(),
{
    if lines.len() == 0 {
        seq![]
    } else if lines.len() == 1 {
        lines[0]
    } else {
        join_lines(lines.drop_last()) + seq!['\n'] + lines.last()
    }
}

/// The catalog block of `entries` under `budget`.
pub open spec fn catalog_block(entries: Seq<CatalogEntry>, budget: nat) -> Seq<char> {
    let pass = catalog_pass(entries.map_values(|e: CatalogEntry| entry_line(e)), budget);
    join_lines(
        if pass.2 > 0 {
            pass.0.push(omitted_note(pass.2))
        } else {
            pass.0
        },
    )
}

/// The expansion of one entry.
pub open spec fn expand_text(e: CatalogEntry) -> Seq<char> {
    "## "@ + e.topic@ + "\n"@ + e.summary@ + "\n(共 "@ + decimal(e.count as nat)
        + " 条, 详情条目由调用方按需从记忆检索 — 本模块不假装已拉取)"@
}

/// Progressive-disclosure catalog: directory first, expansion on demand.
/// It does not fetch memory items: [`ProgressiveCatalog::expand`] returns the
/// topic summary with a note that details come from the caller.
#[derive(Debug, Clone)]
pub struct ProgressiveCatalog {
    entries: Vec<CatalogEntry>,
    /// Catalog-block budget in characters (a token is taken as two characters).
    pub catalog_budget_chars: usize,
}

fn entry_line_of(e: &CatalogEntry) -> (s: String)
    ensures
        s@ == entry_line(*e),
{
    let mut s = String::from_str("- ");
    push_str(&mut s, e.topic.as_str());
    push_str(&mut s, ": ");
    push_str(&mut s, e.summary.as_str());
    push_str(&mut s, " (");
    push_decimal(&mut s, e.count as u64);
    push_str(&mut s, "条)");
    s
}

fn join_exec(lines: &Vec<String>) -> (s: String)
    ensures
        s@ == join_lines(lines@.map_values(|l: String| l@)),
{
    let ghost ls = lines@.map_values(|l: String| l@);
    let mut s = String::new();
    let mut i: usize = 0;
    while i < lines.len()
        invariant
            i <= lines@.len(),
            ls == lines@.map_values(|l: String| l@),
            s@ == join_lines(ls.take(i as int)),
        decreases lines@.len() - i,
    {
        assert(ls.take(i as int + 1).drop_last() =~= ls.take(i as int));
        if i > 0 {
            push_char(&mut s, '\n');
        } else {
            assert(ls.take(0) =~= Seq::<Seq<char>>::empty());
        }
        push_str(&mut s, lines[i].as_str());
        i = i + 1;
    }
    assert(ls.take(i as int) =~= ls);
    s
}

impl ProgressiveCatalog {
    /// The entries, in order.
    pub closed spec fn spec_entries(&self) -> Seq<CatalogEntry> {
        self.entries@
    }

    /// The catalog-block budget.
    pub closed spec fn spec_budget(&self) -> usize {
        self.catalog_budget_chars
    }

    /// A catalog with the default budget (about 800 tokens, 1600 characters).
    pub fn new(entries: Vec<CatalogEntry>) -> (c: Self)
        ensures
            c.spec_entries() == entries@,
            c.spec_budget() == 1600,
    {
        ProgressiveCatalog { entries, catalog_budget_chars: 1600 }
    }

    /// The same catalog with another character budget.
    pub fn with_budget(self, chars: usize) -> (c: Self)
        ensures
            c.spec_entries() == self.spec_entries(),
            c.spec_budget() == chars,
    {
        let mut c = self;
        c.catalog_budget_chars = chars;
        c
    }

    /// The catalog block: `- topic: summary (N条)` lines within the budget,
    /// the first line always kept, and a closing note counting the topics
    /// left out, never a silent drop.
    pub fn block(&self) -> (s: String)
        ensures
            s@ == catalog_block(self.spec_entries(), self.spec_budget() as nat),
    {
        let budget = self.catalog_budget_chars;
        let ghost ls = self.entries@.map_values(|e: CatalogEntry| entry_line(e));
        let mut lines: Vec<String> = Vec::new();
        let mut used: usize = 0;
        let mut omitted: usize = 0;
        let mut i: usize = 0;
        while i < self.entries.len()
            invariant
                i <= self.entries@.len(),
                ls == self.entries@.map_values(|e: CatalogEntry| entry_line(e)),
                budget == self.catalog_budget_chars,
                lines@.map_values(|l: String| l@) == catalog_pass(ls.take(i as int), budget as nat).0,
                used == catalog_pass(ls.take(i as int), budget as nat).1,
                omitted == catalog_pass(ls.take(i as int), budget as nat).2,
                lines@.len() == 0 ==> used == 0,
                omitted <= i,
            decreases self.entries@.len() - i,
        {
            assert(ls.take(i as int + 1).drop_last() =~= ls.take(i as int));
            let line = entry_line_of(&self.entries[i]);
            let cost = line.as_str().unicode_len();
            if lines.len() > 0 && (used > budget || cost > budget - used) {
                omitted = omitted + 1;
            } else {
                let ghost before = lines@;
                lines.push(line);
                used = used + cost;
                proof {
                    assert(lines@.map_values(|l: String| l@) =~= before.map_values(|l: String| l@).push(
                        ls[i as int],
                    ));
                }
            }
            i = i + 1;
        }
        assert(ls.take(i as int) =~= ls);
        if omitted > 0 {
            let mut note = String::from_str("…另有 ");
            push_decimal(&mut note, omitted as u64);
            push_str(&mut note, " 个主题未展开 (目录预算内)");
            let ghost before = lines@;
            lines.push(note);
            proof {
                assert(lines@.map_values(|l: String| l@) =~= before.map_values(|l: String| l@).push(
                    omitted_note(omitted as nat),
                ));
            }
        }
        join_exec(&lines)
    }

    /// On-demand expansion of the first entry with the given topic: topic,
    /// summary and count, and a note that the items themselves come from the
    /// caller.
    pub fn expand(&self, topic: &str) -> (r: Option<String>)
        ensures
            r is None <==> forall|i: int| 0 <= i < self.spec_entries().len() ==> self.spec_entries()[i].topic@ != topic@,
            r matches Some(t) ==> exists|i: int|
                0 <= i < self.spec_entries().len() && self.spec_entries()[i].topic@ == topic@ && (forall|j: int|
                    0 <= j < i ==> self.spec_entries()[j].topic@ != topic@) && t@ == expand_text(
                    self.spec_entries()[i],
                ),
    {
        let mut i: usize = 0;
        while i < self.entries.len() && !str_eq(self.entries[i].topic.as_str(), topic)
            invariant
                i <= self.entries@.len(),
                forall|j: int| 0 <= j < i ==> self.entries@[j].topic@ != topic@,
            decreases self.entries@.len() - i,
        {
            i = i + 1;
        }
        if i == self.entries.len() {
            assert(forall|j: int| 0 <= j < self.spec_entries().len() ==> self.spec_entries()[j].topic@ != topic@);
            return None;
        }
        let e = &self.entries[i];
        let mut s = String::from_str("## ");
        push_str(&mut s, e.topic.as_str());
        push_str(&mut s, "\n");
        push_str(&mut s, e.summary.as_str());
        push_str(&mut s, "\n(共 ");
        push_decimal(&mut s, e.count as u64);
        push_str(&mut s, " 条, 详情条目由调用方按需从记忆检索 — 本模块不假装已拉取)");
        proof {
            assert(s@ =~= expand_text(self.spec_entries()[i as int]));
            assert(self.spec_entries()[i as int].topic@ == topic@);
            assert(forall|j: int| 0 <= j < i ==> self.spec_entries()[j].topic@ != topic@);
        }
        Some(s)
    }

    /// How many topics the catalog block actually shows: each topic line is
    /// kept when it fits what the kept lines leave of the budget (the first
    /// always), and a line that does not fit is skipped, not the end.
    pub fn fit_count(&self) -> (n: usize)
        ensures
            n == catalog_pass(
                self.spec_entries().map_values(|e: CatalogEntry| entry_line(e)),
                self.spec_budget() as nat,
            ).0.len(),
    {
        let budget = self.catalog_budget_chars;
        let ghost ls = self.entries@.map_values(|e: CatalogEntry| entry_line(e));
        let mut used: usize = 0;
        let mut n: usize = 0;
        let mut i: usize = 0;
        while i < self.entries.len()
            invariant
                i <= self.entries@.len(),
                ls == self.entries@.map_values(|e: CatalogEntry| entry_line(e)),
                budget == self.catalog_budget_chars,
                n == catalog_pass(ls.take(i as int), budget as nat).0.len(),
                used == catalog_pass(ls.take(i as int), budget as nat).1,
                n == 0 ==> used == 0,
                n <= i,
            decreases self.entries@.len() - i,
        {
            proof {
                assert(ls.take(i as int + 1).drop_last() =~= ls.take(i as int));
                assert(ls.take(i as int + 1).last() == ls[i as int]);
            }
            let line = entry_line_of(&self.entries[i]);
            let cost = line.as_str().unicode_len();
            proof {
                assert(line@ == ls[i as int]);
            }
            if !(n > 0 && (used > budget || cost > budget - used)) {
                used = used + cost;
                n = n + 1;
            }
            i = i + 1;
        }
        proof {
            assert(ls.take(i as int) =~= ls);
        }
        n
    }

    /// Number of registered topics.
    pub fn len(&self) -> (n: usize)
        ensures
            n == self.spec_entries().len(),
    {
        self.entries.len()
    }

    /// Whether the catalog has no topics.
    pub fn is_empty(&self) -> (b: bool)
        ensures
            b == (self.spec_entries().len() == 0),
    {
        self.entries.len() == 0
    }
}

} // verus!
