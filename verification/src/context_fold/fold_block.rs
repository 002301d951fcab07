//! Fold blocks: graded reveal of a document by line markers.
//!
//! A document is cut at marker lines `[===vcp_fold:threshold===]` (or
//! `[===vcp_fold:threshold::desc:description===]`). Each block keeps the
//! threshold text of its marker; text before the first marker is a preamble
//! block without one (always shown). A marker whose threshold does not read
//! as a number is ordinary content. Rendering joins the bodies of the blocks
//! chosen for display and names how many stay folded away; which blocks a
//! similarity reveals is decided on the thresholds as numbers, outside this
//! module.

use vstd::prelude::*;
use crate::text::{
    chars_of, decimal, find_chars, first_occurrence, lines_of, occurs_at, occurs_at_exec, push_char, push_decimal,
    push_str, string_from_chars, text_lines,
};
use crate::cron::{trim, trimmed};
use crate::compaction_checkpoint::stream::join_with;

verus! {

broadcast use vstd::string::group_string_axioms;

/// Line-marker prefix (compared after trimming).
pub const FOLD_MARKER_PREFIX: &'static str = "[===";

/// Line-marker suffix.
pub const FOLD_MARKER_SUFFIX: &'static str = "===]";

/// Protocol field inside the marker.
pub const FOLD_FIELD: &'static str = "vcp_fold:";

/// Separator of the description field.
pub const FOLD_DESC_SEP: &'static str = "::desc:";

/// ASCII letters in lower case, other characters unchanged.
pub open spec fn lower(c: char) -> char {
    if 'A' <= c <= 'Z' {
        ((c as u32) + 32) as char
    } else {
        c
    }
}

pub open spec fn is_digit(c: char) -> bool {
    '0' <= c <= '9'
}

pub open spec fn all_digits(s: Seq<char>) -> bool {
    forall|i: int| 0 <= i < s.len() ==> is_digit(#[trigger] s[i])
}

/// `s` without one leading sign.
pub open spec fn unsigned(s: Seq<char>) -> Seq<char> {
    if s.len() > 0 && (s[0] == '+' || s[0] == '-') {
        s.drop_first()
    } else {
        s
    }
}

/// Digits with at most one decimal point, at least one digit.
pub open spec fn mantissa(m: Seq<char>) -> bool {
    let p = first_occurrence(m, seq!['.']);
    if p < 0 {
        m.len() > 0 && all_digits(m)
    } else {
        m.len() > 1 && all_digits(m.take(p)) && all_digits(m.skip(p + 1))
    }
}

/// A decimal number with an optional exponent, already lower-cased and
/// without its sign.
pub open spec fn number_literal(t: Seq<char>) -> bool {
    let e = first_occurrence(t, seq!['e']);
    if e < 0 {
        mantissa(t)
    } else {
        mantissa(t.take(e)) && unsigned(t.skip(e + 1)).len() > 0 && all_digits(unsigned(t.skip(e + 1)))
    }
}

/// The text of a number as the standard library's float parsing accepts
/// it: after lower-casing and one optional sign, `inf`, `infinity`, `nan`,
/// or digits with at most one point (at least one digit) and an optional
/// exponent `e`, optionally signed, with digits.
pub open spec fn float_literal(s: Seq<char>) -> bool {
    let t = unsigned(s.map_values(|c: char| lower(c)));
    t == "inf"@ || t == "infinity"@ || t == "nan"@ || number_literal(t)
}

fn lower_char(c: char) -> (r: char)
    ensures
        r == lower(c),
{
    if 'A' <= c && c <= 'Z' {
        let b = (c as u8) + 32;
        b as char
    } else {
        c
    }
}

fn digits_only(s: &[char]) -> (b: bool)
    ensures
        b == all_digits(s@),
{
    let mut i: usize = 0;
    while i < s.len()
        invariant
            i <= s@.len(),
            forall|j: int| 0 <= j < i ==> is_digit(#[trigger] s@[j]),
        decreases s@.len() - i,
    {
        if !('0' <= s[i] && s[i] <= '9') {
            return false;
        }
        i = i + 1;
    }
    true
}

fn without_sign(s: &[char]) -> (r: &[char])
    ensures
        r@ == unsigned(s@),
{
    if s.len() > 0 && (s[0] == '+' || s[0] == '-') {
        let r = &s[1..s.len()];
        proof {
            assert(r@ =~= s@.drop_first());
        }
        r
    } else {
        s
    }
}

fn is_mantissa(m: &[char]) -> (b: bool)
    ensures
        b == mantissa(m@),
{
    let n = m.len();
    let dot = vec!['.'];
    proof {
        assert(dot@ =~= seq!['.']);
    }
    match find_chars(m, dot.as_slice()) {
        None => m.len() > 0 && digits_only(m),
        Some(p) => {
            let head = &m[0..p];
            let tail = &m[p + 1..n];
            proof {
                assert(head@ =~= m@.take(p as int));
                assert(tail@ =~= m@.skip(p + 1));
            }
            m.len() > 1 && digits_only(head) && digits_only(tail)
        },
    }
}

fn is_float_literal(s: &str) -> (b: bool)
    ensures
        b == float_literal(s@),
{
    let cs = chars_of(s);
    let mut low: Vec<char> = Vec::new();
    let mut i: usize = 0;
    while i < cs.len()
        invariant
            cs@ == s@,
            i <= cs@.len(),
            low@ == cs@.take(i as int).map_values(|c: char| lower(c)),
        decreases cs@.len() - i,
    {
        low.push(lower_char(cs[i]));
        proof {
            assert(cs@.take(i + 1).map_values(|c: char| lower(c)) =~= cs@.take(i as int).map_values(
                |c: char| lower(c),
            ).push(lower(cs@[i as int])));
        }
        i = i + 1;
    }
    proof {
        assert(cs@.take(cs@.len() as int) =~= cs@);
    }
    let t = without_sign(low.as_slice());
    let inf = chars_of("inf");
    let infinity = chars_of("infinity");
    let nan = chars_of("nan");
    if crate::text::chars_eq(t, inf.as_slice()) || crate::text::chars_eq(t, infinity.as_slice())
        || crate::text::chars_eq(t, nan.as_slice()) {
        return true;
    }
    let e = vec!['e'];
    proof {
        assert(e@ =~= seq!['e']);
    }
    match find_chars(t, e.as_slice()) {
        None => is_mantissa(t),
        Some(p) => {
            let head = &t[0..p];
            let exp = &t[p + 1..t.len()];
            proof {
                assert(head@ =~= t@.take(p as int));
                assert(exp@ =~= t@.skip(p + 1));
            }
            let digits = without_sign(exp);
            is_mantissa(head) && digits.len() > 0 && digits_only(digits)
        },
    }
}

/// The threshold text and description of a marker line, or `None` for an
/// ordinary line.
pub open spec fn marker_of(line: Seq<char>) -> Option<(Seq<char>, Seq<char>)> {
    let t = trim(line);
    let pre = FOLD_MARKER_PREFIX@;
    let suf = FOLD_MARKER_SUFFIX@;
    let field = FOLD_FIELD@;
    let sep = FOLD_DESC_SEP@;
    if !occurs_at(t, pre, 0) {
        None
    } else {
        let after = t.skip(pre.len() as int);
        if !occurs_at(after, suf, after.len() - suf.len()) {
            None
        } else {
            let rest = trim(after.take(after.len() - suf.len()));
            if !occurs_at(rest, field, 0) {
                None
            } else {
                let body = rest.skip(field.len() as int);
                let i = first_occurrence(body, sep);
                let th = if i >= 0 {
                    trim(body.take(i))
                } else {
                    trim(body)
                };
                let desc = if i >= 0 {
                    trim(body.skip(i + sep.len()))
                } else {
                    Seq::<char>::empty()
                };
                if float_literal(th) {
                    Some((th, desc))
                } else {
                    None
                }
            }
        }
    }
}

fn marker_line(line: &str) -> (r: Option<(String, String)>)
    ensures
        match marker_of(line@) {
            None => r is None,
            Some((th, desc)) => r is Some && r->Some_0.0@ == th && r->Some_0.1@ == desc,
        },
{
    let cs = chars_of(line);
    let t = trimmed(cs.as_slice());
    let pre = chars_of(FOLD_MARKER_PREFIX);
    if pre.len() > t.len() || !occurs_at_exec(t.as_slice(), pre.as_slice(), 0) {
        return None;
    }
    let after = &t.as_slice()[pre.len()..t.len()];
    proof {
        assert(after@ =~= t@.skip(pre@.len() as int));
    }
    let suf = chars_of(FOLD_MARKER_SUFFIX);
    if suf.len() > after.len() || !occurs_at_exec(after, suf.as_slice(), after.len() - suf.len()) {
        return None;
    }
    let inner = &after[0..after.len() - suf.len()];
    proof {
        assert(inner@ =~= after@.take(after@.len() - suf@.len()));
    }
    let rest = trimmed(inner);
    let field = chars_of(FOLD_FIELD);
    if field.len() > rest.len() || !occurs_at_exec(rest.as_slice(), field.as_slice(), 0) {
        return None;
    }
    let body = &rest.as_slice()[field.len()..rest.len()];
    proof {
        assert(body@ =~= rest@.skip(field@.len() as int));
    }
    let sep = chars_of(FOLD_DESC_SEP);
    let (th, desc) = match find_chars(body, sep.as_slice()) {
        Some(i) => {
            let head = &body[0..i];
            let tail = &body[i + sep.len()..body.len()];
            proof {
                assert(head@ =~= body@.take(i as int));
                assert(tail@ =~= body@.skip(i + sep@.len()));
            }
            (trimmed(head), trimmed(tail))
        },
        None => (trimmed(body), Vec::new()),
    };
    let th_text = string_from_chars(th.as_slice());
    if !is_float_literal(th_text.as_str()) {
        return None;
    }
    Some((th_text, string_from_chars(desc.as_slice())))
}

/// Whether any line of the document is a fold marker.
pub fn has_fold_markers(content: &str) -> (b: bool)
    ensures
        b == exists|i: int| 0 <= i < text_lines(content@).len() && #[trigger] marker_of(text_lines(content@)[i]) is Some,
{
    let lines = lines_of(content);
    let ghost ls = text_lines(content@);
    let mut i: usize = 0;
    while i < lines.len()
        invariant
            lines@.map_values(|l: String| l@) == ls,
            ls == text_lines(content@),
            i <= ls.len(),
            forall|j: int| 0 <= j < i ==> #[trigger] marker_of(ls[j]) is None,
        decreases ls.len() - i,
    {
        proof {
            assert(lines@[i as int]@ == ls[i as int]);
        }
        if marker_line(lines[i].as_str()).is_some() {
            return true;
        }
        i = i + 1;
    }
    false
}

/// One block: the threshold text of its marker (`None` for the preamble
/// before the first marker), its description, and its trimmed body.
#[derive(Debug, Clone, PartialEq, Eq)]
pub struct FoldBlock {
    pub threshold: Option<String>,
    pub description: String,
    pub content: String,
}

pub type BlockView = (Option<Seq<char>>, Seq<char>, Seq<char>);

impl View for FoldBlock {
    type V = BlockView;

    open spec fn view(&self) -> BlockView {
        (
            match self.threshold {
                Some(t) => Some(t@),
                None => None,
            },
            self.description@,
            self.content@,
        )
    }
}

/// The cut in progress: blocks so far, the open block's threshold and
/// description, its lines, and whether a marker was seen.
pub type CutState = (Seq<BlockView>, Option<Seq<char>>, Seq<char>, Seq<Seq<char>>, bool);

/// The blocks with the open block closed, when it holds anything or was opened by a marker.
pub open spec fn flushed(st: CutState) -> Seq<BlockView> {
    if st.4 || st.3.len() > 0 {
        st.0.push((st.1, st.2, trim(join_with(st.3, seq!['\n']))))
    } else {
        st.0
    }
}

/// The cut after the given lines.
pub open spec fn cut_lines(ls: Seq<Seq<char>>) -> CutState
    decreases ls.len(),
{
    if ls.len() == 0 {
        (seq![], None, seq![], seq![], false)
    } else {
        let st = cut_lines(ls.drop_last());
        match marker_of(ls.last()) {
            Some((th, desc)) => (flushed(st), Some(th), desc, seq![], true),
            None => (st.0, st.1, st.2, st.3.push(ls.last()), st.4),
        }
    }
}

/// The blocks of a document.
pub open spec fn blocks_of(content: Seq<char>) -> Seq<BlockView> {
    flushed(cut_lines(text_lines(content)))
}

fn join_lines(buf: &Vec<String>) -> (s: String)
    ensures
        s@ == join_with(buf@.map_values(|l: String| l@), seq!['\n']),
{
    let ghost ls = buf@.map_values(|l: String| l@);
    let mut s = String::new();
    let mut i: usize = 0;
    while i < buf.len()
        invariant
            ls == buf@.map_values(|l: String| l@),
            i <= ls.len(),
            s@ == join_with(ls.take(i as int), seq!['\n']),
        decreases ls.len() - i,
    {
        proof {
            assert(ls.take(i + 1).drop_last() =~= ls.take(i as int));
            assert(ls.take(i + 1).last() == ls[i as int]);
        }
        if i > 0 {
            push_char(&mut s, '\n');
        } else {
            proof {
                assert(ls.take(1) =~= seq![ls[0]]);
            }
        }
        let ghost before = s@;
        push_str(&mut s, buf[i].as_str());
        proof {
            if i > 0 {
                assert(s@ =~= join_with(ls.take(i as int), seq!['\n']) + seq!['\n'] + ls[i as int]);
            } else {
                assert(s@ =~= ls[0]);
            }
        }
        i = i + 1;
    }
    proof {
        assert(ls.take(ls.len() as int) =~= ls);
    }
    s
}

fn close_block(
    blocks: &mut Vec<FoldBlock>,
    threshold: Option<String>,
    description: String,
    buf: &Vec<String>,
)
    ensures
        final(blocks)@.map_values(|b: FoldBlock| b@) == old(blocks)@.map_values(|b: FoldBlock| b@).push(
            (
                match threshold {
                    Some(t) => Some(t@),
                    None => None,
                },
                description@,
                trim(join_with(buf@.map_values(|l: String| l@), seq!['\n'])),
            ),
        ),
{
    let joined = join_lines(buf);
    let jc = chars_of(joined.as_str());
    let body = trimmed(jc.as_slice());
    let content = string_from_chars(body.as_slice());
    let ghost before = blocks@.map_values(|b: FoldBlock| b@);
    let block = FoldBlock { threshold, description, content };
    blocks.push(block);
    proof {
        assert(blocks@.map_values(|b: FoldBlock| b@) =~= before.push(block@));
    }
}

/// Cuts a document into blocks at its marker lines. Text before the first
/// marker is a preamble block without threshold; an empty document, or one
/// of no lines, gives no block.
pub fn parse_fold_blocks(content: &str) -> (r: Vec<FoldBlock>)
    ensures
        r@.map_values(|b: FoldBlock| b@) == blocks_of(content@),
{
    let lines = lines_of(content);
    let ghost ls = text_lines(content@);
    let mut blocks: Vec<FoldBlock> = Vec::new();
    let mut threshold: Option<String> = None;
    let mut description = String::new();
    let mut buf: Vec<String> = Vec::new();
    let mut opened = false;
    let mut i: usize = 0;
    while i < lines.len()
        invariant
            lines@.map_values(|l: String| l@) == ls,
            ls == text_lines(content@),
            i <= ls.len(),
            ({
                let st = cut_lines(ls.take(i as int));
                &&& blocks@.map_values(|b: FoldBlock| b@) == st.0
                &&& (match threshold {
                    Some(t) => Some(t@),
                    None => None,
                }) == st.1
                &&& description@ == st.2
                &&& buf@.map_values(|l: String| l@) == st.3
                &&& opened == st.4
            }),
        decreases ls.len() - i,
    {
        proof {
            assert(ls.take(i + 1).drop_last() =~= ls.take(i as int));
            assert(ls.take(i + 1).last() == ls[i as int]);
            assert(lines@[i as int]@ == ls[i as int]);
        }
        match marker_line(lines[i].as_str()) {
            Some((th, desc)) => {
                if opened || buf.len() > 0 {
                    let mut t: Option<String> = None;
                    std::mem::swap(&mut t, &mut threshold);
                    let mut d = String::new();
                    std::mem::swap(&mut d, &mut description);
                    close_block(&mut blocks, t, d, &buf);
                }
                threshold = Some(th);
                description = desc;
                buf = Vec::new();
                proof {
                    assert(buf@.map_values(|l: String| l@) =~= Seq::<Seq<char>>::empty());
                }
                opened = true;
            },
            None => {
                let ghost before = buf@.map_values(|l: String| l@);
                buf.push(lines[i].clone());
                proof {
                    assert(buf@.map_values(|l: String| l@) =~= before.push(ls[i as int]));
                }
            },
        }
        i = i + 1;
    }
    proof {
        assert(ls.take(ls.len() as int) =~= ls);
    }
    if opened || buf.len() > 0 {
        close_block(&mut blocks, threshold, description, &buf);
    }
    blocks
}

/// A render: the shown bodies (blank-line separated) and the folded-away
/// hint, with the counts of shown and hidden blocks.
#[derive(Debug, Clone, PartialEq, Eq)]
pub struct FoldBlockRender {
    pub rendered: String,
    pub expanded: usize,
    pub hidden: usize,
    pub stash_hint: String,
}

/// The hint for `hidden` folded-away blocks; empty when none is hidden.
pub open spec fn stash_hint_text(hidden: nat) -> Seq<char> {
    if hidden > 0 {
        "[已折叠] 还收纳了 "@ + decimal(hidden) + " 组内容 (相似度未达阈值)"@
    } else {
        seq![]
    }
}

/// The rendered text: shown bodies joined by a blank line, then the hint.
pub open spec fn rendered_text(shown: Seq<Seq<char>>, hint: Seq<char>) -> Seq<char> {
    let body = join_with(shown, "\n\n"@);
    if hint.len() == 0 {
        body
    } else if body.len() == 0 {
        hint
    } else {
        body + "\n\n"@ + hint
    }
}

/// Renders the blocks whose `shown` flag is set, in order, and names how
/// many stay hidden.
pub fn render_selected(blocks: &[FoldBlock], shown: &[bool]) -> (r: FoldBlockRender)
    requires
        shown@.len() == blocks@.len(),
    ensures
        ({
            let chosen = shown_contents(blocks@.map_values(|b: FoldBlock| b@), shown@);
            &&& r.expanded == chosen.len()
            &&& r.hidden == blocks@.len() - chosen.len()
            &&& r.stash_hint@ == stash_hint_text((blocks@.len() - chosen.len()) as nat)
            &&& r.rendered@ == rendered_text(chosen, stash_hint_text((blocks@.len() - chosen.len()) as nat))
        }),
{
    let ghost bv = blocks@.map_values(|b: FoldBlock| b@);
    let mut rendered = String::new();
    let mut expanded: usize = 0;
    let mut i: usize = 0;
    while i < blocks.len()
        invariant
            bv == blocks@.map_values(|b: FoldBlock| b@),
            shown@.len() == bv.len(),
            i <= bv.len(),
            expanded == shown_contents(bv.take(i as int), shown@.take(i as int)).len(),
            expanded <= i,
            rendered@ == join_with(shown_contents(bv.take(i as int), shown@.take(i as int)), "\n\n"@),
        decreases bv.len() - i,
    {
        proof {
            assert(bv.take(i + 1).drop_last() =~= bv.take(i as int));
            assert(shown@.take(i + 1).drop_last() =~= shown@.take(i as int));
            assert(bv.take(i + 1).last() == bv[i as int]);
            assert(shown@.take(i + 1).last() == shown@[i as int]);
        }
        if shown[i] {
            let ghost prev = shown_contents(bv.take(i as int), shown@.take(i as int));
            if expanded > 0 {
                push_str(&mut rendered, "\n\n");
            }
            push_str(&mut rendered, blocks[i].content.as_str());
            proof {
                let now = shown_contents(bv.take(i + 1), shown@.take(i + 1));
                assert(now == prev.push(bv[i as int].2));
                assert(now.drop_last() =~= prev);
                if prev.len() == 0 {
                    assert(rendered@ =~= bv[i as int].2);
                } else {
                    assert(rendered@ =~= join_with(prev, "\n\n"@) + "\n\n"@ + bv[i as int].2);
                }
            }
            expanded = expanded + 1;
        }
        i = i + 1;
    }
    proof {
        assert(bv.take(bv.len() as int) =~= bv);
        assert(shown@.take(shown@.len() as int) =~= shown@);
    }
    let hidden = blocks.len() - expanded;
    let mut stash_hint = String::new();
    if hidden > 0 {
        push_str(&mut stash_hint, "[已折叠] 还收纳了 ");
        push_decimal(&mut stash_hint, hidden as u64);
        push_str(&mut stash_hint, " 组内容 (相似度未达阈值)");
    }
    if !stash_hint.as_str().is_empty() {
        if !rendered.as_str().is_empty() {
            push_str(&mut rendered, "\n\n");
        }
        push_str(&mut rendered, stash_hint.as_str());
    }
    FoldBlockRender { rendered, expanded, hidden, stash_hint }
}

/// The bodies of the blocks whose flag is set, in order.
pub open spec fn shown_contents(bv: Seq<BlockView>, shown: Seq<bool>) -> Seq<Seq<char>>
    decreases bv.len(),
{
    if bv.len() == 0 || shown.len() != bv.len() {
        seq![]
    } else if shown.last() {
        shown_contents(bv.drop_last(), shown.drop_last()).push(bv.last().2)
    } else {
        shown_contents(bv.drop_last(), shown.drop_last())
    }
}

} // verus!
