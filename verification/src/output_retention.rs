//! UTF-8-safe truncation with graded omission wording.
//!
//! Every cut lands on a character boundary, and the omitted amount is
//! measured from what was actually kept, never derived from the budget.
//! Byte lengths are stated through [`byte_len`], the length of the UTF-8
//! encoding of a character sequence.

use vstd::prelude::*;
use vstd::string::StrSliceExecFns;
use vstd::utf8::{encode_utf8, encode_scalar, char_is_scalar};
use crate::text::{push_str, push_decimal, decimal};

verus! {

broadcast use {vstd::string::group_string_axioms, vstd::slice::group_slice_axioms};

/// Unit label of byte-measured omission counts.
pub const BYTE_UNIT: &'static str = "字节";

/// Number of bytes in the UTF-8 encoding of `c`.
pub open spec fn char_width(c: char) -> nat {
    if (c as u32) <= 0x7F {
        1
    } else if (c as u32) <= 0x7FF {
        2
    } else if (c as u32) <= 0xFFFF {
        3
    } else {
        4
    }
}

/// Number of bytes in the UTF-8 encoding of `s`.
pub open spec fn byte_len(s: Seq<char>) -> nat
    decreases s.len(),
{
    if s.len() == 0 {
        0
    } else {
        char_width(s[0]) + byte_len(s.drop_first())
    }
}

/// The encoding of `s` is [`byte_len`]`(s)` bytes long.
pub proof fn lemma_encoded_len(s: Seq<char>)
    ensures
        encode_utf8(s).len() == byte_len(s),
    decreases s.len(),
{
    if s.len() > 0 {
        char_is_scalar(s[0]);
        assert(encode_scalar(s[0] as u32).len() == char_width(s[0]));
        lemma_encoded_len(s.drop_first());
    }
}

/// Byte length is additive over concatenation.
pub proof fn lemma_byte_len_concat(a: Seq<char>, b: Seq<char>)
    ensures
        byte_len(a + b) == byte_len(a) + byte_len(b),
    decreases a.len(),
{
    if a.len() > 0 {
        assert((a + b).drop_first() =~= a.drop_first() + b);
        lemma_byte_len_concat(a.drop_first(), b);
    } else {
        assert(a + b =~= b);
    }
}

proof fn lemma_byte_len_push(s: Seq<char>, i: int)
    requires
        0 <= i < s.len(),
    ensures
        byte_len(s.take(i + 1)) == byte_len(s.take(i)) + char_width(s[i]),
{
    assert(s.take(i + 1) =~= s.take(i) + seq![s[i]]);
    lemma_byte_len_concat(s.take(i), seq![s[i]]);
    assert(seq![s[i]].drop_first() =~= Seq::<char>::empty());
    assert(byte_len(seq![s[i]].drop_first()) == 0);
    assert(byte_len(seq![s[i]]) == char_width(s[i]));
}

/// Byte length grows with the prefix.
pub proof fn lemma_byte_len_prefix_monotone(s: Seq<char>, i: int, j: int)
    requires
        0 <= i <= j <= s.len(),
    ensures
        byte_len(s.take(i)) <= byte_len(s.take(j)),
    decreases j - i,
{
    if i < j {
        lemma_byte_len_push(s, j - 1);
        lemma_byte_len_prefix_monotone(s, i, j - 1);
    }
}

fn char_width_exec(c: char) -> (w: usize)
    ensures
        w == char_width(c),
{
    let v = c as u32;
    if v <= 0x7F {
        1
    } else if v <= 0x7FF {
        2
    } else if v <= 0xFFFF {
        3
    } else {
        4
    }
}

/// Byte length of a string.
pub fn str_byte_len(s: &str) -> (n: usize)
    ensures
        n == byte_len(s@),
{
    proof {
        lemma_encoded_len(s@);
    }
    let b = s.as_bytes();
    b.len()
}

/// How much content an omission removed.
#[derive(Debug, Clone, Copy, PartialEq, Eq, Structural)]
pub enum OmittedHow {
    /// Nothing was omitted.
    Nothing,
    /// Exactly `count` units were omitted, as measured.
    Exact { count: usize },
    /// The omitted amount is not knowable here.
    Unknown,
}

/// Where the omitted content sat relative to what was kept.
#[derive(Debug, Clone, Copy, PartialEq, Eq, Structural)]
pub enum OmittedWhere {
    /// The kept parts bracket the omission.
    Middle,
    /// Everything after the kept prefix is gone.
    Tail,
}

/// The graded note: silent, exact, or a plain admission without a number.
pub open spec fn spec_omission_note(how: OmittedHow, where_: OmittedWhere, unit: Seq<char>) -> Seq<
    char,
> {
    match how {
        OmittedHow::Nothing => Seq::empty(),
        OmittedHow::Exact { count } => match where_ {
            OmittedWhere::Middle => "…[中间 "@ + decimal(count as nat) + " "@ + unit + "已省略]…"@,
            OmittedWhere::Tail => "…[尾部 "@ + decimal(count as nat) + " "@ + unit + "已省略]…"@,
        },
        OmittedHow::Unknown => "部分内容已省略"@,
    }
}

/// Graded omission note (no claim without an omission, no invented count).
pub fn omission_note(how: &OmittedHow, where_: OmittedWhere, unit: &str) -> (s: String)
    ensures
        s@ == spec_omission_note(*how, where_, unit@),
{
    match how {
        OmittedHow::Nothing => String::new(),
        OmittedHow::Exact { count } => {
            let mut s = match where_ {
                OmittedWhere::Middle => String::from_str("…[中间 "),
                OmittedWhere::Tail => String::from_str("…[尾部 "),
            };
            push_decimal(&mut s, *count as u64);
            push_str(&mut s, " ");
            push_str(&mut s, unit);
            push_str(&mut s, "已省略]…");
            s
        },
        OmittedHow::Unknown => String::from_str("部分内容已省略"),
    }
}

/// The outcome of one retention cut.
#[derive(Debug, Clone, PartialEq, Eq)]
pub struct RetainedOutput {
    /// What survives the cut.
    pub text: String,
    /// Graded omission accounting.
    pub omitted: OmittedHow,
}

impl RetainedOutput {
    /// Bytes actually retained.
    pub fn retained_bytes(&self) -> (n: usize)
        ensures
            n == byte_len(self.text@),
    {
        str_byte_len(self.text.as_str())
    }

    /// The graded note for this prefix cut, counted in bytes.
    pub fn note(&self) -> (s: String)
        ensures
            s@ == spec_omission_note(self.omitted, OmittedWhere::Tail, BYTE_UNIT@),
    {
        omission_note(&self.omitted, OmittedWhere::Tail, BYTE_UNIT)
    }

    /// The retained text, followed by its note on a line of its own when
    /// something was omitted.
    pub fn text_with_note(&self) -> (s: String)
        ensures
            ({
                let note = spec_omission_note(self.omitted, OmittedWhere::Tail, BYTE_UNIT@);
                s@ == if note.len() == 0 {
                    self.text@
                } else {
                    self.text@ + "\n"@ + note
                }
            }),
    {
        let note = self.note();
        if note.as_str().is_empty() {
            self.text.clone()
        } else {
            let mut s = self.text.clone();
            push_str(&mut s, "\n");
            push_str(&mut s, note.as_str());
            s
        }
    }
}

/// Number of leading characters of `s` that the largest prefix within
/// `budget` bytes keeps.
pub open spec fn kept_chars(s: Seq<char>, budget: int, k: int) -> bool {
    &&& 0 <= k <= s.len()
    &&& byte_len(s.take(k)) <= budget
    &&& k < s.len() ==> byte_len(s.take(k + 1)) > budget
}

/// Largest prefix of `content` that fits within `byte_budget` bytes, cut only
/// at a character boundary.
pub fn prefix_within_bytes(content: &str, byte_budget: usize) -> (r: &str)
    ensures
        exists|k: int| kept_chars(content@, byte_budget as int, k) && r@ == content@.take(k),
{
    let n = content.unicode_len();
    let cs = crate::text::chars_of(content);
    let mut used: usize = 0;
    let mut k: usize = 0;
    assert(content@.take(0) =~= Seq::<char>::empty());
    while k < n
        invariant
            n == content@.len(),
            cs@ == content@,
            k <= n,
            used == byte_len(content@.take(k as int)),
            used <= byte_budget,
        decreases n - k,
    {
        let w = char_width_exec(cs[k]);
        proof {
            lemma_byte_len_push(content@, k as int);
        }
        if w > byte_budget - used {
            assert(kept_chars(content@, byte_budget as int, k as int));
            let r = content.substring_char(0, k);
            assert(r@ =~= content@.take(k as int));
            return r;
        }
        used = used + w;
        k = k + 1;
    }
    assert(content@.take(n as int) =~= content@);
    assert(kept_chars(content@, byte_budget as int, n as int));
    content
}

/// Largest prefix of `content` holding `char_budget` characters.
pub fn prefix_within_chars(content: &str, char_budget: usize) -> (r: &str)
    ensures
        r@ == if char_budget < content@.len() {
            content@.take(char_budget as int)
        } else {
            content@
        },
{
    let n = content.unicode_len();
    if char_budget < n {
        content.substring_char(0, char_budget)
    } else {
        content
    }
}

/// Last `char_budget` characters of `content`.
pub fn suffix_within_chars(content: &str, char_budget: usize) -> (r: &str)
    ensures
        r@ == if char_budget < content@.len() {
            content@.skip(content@.len() - char_budget)
        } else {
            content@
        },
{
    let n = content.unicode_len();
    if char_budget >= n {
        return content;
    }
    let r = content.substring_char(n - char_budget, n);
    assert(r@ =~= content@.skip(content@.len() - char_budget));
    r
}

/// UTF-8-safe truncation of a complete source: the omitted count is the
/// number of bytes not kept.
pub fn retain_within_bytes(content: &str, byte_budget: usize) -> (out: RetainedOutput)
    ensures
        exists|k: int|
            kept_chars(content@, byte_budget as int, k) && out.text@ == content@.take(k) && out.omitted
                == if k == content@.len() {
                OmittedHow::Nothing
            } else {
                OmittedHow::Exact { count: (byte_len(content@) - byte_len(content@.take(k))) as usize }
            },
{
    let kept = prefix_within_bytes(content, byte_budget);
    let ghost k = choose|k: int| kept_chars(content@, byte_budget as int, k) && kept@ == content@.take(k);
    let kept_len = str_byte_len(kept);
    let total = str_byte_len(content);
    proof {
        lemma_byte_len_prefix_monotone(content@, k, content@.len() as int);
        assert(content@.take(content@.len() as int) =~= content@);
        if k < content@.len() {
            lemma_byte_len_prefix_monotone(content@, k + 1, content@.len() as int);
        }
    }
    if kept_len == total {
        assert(k == content@.len());
        return RetainedOutput { text: content.to_owned(), omitted: OmittedHow::Nothing };
    }
    RetainedOutput { text: kept.to_owned(), omitted: OmittedHow::Exact { count: total - kept_len } }
}

/// UTF-8-safe truncation of a source that is already a fragment: the cut is
/// the same, but the omission is graded `Unknown`.
pub fn retain_fragment_within_bytes(content: &str, byte_budget: usize) -> (out: RetainedOutput)
    ensures
        exists|k: int|
            kept_chars(content@, byte_budget as int, k) && out.text@ == content@.take(k) && out.omitted
                == if k == content@.len() {
                OmittedHow::Nothing
            } else {
                OmittedHow::Unknown
            },
{
    let kept = prefix_within_bytes(content, byte_budget);
    let ghost k = choose|k: int| kept_chars(content@, byte_budget as int, k) && kept@ == content@.take(k);
    let kept_len = str_byte_len(kept);
    let total = str_byte_len(content);
    proof {
        lemma_byte_len_prefix_monotone(content@, k, content@.len() as int);
        assert(content@.take(content@.len() as int) =~= content@);
        if k < content@.len() {
            lemma_byte_len_prefix_monotone(content@, k + 1, content@.len() as int);
        }
    }
    if kept_len == total {
        return RetainedOutput { text: content.to_owned(), omitted: OmittedHow::Nothing };
    }
    RetainedOutput { text: kept.to_owned(), omitted: OmittedHow::Unknown }
}

/// The kept prefix is the longest one within budget: it fits, and one more
/// character would not. Nothing is omitted exactly when the whole text fits.
pub proof fn retention_cut_is_maximal(s: Seq<char>, budget: int, k: int)
    requires
        kept_chars(s, budget, k),
    ensures
        byte_len(s.take(k)) <= budget,
        forall|j: int| k < j <= s.len() ==> byte_len(s.take(j)) > budget,
        (k == s.len()) <==> byte_len(s) <= budget,
{
    assert forall|j: int| k < j <= s.len() implies byte_len(s.take(j)) > budget by {
        lemma_byte_len_prefix_monotone(s, k + 1, j);
    }
    assert(s.take(s.len() as int) =~= s);
}

} // verus!
