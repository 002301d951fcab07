//! Character-level helpers shared by the parsers and renderers of this crate.
//!
//! Text is handled as a sequence of `char`s, the view that Verus gives to
//! `str` and `String`.

use vstd::prelude::*;

verus! {

broadcast use vstd::string::group_string_axioms;

/// Appends one character to a string.
///
/// Trusted: calls `String::push`, which the standard library documents as
/// appending the given `char` to the end of the string.
#[verifier::external_body]
pub fn push_char(s: &mut String, c: char)
    ensures
        final(s)@ == old(s)@.push(c),
{
    s.push(c);
}

/// The characters of `s`, in order.
pub fn chars_of(s: &str) -> (v: Vec<char>)
    ensures
        v@ == s@,
{
    let mut v: Vec<char> = Vec::new();
    for c in it: s.chars()
        invariant
            v@ == it.seq().take(it.index() as int),
            it.seq() == s@,
    {
        v.push(c);
    }
    v
}

/// A string holding exactly the given characters.
pub fn string_from_chars(v: &[char]) -> (s: String)
    ensures
        s@ == v@,
{
    let mut s = String::new();
    let mut i: usize = 0;
    while i < v.len()
        invariant
            i <= v@.len(),
            s@ == v@.take(i as int),
        decreases v@.len() - i,
    {
        push_char(&mut s, v[i]);
        assert(v@.take(i as int + 1) =~= v@.take(i as int).push(v@[i as int]));
        i = i + 1;
    }
    assert(v@.take(v@.len() as int) =~= v@);
    s
}

/// Appends a string slice to a string.
pub fn push_str(s: &mut String, t: &str)
    ensures
        final(s)@ == old(s)@ + t@,
{
    let cs = chars_of(t);
    let mut i: usize = 0;
    let ghost s0 = s@;
    while i < cs.len()
        invariant
            i <= cs@.len(),
            cs@ == t@,
            s@ == s0 + cs@.take(i as int),
        decreases cs@.len() - i,
    {
        push_char(s, cs[i]);
        assert(cs@.take(i as int + 1) =~= cs@.take(i as int).push(cs@[i as int]));
        i = i + 1;
    }
    assert(cs@.take(cs@.len() as int) =~= cs@);
}

/// Whether two character sequences are equal.
pub fn chars_eq(a: &[char], b: &[char]) -> (r: bool)
    ensures
        r == (a@ == b@),
{
    if a.len() != b.len() {
        return false;
    }
    let mut i: usize = 0;
    while i < a.len()
        invariant
            a@.len() == b@.len(),
            i <= a@.len(),
            forall|j: int| 0 <= j < i ==> a@[j] == b@[j],
        decreases a@.len() - i,
    {
        if a[i] != b[i] {
            return false;
        }
        i = i + 1;
    }
    assert(a@ =~= b@);
    true
}

/// Whether the characters of `a` spell the string `b`.
pub fn chars_eq_str(a: &[char], b: &str) -> (r: bool)
    ensures
        r == (a@ == b@),
{
    let bc = chars_of(b);
    chars_eq(a, bc.as_slice())
}

/// Whether two strings are equal.
pub fn str_eq(a: &str, b: &str) -> (r: bool)
    ensures
        r == (a@ == b@),
{
    let ac = chars_of(a);
    chars_eq_str(ac.as_slice(), b)
}

/// Unicode `White_Space`, the set that `char::is_whitespace` tests.
pub open spec fn is_ws(c: char) -> bool {
    ('\u{9}' <= c && c <= '\u{D}') || c == ' ' || c == '\u{85}' || c == '\u{A0}' || c
        == '\u{1680}' || ('\u{2000}' <= c && c <= '\u{200A}') || c == '\u{2028}' || c
        == '\u{2029}' || c == '\u{202F}' || c == '\u{205F}' || c == '\u{3000}'
}

/// Whether `c` is Unicode whitespace.
pub fn is_whitespace_char(c: char) -> (r: bool)
    ensures
        r == is_ws(c),
{
    ('\u{9}' <= c && c <= '\u{D}') || c == ' ' || c == '\u{85}' || c == '\u{A0}' || c
        == '\u{1680}' || ('\u{2000}' <= c && c <= '\u{200A}') || c == '\u{2028}' || c
        == '\u{2029}' || c == '\u{202F}' || c == '\u{205F}' || c == '\u{3000}'
}

/// The decimal digit character for `d < 10`.
pub open spec fn digit_char(d: nat) -> char {
    ((d + 48) as u32) as char
}

/// Decimal rendering of a natural number, most significant digit first.
pub open spec fn decimal(n: nat) -> Seq<char>
    decreases n,
{
    if n < 10 {
        seq![digit_char(n)]
    } else {
        decimal(n / 10).push(digit_char(n % 10))
    }
}

fn digit_to_char(d: u64) -> (c: char)
    requires
        d < 10,
    ensures
        c == digit_char(d as nat),
{
    let c = match d {
        0 => '0',
        1 => '1',
        2 => '2',
        3 => '3',
        4 => '4',
        5 => '5',
        6 => '6',
        7 => '7',
        8 => '8',
        _ => '9',
    };
    c
}

/// Appends the decimal rendering of `n` to `s`.
pub fn push_decimal(s: &mut String, n: u64)
    ensures
        final(s)@ == old(s)@ + decimal(n as nat),
    decreases n,
{
    if n < 10 {
        push_char(s, digit_to_char(n));
        assert(decimal(n as nat) =~= seq![digit_char(n as nat)]);
    } else {
        push_decimal(s, n / 10);
        push_char(s, digit_to_char(n % 10));
    }
}

/// The decimal rendering of `n` as a fresh string.
pub fn decimal_string(n: u64) -> (s: String)
    ensures
        s@ == decimal(n as nat),
{
    let mut s = String::new();
    push_decimal(&mut s, n);
    assert(s@ =~= decimal(n as nat));
    s
}

/// Decimal rendering of an integer, with a leading `-` when it is negative.
pub open spec fn signed_decimal(n: int) -> Seq<char> {
    if n < 0 {
        seq!['-'] + decimal((-n) as nat)
    } else {
        decimal(n as nat)
    }
}

/// Appends the decimal rendering of a signed integer to `s`.
pub fn push_signed_decimal(s: &mut String, n: i64)
    ensures
        final(s)@ == old(s)@ + signed_decimal(n as int),
{
    if n < 0 {
        push_char(s, '-');
        let m: u64 = (0i128 - n as i128) as u64;
        push_decimal(s, m);
        assert(final(s)@ =~= old(s)@ + signed_decimal(n as int));
    } else {
        push_decimal(s, n as u64);
    }
}

/// Strict lexicographic order of character sequences (code point order,
/// which is also the byte order of their UTF-8 encodings).
pub open spec fn lex_lt(a: Seq<char>, b: Seq<char>) -> bool
    decreases a.len(),
{
    if a.len() == 0 {
        b.len() > 0
    } else if b.len() == 0 {
        false
    } else if a[0] != b[0] {
        a[0] < b[0]
    } else {
        lex_lt(a.drop_first(), b.drop_first())
    }
}

/// No sequence comes strictly before itself.
pub proof fn lemma_lex_lt_irreflexive(a: Seq<char>)
    ensures
        !lex_lt(a, a),
    decreases a.len(),
{
    if a.len() > 0 {
        lemma_lex_lt_irreflexive(a.drop_first());
    }
}

/// The lexicographic order is transitive.
pub proof fn lemma_lex_lt_transitive(a: Seq<char>, b: Seq<char>, c: Seq<char>)
    requires
        lex_lt(a, b),
        lex_lt(b, c),
    ensures
        lex_lt(a, c),
    decreases a.len(),
{
    if a.len() > 0 && a[0] == b[0] && b[0] == c[0] {
        lemma_lex_lt_transitive(a.drop_first(), b.drop_first(), c.drop_first());
    }
}

/// Any two sequences are equal or ordered one way or the other.
pub proof fn lemma_lex_lt_total(a: Seq<char>, b: Seq<char>)
    ensures
        a == b || lex_lt(a, b) || lex_lt(b, a),
    decreases a.len(),
{
    if a.len() == 0 {
        if b.len() == 0 {
            assert(a =~= b);
        }
    } else if b.len() > 0 && a[0] == b[0] {
        let a1 = a.drop_first();
        let b1 = b.drop_first();
        lemma_lex_lt_total(a1, b1);
        if a1 == b1 {
            assert(a.len() == a1.len() + 1);
            assert(b.len() == b1.len() + 1);
            assert forall|i: int| 0 <= i < a.len() implies a[i] == b[i] by {
                if i > 0 {
                    assert(a[i] == a1[i - 1]);
                    assert(b[i] == b1[i - 1]);
                }
            }
            assert(a =~= b);
        }
    }
}

/// Whether `a` comes strictly before `b` in lexicographic order.
pub fn lex_less(a: &str, b: &str) -> (r: bool)
    ensures
        r == lex_lt(a@, b@),
{
    let ac = chars_of(a);
    let bc = chars_of(b);
    let mut i: usize = 0;
    assert(a@.skip(0) =~= a@);
    assert(b@.skip(0) =~= b@);
    while i < ac.len() && i < bc.len() && ac[i] == bc[i]
        invariant
            ac@ == a@,
            bc@ == b@,
            i <= ac@.len(),
            i <= bc@.len(),
            lex_lt(a@, b@) == lex_lt(a@.skip(i as int), b@.skip(i as int)),
        decreases ac@.len() - i,
    {
        assert(a@.skip(i as int).drop_first() =~= a@.skip(i as int + 1));
        assert(b@.skip(i as int).drop_first() =~= b@.skip(i as int + 1));
        i = i + 1;
    }
    if i == ac.len() {
        i < bc.len()
    } else if i == bc.len() {
        false
    } else {
        ac[i] < bc[i]
    }
}

/// `needle` occurs in `hay` at position `i`.
pub open spec fn occurs_at(hay: Seq<char>, needle: Seq<char>, i: int) -> bool {
    0 <= i && i + needle.len() <= hay.len() && hay.subrange(i, i + needle.len()) == needle
}

/// Whether `needle` occurs anywhere in `hay`.
pub open spec fn occurs(hay: Seq<char>, needle: Seq<char>) -> bool {
    exists|i: int| occurs_at(hay, needle, i)
}

/// The first occurrence is at `k` when `needle` occurs at `k` and nowhere
/// before it.
pub proof fn lemma_first_occurrence_at(hay: Seq<char>, needle: Seq<char>, k: int)
    requires
        occurs_at(hay, needle, k),
        forall|p: int| 0 <= p < k ==> !occurs_at(hay, needle, p),
    ensures
        first_occurrence(hay, needle) == k,
{
    lemma_first_occurrence_from_at(hay, needle, k, 0);
}

proof fn lemma_first_occurrence_from_at(hay: Seq<char>, needle: Seq<char>, k: int, i: int)
    requires
        0 <= i <= k,
        occurs_at(hay, needle, k),
        forall|p: int| 0 <= p < k ==> !occurs_at(hay, needle, p),
    ensures
        first_occurrence_from(hay, needle, i) == k,
    decreases k - i,
{
    if i < k {
        assert(!occurs_at(hay, needle, i));
        lemma_first_occurrence_from_at(hay, needle, k, i + 1);
    }
}

/// The first position from `i` on where `needle` occurs in `hay`, or -1.
pub open spec fn first_occurrence_from(hay: Seq<char>, needle: Seq<char>, i: int) -> int
    decreases hay.len() - i,
{
    if i < 0 || i + needle.len() > hay.len() {
        -1
    } else if occurs_at(hay, needle, i) {
        i
    } else if i >= hay.len() {
        -1
    } else {
        first_occurrence_from(hay, needle, i + 1)
    }
}

/// The first position where `needle` occurs in `hay`, or -1.
pub open spec fn first_occurrence(hay: Seq<char>, needle: Seq<char>) -> int {
    first_occurrence_from(hay, needle, 0)
}

pub(crate) fn occurs_at_exec(hay: &[char], needle: &[char], i: usize) -> (b: bool)
    requires
        i + needle@.len() <= hay@.len(),
        hay@.len() <= usize::MAX,
    ensures
        b == occurs_at(hay@, needle@, i as int),
{
    let mut j: usize = 0;
    while j < needle.len()
        invariant
            i + needle@.len() <= hay@.len(),
            hay@.len() <= usize::MAX,
            j <= needle@.len(),
            forall|q: int| 0 <= q < j ==> hay@[i + q] == needle@[q],
        decreases needle@.len() - j,
    {
        if hay[i + j] != needle[j] {
            assert(hay@.subrange(i as int, i + needle@.len())[j as int] != needle@[j as int]);
            return false;
        }
        j = j + 1;
    }
    assert(hay@.subrange(i as int, i + needle@.len()) =~= needle@);
    true
}

/// The first position where `needle` occurs in `hay`.
pub fn find_chars(hay: &[char], needle: &[char]) -> (r: Option<usize>)
    ensures
        match r {
            Some(i) => i == first_occurrence(hay@, needle@) && occurs_at(hay@, needle@, i as int),
            None => first_occurrence(hay@, needle@) == -1,
        },
{
    if needle.len() > hay.len() {
        return None;
    }
    let last = hay.len() - needle.len();
    let mut i: usize = 0;
    while i <= last
        invariant
            last == hay@.len() - needle@.len(),
            needle@.len() <= hay@.len(),
            hay@.len() <= usize::MAX,
            i <= last + 1,
            first_occurrence(hay@, needle@) == first_occurrence_from(hay@, needle@, i as int),
        decreases last + 1 - i,
    {
        if occurs_at_exec(hay, needle, i) {
            return Some(i);
        }
        if i == last {
            assert(first_occurrence_from(hay@, needle@, i as int + 1) == -1);
            return None;
        }
        i = i + 1;
    }
    None
}

// ---------------------------------------------------------------------------
// Lines
// ---------------------------------------------------------------------------

/// The text after the last `\n`.
pub open spec fn open_line(s: Seq<char>) -> Seq<char>
    decreases s.len(),
{
    if s.len() == 0 {
        seq![]
    } else if s.last() == '\n' {
        seq![]
    } else {
        open_line(s.drop_last()).push(s.last())
    }
}

/// A line without one trailing `\r`.
pub open spec fn without_cr(l: Seq<char>) -> Seq<char> {
    if l.len() > 0 && l.last() == '\r' {
        l.drop_last()
    } else {
        l
    }
}

/// The lines that a `\n` ends, each without a `\r` before its `\n`.
pub open spec fn closed_lines(s: Seq<char>) -> Seq<Seq<char>>
    decreases s.len(),
{
    if s.len() == 0 {
        seq![]
    } else if s.last() == '\n' {
        closed_lines(s.drop_last()).push(without_cr(open_line(s.drop_last())))
    } else {
        closed_lines(s.drop_last())
    }
}

/// The lines of a text, as `str::lines` yields them: split at `\n`, a `\r`
/// before a `\n` dropped, the last line kept when not empty.
pub open spec fn text_lines(s: Seq<char>) -> Seq<Seq<char>> {
    if open_line(s).len() > 0 {
        closed_lines(s).push(open_line(s))
    } else {
        closed_lines(s)
    }
}

fn drop_cr(l: &String) -> (r: String)
    ensures
        r@ == without_cr(l@),
{
    let cs = chars_of(l.as_str());
    if cs.len() > 0 && cs[cs.len() - 1] == '\r' {
        let r = string_from_chars(&cs.as_slice()[0..cs.len() - 1]);
        proof {
            assert(cs@.subrange(0, cs@.len() - 1) =~= l@.drop_last());
        }
        r
    } else {
        l.clone()
    }
}

/// The lines of `text`, as `str::lines` yields them.
pub fn lines_of(text: &str) -> (r: Vec<String>)
    ensures
        r@.map_values(|l: String| l@) == text_lines(text@),
{
    let cs = chars_of(text);
    let ghost s = text@;
    let mut r: Vec<String> = Vec::new();
    let mut line = String::new();
    let mut i: usize = 0;
    while i < cs.len()
        invariant
            cs@ == s,
            s == text@,
            i <= s.len(),
            line@ == open_line(s.take(i as int)),
            r@.map_values(|l: String| l@) == closed_lines(s.take(i as int)),
        decreases s.len() - i,
    {
        proof {
            assert(s.take(i + 1).drop_last() =~= s.take(i as int));
            assert(s.take(i + 1).last() == s[i as int]);
        }
        let c = cs[i];
        if c == '\n' {
            let ghost before = r@.map_values(|l: String| l@);
            let content = drop_cr(&line);
            r.push(content);
            proof {
                assert(r@.map_values(|l: String| l@) =~= before.push(without_cr(open_line(s.take(i as int)))));
            }
            line = String::new();
        } else {
            push_char(&mut line, c);
        }
        i = i + 1;
    }
    proof {
        assert(s.take(s.len() as int) =~= s);
    }
    if !line.as_str().is_empty() {
        let ghost before = r@.map_values(|l: String| l@);
        r.push(line);
        proof {
            assert(r@.map_values(|l: String| l@) =~= before.push(open_line(s)));
        }
    }
    r
}

} // verus!
