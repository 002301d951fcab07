//! Five-field cron expressions: parse, match, and the next matching minute.
//!
//! A parser and matcher, not a scheduler. Supported syntax: `*`, literals,
//! `a,b` lists, `a-b` ranges, `*/n` and `a-b/n` steps, the Vixie `@`
//! shorthands, and case-insensitive three-letter month and weekday names.
//!
//! Each field is held as a 64-bit occupancy bitmap; the contracts describe
//! it through [`bit_set`], the set of values whose bit is set.

use vstd::prelude::*;
use crate::text::{chars_of, chars_eq_str, push_str, push_decimal, decimal, string_from_chars, str_eq, is_ws, is_whitespace_char};

verus! {

broadcast use vstd::seq_lib::group_seq_properties;

// ---------------------------------------------------------------------------
// Characters
// ---------------------------------------------------------------------------

/// ASCII upper-casing of one character; other characters are unchanged.
pub open spec fn upper_char(c: char) -> char {
    if 'a' <= c && c <= 'z' {
        ((c as u32 - 32) as u8) as char
    } else {
        c
    }
}

/// ASCII lower-casing of one character; other characters are unchanged.
pub open spec fn lower_char(c: char) -> char {
    if 'A' <= c && c <= 'Z' {
        ((c as u32 + 32) as u8) as char
    } else {
        c
    }
}

/// ASCII upper-casing of a character sequence.
pub open spec fn upper(s: Seq<char>) -> Seq<char> {
    s.map_values(|c: char| upper_char(c))
}

/// ASCII lower-casing of a character sequence.
pub open spec fn lower(s: Seq<char>) -> Seq<char> {
    s.map_values(|c: char| lower_char(c))
}

fn to_upper_char(c: char) -> (r: char)
    ensures
        r == upper_char(c),
{
    if 'a' <= c && c <= 'z' {
        ((c as u8) - 32) as char
    } else {
        c
    }
}

pub(crate) fn to_lower_char(c: char) -> (r: char)
    ensures
        r == lower_char(c),
{
    if 'A' <= c && c <= 'Z' {
        ((c as u8) + 32) as char
    } else {
        c
    }
}

fn map_upper(s: &Vec<char>) -> (r: Vec<char>)
    ensures
        r@ == upper(s@),
{
    let mut r: Vec<char> = Vec::new();
    let mut i: usize = 0;
    while i < s.len()
        invariant
            i <= s@.len(),
            r@ == upper(s@.take(i as int)),
        decreases s@.len() - i,
    {
        r.push(to_upper_char(s[i]));
        assert(upper(s@.take(i as int + 1)) =~= upper(s@.take(i as int)).push(upper_char(s@[i as int])));
        i = i + 1;
    }
    assert(s@.take(s@.len() as int) =~= s@);
    r
}

fn map_lower(s: &[char]) -> (r: Vec<char>)
    ensures
        r@ == lower(s@),
{
    let mut r: Vec<char> = Vec::new();
    let mut i: usize = 0;
    while i < s.len()
        invariant
            i <= s@.len(),
            r@ == lower(s@.take(i as int)),
        decreases s@.len() - i,
    {
        r.push(to_lower_char(s[i]));
        assert(lower(s@.take(i as int + 1)) =~= lower(s@.take(i as int)).push(lower_char(s@[i as int])));
        i = i + 1;
    }
    assert(s@.take(s@.len() as int) =~= s@);
    r
}

// ---------------------------------------------------------------------------
// Decimal bytes
// ---------------------------------------------------------------------------

/// Whether `c` is an ASCII decimal digit.
pub open spec fn is_digit(c: char) -> bool {
    '0' <= c && c <= '9'
}

/// Every character is an ASCII digit.
pub open spec fn all_digits(s: Seq<char>) -> bool {
    forall|i: int| 0 <= i < s.len() ==> is_digit(#[trigger] s[i])
}

/// Decimal value of a digit sequence, most significant digit first.
pub open spec fn digits_value(s: Seq<char>) -> nat
    decreases s.len(),
{
    if s.len() == 0 {
        0
    } else {
        digits_value(s.drop_last()) * 10 + ((s.last() as u32) - 48) as nat
    }
}

/// What `u8::from_str` accepts: an optional `+`, then one or more ASCII
/// digits whose value fits in a byte.
pub open spec fn spec_parse_u8(s: Seq<char>) -> Option<u8> {
    let d = if s.len() > 0 && s[0] == '+' {
        s.drop_first()
    } else {
        s
    };
    if d.len() > 0 && all_digits(d) && digits_value(d) <= 255 {
        Some(digits_value(d) as u8)
    } else {
        None
    }
}

/// Why a decimal byte did not parse (the kinds `u8::from_str` reports).
#[derive(Debug, Clone, Copy, PartialEq, Eq, Structural)]
pub enum IntErrorKind {
    /// Nothing to parse.
    Empty,
    /// A character is not a digit.
    InvalidDigit,
    /// The value does not fit in a byte.
    PosOverflow,
}

proof fn lemma_digits_prefix(d: Seq<char>, k: int)
    requires
        0 <= k <= d.len(),
        all_digits(d),
    ensures
        digits_value(d.take(k)) <= digits_value(d),
    decreases d.len(),
{
    if k < d.len() {
        assert(all_digits(d.drop_last()));
        lemma_digits_prefix(d.drop_last(), k);
        assert(d.drop_last().take(k) =~= d.take(k));
    } else {
        assert(d.take(k) =~= d);
    }
}

/// Some leading run of digits is worth more than a byte.
pub open spec fn overflows(d: Seq<char>) -> bool {
    exists|k: int| 0 < k <= d.len() && all_digits(#[trigger] d.take(k)) && digits_value(d.take(k)) > 255
}

/// The error `u8::from_str` reports for text it refuses: nothing at all is
/// `Empty`; a value that outgrows a byte before any non-digit is met is
/// `PosOverflow`; anything else (a lone `+`, a non-digit) is `InvalidDigit`.
pub open spec fn u8_error(s: Seq<char>) -> IntErrorKind {
    let d = if s.len() > 0 && s[0] == '+' {
        s.drop_first()
    } else {
        s
    };
    if s.len() == 0 {
        IntErrorKind::Empty
    } else if overflows(d) {
        IntErrorKind::PosOverflow
    } else {
        IntErrorKind::InvalidDigit
    }
}

/// Parses a decimal byte as `u8::from_str` does.
pub fn parse_u8_chars(s: &[char]) -> (r: Result<u8, IntErrorKind>)
    ensures
        r is Ok <==> spec_parse_u8(s@) is Some,
        r matches Ok(v) ==> spec_parse_u8(s@) == Some(v),
        r matches Err(k) ==> k == u8_error(s@),
{
    if s.len() == 0 {
        return Err(IntErrorKind::Empty);
    }
    let start: usize = if s[0] == '+' { 1 } else { 0 };
    let ghost d = if s@.len() > 0 && s@[0] == '+' { s@.drop_first() } else { s@ };
    assert(d =~= s@.skip(start as int));
    if start == s.len() {
        assert(d.len() == 0);
        assert(!overflows(d));
        return Err(IntErrorKind::InvalidDigit);
    }
    let mut val: u32 = 0;
    let mut i: usize = start;
    while i < s.len()
        invariant
            start <= i <= s@.len(),
            d.len() == s@.len() - start,
            d == (if s@.len() > 0 && s@[0] == '+' { s@.drop_first() } else { s@ }),
            forall|j: int| 0 <= j < d.len() ==> d[j] == s@[j + start],
            all_digits(d.take(i - start)),
            val as nat == digits_value(d.take(i - start)),
            val <= 255,
            forall|j: int| 0 < j <= i - start ==> digits_value(#[trigger] d.take(j)) <= 255,
        decreases s@.len() - i,
    {
        let c = s[i];
        let ghost k: int = i - start;
        if !('0' <= c && c <= '9') {
            assert(d[k] == c);
            assert(!all_digits(d));
            proof {
                assert forall|j: int| 0 < j <= d.len() && all_digits(#[trigger] d.take(j)) implies digits_value(
                    d.take(j),
                ) <= 255 by {
                    if j > k {
                        assert(d.take(j)[k] == c);
                    }
                }
            }
            return Err(IntErrorKind::InvalidDigit);
        }
        proof {
            let t = d.take(k + 1);
            assert(t.drop_last() =~= d.take(k));
            assert(t.last() == c);
            assert(digits_value(t) == digits_value(d.take(k)) * 10 + ((c as u32) - 48) as nat);
            assert(all_digits(t));
        }
        val = val * 10 + (c as u32 - 48);
        if val > 255 {
            proof {
                if all_digits(d) {
                    lemma_digits_prefix(d, k + 1);
                }
                assert(all_digits(d.take(k + 1)));
                assert(overflows(d));
            }
            return Err(IntErrorKind::PosOverflow);
        }
        i = i + 1;
    }
    assert(d.take(s@.len() - start) =~= d);
    Ok(val as u8)
}

/// The message `u8::from_str` gives for each error kind.
pub open spec fn int_error_text(kind: IntErrorKind) -> Seq<char> {
    match kind {
        IntErrorKind::Empty => "cannot parse integer from empty string"@,
        IntErrorKind::InvalidDigit => "invalid digit found in string"@,
        IntErrorKind::PosOverflow => "number too large to fit in target type"@,
    }
}

/// The message `u8::from_str` gives for each error kind.
pub fn int_error_message(kind: IntErrorKind) -> (m: &'static str)
    ensures
        m@ == int_error_text(kind),
{
    match kind {
        IntErrorKind::Empty => "cannot parse integer from empty string",
        IntErrorKind::InvalidDigit => "invalid digit found in string",
        IntErrorKind::PosOverflow => "number too large to fit in target type",
    }
}

// ---------------------------------------------------------------------------
// Splitting
// ---------------------------------------------------------------------------

/// The pieces of `s` between occurrences of `sep` (what `str::split` yields;
/// always at least one piece).
pub open spec fn split_on(s: Seq<char>, sep: char) -> Seq<Seq<char>>
    decreases s.len(),
{
    if s.len() == 0 {
        seq![Seq::empty()]
    } else {
        let prev = split_on(s.drop_last(), sep);
        if s.last() == sep {
            prev.push(Seq::empty())
        } else {
            prev.update(prev.len() - 1, prev.last().push(s.last()))
        }
    }
}

proof fn lemma_split_on_nonempty(s: Seq<char>, sep: char)
    ensures
        split_on(s, sep).len() >= 1,
    decreases s.len(),
{
    if s.len() > 0 {
        lemma_split_on_nonempty(s.drop_last(), sep);
    }
}

/// The views of a vector of character vectors.
pub open spec fn views(v: Seq<Vec<char>>) -> Seq<Seq<char>> {
    v.map_values(|x: Vec<char>| x@)
}

/// Splits `s` at every `sep`, as `str::split` does.
pub fn split_chars(s: &[char], sep: char) -> (r: Vec<Vec<char>>)
    ensures
        views(r@) == split_on(s@, sep),
{
    let mut done: Vec<Vec<char>> = Vec::new();
    let mut cur: Vec<char> = Vec::new();
    let mut i: usize = 0;
    while i < s.len()
        invariant
            i <= s@.len(),
            views(done@).push(cur@) == split_on(s@.take(i as int), sep),
        decreases s@.len() - i,
    {
        let ghost t = s@.take(i as int + 1);
        assert(t.drop_last() =~= s@.take(i as int));
        proof {
            lemma_split_on_nonempty(s@.take(i as int), sep);
        }
        if s[i] == sep {
            done.push(cur);
            cur = Vec::new();
            assert(views(done@).push(cur@) =~= split_on(t, sep));
        } else {
            cur.push(s[i]);
            assert(views(done@).push(cur@) =~= split_on(t, sep));
        }
        i = i + 1;
    }
    assert(s@.take(s@.len() as int) =~= s@);
    done.push(cur);
    assert(views(done@) =~= split_on(s@, sep));
    done
}

/// `i` is the first position of `c` in `s`.
pub open spec fn is_first(s: Seq<char>, c: char, i: int) -> bool {
    0 <= i < s.len() && s[i] == c && forall|j: int| 0 <= j < i ==> s[j] != c
}

/// What `str::split_once` yields: the text before and after the first `c`.
pub open spec fn spec_split_once(s: Seq<char>, c: char) -> Option<(Seq<char>, Seq<char>)> {
    if exists|i: int| is_first(s, c, i) {
        let i = choose|i: int| is_first(s, c, i);
        Some((s.take(i), s.skip(i + 1)))
    } else {
        None
    }
}

/// Splits at the first `c`, as `str::split_once` does.
pub fn split_once_chars(s: &[char], c: char) -> (r: Option<(Vec<char>, Vec<char>)>)
    ensures
        match (r, spec_split_once(s@, c)) {
            (Some((a, b)), Some((x, y))) => a@ == x && b@ == y,
            (None, None) => true,
            _ => false,
        },
{
    let mut i: usize = 0;
    while i < s.len()
        invariant
            i <= s@.len(),
            forall|j: int| 0 <= j < i ==> s@[j] != c,
        decreases s@.len() - i,
    {
        if s[i] == c {
            assert(is_first(s@, c, i as int));
            let ghost k = choose|k: int| is_first(s@, c, k);
            assert(k == i as int) by {
                if k < i {
                } else if k > i {
                    assert(s@[i as int] != c);
                }
            }
            let mut a: Vec<char> = Vec::new();
            let mut j: usize = 0;
            while j < i
                invariant
                    j <= i < s@.len(),
                    a@ == s@.take(j as int),
                decreases i - j,
            {
                a.push(s[j]);
                assert(s@.take(j as int + 1) =~= s@.take(j as int).push(s@[j as int]));
                j = j + 1;
            }
            let mut b: Vec<char> = Vec::new();
            let mut j: usize = i + 1;
            while j < s.len()
                invariant
                    i + 1 <= j <= s@.len(),
                    b@ == s@.subrange(i as int + 1, j as int),
                decreases s@.len() - j,
            {
                b.push(s[j]);
                assert(s@.subrange(i as int + 1, j as int + 1) =~= s@.subrange(i as int + 1, j as int).push(s@[j as int]));
                j = j + 1;
            }
            assert(b@ =~= s@.skip(i as int + 1));
            return Some((a, b));
        }
        i = i + 1;
    }
    assert(!exists|k: int| is_first(s@, c, k));
    None
}

// ---------------------------------------------------------------------------
// Errors
// ---------------------------------------------------------------------------

/// Cron library errors.
#[derive(Debug, Clone, PartialEq, Eq)]
pub enum CronError {
    /// A named schedule's interval is not positive.
    NonPositiveInterval(i64),
    /// A field did not parse: the offending text and the reason.
    ParseError(String, String),
    /// A five-field expression did not split into five parts.
    FieldCountMismatch(usize),
    /// An unknown `@` shorthand.
    UnknownShorthand(String),
}

/// Result of the cron library.
pub type CronResult<T> = Result<T, CronError>;

/// The error is a parse error about exactly the text `orig`.
pub open spec fn is_parse_error_of<T>(r: CronResult<T>, orig: Seq<char>) -> bool {
    match r {
        Err(CronError::ParseError(o, _)) => o@ == orig,
        _ => false,
    }
}

/// The error is a parse error whose reason is exactly `reason`.
pub open spec fn has_reason<T>(r: CronResult<T>, reason: Seq<char>) -> bool {
    match r {
        Err(CronError::ParseError(_, m)) => m@ == reason,
        _ => false,
    }
}

fn parse_error(orig: &str, reason: String) -> (r: CronError)
    ensures
        is_parse_error_of::<()>(Err(r), orig@),
        has_reason::<()>(Err(r), reason@),
{
    CronError::ParseError(orig.to_owned(), reason)
}

fn int_reason(prefix: &str, kind: IntErrorKind) -> (m: String)
    ensures
        m@ == prefix@ + int_error_text(kind),
{
    let mut m = String::new();
    push_str(&mut m, prefix);
    push_str(&mut m, int_error_message(kind));
    m
}

fn range_reason(lead: &str, a: u8, sep: &str, b: u8, lo: u8, hi: u8) -> (m: String)
    ensures
        m@ == lead@ + decimal(a as nat) + sep@ + decimal(b as nat) + " out of range "@ + decimal(lo as nat) + "..="@
            + decimal(hi as nat),
{
    let mut m = String::new();
    push_str(&mut m, lead);
    push_decimal(&mut m, a as u64);
    push_str(&mut m, sep);
    push_decimal(&mut m, b as u64);
    push_str(&mut m, " out of range ");
    push_decimal(&mut m, lo as u64);
    push_str(&mut m, "..=");
    push_decimal(&mut m, hi as u64);
    m
}

// ---------------------------------------------------------------------------
// Bitmaps
// ---------------------------------------------------------------------------

/// Bit `v` of `bits` is set (`v` in `0..64`).
pub open spec fn has_bit(bits: u64, v: int) -> bool {
    0 <= v < 64 && bits & (1u64 << (v as u64)) != 0
}

/// The values whose bit is set.
pub open spec fn bit_set(bits: u64) -> Set<int> {
    Set::new(|v: int| has_bit(bits, v))
}

proof fn lemma_or_bit(b: u64, v: u64, w: u64)
    requires
        v < 64,
        w < 64,
    ensures
        ((b | (1u64 << v)) & (1u64 << w) != 0) == ((b & (1u64 << w) != 0) || v == w),
{
    assert(((b | (1u64 << v)) & (1u64 << w) != 0) == ((b & (1u64 << w) != 0) || v == w))
        by (bit_vector)
        requires
            v < 64,
            w < 64,
    ;
}

proof fn lemma_zero_bits(w: u64)
    requires
        w < 64,
    ensures
        (0u64 & (1u64 << w)) == 0,
{
    assert((0u64 & (1u64 << w)) == 0) by (bit_vector);
}

proof fn lemma_empty_bit_set()
    ensures
        bit_set(0) == Set::<int>::empty(),
{
    assert forall|v: int| !bit_set(0).contains(v) by {
        if 0 <= v < 64 {
            lemma_zero_bits(v as u64);
        }
    }
    assert(bit_set(0) =~= Set::<int>::empty());
}

fn add_bit(bits: u64, v: u8) -> (r: u64)
    requires
        v < 64,
    ensures
        bit_set(r) == bit_set(bits).insert(v as int),
{
    let r = bits | (1u64 << (v as u64));
    proof {
        assert forall|w: int| bit_set(r).contains(w) == bit_set(bits).insert(v as int).contains(w) by {
            if 0 <= w < 64 {
                lemma_or_bit(bits, v as u64, w as u64);
            }
        }
        assert(bit_set(r) =~= bit_set(bits).insert(v as int));
    }
    r
}

// ---------------------------------------------------------------------------
// Pieces and fields
// ---------------------------------------------------------------------------

/// `start, start + step, ...` up to `end`.
pub open spec fn stepped(start: int, end: int, step: int) -> Set<int> {
    Set::new(|v: int| start <= v <= end && on_step(v, start, step))
}

/// `v` lies on the grid `start + k * step`.
pub open spec fn on_step(v: int, start: int, step: int) -> bool {
    (v - start) % step == 0
}

/// The range bounds that the part before `/` denotes: `a-b`, `*`, or a literal.
pub open spec fn spec_bounds(range_part: Seq<char>, lo: u8, hi: u8) -> Option<(u8, u8)> {
    match spec_split_once(range_part, '-') {
        Some((a, b)) => match (spec_parse_u8(a), spec_parse_u8(b)) {
            (Some(x), Some(y)) => Some((x, y)),
            _ => None,
        },
        None => if range_part == seq!['*'] {
            Some((lo, hi))
        } else {
            match spec_parse_u8(range_part) {
                Some(v) => Some((v, v)),
                None => None,
            }
        },
    }
}

/// The values of one numeric list piece (`*`, `5`, `1-5`, `*/15`, `1-30/2`)
/// within `[lo, hi]`, or `None` when it does not parse or leaves the range.
pub open spec fn spec_numeric_piece(piece: Seq<char>, lo: u8, hi: u8) -> Option<Set<int>> {
    let (range_part, step) = match spec_split_once(piece, '/') {
        Some((r, st)) => (r, spec_parse_u8(st)),
        None => (piece, Some(1u8)),
    };
    match step {
        None => None,
        Some(step) => if step == 0 {
            None
        } else {
            match spec_bounds(range_part, lo, hi) {
                None => None,
                Some((start, end)) => if start < lo || end > hi || start > end {
                    None
                } else {
                    Some(stepped(start as int, end as int, step as int))
                },
            }
        },
    }
}

/// The alias table as (name, value) pairs of character sequences.
pub open spec fn alias_view(aliases: Seq<(&str, u8)>) -> Seq<(Seq<char>, u8)> {
    aliases.map_values(|a: (&str, u8)| (a.0@, a.1))
}

/// The value of the first alias named `name`.
pub open spec fn spec_alias_lookup(aliases: Seq<(Seq<char>, u8)>, name: Seq<char>) -> Option<u8>
    decreases aliases.len(),
{
    if aliases.len() == 0 {
        None
    } else if aliases[0].0 == name {
        Some(aliases[0].1)
    } else {
        spec_alias_lookup(aliases.drop_first(), name)
    }
}

/// The values of one list piece when names are allowed: a single name, a
/// `NAME-NAME` range, or else a numeric piece.
pub open spec fn spec_alias_piece(
    piece: Seq<char>,
    lo: u8,
    hi: u8,
    aliases: Seq<(Seq<char>, u8)>,
) -> Option<Set<int>> {
    match spec_alias_lookup(aliases, piece) {
        Some(v) => if v < lo || v > hi {
            None
        } else {
            Some(set![v as int])
        },
        None => {
            let named: Option<(u8, u8)> = match spec_split_once(piece, '-') {
                Some((a, b)) => match (spec_alias_lookup(aliases, a), spec_alias_lookup(aliases, b)) {
                    (Some(x), Some(y)) => Some((x, y)),
                    _ => None,
                },
                None => None,
            };
            match named {
                Some((s, e)) => if s < lo || e > hi || s > e {
                    None
                } else {
                    Some(stepped(s as int, e as int, 1))
                },
                None => spec_numeric_piece(piece, lo, hi),
            }
        },
    }
}

/// The union of the values of all pieces, or `None` if one of them fails.
pub open spec fn spec_union(
    pieces: Seq<Seq<char>>,
    lo: u8,
    hi: u8,
    aliases: Seq<(Seq<char>, u8)>,
) -> Option<Set<int>>
    decreases pieces.len(),
{
    if pieces.len() == 0 {
        Some(Set::empty())
    } else {
        match (
            spec_union(pieces.drop_last(), lo, hi, aliases),
            spec_alias_piece(pieces.last(), lo, hi, aliases),
        ) {
            (Some(a), Some(b)) => Some(a.union(b)),
            _ => None,
        }
    }
}

/// The values a comma-separated field denotes.
pub open spec fn spec_field(s: Seq<char>, lo: u8, hi: u8, aliases: Seq<(Seq<char>, u8)>) -> Option<
    Set<int>,
> {
    spec_union(split_on(s, ','), lo, hi, aliases)
}

/// `out of range <lo>..=<hi>`.
pub open spec fn range_text(lo: u8, hi: u8) -> Seq<char> {
    "out of range "@ + decimal(lo as nat) + "..="@ + decimal(hi as nat)
}

/// Why the range part before `/` denotes no bounds.
pub open spec fn bounds_reason(range_part: Seq<char>) -> Seq<char> {
    match spec_split_once(range_part, '-') {
        Some((a, b)) => if spec_parse_u8(a) is None {
            "range start: "@ + int_error_text(u8_error(a))
        } else {
            "range end: "@ + int_error_text(u8_error(b))
        },
        None => "literal parse: "@ + int_error_text(u8_error(range_part)),
    }
}

/// Why a numeric piece is refused: its step does not parse or is zero, its
/// bounds do not parse, or they leave `[lo, hi]`.
pub open spec fn numeric_reason(piece: Seq<char>, lo: u8, hi: u8) -> Seq<char> {
    let (range_part, step) = match spec_split_once(piece, '/') {
        Some((r, st)) => (r, spec_parse_u8(st)),
        None => (piece, Some(1u8)),
    };
    match step {
        None => "step parse: "@ + int_error_text(u8_error(spec_split_once(piece, '/')->Some_0.1)),
        Some(step) => if step == 0 {
            "step must be > 0"@
        } else {
            match spec_bounds(range_part, lo, hi) {
                None => bounds_reason(range_part),
                Some(_) => range_text(lo, hi),
            }
        },
    }
}

/// Why a piece is refused when names are allowed.
pub open spec fn alias_reason(piece: Seq<char>, lo: u8, hi: u8, aliases: Seq<(Seq<char>, u8)>) -> Seq<char> {
    match spec_alias_lookup(aliases, piece) {
        Some(v) => "alias `"@ + piece + "` = "@ + decimal(v as nat) + " out of range "@ + decimal(lo as nat) + "..="@
            + decimal(hi as nat),
        None => {
            let named: Option<(u8, u8)> = match spec_split_once(piece, '-') {
                Some((a, b)) => match (spec_alias_lookup(aliases, a), spec_alias_lookup(aliases, b)) {
                    (Some(x), Some(y)) => Some((x, y)),
                    _ => None,
                },
                None => None,
            };
            match named {
                Some((x, y)) => "alias range "@ + decimal(x as nat) + ".."@ + decimal(y as nat) + " out of range "@
                    + decimal(lo as nat) + "..="@ + decimal(hi as nat),
                None => numeric_reason(piece, lo, hi),
            }
        },
    }
}

/// Why a list of pieces is refused: the reason of the first refused piece.
pub open spec fn union_reason(pieces: Seq<Seq<char>>, lo: u8, hi: u8, aliases: Seq<(Seq<char>, u8)>) -> Seq<char>
    decreases pieces.len(),
{
    if pieces.len() == 0 {
        Seq::empty()
    } else if spec_union(pieces.drop_last(), lo, hi, aliases) is None {
        union_reason(pieces.drop_last(), lo, hi, aliases)
    } else {
        alias_reason(pieces.last(), lo, hi, aliases)
    }
}

/// Why a comma-separated field is refused.
pub open spec fn field_reason(s: Seq<char>, lo: u8, hi: u8, aliases: Seq<(Seq<char>, u8)>) -> Seq<char> {
    union_reason(split_on(s, ','), lo, hi, aliases)
}

proof fn lemma_union_fails_forward(
    pieces: Seq<Seq<char>>,
    k: int,
    lo: u8,
    hi: u8,
    aliases: Seq<(Seq<char>, u8)>,
)
    requires
        0 <= k <= pieces.len(),
        spec_union(pieces.take(k), lo, hi, aliases) is None,
    ensures
        spec_union(pieces, lo, hi, aliases) is None,
        union_reason(pieces, lo, hi, aliases) == union_reason(pieces.take(k), lo, hi, aliases),
    decreases pieces.len() - k,
{
    if k < pieces.len() {
        assert(pieces.take(k + 1).drop_last() =~= pieces.take(k));
        lemma_union_fails_forward(pieces, k + 1, lo, hi, aliases);
    } else {
        assert(pieces.take(k) =~= pieces);
    }
}

proof fn lemma_step_gap(a: int, step: int, x: int)
    requires
        step > 0,
        a >= 0,
        a % step == 0,
        a < x < a + step,
    ensures
        x % step != 0,
{
    vstd::arithmetic::div_mod::lemma_fundamental_div_mod(a, step);
    let q = a / step;
    assert(a == q * step) by (nonlinear_arith)
        requires
            a == step * q + 0,
    ;
    vstd::arithmetic::div_mod::lemma_fundamental_div_mod_converse(x, step, q, x - a);
}

proof fn lemma_step_next(a: int, step: int)
    requires
        step > 0,
        a >= 0,
        a % step == 0,
    ensures
        (a + step) % step == 0,
{
    vstd::arithmetic::div_mod::lemma_fundamental_div_mod(a, step);
    let q = a / step;
    assert(a + step == (q + 1) * step) by (nonlinear_arith)
        requires
            a == step * q + 0,
    ;
    vstd::arithmetic::div_mod::lemma_fundamental_div_mod_converse(a + step, step, q + 1, 0);
}

/// ORs `start, start + step, ...` up to `end` into `bits`.
fn fill_stepped(bits: u64, start: u8, end: u8, step: u8) -> (r: u64)
    requires
        step > 0,
        start <= end < 64,
    ensures
        bit_set(r) == bit_set(bits).union(stepped(start as int, end as int, step as int)),
{
    let ghost base = bit_set(bits);
    let mut bits = bits;
    let mut v: u8 = start;
    assert(base.union(stepped(start as int, start as int - 1, step as int)) =~= base);
    proof {
        vstd::arithmetic::div_mod::lemma_small_mod(0, step as nat);
    }
    loop
        invariant_except_break
            start <= v <= end,
            on_step(v as int, start as int, step as int),
            bit_set(bits) == base.union(stepped(start as int, v as int - 1, step as int)),
        invariant
            step > 0,
            start <= end < 64,
        ensures
            bit_set(bits) == base.union(stepped(start as int, end as int, step as int)),
        decreases end - v,
    {
        bits = add_bit(bits, v);
        proof {
            assert(base.union(stepped(start as int, v as int - 1, step as int)).insert(v as int)
                =~= base.union(stepped(start as int, v as int, step as int)));
        }
        let next = v.checked_add(step);
        let stop = match next {
            None => true,
            Some(n) => n > end,
        };
        if stop {
            proof {
                assert forall|x: int| v < x <= end implies !on_step(x, start as int, step as int) by {
                    lemma_step_gap(v - start, step as int, x - start);
                }
                assert(stepped(start as int, v as int, step as int) =~= stepped(
                    start as int,
                    end as int,
                    step as int,
                ));
            }
            break ;
        }
        let n = v + step;
        proof {
            assert forall|x: int| v < x < n implies !on_step(x, start as int, step as int) by {
                lemma_step_gap(v - start, step as int, x - start);
            }
            lemma_step_next(v - start, step as int);
            assert(stepped(start as int, v as int, step as int) =~= stepped(
                start as int,
                n as int - 1,
                step as int,
            ));
        }
        v = n;
    }
    bits
}

fn copy_chars(s: &[char]) -> (r: Vec<char>)
    ensures
        r@ == s@,
{
    let mut r: Vec<char> = Vec::new();
    let mut i: usize = 0;
    while i < s.len()
        invariant
            i <= s@.len(),
            r@ == s@.take(i as int),
        decreases s@.len() - i,
    {
        r.push(s[i]);
        assert(s@.take(i as int + 1) =~= s@.take(i as int).push(s@[i as int]));
        i = i + 1;
    }
    assert(r@ =~= s@);
    r
}

/// The range part and step of a piece (`range/step`, or the piece with step 1).
fn piece_step(orig: &str, piece: &[char]) -> (r: Result<(Vec<char>, u8), CronError>)
    ensures
        match spec_split_once(piece@, '/') {
            Some((rp, st)) => match spec_parse_u8(st) {
                Some(v) => r matches Ok((x, y)) && x@ == rp && y == v,
                None => is_parse_error_of(r, orig@) && has_reason(r, "step parse: "@ + int_error_text(u8_error(st))),
            },
            None => r matches Ok((x, y)) && x@ == piece@ && y == 1,
        },
{
    match split_once_chars(piece, '/') {
        Some((rp, st)) => match parse_u8_chars(st.as_slice()) {
            Ok(v) => Ok((rp, v)),
            Err(kind) => Err(parse_error(orig, int_reason("step parse: ", kind))),
        },
        None => Ok((copy_chars(piece), 1u8)),
    }
}

/// The bounds that a range part denotes.
fn piece_bounds(orig: &str, range_part: &[char], lo: u8, hi: u8) -> (r: Result<(u8, u8), CronError>)
    ensures
        match spec_bounds(range_part@, lo, hi) {
            Some(b) => r == Ok::<(u8, u8), CronError>(b),
            None => is_parse_error_of(r, orig@) && has_reason(r, bounds_reason(range_part@)),
        },
{
    match split_once_chars(range_part, '-') {
        Some((a, b)) => {
            let x = match parse_u8_chars(a.as_slice()) {
                Ok(v) => v,
                Err(kind) => {
                    return Err(parse_error(orig, int_reason("range start: ", kind)));
                },
            };
            let y = match parse_u8_chars(b.as_slice()) {
                Ok(v) => v,
                Err(kind) => {
                    return Err(parse_error(orig, int_reason("range end: ", kind)));
                },
            };
            Ok((x, y))
        },
        None => {
            if range_part.len() == 1 && range_part[0] == '*' {
                assert(range_part@ =~= seq!['*']);
                Ok((lo, hi))
            } else {
                assert(range_part@ != seq!['*']);
                match parse_u8_chars(range_part) {
                    Ok(v) => Ok((v, v)),
                    Err(kind) => Err(parse_error(orig, int_reason("literal parse: ", kind))),
                }
            }
        },
    }
}

/// ORs the values of one numeric piece into `bits`.
fn or_numeric_piece(orig: &str, piece: &[char], lo: u8, hi: u8, bits: &mut u64) -> (r: Result<
    (),
    CronError,
>)
    requires
        hi < 64,
    ensures
        match spec_numeric_piece(piece@, lo, hi) {
            Some(set) => r is Ok && bit_set(*final(bits)) == bit_set(*old(bits)).union(set),
            None => is_parse_error_of(r, orig@) && has_reason(r, numeric_reason(piece@, lo, hi)),
        },
{
    let (range_part, step) = piece_step(orig, piece)?;
    if step == 0 {
        return Err(parse_error(orig, String::from_str("step must be > 0")));
    }
    let (start, end) = piece_bounds(orig, range_part.as_slice(), lo, hi)?;
    if start < lo || end > hi || start > end {
        let mut m = String::new();
        push_str(&mut m, "out of range ");
        push_decimal(&mut m, lo as u64);
        push_str(&mut m, "..=");
        push_decimal(&mut m, hi as u64);
        return Err(parse_error(orig, m));
    }
    *bits = fill_stepped(*bits, start, end, step);
    Ok(())
}

fn lookup_alias(aliases: &[(&str, u8)], name: &[char]) -> (r: Option<u8>)
    ensures
        r == spec_alias_lookup(alias_view(aliases@), name@),
{
    let ghost view = alias_view(aliases@);
    let mut i: usize = 0;
    while i < aliases.len()
        invariant
            i <= aliases@.len(),
            view == alias_view(aliases@),
            spec_alias_lookup(view, name@) == spec_alias_lookup(view.skip(i as int), name@),
        decreases aliases@.len() - i,
    {
        let ghost rest = view.skip(i as int);
        assert(rest.drop_first() =~= view.skip(i as int + 1));
        assert(rest[0] == (aliases@[i as int].0@, aliases@[i as int].1));
        if chars_eq_str(name, aliases[i].0) {
            return Some(aliases[i].1);
        }
        i = i + 1;
    }
    None
}

fn alias_piece(
    orig: &str,
    piece: &[char],
    lo: u8,
    hi: u8,
    aliases: &[(&str, u8)],
    bits: &mut u64,
) -> (r: Result<(), CronError>)
    requires
        hi < 64,
    ensures
        match spec_alias_piece(piece@, lo, hi, alias_view(aliases@)) {
            Some(set) => r is Ok && bit_set(*final(bits)) == bit_set(*old(bits)).union(set),
            None => is_parse_error_of(r, orig@) && has_reason(r, alias_reason(piece@, lo, hi, alias_view(aliases@))),
        },
{
    if let Some(v) = lookup_alias(aliases, piece) {
        if v < lo || v > hi {
            let mut m = String::new();
            push_str(&mut m, "alias `");
            push_str(&mut m, string_from_chars(piece).as_str());
            push_str(&mut m, "` = ");
            push_decimal(&mut m, v as u64);
            push_str(&mut m, " out of range ");
            push_decimal(&mut m, lo as u64);
            push_str(&mut m, "..=");
            push_decimal(&mut m, hi as u64);
            return Err(parse_error(orig, m));
        }
        let ghost old_set = bit_set(*bits);
        *bits = add_bit(*bits, v);
        assert(old_set.insert(v as int) =~= old_set.union(set![v as int]));
        return Ok(());
    }
    let named: Option<(u8, u8)> = match split_once_chars(piece, '-') {
        Some((a, b)) => match (lookup_alias(aliases, a.as_slice()), lookup_alias(aliases, b.as_slice())) {
            (Some(x), Some(y)) => Some((x, y)),
            _ => None,
        },
        None => None,
    };
    match named {
        Some((s, e)) => {
            if s < lo || e > hi || s > e {
                return Err(parse_error(orig, range_reason("alias range ", s, "..", e, lo, hi)));
            }
            *bits = fill_stepped(*bits, s, e, 1);
            Ok(())
        },
        None => or_numeric_piece(orig, piece, lo, hi, bits),
    }
}

/// ORs every comma-separated piece of `cs` into a fresh bitmap.
#[verifier::rlimit(40)]
fn parse_pieces(orig: &str, cs: &[char], lo: u8, hi: u8, aliases: &[(&str, u8)]) -> (r: Result<
    u64,
    CronError,
>)
    requires
        hi < 64,
    ensures
        match spec_field(cs@, lo, hi, alias_view(aliases@)) {
            Some(set) => r matches Ok(bits) && bit_set(bits) == set,
            None => is_parse_error_of(r, orig@) && has_reason(r, field_reason(cs@, lo, hi, alias_view(aliases@))),
        },
{
    let pieces = split_chars(cs, ',');
    let ghost pv = views(pieces@);
    let mut bits: u64 = 0;
    proof {
        lemma_empty_bit_set();
        assert(pv.take(0) =~= Seq::<Seq<char>>::empty());
    }
    let mut i: usize = 0;
    while i < pieces.len()
        invariant
            hi < 64,
            i <= pieces@.len(),
            pv == views(pieces@),
            pv == split_on(cs@, ','),
            spec_union(pv.take(i as int), lo, hi, alias_view(aliases@)) == Some(bit_set(bits)),
        decreases pieces@.len() - i,
    {
        assert(pv.take(i as int + 1).drop_last() =~= pv.take(i as int));
        assert(pv.take(i as int + 1).last() == pieces@[i as int]@);
        let step = alias_piece(orig, pieces[i].as_slice(), lo, hi, aliases, &mut bits);
        if step.is_err() {
            proof {
                lemma_union_fails_forward(pv, i as int + 1, lo, hi, alias_view(aliases@));
                assert(union_reason(pv.take(i as int + 1), lo, hi, alias_view(aliases@)) == alias_reason(
                    pieces@[i as int]@,
                    lo,
                    hi,
                    alias_view(aliases@),
                ));
            }
            return match step {
                Err(e) => Err(e),
                Ok(_) => Ok(bits),
            };
        }
        i = i + 1;
    }
    assert(pv.take(pieces@.len() as int) =~= pv);
    Ok(bits)
}

/// One cron field as a 64-bit occupancy bitmap over `[lo, hi]`.
#[derive(Debug, Clone, PartialEq, Eq)]
pub struct Field {
    /// The field's text.
    pub raw: String,
    /// Smallest admissible value.
    pub lo: u8,
    /// Largest admissible value.
    pub hi: u8,
    /// Occupancy bitmap: bit `v` is set when `v` matches.
    pub bits: u64,
}

/// Month names (case-insensitive three-letter prefix), JAN = 1 .. DEC = 12.
pub const MONTH_ALIASES: [(&'static str, u8); 12] = [
    ("JAN", 1),
    ("FEB", 2),
    ("MAR", 3),
    ("APR", 4),
    ("MAY", 5),
    ("JUN", 6),
    ("JUL", 7),
    ("AUG", 8),
    ("SEP", 9),
    ("OCT", 10),
    ("NOV", 11),
    ("DEC", 12),
];

/// Weekday names (case-insensitive three-letter prefix), SUN = 0 .. SAT = 6.
pub const DOW_ALIASES: [(&'static str, u8); 7] = [
    ("SUN", 0),
    ("MON", 1),
    ("TUE", 2),
    ("WED", 3),
    ("THU", 4),
    ("FRI", 5),
    ("SAT", 6),
];

/// The field was parsed from `raw` over `[lo, hi]` and holds exactly `set`.
pub open spec fn field_holds(f: Field, raw: Seq<char>, lo: u8, hi: u8, set: Set<int>) -> bool {
    f.raw@ == raw && f.lo == lo && f.hi == hi && bit_set(f.bits) == set
}

impl Field {
    /// Parses a field that may name values through `aliases`; names are
    /// matched after ASCII upper-casing the whole field.
    pub fn parse_alias(s: &str, lo: u8, hi: u8, aliases: &[(&str, u8)]) -> (r: CronResult<Field>)
        requires
            hi < 64,
        ensures
            match spec_field(upper(s@), lo, hi, alias_view(aliases@)) {
                Some(set) => r matches Ok(f) && field_holds(f, s@, lo, hi, set),
                None => is_parse_error_of(r, s@) && has_reason(r, field_reason(upper(s@), lo, hi, alias_view(aliases@))),
            },
    {
        let cs = chars_of(s);
        let up = map_upper(&cs);
        let bits = parse_pieces(s, up.as_slice(), lo, hi, aliases)?;
        Ok(Field { raw: s.to_owned(), lo, hi, bits })
    }

    /// Parses a numeric field (`*`, `5`, `1,3,5`, `*/15`, `0-23`, `1-30/2`).
    pub fn parse(s: &str, lo: u8, hi: u8) -> (r: CronResult<Field>)
        requires
            hi < 64,
        ensures
            match spec_field(s@, lo, hi, seq![]) {
                Some(set) => r matches Ok(f) && field_holds(f, s@, lo, hi, set),
                None => is_parse_error_of(r, s@) && has_reason(r, field_reason(s@, lo, hi, seq![])),
            },
    {
        let cs = chars_of(s);
        let no_aliases: [(&str, u8); 0] = [];
        assert(alias_view(no_aliases@) =~= seq![]);
        let bits = parse_pieces(s, cs.as_slice(), lo, hi, &no_aliases)?;
        Ok(Field { raw: s.to_owned(), lo, hi, bits })
    }

    /// Whether `value` is in the field.
    pub fn matches(&self, value: u8) -> (r: bool)
        requires
            value < 64,
        ensures
            r == bit_set(self.bits).contains(value as int),
    {
        self.bits & (1u64 << (value as u64)) != 0
    }
}

// ---------------------------------------------------------------------------
// Trimming and words
// ---------------------------------------------------------------------------

/// `s` without its leading whitespace.
pub open spec fn trim_start(s: Seq<char>) -> Seq<char>
    decreases s.len(),
{
    if s.len() > 0 && is_ws(s[0]) {
        trim_start(s.drop_first())
    } else {
        s
    }
}

/// `s` without its trailing whitespace.
pub open spec fn trim_end(s: Seq<char>) -> Seq<char>
    decreases s.len(),
{
    if s.len() > 0 && is_ws(s.last()) {
        trim_end(s.drop_last())
    } else {
        s
    }
}

/// `s` without leading and trailing whitespace (what `str::trim` yields).
pub open spec fn trim(s: Seq<char>) -> Seq<char> {
    trim_end(trim_start(s))
}

/// The maximal runs of non-whitespace characters (what `split_whitespace` yields).
pub open spec fn ws_words(s: Seq<char>) -> Seq<Seq<char>>
    decreases s.len(),
{
    if s.len() == 0 {
        seq![]
    } else {
        let prev = ws_words(s.drop_last());
        let c = s.last();
        if is_ws(c) {
            prev
        } else if s.len() >= 2 && !is_ws(s[s.len() - 2]) {
            prev.update(prev.len() - 1, prev.last().push(c))
        } else {
            prev.push(seq![c])
        }
    }
}

proof fn lemma_ws_words_nonempty(s: Seq<char>)
    requires
        s.len() > 0,
        !is_ws(s.last()),
    ensures
        ws_words(s).len() > 0,
    decreases s.len(),
{
    if s.len() >= 2 && !is_ws(s[s.len() - 2]) {
        lemma_ws_words_nonempty(s.drop_last());
    }
}

#[verifier::rlimit(30)]
pub(crate) fn trimmed(s: &[char]) -> (r: Vec<char>)
    ensures
        r@ == trim(s@),
{
    let mut a: usize = 0;
    while a < s.len() && is_whitespace_char(s[a])
        invariant
            a <= s@.len(),
            trim_start(s@) == trim_start(s@.skip(a as int)),
        decreases s@.len() - a,
    {
        assert(s@.skip(a as int).drop_first() =~= s@.skip(a as int + 1));
        a = a + 1;
    }
    let ghost t = s@.skip(a as int);
    assert(trim_start(t) == t);
    let mut b: usize = s.len();
    assert(t.take(b - a) =~= t);
    while b > a && is_whitespace_char(s[b - 1])
        invariant
            a <= b <= s@.len(),
            t == s@.skip(a as int),
            trim_end(t) == trim_end(t.take(b - a)),
        decreases b,
    {
        assert(t.take(b - a).drop_last() =~= t.take(b - 1 - a));
        b = b - 1;
    }
    assert(trim_end(t.take(b - a)) == t.take(b - a));
    let mut r: Vec<char> = Vec::new();
    let mut i: usize = a;
    while i < b
        invariant
            a <= i <= b <= s@.len(),
            r@ == s@.subrange(a as int, i as int),
        decreases b - i,
    {
        r.push(s[i]);
        assert(s@.subrange(a as int, i as int + 1) =~= s@.subrange(a as int, i as int).push(s@[i as int]));
        i = i + 1;
    }
    assert(r@ =~= t.take(b - a));
    r
}

pub(crate) fn split_words(s: &[char]) -> (r: Vec<Vec<char>>)
    ensures
        views(r@) == ws_words(s@),
{
    let mut done: Vec<Vec<char>> = Vec::new();
    let mut cur: Vec<char> = Vec::new();
    let mut in_word = false;
    let mut i: usize = 0;
    while i < s.len()
        invariant
            i <= s@.len(),
            in_word == (i > 0 && !is_ws(s@[i - 1])),
            ws_words(s@.take(i as int)) == (if in_word {
                views(done@).push(cur@)
            } else {
                views(done@)
            }),
        decreases s@.len() - i,
    {
        let c = s[i];
        let ghost t = s@.take(i as int + 1);
        assert(t.drop_last() =~= s@.take(i as int));
        assert(t.last() == c);
        if is_whitespace_char(c) {
            if in_word {
                done.push(cur);
                cur = Vec::new();
            }
            in_word = false;
        } else if in_word {
            assert(t[t.len() - 2] == s@[i - 1]);
            cur.push(c);
            assert(views(done@).push(cur@) =~= ws_words(t));
        } else {
            cur = Vec::new();
            cur.push(c);
            assert(cur@ =~= seq![c]);
            in_word = true;
        }
        i = i + 1;
    }
    assert(s@.take(s@.len() as int) =~= s@);
    if in_word {
        done.push(cur);
    }
    assert(views(done@) =~= ws_words(s@));
    done
}

// ---------------------------------------------------------------------------
// Expressions
// ---------------------------------------------------------------------------

/// Standard five-field cron expression: minute, hour, day of month, month, day of week.
#[derive(Debug, Clone, PartialEq, Eq)]
pub struct CronExpr {
    /// The (trimmed) text the expression was parsed from.
    pub raw: String,
    /// The five fields, in order.
    pub fields: [Field; 5],
}

/// Smallest value of field `i`.
pub open spec fn field_lo(i: int) -> u8 {
    if i == 2 || i == 3 {
        1
    } else {
        0
    }
}

/// Largest value of field `i`.
pub open spec fn field_hi(i: int) -> u8 {
    if i == 0 {
        59
    } else if i == 1 {
        23
    } else if i == 2 {
        31
    } else if i == 3 {
        12
    } else {
        6
    }
}

/// The values that `word` denotes as field `i` (month and weekday accept names).
#[verifier::opaque]
pub open spec fn spec_cron_field(word: Seq<char>, i: int) -> Option<Set<int>> {
    if i == 3 {
        spec_field(upper(word), 1, 12, alias_view(MONTH_ALIASES@))
    } else if i == 4 {
        spec_field(upper(word), 0, 6, alias_view(DOW_ALIASES@))
    } else {
        spec_field(word, field_lo(i), field_hi(i), seq![])
    }
}

/// Why word `i` of a five-field expression is refused.
pub open spec fn cron_field_reason(word: Seq<char>, i: int) -> Seq<char> {
    if i == 3 {
        field_reason(upper(word), 1, 12, alias_view(MONTH_ALIASES@))
    } else if i == 4 {
        field_reason(upper(word), 0, 6, alias_view(DOW_ALIASES@))
    } else {
        field_reason(word, field_lo(i), field_hi(i), seq![])
    }
}

/// `e` holds the fields parsed from the five words `w`, with text `raw`.
pub open spec fn expr_holds(e: CronExpr, raw: Seq<char>, w: Seq<Seq<char>>) -> bool {
    &&& e.raw@ == raw
    &&& forall|i: int|
        0 <= i < 5 ==> ((#[trigger] spec_cron_field(w[i], i)) matches Some(set) && field_holds(
            e.fields@[i],
            w[i],
            field_lo(i),
            field_hi(i),
            set,
        ))
}

/// The outcome of parsing the trimmed five-field text `t`.
pub open spec fn five_outcome(r: CronResult<CronExpr>, t: Seq<char>) -> bool {
    let w = ws_words(t);
    if w.len() != 5 {
        r == Err::<CronExpr, CronError>(CronError::FieldCountMismatch(w.len() as usize))
    } else if forall|i: int| 0 <= i < 5 ==> (#[trigger] spec_cron_field(w[i], i)) is Some {
        r matches Ok(e) && expr_holds(e, t, w)
    } else {
        exists|i: int|
            #[trigger] first_bad_field(w, i) && is_parse_error_of(r, w[i]) && has_reason(r, cron_field_reason(w[i], i))
    }
}

/// Field `i` is the first of the five words that does not parse.
pub open spec fn first_bad_field(w: Seq<Seq<char>>, i: int) -> bool {
    &&& 0 <= i < 5
    &&& forall|j: int| 0 <= j < i ==> (#[trigger] spec_cron_field(w[j], j)) is Some
    &&& spec_cron_field(w[i], i) is None
}

/// The five-field text a Vixie shorthand stands for (`@reboot` excluded).
pub open spec fn shorthand(name: Seq<char>) -> Option<Seq<char>> {
    if name == "hourly"@ {
        Some("0 * * * *"@)
    } else if name == "daily"@ || name == "midnight"@ {
        Some("0 0 * * *"@)
    } else if name == "weekly"@ {
        Some("0 0 * * 0"@)
    } else if name == "monthly"@ {
        Some("0 0 1 * *"@)
    } else if name == "yearly"@ || name == "annually"@ {
        Some("0 0 1 1 *"@)
    } else {
        None
    }
}

/// The fixed timetable of `@reboot`: minute 0, hour 0, the 1st of January, Sunday.
pub open spec fn reboot_holds(e: CronExpr) -> bool {
    &&& e.raw@ == "@reboot"@
    &&& field_holds(e.fields@[0], "0"@, 0, 59, set![0])
    &&& field_holds(e.fields@[1], "0"@, 0, 23, set![0])
    &&& field_holds(e.fields@[2], "1"@, 1, 31, set![1])
    &&& field_holds(e.fields@[3], "1"@, 1, 12, set![1])
    &&& field_holds(e.fields@[4], "0"@, 0, 6, set![0])
}

/// The outcome of [`CronExpr::parse`] on `expr`.
pub open spec fn parse_outcome(r: CronResult<CronExpr>, expr: Seq<char>) -> bool {
    let t = trim(expr);
    if t.len() > 0 && t[0] == '@' {
        let name = lower(t.drop_first());
        if name == "reboot"@ {
            r matches Ok(e) && reboot_holds(e)
        } else {
            match shorthand(name) {
                Some(exp) => five_outcome(r, trim(exp)),
                None => r matches Err(CronError::UnknownShorthand(m)) && m@ == seq!['@'] + name,
            }
        }
    } else {
        five_outcome(r, t)
    }
}

proof fn lemma_small_bit_sets()
    ensures
        bit_set(1) == set![0int],
        bit_set(2) == set![1int],
{
    assert forall|w: int| 0 <= w < 64 implies (has_bit(1, w) <==> w == 0) && (has_bit(2, w) <==> w
        == 1) by {
        let x = w as u64;
        assert((1u64 & (1u64 << x) != 0) <==> x == 0) by (bit_vector)
            requires
                x < 64,
        ;
        assert((2u64 & (1u64 << x) != 0) <==> x == 1) by (bit_vector)
            requires
                x < 64,
        ;
    }
    assert(bit_set(1) =~= set![0int]);
    assert(bit_set(2) =~= set![1int]);
}

fn reboot_expr() -> (e: CronExpr)
    ensures
        reboot_holds(e),
{
    proof {
        lemma_small_bit_sets();
    }
    CronExpr {
        raw: String::from_str("@reboot"),
        fields: [
            Field { raw: String::from_str("0"), lo: 0, hi: 59, bits: 1 },
            Field { raw: String::from_str("0"), lo: 0, hi: 23, bits: 1 },
            Field { raw: String::from_str("1"), lo: 1, hi: 31, bits: 2 },
            Field { raw: String::from_str("1"), lo: 1, hi: 12, bits: 2 },
            Field { raw: String::from_str("0"), lo: 0, hi: 6, bits: 1 },
        ],
    }
}

fn parse_cron_field(word: &Vec<char>, i: usize) -> (r: CronResult<Field>)
    requires
        i < 5,
    ensures
        match spec_cron_field(word@, i as int) {
            Some(set) => r matches Ok(f) && field_holds(f, word@, field_lo(i as int), field_hi(i as int), set),
            None => is_parse_error_of(r, word@) && has_reason(r, cron_field_reason(word@, i as int)),
        },
{
    proof {
        reveal(spec_cron_field);
    }
    let text = string_from_chars(word.as_slice());
    if i == 0 {
        Field::parse(text.as_str(), 0, 59)
    } else if i == 1 {
        Field::parse(text.as_str(), 0, 23)
    } else if i == 2 {
        Field::parse(text.as_str(), 1, 31)
    } else if i == 3 {
        Field::parse_alias(text.as_str(), 1, 12, &MONTH_ALIASES)
    } else {
        Field::parse_alias(text.as_str(), 0, 6, &DOW_ALIASES)
    }
}

#[verifier::rlimit(40)]
fn parse_five(t: &Vec<char>) -> (r: CronResult<CronExpr>)
    ensures
        five_outcome(r, t@),
{
    let words = split_words(t.as_slice());
    let ghost w = views(words@);
    if words.len() != 5 {
        return Err(CronError::FieldCountMismatch(words.len()));
    }
    let mut fields: Vec<Field> = Vec::new();
    let mut i: usize = 0;
    while i < 5
        invariant
            i <= 5,
            words@.len() == 5,
            w == views(words@),
            w == ws_words(t@),
            fields@.len() == i,
            forall|j: int|
                0 <= j < i ==> ((#[trigger] spec_cron_field(w[j], j)) matches Some(set)
                    && field_holds(fields@[j], w[j], field_lo(j), field_hi(j), set)),
        decreases 5 - i,
    {
        assert(words@[i as int]@ == w[i as int]);
        match parse_cron_field(&words[i], i) {
            Ok(f) => {
                fields.push(f);
            },
            Err(e) => {
                assert(is_parse_error_of(Err::<CronExpr, CronError>(e), w[i as int]));
                assert(has_reason(Err::<CronExpr, CronError>(e), cron_field_reason(w[i as int], i as int)));
                assert(spec_cron_field(w[i as int], i as int) is None);
                assert(forall|j: int| 0 <= j < i ==> (#[trigger] spec_cron_field(w[j], j)) is Some);
                assert(!(forall|j: int| 0 <= j < 5 ==> (#[trigger] spec_cron_field(w[j], j)) is Some));
                assert(first_bad_field(w, i as int));
                return Err(e);
            },
        }
        i = i + 1;
    }
    let ghost fs = fields@;
    let f4 = fields.pop().unwrap();
    let f3 = fields.pop().unwrap();
    let f2 = fields.pop().unwrap();
    let f1 = fields.pop().unwrap();
    let f0 = fields.pop().unwrap();
    let e = CronExpr { raw: string_from_chars(t.as_slice()), fields: [f0, f1, f2, f3, f4] };
    assert(e.fields@ =~= fs);
    Ok(e)
}

fn parse_shorthand(name: &Vec<char>) -> (r: CronResult<CronExpr>)
    ensures
        if name@ == "reboot"@ {
            r matches Ok(e) && reboot_holds(e)
        } else {
            match shorthand(name@) {
                Some(exp) => five_outcome(r, trim(exp)),
                None => r matches Err(CronError::UnknownShorthand(m)) && m@ == seq!['@'] + name@,
            }
        },
{
    if chars_eq_str(name.as_slice(), "reboot") {
        Ok(reboot_expr())
    } else if chars_eq_str(name.as_slice(), "hourly") {
        parse_five_str("0 * * * *")
    } else if chars_eq_str(name.as_slice(), "daily") || chars_eq_str(name.as_slice(), "midnight") {
        parse_five_str("0 0 * * *")
    } else if chars_eq_str(name.as_slice(), "weekly") {
        parse_five_str("0 0 * * 0")
    } else if chars_eq_str(name.as_slice(), "monthly") {
        parse_five_str("0 0 1 * *")
    } else if chars_eq_str(name.as_slice(), "yearly") || chars_eq_str(name.as_slice(), "annually") {
        parse_five_str("0 0 1 1 *")
    } else {
        let mut m = String::from_str("@");
        proof {
            reveal_strlit("@");
        }
        assert(m@ =~= seq!['@']);
        push_str(&mut m, string_from_chars(name.as_slice()).as_str());
        Err(CronError::UnknownShorthand(m))
    }
}

fn parse_five_str(text: &str) -> (r: CronResult<CronExpr>)
    ensures
        five_outcome(r, trim(text@)),
{
    let rc = chars_of(text);
    let rt = trimmed(rc.as_slice());
    parse_five(&rt)
}

impl CronExpr {
    /// Parses a five-field expression or a Vixie `@` shorthand.
    ///
    /// `@hourly` is `0 * * * *`; `@daily` and `@midnight` are `0 0 * * *`;
    /// `@weekly` is `0 0 * * 0`; `@monthly` is `0 0 1 * *`; `@yearly` and
    /// `@annually` are `0 0 1 1 *`; `@reboot` is a marker with a dummy timetable.
    pub fn parse(expr: &str) -> (r: CronResult<CronExpr>)
        ensures
            parse_outcome(r, expr@),
    {
        let cs = chars_of(expr);
        let t = trimmed(cs.as_slice());
        if t.len() > 0 && t[0] == '@' {
            let mut rest: Vec<char> = Vec::new();
            let mut i: usize = 1;
            while i < t.len()
                invariant
                    1 <= i <= t@.len(),
                    rest@ == t@.subrange(1, i as int),
                decreases t@.len() - i,
            {
                rest.push(t[i]);
                assert(t@.subrange(1, i as int + 1) =~= t@.subrange(1, i as int).push(t@[i as int]));
                i = i + 1;
            }
            assert(rest@ =~= t@.drop_first());
            let name = map_lower(rest.as_slice());
            return parse_shorthand(&name);
        }
        parse_five(&t)
    }

    /// Whether this is the `@reboot` marker (a one-shot at startup, no timetable).
    pub fn is_reboot(&self) -> (r: bool)
        ensures
            r == (self.raw@ == "@reboot"@),
    {
        str_eq(self.raw.as_str(), "@reboot")
    }

    /// Whether (minute, hour, day of month, month, day of week) matches.
    pub fn matches(&self, m: u8, h: u8, dom: u8, mon: u8, dow: u8) -> (r: bool)
        requires
            m < 64,
            h < 64,
            dom < 64,
            mon < 64,
            dow < 64,
        ensures
            r == spec_matches(*self, m as int, h as int, dom as int, mon as int, dow as int),
    {
        self.fields[0].matches(m) && self.fields[1].matches(h) && self.fields[2].matches(dom)
            && self.fields[3].matches(mon) && self.fields[4].matches(dow)
    }

    /// The text of the expression (what `Display` would print).
    pub fn to_string(&self) -> (s: String)
        ensures
            s@ == self.raw@,
    {
        self.raw.clone()
    }
}

/// `e` matches the given civil minute.
pub open spec fn spec_matches(e: CronExpr, m: int, h: int, dom: int, mon: int, dow: int) -> bool {
    bit_set(e.fields@[0].bits).contains(m) && bit_set(e.fields@[1].bits).contains(h) && bit_set(
        e.fields@[2].bits,
    ).contains(dom) && bit_set(e.fields@[3].bits).contains(mon) && bit_set(
        e.fields@[4].bits,
    ).contains(dow)
}

impl core::str::FromStr for CronExpr {
    type Err = CronError;

    fn from_str(s: &str) -> Result<Self, Self::Err> {
        CronExpr::parse(s)
    }
}

/// Named interval schedule (not a cron expression).
#[derive(Debug, Clone, PartialEq, Eq)]
pub struct Schedule {
    /// Schedule name.
    pub name: String,
    /// Interval in seconds; must be positive.
    pub interval_secs: i64,
}

impl Schedule {
    /// Builds a named interval schedule.
    pub fn new(name: &str, interval_secs: i64) -> (s: Self)
        ensures
            s.name@ == name@,
            s.interval_secs == interval_secs,
    {
        Schedule { name: name.to_owned(), interval_secs }
    }

    /// Rejects a non-positive interval.
    pub fn validate(&self) -> (r: CronResult<()>)
        ensures
            self.interval_secs > 0 ==> r is Ok,
            self.interval_secs <= 0 ==> r == Err::<(), CronError>(
                CronError::NonPositiveInterval(self.interval_secs),
            ),
    {
        if self.interval_secs <= 0 {
            return Err(CronError::NonPositiveInterval(self.interval_secs));
        }
        Ok(())
    }
}

/// Validates a named interval schedule.
pub fn validate_schedule(s: &Schedule) -> (r: CronResult<()>)
    ensures
        s.interval_secs > 0 ==> r is Ok,
        s.interval_secs <= 0 ==> r == Err::<(), CronError>(CronError::NonPositiveInterval(s.interval_secs)),
{
    s.validate()
}

/// Parses a cron expression.
pub fn validate_expr(expr: &str) -> (r: CronResult<CronExpr>)
    ensures
        parse_outcome(r, expr@),
{
    CronExpr::parse(expr)
}

/// Human description; `@reboot` reads "at startup (one-shot)".
pub fn describe(expr: &CronExpr) -> (s: String)
    ensures
        expr.raw@ == "@reboot"@ ==> s@ == "at startup (one-shot)"@,
        expr.raw@ != "@reboot"@ ==> s@ == "minute "@ + expr.fields@[0].raw@ + ", hour "@
            + expr.fields@[1].raw@ + ", dom "@ + expr.fields@[2].raw@ + ", month "@
            + expr.fields@[3].raw@ + ", dow "@ + expr.fields@[4].raw@,
{
    if expr.is_reboot() {
        return String::from_str("at startup (one-shot)");
    }
    let mut s = String::from_str("minute ");
    push_str(&mut s, expr.fields[0].raw.as_str());
    push_str(&mut s, ", hour ");
    push_str(&mut s, expr.fields[1].raw.as_str());
    push_str(&mut s, ", dom ");
    push_str(&mut s, expr.fields[2].raw.as_str());
    push_str(&mut s, ", month ");
    push_str(&mut s, expr.fields[3].raw.as_str());
    push_str(&mut s, ", dow ");
    push_str(&mut s, expr.fields[4].raw.as_str());
    s
}

/// Bitmap equality of two expressions (names and digits share bits, not text).
pub fn field_bits_eq(a: &CronExpr, b: &CronExpr) -> (r: bool)
    ensures
        r == (forall|i: int|
            0 <= i < 5 ==> a.fields@[i].lo == b.fields@[i].lo && a.fields@[i].hi == b.fields@[i].hi
                && (#[trigger] a.fields@[i]).bits == b.fields@[i].bits),
{
    let mut i: usize = 0;
    while i < 5
        invariant
            i <= 5,
            forall|j: int|
                0 <= j < i ==> a.fields@[j].lo == b.fields@[j].lo && a.fields@[j].hi
                    == b.fields@[j].hi && (#[trigger] a.fields@[j]).bits == b.fields@[j].bits,
        decreases 5 - i,
    {
        if !(a.fields[i].lo == b.fields[i].lo && a.fields[i].hi == b.fields[i].hi
            && a.fields[i].bits == b.fields[i].bits) {
            return false;
        }
        i = i + 1;
    }
    true
}

// ---------------------------------------------------------------------------
// Next match
// ---------------------------------------------------------------------------

/// A civil minute as walked by [`next_after`].
#[derive(Debug, Clone, Copy, PartialEq, Eq)]
pub struct CivilMinute {
    /// Year (leap days and weekdays).
    pub year: u16,
    /// Month, 1..=12 once walked.
    pub month: u8,
    /// Day of month.
    pub day: u8,
    /// Hour.
    pub hour: u8,
    /// Minute.
    pub minute: u8,
    /// Day of week, 0 = Sunday.
    pub dow: u8,
}

/// Gregorian leap year.
pub open spec fn is_leap(y: int) -> bool {
    y % 4 == 0 && (y % 100 != 0 || y % 400 == 0)
}

/// Days in month `mo` of year `y` (0 for a month outside 1..=12).
pub open spec fn days_in_month(y: int, mo: int) -> int {
    if mo == 1 || mo == 3 || mo == 5 || mo == 7 || mo == 8 || mo == 10 || mo == 12 {
        31
    } else if mo == 4 || mo == 6 || mo == 9 || mo == 11 {
        30
    } else if mo == 2 {
        if is_leap(y) {
            29
        } else {
            28
        }
    } else {
        0
    }
}

/// Sakamoto's month offsets.
pub open spec fn sakamoto_offset(mo: int) -> int {
    if mo == 1 {
        0
    } else if mo == 2 {
        3
    } else if mo == 3 {
        2
    } else if mo == 4 {
        5
    } else if mo == 5 {
        0
    } else if mo == 6 {
        3
    } else if mo == 7 {
        5
    } else if mo == 8 {
        1
    } else if mo == 9 {
        4
    } else if mo == 10 {
        6
    } else if mo == 11 {
        2
    } else {
        4
    }
}

/// Day of week (0 = Sunday) by Sakamoto's method; the year before January
/// and February wraps as a 16-bit year does.
pub open spec fn sakamoto(y: u16, mo: int, d: int) -> int {
    let ya: int = if mo < 3 {
        if y == 0 {
            65535
        } else {
            y - 1
        }
    } else {
        y as int
    };
    (d + sakamoto_offset(mo) + ya + ya / 4 - ya / 100 + ya / 400) % 7
}

/// One minute forward, or `None` once the walk passes the year after `year0`.
#[verifier::opaque]
pub open spec fn tick(year0: u16, c: CivilMinute) -> Option<CivilMinute> {
    if c.minute + 1 < 60 {
        Some(CivilMinute { minute: (c.minute + 1) as u8, ..c })
    } else if c.hour + 1 < 24 {
        Some(CivilMinute { minute: 0, hour: (c.hour + 1) as u8, ..c })
    } else if c.day + 1 <= days_in_month(c.year as int, c.month as int) {
        let d = (c.day + 1) as u8;
        Some(
            CivilMinute {
                minute: 0,
                hour: 0,
                day: d,
                dow: sakamoto(c.year, c.month as int, d as int) as u8,
                ..c
            },
        )
    } else if c.month + 1 <= 12 {
        let mo = (c.month + 1) as u8;
        Some(
            CivilMinute {
                minute: 0,
                hour: 0,
                day: 1,
                month: mo,
                dow: sakamoto(c.year, mo as int, 1) as u8,
                ..c
            },
        )
    } else if c.year + 1 > year0 + 1 {
        None
    } else {
        let y = (c.year + 1) as u16;
        Some(
            CivilMinute {
                minute: 0,
                hour: 0,
                day: 1,
                month: 1,
                year: y,
                dow: sakamoto(y, 1, 1) as u8,
            },
        )
    }
}

/// A real calendar date: a month from 1 to 12, and a day from 1 to at most
/// 30 in April, June, September and November, at most 28 in February (29
/// in a Gregorian leap year: divisible by 4, and by 400 when by 100), and
/// at most 31 otherwise.
pub open spec fn real_date(y: int, mo: int, d: int) -> bool {
    &&& 1 <= mo <= 12
    &&& 1 <= d <= 31
    &&& (mo == 4 || mo == 6 || mo == 9 || mo == 11) ==> d <= 30
    &&& mo == 2 ==> d <= (if y % 4 == 0 && (y % 100 != 0 || y % 400 == 0) {
        29int
    } else {
        28int
    })
}

/// A real minute of the day.
pub open spec fn real_time(h: int, m: int) -> bool {
    0 <= h < 24 && 0 <= m < 60
}

/// One step of the walk from a real date at a valid hour lands on a real
/// date and a real time of day.
proof fn lemma_tick_real(year0: u16, c: CivilMinute)
    requires
        real_date(c.year as int, c.month as int, c.day as int),
        c.hour < 24,
    ensures
        tick(year0, c) matches Some(n) ==> real_date(n.year as int, n.month as int, n.day as int) && real_time(
            n.hour as int,
            n.minute as int,
        ),
{
    reveal(tick);
    let y = c.year as int;
    let mo = c.month as int;
    if c.minute + 1 >= 60 && c.hour + 1 >= 24 {
        if c.day + 1 <= days_in_month(y, mo) {
            assert(real_date(y, mo, c.day + 1));
        } else if c.month + 1 <= 12 {
            assert(real_date(y, mo + 1, 1));
        }
    }
}

/// From the last minute of a real day the walk steps to midnight of the
/// next real day: the next day of the month when the month has it, else the
/// first of the next month, else the first of January of the next year. So
/// no real day is skipped and no unreal one is visited; and the weekday
/// moves on by one.
pub proof fn the_walk_steps_to_the_next_real_day(year0: u16, c: CivilMinute)
    requires
        real_date(c.year as int, c.month as int, c.day as int),
        c.hour == 23,
        c.minute == 59,
        c.year <= year0,
        year0 < u16::MAX,
    ensures
        tick(year0, c) matches Some(n) && n.hour == 0 && n.minute == 0 && {
            let next_day = real_date(c.year as int, c.month as int, c.day + 1);
            &&& next_day ==> n.year == c.year && n.month == c.month && n.day == c.day + 1
            &&& !next_day && c.month < 12 ==> n.year == c.year && n.month == c.month + 1 && n.day == 1
            &&& !next_day && c.month == 12 ==> n.year == c.year + 1 && n.month == 1 && n.day == 1
            &&& c.year >= 1 && c.dow as int == sakamoto(c.year, c.month as int, c.day as int) ==> n.dow == (c.dow + 1)
                % 7
        },
{
    reveal(tick);
    if c.year >= 1 {
        consecutive_days_have_consecutive_weekdays(c.year, c.month as int, c.day as int);
    }
    let y = c.year as int;
    let mo = c.month as int;
    let d = c.day as int;
    assert(real_date(y, mo, d + 1) <==> d + 1 <= days_in_month(y, mo)) by {
        if mo == 2 {
            if is_leap(y) {
                assert(days_in_month(y, mo) == 29);
            } else {
                assert(days_in_month(y, mo) == 28);
            }
        }
    }
    assert(c.year + 1 <= year0 + 1);
}

/// The year part of Sakamoto's sum grows by one, and by one more across a
/// leap day.
proof fn lemma_year_part_step(y: int)
    requires
        y >= 1,
    ensures
        year_part(y) - year_part(y - 1) == 1 + (if y % 4
            == 0 && (y % 100 != 0 || y % 400 == 0) {
            1int
        } else {
            0int
        }),
{
    assert(y / 4 - (y - 1) / 4 == if y % 4 == 0 { 1int } else { 0int });
    assert(y / 100 - (y - 1) / 100 == if y % 100 == 0 { 1int } else { 0int });
    assert(y / 400 - (y - 1) / 400 == if y % 400 == 0 { 1int } else { 0int });
    if y % 400 == 0 {
        assert(y % 100 == 0 && y % 4 == 0);
    } else if y % 100 == 0 {
        assert(y % 4 == 0);
    }
}

proof fn lemma_mod7_step(x: int, y: int)
    requires
        x >= 0,
        (y - x - 1) % 7 == 0,
    ensures
        y % 7 == (x % 7 + 1) % 7,
{
    vstd::arithmetic::div_mod::lemma_fundamental_div_mod(x, 7);
    vstd::arithmetic::div_mod::lemma_fundamental_div_mod(y - x - 1, 7);
    let q = x / 7;
    let r = x % 7;
    let k = (y - x - 1) / 7;
    assert(y == 7 * (q + k) + r + 1);
    if r + 1 < 7 {
        vstd::arithmetic::div_mod::lemma_fundamental_div_mod_converse(y, 7, q + k, r + 1);
    } else {
        vstd::arithmetic::div_mod::lemma_fundamental_div_mod_converse(y, 7, q + k + 1, 0);
    }
}

/// The year part of Sakamoto's sum for year `ya`.
pub open spec fn year_part(ya: int) -> int {
    ya + ya / 4 - ya / 100 + ya / 400
}

proof fn lemma_month_end_step(mo: int, d: int, a: int)
    requires
        1 <= mo < 12,
        mo != 2,
        a >= 0,
        d == (if mo == 4 || mo == 6 || mo == 9 || mo == 11 { 30int } else { 31int }),
    ensures
        (1 + sakamoto_offset(mo + 1) + a) % 7 == ((d + sakamoto_offset(mo) + a) % 7 + 1) % 7,
{
    lemma_mod7_step(d + sakamoto_offset(mo) + a, 1 + sakamoto_offset(mo + 1) + a);
}

/// Consecutive real days have consecutive weekdays: the day after a real
/// day (the next day of its month, else the first of the next month, else
/// the first of January of the next year) falls on the following weekday;
/// and 30 April 2026 is a Thursday.
pub proof fn consecutive_days_have_consecutive_weekdays(y: u16, mo: int, d: int)
    requires
        1 <= y < u16::MAX,
        real_date(y as int, mo, d),
    ensures
        real_date(y as int, mo, d + 1) ==> sakamoto(y, mo, d + 1) == (sakamoto(y, mo, d) + 1) % 7,
        !real_date(y as int, mo, d + 1) && mo < 12 ==> sakamoto(y, mo + 1, 1) == (sakamoto(y, mo, d) + 1) % 7,
        !real_date(y as int, mo, d + 1) && mo == 12 ==> sakamoto((y + 1) as u16, 1, 1) == (sakamoto(y, mo, d) + 1)
            % 7,
        sakamoto(2026, 4, 30) == 4,
{
    let yi = y as int;
    let ya = if mo < 3 { yi - 1 } else { yi };
    let a = year_part(ya);
    assert(a >= 0);
    assert(sakamoto(y, mo, d) == (d + sakamoto_offset(mo) + a) % 7);
    if real_date(yi, mo, d + 1) {
        assert(sakamoto(y, mo, d + 1) == (d + 1 + sakamoto_offset(mo) + a) % 7);
        lemma_mod7_step(d + sakamoto_offset(mo) + a, d + 1 + sakamoto_offset(mo) + a);
    } else if mo == 2 {
        lemma_year_part_step(yi);
        let leap: int = if yi % 4 == 0 && (yi % 100 != 0 || yi % 400 == 0) { 1 } else { 0 };
        assert(d == 28 + leap);
        assert(year_part(yi) == a + 1 + leap);
        assert(sakamoto(y, 3, 1) == (1 + 2 + year_part(yi)) % 7);
        lemma_mod7_step(d + 3 + a, 3 + year_part(yi));
    } else if mo < 12 {
        let ya2 = if mo + 1 < 3 { yi - 1 } else { yi };
        assert(ya2 == ya);
        assert(sakamoto(y, mo + 1, 1) == (1 + sakamoto_offset(mo + 1) + a) % 7);
        lemma_month_end_step(mo, d, a);
    } else {
        let y2 = (y + 1) as u16;
        assert(y2 as int == yi + 1);
        assert(d == 31);
        assert(sakamoto(y2, 1, 1) == (1 + 0 + year_part(yi)) % 7);
        lemma_mod7_step(31 + 4 + a, 1 + year_part(yi));
    }
    assert(sakamoto(2026, 4, 30) == 4);
}

/// Every minute the next-match search returns, from a real date at a valid
/// hour, is a real calendar date at a real time of day: in particular the
/// walk never steps onto a day a month does not have.
pub proof fn searched_minutes_are_real(e: CronExpr, year0: u16, c: CivilMinute, fuel: nat)
    requires
        real_date(c.year as int, c.month as int, c.day as int),
        c.hour < 24,
    ensures
        search(e, year0, c, fuel) matches Some(n) ==> real_date(n.year as int, n.month as int, n.day as int)
            && real_time(n.hour as int, n.minute as int),
    decreases fuel,
{
    if fuel > 0 {
        lemma_tick_real(year0, c);
        match tick(year0, c) {
            None => {},
            Some(n) => {
                searched_minutes_are_real(e, year0, n, (fuel - 1) as nat);
            },
        }
    }
}

/// The first minute after `c`, within `fuel` steps of the walk, that `e` matches.
pub open spec fn search(e: CronExpr, year0: u16, c: CivilMinute, fuel: nat) -> Option<CivilMinute>
    decreases fuel,
{
    if fuel == 0 {
        None
    } else {
        match tick(year0, c) {
            None => None,
            Some(n) => if spec_matches(
                e,
                n.minute as int,
                n.hour as int,
                n.day as int,
                n.month as int,
                n.dow as int,
            ) {
                Some(n)
            } else {
                search(e, year0, n, (fuel - 1) as nat)
            },
        }
    }
}

/// How many minutes [`next_after`] walks at most: a leap year's worth.
pub open spec fn search_horizon() -> nat {
    366 * 24 * 60
}

/// The walk stays within the ranges that `tick` keeps: every field fits a
/// bitmap index and the year does not pass the year after `year0`.
pub open spec fn walkable(year0: u16, c: CivilMinute) -> bool {
    c.minute < 255 && c.hour < 64 && c.day < 64 && c.month < 64 && c.dow < 64 && c.year <= year0 + 1
}

fn days_in_month_exec(y: u16, mo: u8) -> (d: u8)
    ensures
        d == days_in_month(y as int, mo as int),
{
    if mo == 1 || mo == 3 || mo == 5 || mo == 7 || mo == 8 || mo == 10 || mo == 12 {
        31
    } else if mo == 4 || mo == 6 || mo == 9 || mo == 11 {
        30
    } else if mo == 2 {
        if y % 4 == 0 && (y % 100 != 0 || y % 400 == 0) {
            29
        } else {
            28
        }
    } else {
        0
    }
}

fn compute_dow(y: u16, mo: u8, d: u8) -> (r: u8)
    requires
        1 <= mo <= 12,
    ensures
        r == sakamoto(y, mo as int, d as int),
        r < 7,
{
    let y_adj: u16 = if mo < 3 {
        if y == 0 {
            65535
        } else {
            y - 1
        }
    } else {
        y
    };
    let t: [i32; 12] = [0, 3, 2, 5, 0, 3, 5, 1, 4, 6, 2, 4];
    let m_idx = (mo - 1) as usize;
    let off = t[m_idx];
    assert(off == sakamoto_offset(mo as int));
    let y_i = y_adj as i32;
    let d_i = d as i32;
    let total = d_i + off + y_i + y_i / 4 - y_i / 100 + y_i / 400;
    assert(total >= 0);
    let dow = total % 7;
    dow as u8
}

fn step_clock(year0: u16, c: CivilMinute) -> (r: Option<CivilMinute>)
    requires
        year0 < 65534,
        walkable(year0, c),
    ensures
        r == tick(year0, c),
        r matches Some(n) ==> walkable(year0, n) && n.minute < 60,
{
    proof {
        reveal(tick);
    }
    if c.minute + 1 < 60 {
        Some(CivilMinute { minute: c.minute + 1, ..c })
    } else if c.hour + 1 < 24 {
        Some(CivilMinute { minute: 0, hour: c.hour + 1, ..c })
    } else if (c.day as u16) + 1 <= days_in_month_exec(c.year, c.month) as u16 {
        let d = c.day + 1;
        proof {
            assert(1 <= c.month <= 12);
        }
        Some(CivilMinute { minute: 0, hour: 0, day: d, dow: compute_dow(c.year, c.month, d), ..c })
    } else if c.month + 1 <= 12 {
        let mo = c.month + 1;
        Some(CivilMinute { minute: 0, hour: 0, day: 1, month: mo, dow: compute_dow(c.year, mo, 1), ..c })
    } else if c.year + 1 > year0 + 1 {
        None
    } else {
        let y = c.year + 1;
        Some(CivilMinute { minute: 0, hour: 0, day: 1, month: 1, year: y, dow: compute_dow(y, 1, 1) })
    }
}

/// The next matching minute strictly after the given civil time, walking at
/// most a leap year's worth of minutes; `@reboot` never matches a clock.
///
/// Returns `(minute, hour, day, month, day of week)`; `year` decides leap
/// days and weekdays.
pub fn next_after(
    expr: &CronExpr,
    year: u16,
    minute: u8,
    hour: u8,
    dom: u8,
    month: u8,
    dow: u8,
) -> (r: Option<(u8, u8, u8, u8, u8)>)
    requires
        year < 65534,
        minute < 255,
        hour < 64,
        dom < 64,
        month < 64,
        dow < 64,
    ensures
        expr.raw@ == "@reboot"@ ==> r is None,
        expr.raw@ != "@reboot"@ ==> r == (match search(
            *expr,
            year,
            CivilMinute { year, month, day: dom, hour, minute, dow },
            search_horizon(),
        ) {
            Some(c) => Some((c.minute, c.hour, c.day, c.month, c.dow)),
            None => None,
        }),
{
    if expr.is_reboot() {
        return None;
    }
    let start = CivilMinute { year, month, day: dom, hour, minute, dow };
    let mut c = start;
    let limit: u32 = 366 * 24 * 60;
    let mut i: u32 = 0;
    while i < limit
        invariant
            limit == search_horizon(),
            i <= limit,
            year < 65534,
            expr.raw@ != "@reboot"@,
            start == (CivilMinute { year, month, day: dom, hour, minute, dow }),
            walkable(year, c),
            search(*expr, year, start, search_horizon()) == search(*expr, year, c, (limit - i) as nat),
        decreases limit - i,
    {
        match step_clock(year, c) {
            None => {
                assert(search(*expr, year, c, (limit - i) as nat) == None::<CivilMinute>);
                return None;
            },
            Some(n) => {
                c = n;
            },
        }
        if expr.matches(c.minute, c.hour, c.day, c.month, c.dow) {
            return Some((c.minute, c.hour, c.day, c.month, c.dow));
        }
        i = i + 1;
    }
    None
}

// ---------------------------------------------------------------------------
// Laws
// ---------------------------------------------------------------------------

proof fn lemma_trim_start_shape(s: Seq<char>)
    ensures
        trim_start(s).len() == 0 || !is_ws(trim_start(s)[0]),
        trim_start(s).len() <= s.len(),
    decreases s.len(),
{
    if s.len() > 0 && is_ws(s[0]) {
        lemma_trim_start_shape(s.drop_first());
    }
}

proof fn lemma_trim_end_shape(u: Seq<char>)
    ensures
        trim_end(u).len() == 0 || !is_ws(trim_end(u).last()),
        trim_end(u).len() <= u.len(),
        trim_end(u) =~= u.take(trim_end(u).len() as int),
    decreases u.len(),
{
    if u.len() > 0 && is_ws(u.last()) {
        lemma_trim_end_shape(u.drop_last());
        assert(u.drop_last().take(trim_end(u).len() as int) =~= u.take(trim_end(u).len() as int));
    } else {
        assert(u.take(u.len() as int) =~= u);
    }
}

proof fn lemma_trim_fixed(s: Seq<char>)
    requires
        s.len() == 0 || (!is_ws(s[0]) && !is_ws(s.last())),
    ensures
        trim(s) == s,
{
}

/// The trimmed text has no whitespace at either end, starts where the first
/// non-whitespace character of the input stands, and trimming it again
/// changes nothing.
pub(crate) proof fn lemma_trim_shape(s: Seq<char>)
    ensures
        trim(s).len() == 0 || (!is_ws(trim(s)[0]) && !is_ws(trim(s).last())),
        trim(trim(s)) == trim(s),
        s.len() > 0 && !is_ws(s[0]) ==> trim(s).len() > 0 && trim(s)[0] == s[0],
{
    let u = trim_start(s);
    lemma_trim_start_shape(s);
    lemma_trim_end_shape(u);
    let t = trim_end(u);
    if t.len() > 0 {
        assert(t[0] == u[0]);
    }
    lemma_trim_fixed(t);
    if s.len() > 0 && !is_ws(s[0]) {
        assert(u == s);
        if t.len() == 0 {
            lemma_trim_end_keeps_head(u);
        }
    }
}

proof fn lemma_trim_end_keeps_head(u: Seq<char>)
    requires
        u.len() > 0,
        !is_ws(u[0]),
    ensures
        trim_end(u).len() > 0,
    decreases u.len(),
{
    if is_ws(u.last()) {
        assert(u.len() > 1);
        assert(u.drop_last()[0] == u[0]);
        lemma_trim_end_keeps_head(u.drop_last());
    }
}

/// Two expressions have the same timetable: equal bounds and equal value sets.
pub open spec fn same_timetable(a: CronExpr, b: CronExpr) -> bool {
    forall|i: int|
        0 <= i < 5 ==> (#[trigger] a.fields@[i]).lo == b.fields@[i].lo && a.fields@[i].hi
            == b.fields@[i].hi && bit_set(a.fields@[i].bits) == bit_set(b.fields@[i].bits)
}

proof fn lemma_five_deterministic(r1: CronResult<CronExpr>, r2: CronResult<CronExpr>, t: Seq<char>)
    requires
        five_outcome(r1, t),
        five_outcome(r2, t),
        r1 is Ok,
    ensures
        r2 is Ok,
        same_timetable(r1->Ok_0, r2->Ok_0),
{
    let w = ws_words(t);
    if w.len() != 5 {
    } else if forall|i: int| 0 <= i < 5 ==> (#[trigger] spec_cron_field(w[i], i)) is Some {
        let e1 = r1->Ok_0;
        let e2 = r2->Ok_0;
        assert forall|i: int| 0 <= i < 5 implies (#[trigger] e1.fields@[i]).lo == e2.fields@[i].lo
            && e1.fields@[i].hi == e2.fields@[i].hi && bit_set(e1.fields@[i].bits) == bit_set(
            e2.fields@[i].bits,
        ) by {
            assert(spec_cron_field(w[i], i) is Some);
        }
    } else {
        let i = choose|i: int| #[trigger] first_bad_field(w, i) && is_parse_error_of(r1, w[i]);
    }
}

/// Parsing the text of a parsed expression again yields the same timetable
/// (what a display/re-parse round trip preserves).
pub proof fn reparse_keeps_timetable(x: Seq<char>, r1: CronResult<CronExpr>, r2: CronResult<CronExpr>)
    requires
        parse_outcome(r1, x),
        r1 is Ok,
        parse_outcome(r2, r1->Ok_0.raw@),
    ensures
        r2 is Ok,
        same_timetable(r1->Ok_0, r2->Ok_0),
        r2->Ok_0.raw@ == r1->Ok_0.raw@,
{
    let e1 = r1->Ok_0;
    let t = trim(x);
    lemma_trim_shape(x);
    if t.len() > 0 && t[0] == '@' {
        let name = lower(t.drop_first());
        reveal_strlit("@reboot");
        reveal_strlit("reboot");
        if name == "reboot"@ {
            let rb = "@reboot"@;
            assert(rb.len() == 7 && rb[0] == '@' && rb.last() == 't');
            lemma_trim_fixed(rb);
            assert(lower(rb.drop_first()) =~= "reboot"@);
            let e2 = r2->Ok_0;
            assert(reboot_holds(e2));
        } else {
            reveal_strlit("hourly");
            reveal_strlit("daily");
            reveal_strlit("midnight");
            reveal_strlit("weekly");
            reveal_strlit("monthly");
            reveal_strlit("yearly");
            reveal_strlit("annually");
            reveal_strlit("0 * * * *");
            reveal_strlit("0 0 * * *");
            reveal_strlit("0 0 * * 0");
            reveal_strlit("0 0 1 * *");
            reveal_strlit("0 0 1 1 *");
            let exp = shorthand(name)->Some_0;
            assert(exp[0] == '0');
            lemma_trim_shape(exp);
            let te = trim(exp);
            assert(e1.raw@ == te);
            lemma_trim_shape(te);
            lemma_five_deterministic(r1, r2, te);
        }
    } else {
        assert(e1.raw@ == t);
        lemma_five_deterministic(r1, r2, t);
    }
}

proof fn lemma_low_bits_eq(a: u64, b: u64, k: u64)
    requires
        k <= 63,
        forall|j: u64| j < 64 ==> #[trigger] (a & (1u64 << j)) == b & (1u64 << j),
    ensures
        (a & (u64::MAX >> (63 - k) as u64)) == (b & (u64::MAX >> (63 - k) as u64)),
    decreases k,
{
    if k == 0 {
        assert(a & (1u64 << 0u64) == b & (1u64 << 0u64));
        assert((a & (u64::MAX >> 63u64)) == (a & (1u64 << 0u64)) && (b & (u64::MAX >> 63u64)) == (b & (1u64
            << 0u64))) by (bit_vector);
    } else {
        let i: u64 = (k - 1) as u64;
        lemma_low_bits_eq(a, b, i);
        assert(a & (1u64 << k) == b & (1u64 << k));
        let lo: u64 = (63 - i) as u64;
        let hi: u64 = (63 - k) as u64;
        assert(forall|x: u64|
            #![auto]
            (x & (u64::MAX >> hi)) == ((x & (u64::MAX >> lo)) | (x & (1u64 << k)))) by (bit_vector)
            requires
                k == i + 1,
                k <= 63,
                lo == 63 - i,
                hi == 63 - k,
        ;
    }
}

/// Bitmaps over `0..64` are equal when they hold the same values.
proof fn lemma_bit_set_injective(a: u64, b: u64)
    requires
        bit_set(a) == bit_set(b),
    ensures
        a == b,
{
    assert forall|k: u64| k < 64 implies #[trigger] (a & (1u64 << k)) == b & (1u64 << k) by {
        assert(bit_set(a).contains(k as int) == has_bit(a, k as int));
        assert(bit_set(b).contains(k as int) == has_bit(b, k as int));
        assert(has_bit(a, k as int) == has_bit(b, k as int));
        assert(has_bit(a, k as int) == ((a & (1u64 << k)) != 0));
        assert(has_bit(b, k as int) == ((b & (1u64 << k)) != 0));
        assert(((a & (1u64 << k)) != 0) == ((b & (1u64 << k)) != 0) ==> (a & (1u64 << k)) == (b & (1u64
            << k))) by (bit_vector)
            requires
                k < 64,
        ;
    }
    lemma_low_bits_eq(a, b, 63);
    assert((a & (u64::MAX >> 0u64)) == a && (b & (u64::MAX >> 0u64)) == b) by (bit_vector);
}

/// Parsing the text of a parsed expression again gives the same expression:
/// the same text, the same bounds and bitmaps in every field, and so the
/// same `@reboot` status.
pub proof fn reparse_keeps_fields(x: Seq<char>, r1: CronResult<CronExpr>, r2: CronResult<CronExpr>)
    requires
        parse_outcome(r1, x),
        r1 is Ok,
        parse_outcome(r2, r1->Ok_0.raw@),
    ensures
        r2 is Ok,
        r2->Ok_0.raw@ == r1->Ok_0.raw@,
        (r2->Ok_0.raw@ == "@reboot"@) == (r1->Ok_0.raw@ == "@reboot"@),
        forall|i: int|
            0 <= i < 5 ==> (#[trigger] r1->Ok_0.fields@[i]).lo == r2->Ok_0.fields@[i].lo && r1->Ok_0.fields@[i].hi
                == r2->Ok_0.fields@[i].hi && r1->Ok_0.fields@[i].bits == r2->Ok_0.fields@[i].bits,
{
    reparse_keeps_timetable(x, r1, r2);
    let e1 = r1->Ok_0;
    let e2 = r2->Ok_0;
    assert forall|i: int| 0 <= i < 5 implies (#[trigger] e1.fields@[i]).lo == e2.fields@[i].lo && e1.fields@[i].hi
        == e2.fields@[i].hi && e1.fields@[i].bits == e2.fields@[i].bits by {
        lemma_bit_set_injective(e1.fields@[i].bits, e2.fields@[i].bits);
    }
}

/// A minute that the search returns is one the expression matches.
pub proof fn search_result_matches(e: CronExpr, year0: u16, c: CivilMinute, fuel: nat)
    requires
        search(e, year0, c, fuel) is Some,
    ensures
        ({
            let n = search(e, year0, c, fuel)->Some_0;
            spec_matches(e, n.minute as int, n.hour as int, n.day as int, n.month as int, n.dow as int)
        }),
    decreases fuel,
{
    if fuel > 0 {
        match tick(year0, c) {
            None => {},
            Some(n) => {
                if !spec_matches(e, n.minute as int, n.hour as int, n.day as int, n.month as int, n.dow as int) {
                    search_result_matches(e, year0, n, (fuel - 1) as nat);
                }
            },
        }
    }
}

} // verus!
