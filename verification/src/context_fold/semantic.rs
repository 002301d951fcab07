//! The integer side of semantic folding: summary truncation and the
//! character-bigram overlap that the built-in relevance scorer turns into a
//! score `|A ∩ B| / sqrt(|A| · |B|)` over distinct bigrams.

use vstd::prelude::*;
use crate::text::{chars_of, push_char, is_ws, is_whitespace_char};

verus! {

broadcast use vstd::string::group_string_axioms, vstd::seq_lib::group_seq_properties, vstd::set::group_set_axioms,
    vstd::seq_lib::seq_to_set_is_finite;

/// The summary of a folded segment: its first `max` characters and an
/// ellipsis when it is longer; nothing when `max` is 0.
pub open spec fn truncated(s: Seq<char>, max: nat) -> Seq<char> {
    if max == 0 {
        seq![]
    } else if s.len() <= max {
        s
    } else {
        s.take(max as int).push('…')
    }
}

/// Cuts `s` to `max` characters, marking the cut with `…`.
pub fn truncate_chars(s: &str, max: usize) -> (t: String)
    ensures
        t@ == truncated(s@, max as nat),
{
    let cs = chars_of(s);
    let mut out = String::new();
    if max == 0 {
        return out;
    }
    let n = if cs.len() <= max { cs.len() } else { max };
    let mut i: usize = 0;
    while i < n
        invariant
            n <= cs@.len(),
            i <= n,
            out@ == cs@.take(i as int),
        decreases n - i,
    {
        push_char(&mut out, cs[i]);
        proof {
            assert(cs@.take(i + 1) =~= cs@.take(i as int).push(cs@[i as int]));
        }
        i = i + 1;
    }
    if cs.len() <= max {
        proof {
            assert(cs@.take(n as int) =~= cs@);
        }
        return out;
    }
    push_char(&mut out, '…');
    out
}

/// The non-whitespace characters of a text, in order.
pub open spec fn dense(s: Seq<char>) -> Seq<char> {
    s.filter(|c: char| !is_ws(c))
}

/// The adjacent pairs of the non-whitespace characters.
pub open spec fn bigrams_of(s: Seq<char>) -> Seq<(char, char)> {
    let d = dense(s);
    Seq::new(if d.len() >= 2 { (d.len() - 1) as nat } else { 0 }, |i: int| (d[i], d[i + 1]))
}

/// The deterministic built-in relevance scorer.
#[derive(Debug, Clone, Copy, PartialEq, Eq, Structural)]
pub struct BigramOverlapScorer;

impl BigramOverlapScorer {
    /// The character bigrams of a text, whitespace ignored.
    pub fn bigrams(text: &str) -> (v: Vec<(char, char)>)
        ensures
            v@ == bigrams_of(text@),
    {
        let cs = chars_of(text);
        let mut d: Vec<char> = Vec::new();
        let mut i: usize = 0;
        proof {
            assert(cs@.take(0).filter(|c: char| !is_ws(c)) =~= Seq::<char>::empty());
        }
        while i < cs.len()
            invariant
                cs@ == text@,
                i <= cs@.len(),
                d@ == cs@.take(i as int).filter(|c: char| !is_ws(c)),
            decreases cs@.len() - i,
        {
            proof {
                cs@.take(i as int).lemma_filter_push(cs@[i as int], |c: char| !is_ws(c));
                assert(cs@.take(i as int).push(cs@[i as int]) =~= cs@.take(i + 1));
            }
            if !is_whitespace_char(cs[i]) {
                d.push(cs[i]);
            }
            i = i + 1;
        }
        proof {
            assert(cs@.take(cs@.len() as int) =~= cs@);
        }
        let mut v: Vec<(char, char)> = Vec::new();
        let mut k: usize = 1;
        while k < d.len()
            invariant
                d@ == dense(text@),
                1 <= k,
                k <= d@.len() || k == 1,
                v@.len() == k - 1,
                forall|j: int| 0 <= j < k - 1 ==> #[trigger] v@[j] == (d@[j], d@[j + 1]),
            decreases d@.len() - k,
        {
            v.push((d[k - 1], d[k]));
            k = k + 1;
        }
        proof {
            let bg = bigrams_of(text@);
            let dd = dense(text@);
            assert(dd == d@);
            assert(bg.len() == if dd.len() >= 2 { (dd.len() - 1) as nat } else { 0nat });
            if d@.len() >= 2 {
                assert(k == d@.len());
            }
            assert(v@.len() == bg.len());
            assert forall|j: int| 0 <= j < v@.len() implies v@[j] == bg[j] by {
                assert(v@[j] == (d@[j], d@[j + 1]));
            }
            assert(v@ =~= bg);
        }
        v
    }

    /// The overlap of the distinct bigrams of two texts:
    /// `(|A ∩ B|, |A|, |B|)`.
    pub fn overlap_counts(query: &str, segment: &str) -> (r: (usize, usize, usize))
        ensures
            r.1 == bigrams_of(query@).to_set().len(),
            r.2 == bigrams_of(segment@).to_set().len(),
            r.0 == bigrams_of(query@).to_set().intersect(bigrams_of(segment@).to_set()).len(),
    {
        let a = Self::bigrams(query);
        let b = Self::bigrams(segment);
        let da = distinct(&a);
        let db = distinct(&b);
        let mut inter: usize = 0;
        let mut i: usize = 0;
        let ghost sa = da@.to_set();
        let ghost sb = db@.to_set();
        proof {
            da@.unique_seq_to_set();
            db@.unique_seq_to_set();
            assert(da@.take(0).to_set() =~= Set::<(char, char)>::empty());
            assert(da@.take(0).to_set().intersect(sb) =~= Set::<(char, char)>::empty());
        }
        while i < da.len()
            invariant
                da@.no_duplicates(),
                i <= da@.len(),
                inter == da@.take(i as int).to_set().intersect(sb).len(),
                inter <= i,
                sb == db@.to_set(),
            decreases da@.len() - i,
        {
            let x = da[i];
            let found = contains_pair(&db, x);
            proof {
                let t = da@.take(i as int);
                assert(da@.take(i + 1) =~= t.push(x));
                t.lemma_push_to_set_commute(x);
                assert(!t.contains(x)) by {
                    if t.contains(x) {
                        let j = choose|j: int| 0 <= j < t.len() && t[j] == x;
                        assert(da@[j] == da@[i as int]);
                    }
                }
                vstd::seq_lib::seq_to_set_is_finite(t);
                if found {
                    assert(t.to_set().insert(x).intersect(sb) =~= t.to_set().intersect(sb).insert(x));
                    assert(!t.to_set().intersect(sb).contains(x));
                } else {
                    assert(t.to_set().insert(x).intersect(sb) =~= t.to_set().intersect(sb));
                }
            }
            if found {
                inter = inter + 1;
            }
            i = i + 1;
        }
        proof {
            assert(da@.take(da@.len() as int) =~= da@);
        }
        (inter, da.len(), db.len())
    }
}

fn contains_pair(v: &Vec<(char, char)>, x: (char, char)) -> (b: bool)
    ensures
        b == v@.to_set().contains(x),
{
    let mut i: usize = 0;
    while i < v.len()
        invariant
            i <= v@.len(),
            forall|j: int| 0 <= j < i ==> v@[j] != x,
        decreases v@.len() - i,
    {
        if v[i].0 == x.0 && v[i].1 == x.1 {
            proof {
                assert(v@.contains(v@[i as int]));
            }
            return true;
        }
        i = i + 1;
    }
    proof {
        assert(!v@.contains(x));
    }
    false
}

/// The distinct items of `v`, first occurrences in order.
fn distinct(v: &Vec<(char, char)>) -> (d: Vec<(char, char)>)
    ensures
        d@.no_duplicates(),
        d@.to_set() == v@.to_set(),
{
    let mut d: Vec<(char, char)> = Vec::new();
    let mut i: usize = 0;
    proof {
        assert(v@.take(0).to_set() =~= Set::<(char, char)>::empty());
        assert(d@.to_set() =~= Set::<(char, char)>::empty());
    }
    while i < v.len()
        invariant
            i <= v@.len(),
            d@.no_duplicates(),
            d@.to_set() == v@.take(i as int).to_set(),
        decreases v@.len() - i,
    {
        let x = v[i];
        let present = contains_pair(&d, x);
        proof {
            assert(v@.take(i + 1) =~= v@.take(i as int).push(x));
            v@.take(i as int).lemma_push_to_set_commute(x);
        }
        if !present {
            let ghost before = d@;
            d.push(x);
            proof {
                before.lemma_push_to_set_commute(x);
                assert forall|a: int, b: int| 0 <= a < b < d@.len() implies d@[a] != d@[b] by {
                    if b == d@.len() - 1 {
                        assert(before.contains(d@[a]));
                    }
                }
            }
        } else {
            proof {
                assert(d@.to_set().insert(x) =~= d@.to_set());
            }
        }
        i = i + 1;
    }
    proof {
        assert(v@.take(v@.len() as int) =~= v@);
    }
    d
}

} // verus!
