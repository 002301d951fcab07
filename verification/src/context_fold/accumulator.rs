//! Cross-session token accumulator.
//!
//! [`approx_tokens`] is `chars / 4` (no tokenizer). Per-session totals are
//! kept in increasing key order, so snapshots list sessions in a stable order.

use vstd::prelude::*;
use vstd::string::StrSliceExecFns;
use crate::text::{lex_lt, lex_less, push_decimal, str_eq};

verus! {

broadcast use vstd::string::group_string_axioms;

/// Approximate token count: characters / 4.
pub fn approx_tokens(s: &str) -> (n: usize)
    ensures
        n == s@.len() / 4,
{
    s.unicode_len() / 4
}

/// Keys in strictly increasing lexicographic order.
pub open spec fn sorted_keys(s: Seq<(Seq<char>, usize)>) -> bool
    decreases s.len(),
{
    if s.len() <= 1 {
        true
    } else {
        lex_lt(s[0].0, s[1].0) && sorted_keys(s.drop_first())
    }
}

/// Adds `t` to the total of `key`, keeping the keys in order: a new key is
/// placed before the first greater one.
pub open spec fn add_to(s: Seq<(Seq<char>, usize)>, key: Seq<char>, t: usize) -> Seq<(Seq<char>, usize)>
    decreases s.len(),
{
    if s.len() == 0 {
        seq![(key, t)]
    } else if s[0].0 == key {
        seq![(key, (s[0].1 + t) as usize)] + s.drop_first()
    } else if lex_lt(key, s[0].0) {
        seq![(key, t)] + s
    } else {
        seq![s[0]] + add_to(s.drop_first(), key, t)
    }
}

/// The total recorded for `key`, if any.
pub open spec fn lookup(s: Seq<(Seq<char>, usize)>, key: Seq<char>) -> Option<usize>
    decreases s.len(),
{
    if s.len() == 0 {
        None
    } else if s[0].0 == key {
        Some(s[0].1)
    } else {
        lookup(s.drop_first(), key)
    }
}

/// Sum of the totals.
pub open spec fn sum_totals(s: Seq<(Seq<char>, usize)>) -> nat
    decreases s.len(),
{
    if s.len() == 0 {
        0
    } else {
        s[0].1 as nat + sum_totals(s.drop_first())
    }
}

proof fn lemma_lex_irreflexive(a: Seq<char>)
    ensures
        !lex_lt(a, a),
    decreases a.len(),
{
    if a.len() > 0 {
        lemma_lex_irreflexive(a.drop_first());
    }
}

proof fn lemma_lex_total(a: Seq<char>, b: Seq<char>)
    requires
        a != b,
    ensures
        lex_lt(a, b) || lex_lt(b, a),
    decreases a.len(),
{
    if a.len() > 0 && b.len() > 0 && a[0] == b[0] {
        if a.drop_first() =~= b.drop_first() {
            assert forall|i: int| 0 <= i < a.len() implies a[i] == b[i] by {
                if i > 0 {
                    assert(a[i] == a.drop_first()[i - 1]);
                    assert(b[i] == b.drop_first()[i - 1]);
                }
            }
            assert(a =~= b);
        }
        lemma_lex_total(a.drop_first(), b.drop_first());
    } else if a.len() == 0 && b.len() == 0 {
        assert(a =~= b);
    } else if a.len() > 0 && b.len() > 0 {
        if a[0] < b[0] {
            assert(lex_lt(a, b));
        } else {
            assert(lex_lt(b, a));
        }
    }
}

proof fn lemma_lex_asym(a: Seq<char>, b: Seq<char>)
    requires
        lex_lt(a, b),
    ensures
        !lex_lt(b, a),
    decreases a.len(),
{
    if a.len() > 0 && b.len() > 0 && a[0] == b[0] {
        lemma_lex_asym(a.drop_first(), b.drop_first());
    }
}

proof fn lemma_add_to(s: Seq<(Seq<char>, usize)>, key: Seq<char>, t: usize)
    requires
        sorted_keys(s),
        lookup(s, key) matches Some(v) ==> v + t <= usize::MAX,
    ensures
        sorted_keys(add_to(s, key, t)),
        add_to(s, key, t).len() > 0,
        add_to(s, key, t)[0].0 == key || (s.len() > 0 && add_to(s, key, t)[0].0 == s[0].0),
        add_to(s, key, t).len() == s.len() + if lookup(s, key) is Some {
            0int
        } else {
            1int
        },
        sum_totals(add_to(s, key, t)) == sum_totals(s) + t,
        lookup(add_to(s, key, t), key) == Some(
            match lookup(s, key) {
                Some(v) => (v + t) as usize,
                None => t,
            },
        ),
    decreases s.len(),
{
    let r = add_to(s, key, t);
    if s.len() == 0 {
        assert(r.drop_first() =~= Seq::<(Seq<char>, usize)>::empty());
        assert(sum_totals(r.drop_first()) == 0);
        assert(lookup(r, key) == Some(t));
    } else if s[0].0 == key {
        assert(r.drop_first() =~= s.drop_first());
        assert(sum_totals(r) == r[0].1 + sum_totals(r.drop_first()));
        if s.len() > 1 {
            assert(r[1] == s[1]);
        }
    } else if lex_lt(key, s[0].0) {
        assert(r.drop_first() =~= s);
        assert(sum_totals(r) == r[0].1 + sum_totals(r.drop_first()));
        lemma_lookup_sorted_absent(s, key);
    } else {
        lemma_lex_total(key, s[0].0);
        let rest = add_to(s.drop_first(), key, t);
        lemma_add_to(s.drop_first(), key, t);
        assert(r.drop_first() =~= rest);
        assert(sum_totals(r) == r[0].1 + sum_totals(r.drop_first()));
        assert(lookup(s, key) == lookup(s.drop_first(), key));
        assert(lookup(r, key) == lookup(rest, key));
        if s.len() > 1 {
            assert(s.drop_first()[0] == s[1]);
        }
    }
}

proof fn lemma_lookup_sorted_absent(s: Seq<(Seq<char>, usize)>, key: Seq<char>)
    requires
        sorted_keys(s),
        s.len() > 0,
        lex_lt(key, s[0].0),
    ensures
        lookup(s, key) is None,
    decreases s.len(),
{
    lemma_lex_irreflexive(key);
    assert(s[0].0 != key);
    if s.len() > 1 {
        lemma_lex_trans(key, s[0].0, s[1].0);
        assert(s.drop_first()[0] == s[1]);
        lemma_lookup_sorted_absent(s.drop_first(), key);
    } else {
        assert(lookup(s.drop_first(), key) is None);
    }
}

proof fn lemma_lex_trans(a: Seq<char>, b: Seq<char>, c: Seq<char>)
    requires
        lex_lt(a, b),
        lex_lt(b, c),
    ensures
        lex_lt(a, c),
    decreases a.len(),
{
    if a.len() > 0 && b.len() > 0 && c.len() > 0 && a[0] == b[0] && b[0] == c[0] {
        lemma_lex_trans(a.drop_first(), b.drop_first(), c.drop_first());
    }
}

proof fn lemma_total_bounds_each(s: Seq<(Seq<char>, usize)>, key: Seq<char>)
    ensures
        lookup(s, key) matches Some(v) ==> v <= sum_totals(s),
    decreases s.len(),
{
    if s.len() > 0 && s[0].0 != key {
        lemma_total_bounds_each(s.drop_first(), key);
    }
}

/// Per-session totals, in increasing key order.
#[derive(Debug, Clone, Default, PartialEq, Eq)]
pub struct SessionTotals {
    entries: Vec<(String, usize)>,
}

/// Entries as plain values.
pub open spec fn entry_views(v: Seq<(String, usize)>) -> Seq<(Seq<char>, usize)> {
    v.map_values(|e: (String, usize)| (e.0@, e.1))
}

impl SessionTotals {
    /// The (session, total) pairs in key order.
    pub closed spec fn view_entries(&self) -> Seq<(Seq<char>, usize)> {
        entry_views(self.entries@)
    }

    /// The total of a session, if recorded.
    pub fn get(&self, key: &str) -> (r: Option<usize>)
        ensures
            r == lookup(self.view_entries(), key@),
    {
        let ghost s = self.view_entries();
        let mut i: usize = 0;
        assert(s.skip(0) =~= s);
        while i < self.entries.len()
            invariant
                i <= self.entries@.len(),
                s == entry_views(self.entries@),
                lookup(s, key@) == lookup(s.skip(i as int), key@),
            decreases self.entries@.len() - i,
        {
            assert(s.skip(i as int).drop_first() =~= s.skip(i as int + 1));
            assert(s.skip(i as int)[0] == (self.entries@[i as int].0@, self.entries@[i as int].1));
            if str_eq(self.entries[i].0.as_str(), key) {
                return Some(self.entries[i].1);
            }
            i = i + 1;
        }
        None
    }

    /// The session keys, in order.
    pub fn keys(&self) -> (k: Vec<String>)
        ensures
            k@.len() == self.view_entries().len(),
            forall|i: int| 0 <= i < k@.len() ==> (#[trigger] k@[i])@ == self.view_entries()[i].0,
    {
        let mut k: Vec<String> = Vec::new();
        let mut i: usize = 0;
        while i < self.entries.len()
            invariant
                i <= self.entries@.len(),
                k@.len() == i,
                forall|j: int| 0 <= j < i ==> (#[trigger] k@[j])@ == self.entries@[j].0@,
            decreases self.entries@.len() - i,
        {
            k.push(self.entries[i].0.clone());
            i = i + 1;
        }
        k
    }

    /// Number of sessions.
    pub fn len(&self) -> (n: usize)
        ensures
            n == self.view_entries().len(),
    {
        self.entries.len()
    }

    fn add(&mut self, key: &str, t: usize)
        requires
            sorted_keys(old(self).view_entries()),
            lookup(old(self).view_entries(), key@) matches Some(v) ==> v + t <= usize::MAX,
        ensures
            final(self).view_entries() == add_to(old(self).view_entries(), key@, t),
    {
        let ghost s = self.view_entries();
        let mut i: usize = 0;
        assert(s.take(0) + s.skip(0) =~= s);
        while i < self.entries.len() && lex_less(self.entries[i].0.as_str(), key)
            invariant
                i <= self.entries@.len(),
                s == entry_views(self.entries@),
                sorted_keys(s),
                add_to(s, key@, t) == s.take(i as int) + add_to(s.skip(i as int), key@, t),
                lookup(s, key@) == lookup(s.skip(i as int), key@),
            decreases self.entries@.len() - i,
        {
            proof {
                let rest = s.skip(i as int);
                assert(rest[0] == (self.entries@[i as int].0@, self.entries@[i as int].1));
                assert(rest.drop_first() =~= s.skip(i as int + 1));
                lemma_lex_irreflexive(key@);
                lemma_lex_asym(rest[0].0, key@);
                assert(rest[0].0 != key@);
                assert(add_to(rest, key@, t) == seq![rest[0]] + add_to(rest.drop_first(), key@, t));
                assert(s.take(i as int + 1) =~= s.take(i as int).push(rest[0]));
                assert(s.take(i as int) + add_to(rest, key@, t) =~= s.take(i as int + 1) + add_to(
                    s.skip(i as int + 1),
                    key@,
                    t,
                ));
            }
            i = i + 1;
        }
        let ghost rest = s.skip(i as int);
        if i < self.entries.len() && str_eq(self.entries[i].0.as_str(), key) {
            let v = self.entries[i].1;
            assert(rest[0] == (self.entries@[i as int].0@, self.entries@[i as int].1));
            let name = self.entries[i].0.clone();
            self.entries.set(i, (name, v + t));
            proof {
                assert(self.view_entries() =~= s.take(i as int) + (seq![(key@, (v + t) as usize)] + rest.drop_first()));
            }
        } else {
            let ghost before = self.entries@;
            self.entries.insert(i, (key.to_owned(), t));
            proof {
                if i < before.len() {
                    assert(rest[0] == (before[i as int].0@, before[i as int].1));
                    lemma_lex_total(key@, rest[0].0);
                    assert(self.view_entries() =~= s.take(i as int) + (seq![(key@, t)] + rest));
                } else {
                    assert(rest =~= Seq::<(Seq<char>, usize)>::empty());
                    assert(self.view_entries() =~= s.take(i as int) + seq![(key@, t)]);
                }
            }
        }
    }
}

/// Point-in-time tally of recorded sessions.
#[derive(Debug, Clone, Default, PartialEq, Eq)]
pub struct AccumulatorSnapshot {
    /// Distinct session keys recorded.
    pub session_count: usize,
    /// Sum of recorded token counts.
    pub total_tokens: usize,
    /// Per-session totals, in key order.
    pub per_session: SessionTotals,
}

/// Running cross-session token tally.
#[derive(Debug, Clone, Default)]
pub struct TokenAccumulator {
    snapshot: AccumulatorSnapshot,
}

impl TokenAccumulator {
    /// The per-session totals.
    pub closed spec fn totals(&self) -> Seq<(Seq<char>, usize)> {
        self.snapshot.per_session.view_entries()
    }

    /// The recorded grand total.
    pub closed spec fn spec_total(&self) -> usize {
        self.snapshot.total_tokens
    }

    /// The recorded session count.
    pub closed spec fn spec_count(&self) -> usize {
        self.snapshot.session_count
    }

    /// Keys in order, the count matching the keys, the total matching the sum.
    pub closed spec fn wf(&self) -> bool {
        &&& sorted_keys(self.totals())
        &&& self.snapshot.session_count == self.totals().len()
        &&& self.snapshot.total_tokens == sum_totals(self.totals())
    }

    /// An empty accumulator.
    pub fn new() -> (a: Self)
        ensures
            a.wf(),
            a.totals() == Seq::<(Seq<char>, usize)>::empty(),
            a.spec_total() == 0,
            a.spec_count() == 0,
    {
        let a = TokenAccumulator {
            snapshot: AccumulatorSnapshot {
                session_count: 0,
                total_tokens: 0,
                per_session: SessionTotals { entries: Vec::new() },
            },
        };
        assert(a.totals() =~= Seq::<(Seq<char>, usize)>::empty());
        a
    }

    /// Records tokens for a session; the same session accumulates.
    pub fn record_session(&mut self, session_id: &str, tokens: usize)
        requires
            old(self).wf(),
            old(self).spec_total() + tokens <= usize::MAX,
        ensures
            final(self).wf(),
            final(self).totals() == add_to(old(self).totals(), session_id@, tokens),
            final(self).spec_total() == old(self).spec_total() + tokens,
            final(self).spec_count() == final(self).totals().len(),
    {
        proof {
            lemma_total_bounds_each(self.totals(), session_id@);
            lemma_add_to(self.totals(), session_id@, tokens);
        }
        self.snapshot.per_session.add(session_id, tokens);
        self.snapshot.total_tokens = self.snapshot.total_tokens + tokens;
        self.snapshot.session_count = self.snapshot.per_session.len();
    }

    /// Records tokens for an anonymous session named `anon-{session count}`.
    pub fn record_anonymous(&mut self, tokens: usize)
        requires
            old(self).wf(),
            old(self).spec_total() + tokens <= usize::MAX,
        ensures
            final(self).wf(),
            final(self).totals() == add_to(
                old(self).totals(),
                "anon-"@ + crate::text::decimal(old(self).spec_count() as nat),
                tokens,
            ),
            final(self).spec_total() == old(self).spec_total() + tokens,
    {
        let mut id = String::from_str("anon-");
        push_decimal(&mut id, self.snapshot.session_count as u64);
        self.record_session(id.as_str(), tokens);
    }

    /// The current snapshot: every session once, in key order, the count of
    /// sessions, and a grand total equal to the sum of the sessions' totals.
    pub fn snapshot(&self) -> (s: &AccumulatorSnapshot)
        requires
            self.wf(),
        ensures
            s.per_session.view_entries() == self.totals(),
            s.total_tokens == self.spec_total(),
            s.session_count == self.spec_count(),
            sorted_keys(s.per_session.view_entries()),
            s.session_count == s.per_session.view_entries().len(),
            s.total_tokens == sum_totals(s.per_session.view_entries()),
    {
        &self.snapshot
    }

    /// Total recorded tokens.
    pub fn total_tokens(&self) -> (n: usize)
        ensures
            n == self.spec_total(),
    {
        self.snapshot.total_tokens
    }
}

/// Per-session totals stay in strictly increasing key order, so every
/// session appears once, and recording adds exactly the recorded tokens to
/// the grand total and to that session's total.
pub proof fn recording_accumulates(s: Seq<(Seq<char>, usize)>, key: Seq<char>, t: usize)
    requires
        sorted_keys(s),
        lookup(s, key) matches Some(v) ==> v + t <= usize::MAX,
    ensures
        sorted_keys(add_to(s, key, t)),
        sum_totals(add_to(s, key, t)) == sum_totals(s) + t,
        lookup(add_to(s, key, t), key) == Some(
            match lookup(s, key) {
                Some(v) => (v + t) as usize,
                None => t,
            },
        ),
{
    lemma_add_to(s, key, t);
}

} // verus!
