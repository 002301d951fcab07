//! Settling the advisor side-calls once they have come back: the outcomes
//! are put back into registration order, each becomes a valid decision or a
//! failure with a stable category, and the council decides over them.

use vstd::prelude::*;
use crate::text::push_str;
use super::{aggregate, aggregate_decision, AdvisorDecision, AdvisorFailure, AdvisorKind, CouncilCallError, CouncilDecision};

verus! {

broadcast use vstd::string::group_string_axioms;

/// What came back of one advisor's side-call.
#[derive(Debug)]
pub enum AdvisorOutcome {
    /// The advisor answered with this decision; `validation` says whether the
    /// answer lies within bounds (`Err` holds why not).
    Verdict { decision: AdvisorDecision, validation: Result<(), String> },
    /// The call itself failed.
    CallFailed(CouncilCallError),
    /// The call did not answer before its deadline.
    TimedOut,
}

/// One settled side-call: its registration index, the advisor's name and
/// domain, and what came back.
pub type Outcome = (usize, String, AdvisorKind, AdvisorOutcome);

/// One valid answer: registration index, advisor name, domain, decision.
pub type Evaluation = (usize, String, AdvisorKind, AdvisorDecision);

/// A failure as plain values.
pub struct FailureView {
    pub advisor: Seq<char>,
    pub kind: AdvisorKind,
    pub category: Seq<char>,
    pub reason: Seq<char>,
}

pub open spec fn failure_view(f: AdvisorFailure) -> FailureView {
    FailureView { advisor: f.advisor@, kind: f.kind, category: f.category@, reason: f.reason@ }
}

pub open spec fn evaluation_view(e: Evaluation) -> (usize, Seq<char>, AdvisorKind, AdvisorDecision) {
    (e.0, e.1@, e.2, e.3)
}

/// Position of the first outcome with the least registration index.
pub open spec fn first_least(s: Seq<Outcome>) -> int
    decreases s.len(),
{
    if s.len() <= 1 {
        0
    } else {
        let p = first_least(s.drop_last());
        if s.last().0 < s[p].0 {
            s.len() - 1
        } else {
            p
        }
    }
}

/// The outcomes in registration order; outcomes with the same index keep
/// the order they came in.
pub open spec fn by_index(s: Seq<Outcome>) -> Seq<Outcome>
    decreases s.len(),
{
    if s.len() == 0 {
        Seq::empty()
    } else {
        let m = first_least(s);
        proof {
            lemma_first_least(s);
        }
        seq![s[m]] + by_index(s.remove(m))
    }
}

/// The valid verdict an outcome gives, if any.
pub open spec fn outcome_evaluation(o: Outcome) -> Option<(usize, Seq<char>, AdvisorKind, AdvisorDecision)> {
    match o.3 {
        AdvisorOutcome::Verdict { decision, validation } => match validation {
            Ok(_) => Some((o.0, o.1@, o.2, decision)),
            Err(_) => None,
        },
        _ => None,
    }
}

/// The failure an outcome gives, if any: an out-of-bounds verdict is
/// `malformed` with the reason it failed validation; a failed call is
/// `provider_failure` or `malformed` with the call error's message; a call
/// past its deadline is `advisor_timeout`.
pub open spec fn outcome_failure(o: Outcome) -> Option<FailureView> {
    match o.3 {
        AdvisorOutcome::Verdict { decision, validation } => match validation {
            Ok(_) => None,
            Err(reason) => Some(FailureView { advisor: o.1@, kind: o.2, category: "malformed"@, reason: reason@ }),
        },
        AdvisorOutcome::CallFailed(e) => Some(
            match e {
                CouncilCallError::Provider(r) => FailureView {
                    advisor: o.1@,
                    kind: o.2,
                    category: "provider_failure"@,
                    reason: "provider: "@ + r@,
                },
                CouncilCallError::Malformed(r) => FailureView {
                    advisor: o.1@,
                    kind: o.2,
                    category: "malformed"@,
                    reason: "malformed: "@ + r@,
                },
            },
        ),
        AdvisorOutcome::TimedOut => Some(
            FailureView { advisor: o.1@, kind: o.2, category: "advisor_timeout"@, reason: "advisor timeout elapsed"@ },
        ),
    }
}

/// The valid verdicts among outcomes, in their order.
pub open spec fn evaluations_of(s: Seq<Outcome>) -> Seq<(usize, Seq<char>, AdvisorKind, AdvisorDecision)>
    decreases s.len(),
{
    if s.len() == 0 {
        Seq::empty()
    } else {
        evaluations_of(s.drop_last()) + match outcome_evaluation(s.last()) {
            Some(e) => seq![e],
            None => Seq::empty(),
        }
    }
}

/// The failures among outcomes, in their order.
pub open spec fn failures_of(s: Seq<Outcome>) -> Seq<FailureView>
    decreases s.len(),
{
    if s.len() == 0 {
        Seq::empty()
    } else {
        failures_of(s.drop_last()) + match outcome_failure(s.last()) {
            Some(f) => seq![f],
            None => Seq::empty(),
        }
    }
}

/// The decisions of a list of valid verdicts.
pub open spec fn decisions_of(es: Seq<(usize, Seq<char>, AdvisorKind, AdvisorDecision)>) -> Seq<AdvisorDecision> {
    es.map_values(|e: (usize, Seq<char>, AdvisorKind, AdvisorDecision)| e.3)
}

/// The first least position lies in the sequence and no index is below it.
pub proof fn lemma_first_least(s: Seq<Outcome>)
    requires
        s.len() > 0,
    ensures
        0 <= first_least(s) < s.len(),
        forall|k: int| 0 <= k < s.len() ==> s[first_least(s)].0 <= (#[trigger] s[k]).0,
    decreases s.len(),
{
    if s.len() > 1 {
        let t = s.drop_last();
        lemma_first_least(t);
        assert forall|k: int| 0 <= k < s.len() implies s[first_least(s)].0 <= (#[trigger] s[k]).0 by {
            if k < s.len() - 1 {
                assert(s[k] == t[k]);
            }
        }
    }
}

/// Registration order keeps every outcome once and orders them by index.
pub proof fn by_index_orders(s: Seq<Outcome>)
    ensures
        by_index(s).len() == s.len(),
        by_index(s).to_multiset() == s.to_multiset(),
        forall|i: int, j: int| 0 <= i < j < s.len() ==> (#[trigger] by_index(s)[i]).0 <= (#[trigger] by_index(s)[j]).0,
    decreases s.len(),
{
    broadcast use vstd::seq_lib::group_to_multiset_ensures;

    if s.len() > 0 {
        let m = first_least(s);
        lemma_first_least(s);
        let rest = s.remove(m);
        by_index_orders(rest);
        let b = by_index(s);
        assert(b == seq![s[m]] + by_index(rest));
        assert forall|i: int, j: int| 0 <= i < j < s.len() implies (#[trigger] b[i]).0 <= (#[trigger] b[j]).0 by {
            if i == 0 {
                let x = b[j];
                assert(x == by_index(rest)[j - 1]);
                assert(by_index(rest).to_multiset().contains(x));
                assert(rest.to_multiset().contains(x));
                let k = choose|k: int| 0 <= k < rest.len() && rest[k] == x;
                assert(rest.contains(x));
                if k < m {
                    assert(rest[k] == s[k]);
                } else {
                    assert(rest[k] == s[k + 1]);
                }
            } else {
                assert(b[i] == by_index(rest)[i - 1]);
                assert(b[j] == by_index(rest)[j - 1]);
            }
        }
        assert(s =~= s.take(m) + seq![s[m]] + s.skip(m + 1));
        assert(rest =~= s.take(m) + s.skip(m + 1));
        vstd::seq_lib::lemma_multiset_commutative(s.take(m), seq![s[m]]);
        vstd::seq_lib::lemma_multiset_commutative(s.take(m) + seq![s[m]], s.skip(m + 1));
        vstd::seq_lib::lemma_multiset_commutative(s.take(m), s.skip(m + 1));
        vstd::seq_lib::lemma_multiset_commutative(seq![s[m]], by_index(rest));
        assert(s.take(m).to_multiset().add(seq![s[m]].to_multiset()).add(s.skip(m + 1).to_multiset())
            =~= seq![s[m]].to_multiset().add(s.take(m).to_multiset().add(s.skip(m + 1).to_multiset())));
    }
}

/// Position of the first outcome with the least index in `v`.
fn find_first_least(v: &Vec<Outcome>) -> (m: usize)
    requires
        v.len() > 0,
    ensures
        m == first_least(v@),
        m < v@.len(),
{
    let mut best: usize = 0;
    let mut i: usize = 1;
    while i < v.len()
        invariant
            1 <= i <= v.len(),
            best == first_least(v@.take(i as int)),
            0 <= best < i,
        decreases v.len() - i,
    {
        proof {
            assert(v@.take(i as int + 1).drop_last() =~= v@.take(i as int));
        }
        if v[i].0 < v[best].0 {
            best = i;
        }
        i = i + 1;
    }
    proof {
        assert(v@.take(v.len() as int) =~= v@);
    }
    best
}

/// Puts the outcomes back into registration order, turns each into a valid
/// decision or a categorised failure, and decides over the valid decisions
/// (deferring to a human when no advisor decided and some failed).
pub fn settle_council(outcomes: Vec<Outcome>) -> (r: (Vec<Evaluation>, Vec<AdvisorFailure>, CouncilDecision))
    ensures
        r.0@.map_values(|e: Evaluation| evaluation_view(e)) == evaluations_of(by_index(outcomes@)),
        r.1@.map_values(|f: AdvisorFailure| failure_view(f)) == failures_of(by_index(outcomes@)),
        r.2 == aggregate(
            decisions_of(evaluations_of(by_index(outcomes@))),
            failures_of(by_index(outcomes@)).len() > 0,
        ),
{
    let ghost whole = outcomes@;
    let mut rest = outcomes;
    let mut evaluations: Vec<Evaluation> = Vec::new();
    let mut failures: Vec<AdvisorFailure> = Vec::new();
    let ghost mut done: Seq<Outcome> = Seq::empty();
    proof {
        assert(by_index(whole) =~= done + by_index(rest@));
    }
    while rest.len() > 0
        invariant
            by_index(whole) == done + by_index(rest@),
            evaluations@.map_values(|e: Evaluation| evaluation_view(e)) == evaluations_of(done),
            failures@.map_values(|f: AdvisorFailure| failure_view(f)) == failures_of(done),
        decreases rest.len(),
    {
        let m = find_first_least(&rest);
        let ghost before = rest@;
        let (index, name, kind, outcome) = rest.remove(m);
        let ghost o: Outcome = before[m as int];
        proof {
            assert(rest@ =~= before.remove(m as int));
            assert(by_index(before) == seq![o] + by_index(rest@));
            assert(done + by_index(before) =~= done.push(o) + by_index(rest@));
            assert(done.push(o).drop_last() =~= done);
        }
        let ghost ev_before = evaluations@;
        let ghost fa_before = failures@;
        match outcome {
            AdvisorOutcome::Verdict { decision, validation } => match validation {
                Ok(()) => {
                    evaluations.push((index, name, kind, decision));
                },
                Err(reason) => {
                    failures.push(
                        AdvisorFailure { advisor: name, kind, category: "malformed".to_string(), reason },
                    );
                },
            },
            AdvisorOutcome::CallFailed(error) => {
                let category = match &error {
                    CouncilCallError::Provider(_) => "provider_failure".to_string(),
                    CouncilCallError::Malformed(_) => "malformed".to_string(),
                };
                let reason = error.message();
                failures.push(AdvisorFailure { advisor: name, kind, category, reason });
            },
            AdvisorOutcome::TimedOut => {
                let mut reason = String::new();
                push_str(&mut reason, "advisor timeout elapsed");
                failures.push(AdvisorFailure { advisor: name, kind, category: "advisor_timeout".to_string(), reason });
            },
        }
        proof {
            done = done.push(o);
            assert(evaluations@.map_values(|e: Evaluation| evaluation_view(e)) =~= evaluations_of(done)) by {
                assert(ev_before.map_values(|e: Evaluation| evaluation_view(e)) == evaluations_of(done.drop_last()));
                if evaluations@.len() > ev_before.len() {
                    assert(evaluations@ =~= ev_before.push(evaluations@.last()));
                } else {
                    assert(evaluations@ =~= ev_before);
                }
            }
            assert(failures@.map_values(|f: AdvisorFailure| failure_view(f)) =~= failures_of(done)) by {
                assert(fa_before.map_values(|f: AdvisorFailure| failure_view(f)) == failures_of(done.drop_last()));
                if failures@.len() > fa_before.len() {
                    assert(failures@ =~= fa_before.push(failures@.last()));
                } else {
                    assert(failures@ =~= fa_before);
                }
            }
        }
    }
    proof {
        assert(by_index(rest@) =~= Seq::<Outcome>::empty());
        assert(done =~= by_index(whole));
    }
    let mut decisions: Vec<AdvisorDecision> = Vec::new();
    let mut i: usize = 0;
    while i < evaluations.len()
        invariant
            i <= evaluations@.len(),
            decisions@ =~= decisions_of(evaluations@.take(i as int).map_values(|e: Evaluation| evaluation_view(e))),
        decreases evaluations.len() - i,
    {
        decisions.push(evaluations[i].3);
        proof {
            assert(evaluations@.take(i as int + 1) =~= evaluations@.take(i as int).push(evaluations@[i as int]));
        }
        i = i + 1;
    }
    proof {
        assert(evaluations@.take(i as int) =~= evaluations@);
    }
    let any_failure = failures.len() > 0;
    let d = aggregate_decision(decisions.as_slice(), any_failure);
    (evaluations, failures, d)
}

/// The names of the advisors that decided (every valid verdict but an
/// abstention), in order.
pub fn supporters(evaluations: &[Evaluation]) -> (names: Vec<String>)
    ensures
        names@.map_values(|n: String| n@) == evaluations@.filter(|e: Evaluation| e.3 != AdvisorDecision::Abstain).map_values(
            |e: Evaluation| e.1@,
        ),
{
    let mut names: Vec<String> = Vec::new();
    let mut i: usize = 0;
    while i < evaluations.len()
        invariant
            i <= evaluations@.len(),
            names@.map_values(|n: String| n@) == evaluations@.take(i as int).filter(
                |e: Evaluation| e.3 != AdvisorDecision::Abstain,
            ).map_values(|e: Evaluation| e.1@),
        decreases evaluations.len() - i,
    {
        let ghost before = names@;
        let ghost prev = evaluations@.take(i as int).filter(|e: Evaluation| e.3 != AdvisorDecision::Abstain);
        let ghost next = evaluations@.take(i as int + 1).filter(|e: Evaluation| e.3 != AdvisorDecision::Abstain);
        proof {
            assert(evaluations@.take(i as int + 1).drop_last() =~= evaluations@.take(i as int));
            reveal(Seq::filter);
            assert(next == if evaluations@[i as int].3 != AdvisorDecision::Abstain {
                prev.push(evaluations@[i as int])
            } else {
                prev
            });
        }
        if evaluations[i].3 != AdvisorDecision::Abstain {
            let n = evaluations[i].1.clone();
            names.push(n);
            proof {
                assert(next == prev.push(evaluations@[i as int]));
                assert(names@ =~= before.push(n));
                assert(before.map_values(|n: String| n@) == prev.map_values(|e: Evaluation| e.1@));
                assert(before.map_values(|n: String| n@).len() == before.len());
                assert(prev.map_values(|e: Evaluation| e.1@).len() == prev.len());
                let lhs = names@.map_values(|n: String| n@);
                let rhs = next.map_values(|e: Evaluation| e.1@);
                assert(lhs.len() == rhs.len());
                assert forall|k: int| 0 <= k < lhs.len() implies lhs[k] == rhs[k] by {
                    if k < before.len() {
                        assert(lhs[k] == before.map_values(|n: String| n@)[k]);
                        assert(rhs[k] == prev.map_values(|e: Evaluation| e.1@)[k]);
                    }
                }
                assert(lhs =~= rhs);
            }
        } else {
            proof {
                assert(names@.map_values(|n: String| n@) =~= next.map_values(|e: Evaluation| e.1@));
            }
        }
        i = i + 1;
    }
    proof {
        assert(evaluations@.take(i as int) =~= evaluations@);
    }
    names
}

} // verus!
