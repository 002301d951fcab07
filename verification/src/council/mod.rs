//! Council of seven advisor domains: the typed decisions, the aggregation
//! rule, and the deterministic no-provider advisors.
//!
//! Aggregation over the valid verdicts: abstentions do not count; any stop
//! stops; otherwise more retries than allows asks for a retry; with no
//! deciding advisor and some failure the council defers to a human; else the
//! candidate continues.

use vstd::prelude::*;
use crate::text::{push_str, chars_of};
use crate::cron::{trim, trimmed};

pub mod advisors_llm;
pub mod settle;

pub use settle::{settle_council, supporters, AdvisorOutcome};

verus! {

broadcast use vstd::string::group_string_axioms;

/// The seven advisor domains.
#[derive(Debug, Clone, Copy, PartialEq, Eq, PartialOrd, Ord, Hash, Structural)]
pub enum AdvisorKind {
    Safety,
    Performance,
    Philosophy,
    History,
    Strategy,
    Ethics,
    Legal,
}

/// What one advisor decided.
#[derive(Debug, Clone, Copy, PartialEq, Eq, Structural)]
pub enum AdvisorDecision {
    Allow,
    Retry,
    Stop,
    Abstain,
}

/// The verdict of the local-advisor path.
#[derive(Debug, Clone, PartialEq, Eq)]
pub enum CouncilVerdict {
    Approved,
    Vetoed { by: AdvisorKind, reason: String },
    DeferToHuman { reason: String },
}

/// The aggregate decision of the council.
#[derive(Debug, Clone, Copy, PartialEq, Eq, Structural)]
pub enum CouncilDecision {
    Continue,
    Retry,
    Stop,
    DeferToHuman,
}

/// One advisor that failed, with a stable category and a legible reason.
#[derive(Debug, Clone, PartialEq, Eq)]
pub struct AdvisorFailure {
    pub advisor: String,
    pub kind: AdvisorKind,
    pub category: String,
    pub reason: String,
}

/// A failed advisor side-call.
#[derive(Debug, Clone, PartialEq, Eq)]
pub enum CouncilCallError {
    Provider(String),
    Malformed(String),
}

impl CouncilCallError {
    /// `provider: <reason>` or `malformed: <reason>`.
    pub fn message(&self) -> (m: String)
        ensures
            m@ == match self {
                CouncilCallError::Provider(r) => "provider: "@ + r@,
                CouncilCallError::Malformed(r) => "malformed: "@ + r@,
            },
    {
        let mut m = String::new();
        match self {
            CouncilCallError::Provider(r) => {
                push_str(&mut m, "provider: ");
                push_str(&mut m, r.as_str());
            },
            CouncilCallError::Malformed(r) => {
                push_str(&mut m, "malformed: ");
                push_str(&mut m, r.as_str());
            },
        }
        m
    }
}

pub open spec fn count_decision(ds: Seq<AdvisorDecision>, d: AdvisorDecision) -> nat
    decreases ds.len(),
{
    if ds.len() == 0 {
        0
    } else {
        count_decision(ds.drop_last(), d) + if ds.last() == d { 1nat } else { 0nat }
    }
}

/// The aggregation rule over the decisions of the valid verdicts, in
/// registration order, and whether any advisor failed.
pub open spec fn aggregate(ds: Seq<AdvisorDecision>, any_failure: bool) -> CouncilDecision {
    let decisive = ds.len() - count_decision(ds, AdvisorDecision::Abstain);
    if count_decision(ds, AdvisorDecision::Stop) > 0 {
        CouncilDecision::Stop
    } else if count_decision(ds, AdvisorDecision::Retry) > count_decision(ds, AdvisorDecision::Allow) {
        CouncilDecision::Retry
    } else if decisive == 0 && any_failure {
        CouncilDecision::DeferToHuman
    } else {
        CouncilDecision::Continue
    }
}

proof fn lemma_count_le(ds: Seq<AdvisorDecision>, d: AdvisorDecision)
    ensures
        count_decision(ds, d) <= ds.len(),
    decreases ds.len(),
{
    if ds.len() > 0 {
        lemma_count_le(ds.drop_last(), d);
    }
}

/// How many of the decisions are `d`.
pub open spec fn how_many(ds: Seq<AdvisorDecision>, d: AdvisorDecision) -> nat {
    ds.filter(|x: AdvisorDecision| x == d).len()
}

proof fn lemma_count_facts(ds: Seq<AdvisorDecision>, d: AdvisorDecision)
    ensures
        count_decision(ds, d) == how_many(ds, d),
        count_decision(ds, d) > 0 <==> ds.contains(d),
        count_decision(ds, d) == ds.len() <==> (forall|i: int| 0 <= i < ds.len() ==> ds[i] == d),
    decreases ds.len(),
{
    reveal(Seq::filter);
    if ds.len() > 0 {
        let init = ds.drop_last();
        lemma_count_facts(init, d);
        lemma_count_le(init, d);
        assert(ds.filter(|x: AdvisorDecision| x == d) == if ds.last() == d {
            init.filter(|x: AdvisorDecision| x == d).push(ds.last())
        } else {
            init.filter(|x: AdvisorDecision| x == d)
        });
        if ds.contains(d) && !init.contains(d) {
            let k = choose|k: int| 0 <= k < ds.len() && ds[k] == d;
            if k < init.len() {
                assert(init[k] == d);
            }
        }
        if init.contains(d) {
            let k = choose|k: int| 0 <= k < init.len() && init[k] == d;
            assert(ds[k] == d);
        }
        if ds.last() == d {
            assert(ds[ds.len() - 1] == d);
        }
        if forall|i: int| 0 <= i < ds.len() ==> ds[i] == d {
            assert forall|i: int| 0 <= i < init.len() implies init[i] == d by {
                assert(ds[i] == d);
            }
            assert(ds[ds.len() - 1] == d);
        }
        if count_decision(ds, d) == ds.len() {
            assert forall|i: int| 0 <= i < ds.len() implies ds[i] == d by {
                if i < init.len() {
                    assert(init[i] == d);
                }
            }
        }
    }
}

/// The council's rule, stated over the decisions themselves: any stop
/// stops, whatever else was decided; without a stop, more retries than
/// allows asks for a retry; without either, a council where every valid
/// advisor abstained and some advisor failed defers to a human; otherwise
/// the candidate continues.
pub proof fn council_decision_rule(ds: Seq<AdvisorDecision>, any_failure: bool)
    ensures
        ds.contains(AdvisorDecision::Stop) ==> aggregate(ds, any_failure) == CouncilDecision::Stop,
        !ds.contains(AdvisorDecision::Stop) && how_many(ds, AdvisorDecision::Retry) > how_many(
            ds,
            AdvisorDecision::Allow,
        ) ==> aggregate(ds, any_failure) == CouncilDecision::Retry,
        !ds.contains(AdvisorDecision::Stop) && how_many(ds, AdvisorDecision::Retry) <= how_many(
            ds,
            AdvisorDecision::Allow,
        ) && any_failure && (forall|i: int| 0 <= i < ds.len() ==> ds[i] == AdvisorDecision::Abstain)
            ==> aggregate(ds, any_failure) == CouncilDecision::DeferToHuman,
        !ds.contains(AdvisorDecision::Stop) && how_many(ds, AdvisorDecision::Retry) <= how_many(
            ds,
            AdvisorDecision::Allow,
        ) && !(any_failure && (forall|i: int| 0 <= i < ds.len() ==> ds[i] == AdvisorDecision::Abstain))
            ==> aggregate(ds, any_failure) == CouncilDecision::Continue,
{
    lemma_count_facts(ds, AdvisorDecision::Stop);
    lemma_count_facts(ds, AdvisorDecision::Retry);
    lemma_count_facts(ds, AdvisorDecision::Allow);
    lemma_count_facts(ds, AdvisorDecision::Abstain);
}

/// The council decision for the decisions of the valid verdicts.
pub fn aggregate_decision(decisions: &[AdvisorDecision], any_failure: bool) -> (d: CouncilDecision)
    ensures
        d == aggregate(decisions@, any_failure),
        decisions@.contains(AdvisorDecision::Stop) ==> d == CouncilDecision::Stop,
{
    proof {
        council_decision_rule(decisions@, any_failure);
    }
    let mut stops: usize = 0;
    let mut retries: usize = 0;
    let mut allows: usize = 0;
    let mut abstains: usize = 0;
    let mut i: usize = 0;
    while i < decisions.len()
        invariant
            i <= decisions@.len(),
            stops == count_decision(decisions@.take(i as int), AdvisorDecision::Stop),
            retries == count_decision(decisions@.take(i as int), AdvisorDecision::Retry),
            allows == count_decision(decisions@.take(i as int), AdvisorDecision::Allow),
            abstains == count_decision(decisions@.take(i as int), AdvisorDecision::Abstain),
            stops + retries + allows + abstains == i,
        decreases decisions@.len() - i,
    {
        proof {
            assert(decisions@.take(i + 1).drop_last() =~= decisions@.take(i as int));
            assert(decisions@.take(i + 1).last() == decisions@[i as int]);
        }
        match decisions[i] {
            AdvisorDecision::Stop => stops = stops + 1,
            AdvisorDecision::Retry => retries = retries + 1,
            AdvisorDecision::Allow => allows = allows + 1,
            AdvisorDecision::Abstain => abstains = abstains + 1,
        }
        i = i + 1;
    }
    proof {
        assert(decisions@.take(decisions@.len() as int) =~= decisions@);
    }
    if stops > 0 {
        CouncilDecision::Stop
    } else if retries > allows {
        CouncilDecision::Retry
    } else if abstains == decisions.len() && any_failure {
        CouncilDecision::DeferToHuman
    } else {
        CouncilDecision::Continue
    }
}

/// The position of the first evaluation that asks to stop or retry.
pub open spec fn first_objection(evals: Seq<(AdvisorKind, AdvisorDecision, String)>) -> Option<int> {
    if exists|i: int| 0 <= i < evals.len() && (#[trigger] evals[i]).1 != AdvisorDecision::Allow && evals[i].1
        != AdvisorDecision::Abstain {
        Some(
            choose|i: int|
                0 <= i < evals.len() && (#[trigger] evals[i]).1 != AdvisorDecision::Allow && evals[i].1
                    != AdvisorDecision::Abstain && forall|j: int|
                    0 <= j < i ==> (#[trigger] evals[j]).1 == AdvisorDecision::Allow || evals[j].1
                        == AdvisorDecision::Abstain,
        )
    } else {
        None
    }
}

/// The verdict of ordered `(kind, decision, critique)` evaluations: vetoed
/// by the first advisor that asked to stop or retry, with its critique;
/// approved otherwise.
pub fn veto_verdict(evaluations: &[(AdvisorKind, AdvisorDecision, String)]) -> (v: CouncilVerdict)
    ensures
        match first_objection(evaluations@) {
            None => v is Approved,
            Some(i) => v matches CouncilVerdict::Vetoed { by, reason } && by == evaluations@[i].0
                && reason@ == evaluations@[i].2@,
        },
{
    let ghost es = evaluations@;
    let mut i: usize = 0;
    while i < evaluations.len()
        invariant
            es == evaluations@,
            i <= es.len(),
            forall|j: int| 0 <= j < i ==> (#[trigger] es[j]).1 == AdvisorDecision::Allow || es[j].1 == AdvisorDecision::Abstain,
        decreases es.len() - i,
    {
        let d = evaluations[i].1;
        if d == AdvisorDecision::Stop || d == AdvisorDecision::Retry {
            proof {
                let ii = i as int;
                assert(es[ii].1 != AdvisorDecision::Allow && es[ii].1 != AdvisorDecision::Abstain);
                let c = choose|c: int|
                    0 <= c < es.len() && (#[trigger] es[c]).1 != AdvisorDecision::Allow && es[c].1
                        != AdvisorDecision::Abstain && forall|j: int|
                        0 <= j < c ==> (#[trigger] es[j]).1 == AdvisorDecision::Allow || es[j].1
                            == AdvisorDecision::Abstain;
                if c < ii {
                } else if ii < c {
                    assert(es[ii].1 == AdvisorDecision::Allow || es[ii].1 == AdvisorDecision::Abstain);
                }
            }
            return CouncilVerdict::Vetoed { by: evaluations[i].0, reason: evaluations[i].2.clone() };
        }
        i = i + 1;
    }
    CouncilVerdict::Approved
}

/// The default text of a retry request without usable critiques.
pub open spec fn default_retry_text() -> Seq<char> {
    "Council majority requested another candidate"@
}

/// The critiques of the retry verdicts that are not blank, joined by `; `.
pub open spec fn retry_critiques(evals: Seq<(AdvisorDecision, String)>) -> Seq<char>
    decreases evals.len(),
{
    if evals.len() == 0 {
        seq![]
    } else {
        let before = retry_critiques(evals.drop_last());
        let e = evals.last();
        if e.0 == AdvisorDecision::Retry && trim(e.1@).len() > 0 {
            if before.len() > 0 { before + "; "@ + e.1@ } else { e.1@ }
        } else {
            before
        }
    }
}

/// Retry feedback: the joined critiques or the default text, cut to 2000
/// characters.
pub open spec fn retry_feedback_text(evals: Seq<(AdvisorDecision, String)>) -> Seq<char> {
    let f = retry_critiques(evals);
    let g = if f.len() == 0 { default_retry_text() } else { f };
    if g.len() <= 2000 { g } else { g.take(2000) }
}

/// Short feedback for the retry directive from ordered `(decision,
/// critique)` evaluations.
pub fn retry_feedback(evaluations: &[(AdvisorDecision, String)]) -> (s: String)
    ensures
        s@ == retry_feedback_text(evaluations@),
{
    let mut out: Vec<char> = Vec::new();
    let mut i: usize = 0;
    proof {
        assert(evaluations@.take(0) =~= Seq::<(AdvisorDecision, String)>::empty());
    }
    while i < evaluations.len()
        invariant
            i <= evaluations@.len(),
            out@ == retry_critiques(evaluations@.take(i as int)),
        decreases evaluations@.len() - i,
    {
        proof {
            assert(evaluations@.take(i + 1).drop_last() =~= evaluations@.take(i as int));
            assert(evaluations@.take(i + 1).last() == evaluations@[i as int]);
        }
        if evaluations[i].0 == AdvisorDecision::Retry {
            let cs = chars_of(evaluations[i].1.as_str());
            let t = trimmed(cs.as_slice());
            if t.len() > 0 {
                let ghost before = out@;
                if out.len() > 0 {
                    out.push(';');
                    out.push(' ');
                }
                let mut k: usize = 0;
                let ghost mid = out@;
                while k < cs.len()
                    invariant
                        k <= cs@.len(),
                        out@ == mid + cs@.take(k as int),
                    decreases cs@.len() - k,
                {
                    out.push(cs[k]);
                    proof {
                        assert(cs@.take(k + 1) =~= cs@.take(k as int).push(cs@[k as int]));
                    }
                    k = k + 1;
                }
                proof {
                    assert(cs@.take(cs@.len() as int) =~= cs@);
                    if before.len() > 0 {
                        assert(out@ =~= before + "; "@ + cs@) by {
                            reveal_strlit("; ");
                        }
                    } else {
                        assert(out@ =~= cs@);
                    }
                }
            }
        }
        i = i + 1;
    }
    proof {
        assert(evaluations@.take(evaluations@.len() as int) =~= evaluations@);
    }
    if out.len() == 0 {
        let d = chars_of("Council majority requested another candidate");
        out = d;
    }
    let n = if out.len() <= 2000 { out.len() } else { 2000 };
    let mut s = String::new();
    let mut k: usize = 0;
    while k < n
        invariant
            n <= out@.len(),
            k <= n,
            s@ == out@.take(k as int),
        decreases n - k,
    {
        crate::text::push_char(&mut s, out[k]);
        proof {
            assert(out@.take(k + 1) =~= out@.take(k as int).push(out@[k as int]));
        }
        k = k + 1;
    }
    proof {
        if out@.len() <= 2000 {
            assert(out@.take(n as int) =~= out@);
        }
    }
    s
}

/// A deterministic advisor that always allows.
#[derive(Debug, Clone, Copy, PartialEq, Eq, Structural)]
pub struct NoopAdvisor {
    kind: AdvisorKind,
}

pub open spec fn noop_name(kind: AdvisorKind) -> Seq<char> {
    match kind {
        AdvisorKind::Safety => "noop_safety"@,
        AdvisorKind::Performance => "noop_performance"@,
        AdvisorKind::Philosophy => "noop_philosophy"@,
        AdvisorKind::History => "noop_history"@,
        AdvisorKind::Strategy => "noop_strategy"@,
        AdvisorKind::Ethics => "noop_ethics"@,
        AdvisorKind::Legal => "noop_legal"@,
    }
}

impl NoopAdvisor {
    pub closed spec fn kind_view(&self) -> AdvisorKind {
        self.kind
    }

    /// The no-op advisor of a domain.
    pub fn new(kind: AdvisorKind) -> (a: NoopAdvisor)
        ensures
            a.kind_view() == kind,
    {
        NoopAdvisor { kind }
    }

    /// Its domain.
    pub fn kind(&self) -> (k: AdvisorKind)
        ensures
            k == self.kind_view(),
    {
        self.kind
    }

    /// Its stable name, `noop_<domain>`.
    pub fn name(&self) -> (n: &'static str)
        ensures
            n@ == noop_name(self.kind_view()),
    {
        match self.kind {
            AdvisorKind::Safety => "noop_safety",
            AdvisorKind::Performance => "noop_performance",
            AdvisorKind::Philosophy => "noop_philosophy",
            AdvisorKind::History => "noop_history",
            AdvisorKind::Strategy => "noop_strategy",
            AdvisorKind::Ethics => "noop_ethics",
            AdvisorKind::Legal => "noop_legal",
        }
    }
}

/// Duration of `secs` seconds.
///
/// Trusted: calls `Duration::from_secs`; nothing is claimed of the value,
/// which the council only carries to the caller's timers.
#[verifier::external_body]
fn duration_from_secs(secs: u64) -> std::time::Duration {
    std::time::Duration::from_secs(secs)
}

/// Bounded council settings.
#[derive(Debug, Clone, Copy, PartialEq, Eq)]
pub struct CouncilConfig {
    /// Registered advisors evaluated per proposal, at most.
    pub max_advisors: usize,
    /// Deadline of one advisor call.
    pub per_advisor_timeout: std::time::Duration,
    /// Deadline of the whole batch.
    pub overall_timeout: std::time::Duration,
}

impl Default for CouncilConfig {
    /// Seven advisors, ten seconds each, sixty seconds in all.
    fn default() -> (c: CouncilConfig)
        ensures
            c.max_advisors == 7,
    {
        CouncilConfig {
            max_advisors: 7,
            per_advisor_timeout: duration_from_secs(10),
            overall_timeout: duration_from_secs(60),
        }
    }
}

} // verus!
