//! The seven advisor prompts and the keyword reading of an advisor's reply.

use vstd::prelude::*;
use crate::text::{chars_of, string_from_chars};
use crate::cron::{trim, trimmed, lower, lower_char, to_lower_char};
use crate::ambient_context::{has_sub, contains_str};
use super::AdvisorDecision;

verus! {

broadcast use vstd::string::group_string_axioms;

/// The display name and system prompt of each advisor, in domain order:
/// safety, performance, philosophy, history, strategy, ethics, legal.
pub fn seven_system_prompts() -> (v: Vec<(&'static str, &'static str)>)
    ensures
        v@.len() == 7,
        v@[0].0@ == "SafetyAdvisor"@ && v@[0].1@ == "review for safety risks, deny if any unsafe"@,
        v@[1].0@ == "PerformanceAdvisor"@ && v@[1].1@ == "review for performance impact"@,
        v@[2].0@ == "PhilosophyAdvisor"@ && v@[2].1@ == "review for philosophical consistency with 9 anchors"@,
        v@[3].0@ == "HistoryAdvisor"@ && v@[3].1@ == "review for historical precedent"@,
        v@[4].0@ == "StrategyAdvisor"@ && v@[4].1@ == "review for strategic value"@,
        v@[5].0@ == "EthicsAdvisor"@ && v@[5].1@ == "review for ethical implications"@,
        v@[6].0@ == "LegalAdvisor"@ && v@[6].1@ == "review for legal compliance"@,
{
    vec![
        ("SafetyAdvisor", "review for safety risks, deny if any unsafe"),
        ("PerformanceAdvisor", "review for performance impact"),
        ("PhilosophyAdvisor", "review for philosophical consistency with 9 anchors"),
        ("HistoryAdvisor", "review for historical precedent"),
        ("StrategyAdvisor", "review for strategic value"),
        ("EthicsAdvisor", "review for ethical implications"),
        ("LegalAdvisor", "review for legal compliance"),
    ]
}

/// The critique kept from a reply: trimmed, at most 2000 characters.
pub open spec fn bounded_reply(text: Seq<char>) -> Seq<char> {
    let t = trim(text);
    if t.len() <= 2000 { t } else { t.take(2000) }
}

/// The decision a reply reads as: `deny`, `veto` or `reject` anywhere (any
/// ASCII case) stops; otherwise `abstain` or `skip` abstains; otherwise it
/// allows.
pub open spec fn reply_decision(bounded: Seq<char>) -> AdvisorDecision {
    let l = lower(bounded);
    if has_sub(l, "deny"@) || has_sub(l, "veto"@) || has_sub(l, "reject"@) {
        AdvisorDecision::Stop
    } else if has_sub(l, "abstain"@) || has_sub(l, "skip"@) {
        AdvisorDecision::Abstain
    } else {
        AdvisorDecision::Allow
    }
}

/// Reads an advisor's reply: the decision its keywords give and the
/// bounded critique. The reply is cut before it is read, so a keyword past
/// the first 2000 characters is not seen.
pub fn classify_advisor_reply(text: &str) -> (r: (AdvisorDecision, String))
    ensures
        r.1@ == bounded_reply(text@),
        r.0 == reply_decision(bounded_reply(text@)),
{
    let cs = chars_of(text);
    let t = trimmed(cs.as_slice());
    let n: usize = if t.len() <= 2000 { t.len() } else { 2000 };
    let mut b: Vec<char> = Vec::new();
    let mut l: Vec<char> = Vec::new();
    let mut i: usize = 0;
    while i < n
        invariant
            n <= t@.len(),
            i <= n,
            b@ == t@.take(i as int),
            l@ == lower(t@.take(i as int)),
        decreases n - i,
    {
        b.push(t[i]);
        l.push(to_lower_char(t[i]));
        proof {
            assert(t@.take(i + 1) =~= t@.take(i as int).push(t@[i as int]));
            assert(lower(t@.take(i + 1)) =~= lower(t@.take(i as int)).push(lower_char(t@[i as int])));
        }
        i = i + 1;
    }
    proof {
        if t@.len() <= 2000 {
            assert(t@.take(n as int) =~= t@);
        }
    }
    let decision = if contains_str(&l, "deny") || contains_str(&l, "veto") || contains_str(&l, "reject") {
        AdvisorDecision::Stop
    } else if contains_str(&l, "abstain") || contains_str(&l, "skip") {
        AdvisorDecision::Abstain
    } else {
        AdvisorDecision::Allow
    };
    (decision, string_from_chars(b.as_slice()))
}

} // verus!
