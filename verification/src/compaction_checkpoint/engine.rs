//! One compaction attempt, as decisions around the single summary call:
//! plan the span (the tail kept verbatim, the cut pair-safe, prior summaries
//! inside the span merged, a half-covered prior summary refusing the
//! attempt), then accept or refuse what the summary writer produced. Any
//! refusal writes nothing; only an accepted summary becomes a checkpoint.

use vstd::prelude::*;
use crate::text::{push_str, push_char, push_decimal, decimal};
use super::select::{select_compaction_range, selected, lemma_selected_bounds, CompactionRange};
use super::stream::{
    fold_checkpoints, render_transcript, rendered, fold_all, scan_of, segs_view, seg_view, SegView, ViewSegment,
    CompactionCheckpoint, CompactionLogEntry, CompactionMessage, disjoint_span, covered_span,
    first_partial_summary,
};
use super::summary::{validate_summary, verdict, priors_len, error_text, SummaryError, SummaryRequest};

verus! {

broadcast use vstd::string::group_string_axioms;

/// The outcome of one compaction attempt.
#[derive(Debug, Clone, PartialEq, Eq)]
pub enum CompactionOutcome {
    /// An accepted checkpoint, to be appended under its marker pair.
    Compacted { checkpoint: CompactionCheckpoint },
    /// Nothing was compacted; the session stays as it is.
    Skipped { reason: String },
}

impl CompactionOutcome {
    /// Whether a checkpoint was produced.
    pub fn is_compacted(&self) -> (b: bool)
        ensures
            b == self is Compacted,
    {
        match self {
            CompactionOutcome::Compacted { .. } => true,
            CompactionOutcome::Skipped { .. } => false,
        }
    }
}

/// The planned span, its transcript, and the prior summaries merged into it
/// (ordered by where they start).
#[derive(Debug, Clone, PartialEq, Eq)]
pub struct CompactionPlan {
    pub start_seq: usize,
    pub end_seq: usize,
    pub transcript: String,
    pub prior_summaries: Vec<String>,
}

/// The summary segments that meet `[s, e)`, with their start, in view order.
pub open spec fn meeting_summaries(segs: Seq<SegView>, s: int, e: int) -> Seq<(usize, Seq<char>)>
    decreases segs.len(),
{
    if segs.len() == 0 {
        seq![]
    } else {
        let before = meeting_summaries(segs.drop_last(), s, e);
        let g = segs.last();
        if g.0 && !disjoint_span(g.1 as int, g.2 as int, s, e) {
            before.push((g.1, g.3))
        } else {
            before
        }
    }
}

/// Stable insertion by start.
pub open spec fn insert_by_start(sorted: Seq<(usize, Seq<char>)>, x: (usize, Seq<char>)) -> Seq<(usize, Seq<char>)>
    decreases sorted.len(),
{
    if sorted.len() == 0 {
        seq![x]
    } else if sorted.last().0 <= x.0 {
        sorted.push(x)
    } else {
        insert_by_start(sorted.drop_last(), x).push(sorted.last())
    }
}

/// Stable sort by start.
pub open spec fn sort_by_start(v: Seq<(usize, Seq<char>)>) -> Seq<(usize, Seq<char>)>
    decreases v.len(),
{
    if v.len() == 0 {
        seq![]
    } else {
        insert_by_start(sort_by_start(v.drop_last()), v.last())
    }
}

/// The refusal text for a prior summary the span would half-replace.
pub open spec fn half_replace_text(s: int, e: int, marker: Seq<char>) -> Seq<char> {
    "span ["@ + decimal(s as nat) + ", "@ + decimal(e as nat) + ") half-replaces standing summary "@ + marker
}

/// The plan for `messages` under `log` keeping `retain` tail tokens, or the
/// reason to skip.
pub open spec fn planned(ms: Seq<CompactionMessage>, log: Seq<CompactionLogEntry>, retain: int) -> Result<(int, int, Seq<Seq<char>>), Seq<char>> {
    match selected(ms, retain) {
        None => Err("no pair-safe compressible span"@),
        Some((s, e)) => {
            let segs = fold_all(ms.len() as usize, scan_of(log).2).0;
            let p = first_partial_summary(segs, s, e);
            if p >= 0 {
                Err(half_replace_text(s, e, segs[p].4))
            } else {
                Ok((s, e, sort_by_start(meeting_summaries(segs, s, e)).map_values(|x: (usize, Seq<char>)| x.1)))
            }
        },
    }
}

/// Once a prefix of the view holds a half-covered summary, the whole view
/// reports that same one first.
proof fn lemma_partial_prefix_stands(segs: Seq<SegView>, k: int, s: int, e: int)
    requires
        0 <= k <= segs.len(),
        first_partial_summary(segs.take(k), s, e) >= 0,
    ensures
        first_partial_summary(segs, s, e) == first_partial_summary(segs.take(k), s, e),
    decreases segs.len(),
{
    if k == segs.len() {
        assert(segs.take(k) =~= segs);
    } else {
        assert(segs.drop_last().take(k) =~= segs.take(k));
        lemma_partial_prefix_stands(segs.drop_last(), k, s, e);
    }
}

fn insert_sorted(v: &mut Vec<(usize, String)>, x: (usize, String))
    ensures
        pairs_view(final(v)@) == insert_by_start(pairs_view(old(v)@), (x.0, x.1@)),
    decreases old(v)@.len(),
{
    if v.len() == 0 {
        v.push(x);
        proof {
            assert(pairs_view(v@) =~= seq![(x.0, x.1@)]);
        }
        return;
    }
    let n = v.len();
    if v[n - 1].0 <= x.0 {
        let ghost before = pairs_view(v@);
        let ghost xv = (x.0, x.1@);
        v.push(x);
        proof {
            assert(pairs_view(v@) =~= before.push(xv));
        }
        return;
    }
    let ghost before = pairs_view(v@);
    let last = v.pop().unwrap();
    proof {
        assert(pairs_view(v@) =~= before.drop_last());
    }
    insert_sorted(v, x);
    let ghost mid = pairs_view(v@);
    let ghost lv = (last.0, last.1@);
    v.push(last);
    proof {
        assert(pairs_view(v@) =~= mid.push(lv));
    }
}

pub open spec fn pairs_view(v: Seq<(usize, String)>) -> Seq<(usize, Seq<char>)> {
    v.map_values(|p: (usize, String)| (p.0, p.1@))
}

/// Plans one compaction over `messages`, honouring the checkpoints already
/// in `log`: the span that would be replaced, its transcript, and the prior
/// summaries inside it; or why nothing can be compacted.
pub fn plan_compaction(messages: &[CompactionMessage], log: &[CompactionLogEntry], retain_tail_tokens: u64) -> (r: Result<CompactionPlan, String>)
    ensures
        match planned(messages@, log@, retain_tail_tokens as int) {
            Err(reason) => r is Err && r->Err_0@ == reason,
            Ok((s, e, priors)) => r is Ok && r->Ok_0.start_seq == s && r->Ok_0.end_seq == e
                && r->Ok_0.transcript@ == rendered(messages@.subrange(s, e))
                && r->Ok_0.prior_summaries@.map_values(|p: String| p@) == priors,
        },
{
    let folded = fold_checkpoints(messages.len(), log);
    let (start, end) = match select_compaction_range(messages, retain_tail_tokens) {
        None => {
            let mut reason = String::new();
            push_str(&mut reason, "no pair-safe compressible span");
            return Err(reason);
        },
        Some(CompactionRange { start_seq, end_seq }) => (start_seq, end_seq),
    };
    proof {
        lemma_selected_bounds(messages@, retain_tail_tokens as int);
    }
    let ghost segs = segs_view(folded.segments@);
    let mut meeting: Vec<(usize, String)> = Vec::new();
    let mut i: usize = 0;
    proof {
        assert(segs.take(0) =~= Seq::<SegView>::empty());
    }
    while i < folded.segments.len()
        invariant
            segs == segs_view(folded.segments@),
            segs == fold_all(messages@.len() as usize, scan_of(log@).2).0,
            selected(messages@, retain_tail_tokens as int) == Some((start as int, end as int)),
            i <= segs.len(),
            first_partial_summary(segs.take(i as int), start as int, end as int) == -1,
            pairs_view(meeting@) == meeting_summaries(segs.take(i as int), start as int, end as int),
        decreases segs.len() - i,
    {
        proof {
            assert(segs.take(i + 1).drop_last() =~= segs.take(i as int));
            assert(segs.take(i + 1).last() == segs[i as int]);
        }
        match &folded.segments[i] {
            ViewSegment::Summary { start_seq, end_seq, summary, marker } => {
                let disjoint = *end_seq <= start || end <= *start_seq;
                if !disjoint {
                    let covered = start <= *start_seq && *end_seq <= end;
                    if !covered {
                        proof {
                            assert(segs[i as int] == seg_view(folded.segments@[i as int]));
                            assert(first_partial_summary(segs.take(i + 1), start as int, end as int) == i);
                            lemma_partial_prefix_stands(segs, i + 1, start as int, end as int);
                        }
                        let mut reason = String::new();
                        push_str(&mut reason, "span [");
                        push_decimal(&mut reason, start as u64);
                        push_str(&mut reason, ", ");
                        push_decimal(&mut reason, end as u64);
                        push_str(&mut reason, ") half-replaces standing summary ");
                        push_str(&mut reason, marker.as_str());
                        return Err(reason);
                    }
                    let ghost before = pairs_view(meeting@);
                    meeting.push((*start_seq, summary.clone()));
                    proof {
                        assert(pairs_view(meeting@) =~= before.push((*start_seq, summary@)));
                    }
                }
            },
            ViewSegment::Original { .. } => {},
        }
        i = i + 1;
    }
    proof {
        assert(segs.take(segs.len() as int) =~= segs);
    }
    let ghost mv = pairs_view(meeting@);
    let mut sorted: Vec<(usize, String)> = Vec::new();
    let mut k: usize = 0;
    proof {
        assert(mv.take(0) =~= Seq::<(usize, Seq<char>)>::empty());
    }
    while k < meeting.len()
        invariant
            mv == pairs_view(meeting@),
            k <= mv.len(),
            pairs_view(sorted@) == sort_by_start(mv.take(k as int)),
        decreases mv.len() - k,
    {
        proof {
            assert(mv.take(k + 1).drop_last() =~= mv.take(k as int));
            assert(mv.take(k + 1).last() == mv[k as int]);
        }
        let item = (meeting[k].0, meeting[k].1.clone());
        insert_sorted(&mut sorted, item);
        k = k + 1;
    }
    proof {
        assert(mv.take(mv.len() as int) =~= mv);
    }
    let mut priors: Vec<String> = Vec::new();
    let mut j: usize = 0;
    let ghost sv = pairs_view(sorted@);
    while j < sorted.len()
        invariant
            sv == pairs_view(sorted@),
            j <= sv.len(),
            priors@.map_values(|p: String| p@) == sv.take(j as int).map_values(|x: (usize, Seq<char>)| x.1),
        decreases sv.len() - j,
    {
        let ghost before = priors@.map_values(|p: String| p@);
        priors.push(sorted[j].1.clone());
        proof {
            assert(priors@.map_values(|p: String| p@) =~= before.push(sv[j as int].1));
            assert(sv.take(j + 1).map_values(|x: (usize, Seq<char>)| x.1) =~= sv.take(j as int).map_values(
                |x: (usize, Seq<char>)| x.1,
            ).push(sv[j as int].1));
        }
        j = j + 1;
    }
    proof {
        assert(sv.take(sv.len() as int) =~= sv);
    }
    let transcript = render_transcript(&messages[start..end]);
    Ok(CompactionPlan { start_seq: start, end_seq: end, transcript, prior_summaries: priors })
}

impl CompactionPlan {
    /// The summary request of this plan: its transcript and prior summaries.
    pub fn request(&self) -> (q: SummaryRequest)
        ensures
            q.transcript@ == self.transcript@,
            q.prior_summaries@.map_values(|s: String| s@) == self.prior_summaries@.map_values(|s: String| s@),
    {
        let mut q = SummaryRequest::new(self.transcript.as_str());
        let mut i: usize = 0;
        while i < self.prior_summaries.len()
            invariant
                i <= self.prior_summaries@.len(),
                q.transcript@ == self.transcript@,
                q.prior_summaries@.map_values(|s: String| s@) == self.prior_summaries@.take(i as int).map_values(
                    |s: String| s@,
                ),
            decreases self.prior_summaries@.len() - i,
        {
            q = q.with_prior_summary(self.prior_summaries[i].as_str());
            proof {
                assert(self.prior_summaries@.take(i + 1).map_values(|s: String| s@) =~= self.prior_summaries@.take(
                    i as int,
                ).map_values(|s: String| s@).push(self.prior_summaries@[i as int]@));
            }
            i = i + 1;
        }
        proof {
            assert(self.prior_summaries@.take(self.prior_summaries@.len() as int) =~= self.prior_summaries@);
        }
        q
    }
}

/// Accepts or refuses what the summary writer produced for `plan`: a failed
/// call or a refused summary skips with its message; an accepted summary
/// becomes the checkpoint of the span under marker `compaction/<marker_id>`.
pub fn finish_compaction(plan: &CompactionPlan, generated: Result<String, SummaryError>, marker_id: &str) -> (o: CompactionOutcome)
    requires
        plan.transcript@.len() + priors_len(plan.prior_summaries@.map_values(|s: String| s@)) <= usize::MAX,
    ensures
        match generated {
            Err(e) => o matches CompactionOutcome::Skipped { reason } && reason@ == error_text(e),
            Ok(summary) => match verdict(summary@, plan.transcript@, plan.prior_summaries@.map_values(|s: String| s@)) {
                Err(e) => o matches CompactionOutcome::Skipped { reason } && reason@ == error_text(e),
                Ok(()) => o matches CompactionOutcome::Compacted { checkpoint } && checkpoint.start_seq
                    == plan.start_seq && checkpoint.end_seq == plan.end_seq && checkpoint.summary@ == summary@
                    && checkpoint.marker@ == "compaction/"@ + marker_id@,
            },
        },
{
    let summary = match generated {
        Err(e) => {
            return CompactionOutcome::Skipped { reason: e.to_string() };
        },
        Ok(s) => s,
    };
    match validate_summary(summary.as_str(), plan.transcript.as_str(), plan.prior_summaries.as_slice()) {
        Err(e) => CompactionOutcome::Skipped { reason: e.to_string() },
        Ok(()) => {
            let mut marker = String::new();
            push_str(&mut marker, "compaction/");
            push_str(&mut marker, marker_id);
            CompactionOutcome::Compacted {
                checkpoint: CompactionCheckpoint { start_seq: plan.start_seq, end_seq: plan.end_seq, summary, marker },
            }
        },
    }
}

} // verus!
