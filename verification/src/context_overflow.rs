//! Trigger arithmetic for context overflow, and the decision rules of the
//! budget-shrink recovery that follows a context-window-exceeded report.

use vstd::prelude::*;

verus! {

/// Token reserve kept free for the reply scaffold and protocol framing.
pub const RESERVE_TOKENS: u64 = 512;

/// Budget-shrink retries one provider request may make.
pub const MAX_OVERFLOW_RETRIES: u32 = 2;

/// Budget-shrink factor numerator: `next = current * 7 / 10`.
pub const BUDGET_SHRINK_NUMERATOR: u64 = 7;

/// Budget-shrink factor denominator.
pub const BUDGET_SHRINK_DENOMINATOR: u64 = 10;

/// Characters per estimated token (`chars / 4`).
pub const CHARS_PER_TOKEN: u64 = 4;

/// `min(floor(0.8 * window), window - overhead - reserve)`, the subtraction
/// saturating at zero.
pub open spec fn spec_trigger(window: int, overhead: int, reserve: int) -> int {
    let scaled = (window * 4) / 5;
    let h1 = if window - overhead > 0 { window - overhead } else { 0 };
    let headroom = if h1 - reserve > 0 { h1 - reserve } else { 0 };
    if scaled <= headroom { scaled } else { headroom }
}

/// The trigger threshold in tokens: the smaller of four fifths of the window
/// and the headroom left after the overhead and the reserve (never negative).
pub fn trigger_threshold_tokens(window_tokens: u64, overhead_tokens: u64, reserve_tokens: u64) -> (t: u64)
    ensures
        t == spec_trigger(window_tokens as int, overhead_tokens as int, reserve_tokens as int),
{
    let scaled_window = window_tokens / 5 * 4 + (window_tokens % 5) * 4 / 5;
    proof {
        let w = window_tokens as int;
        assert(w == 5 * (w / 5) + w % 5) by {
            vstd::arithmetic::div_mod::lemma_fundamental_div_mod(w, 5);
        }
        assert((w * 4) / 5 == (w / 5) * 4 + ((w % 5) * 4) / 5) by {
            let q = w / 5;
            let r = w % 5;
            assert(w * 4 == 5 * (q * 4) + r * 4) by (nonlinear_arith)
                requires
                    w == 5 * q + r,
            ;
            vstd::arithmetic::div_mod::lemma_fundamental_div_mod_converse(
                w * 4,
                5,
                q * 4 + (r * 4) / 5,
                (r * 4) % 5,
            );
        }
    }
    let h1 = window_tokens.saturating_sub(overhead_tokens);
    let headroom = h1.saturating_sub(reserve_tokens);
    if scaled_window <= headroom {
        scaled_window
    } else {
        headroom
    }
}

/// [`trigger_threshold_tokens`] with window and overhead given in characters.
pub fn trigger_threshold_chars(window_chars: u64, overhead_chars: u64, reserve_tokens: u64) -> (t: u64)
    ensures
        t == spec_trigger(
            (window_chars / 4) as int,
            (overhead_chars / 4) as int,
            reserve_tokens as int,
        ),
{
    trigger_threshold_tokens(window_chars / CHARS_PER_TOKEN, overhead_chars / CHARS_PER_TOKEN, reserve_tokens)
}

/// Whether the estimate is strictly above the trigger.
pub fn exceeds_trigger(
    estimated_tokens: u64,
    window_tokens: u64,
    overhead_tokens: u64,
    reserve_tokens: u64,
) -> (b: bool)
    ensures
        b == (estimated_tokens > spec_trigger(
            window_tokens as int,
            overhead_tokens as int,
            reserve_tokens as int,
        )),
{
    estimated_tokens > trigger_threshold_tokens(window_tokens, overhead_tokens, reserve_tokens)
}

/// The next budget after a window-exceeded report (`current * 7 / 10`,
/// the product saturating), or `None` when it would not be smaller.
pub fn shrink_budget(current_budget_chars: u64) -> (r: Option<u64>)
    ensures
        ({
            let product: int = if current_budget_chars * 7 > u64::MAX {
                u64::MAX as int
            } else {
                current_budget_chars * 7
            };
            let next = product / 10;
            r == if next < current_budget_chars {
                Some(next as u64)
            } else {
                None::<u64>
            }
        }),
        r matches Some(n) ==> n < current_budget_chars,
{
    let product: u64 = match current_budget_chars.checked_mul(BUDGET_SHRINK_NUMERATOR) {
        Some(p) => p,
        None => u64::MAX,
    };
    let next = product / BUDGET_SHRINK_DENOMINATOR;
    if next < current_budget_chars {
        Some(next)
    } else {
        None
    }
}

/// A shrink retry is taken only when the budget strictly decreased and the
/// reassembled context differs from the previous one.
pub fn retry_makes_progress(current_budget_chars: u64, next_budget_chars: Option<u64>, assembly_changed: bool) -> (b: bool)
    ensures
        b == (next_budget_chars matches Some(next) && next < current_budget_chars && assembly_changed),
{
    match next_budget_chars {
        Some(next) => next < current_budget_chars && assembly_changed,
        None => false,
    }
}

/// The trigger never exceeds four fifths of the window nor the headroom, and
/// is zero when the overhead and reserve use up the window.
pub proof fn trigger_is_bounded(window: u64, overhead: u64, reserve: u64)
    ensures
        spec_trigger(window as int, overhead as int, reserve as int) <= (window * 4) / 5,
        spec_trigger(window as int, overhead as int, reserve as int) + overhead + reserve <= window
            || spec_trigger(window as int, overhead as int, reserve as int) == 0,
        overhead + reserve >= window ==> spec_trigger(window as int, overhead as int, reserve as int) == 0,
{
}

/// Repeated shrinking descends strictly and so ends: every returned budget is
/// below the one it came from, and a zero budget does not shrink.
pub proof fn shrinking_terminates(current: u64)
    ensures
        current == 0 ==> (current * 7) / 10 >= current,
        current > 0 ==> (current * 7) / 10 < current,
{
}

} // verus!
