use orchestration::context_overflow::{exceeds_trigger, retry_makes_progress, shrink_budget, trigger_threshold_chars, trigger_threshold_tokens, RESERVE_TOKENS};


/// Small window: the reserve dominates and the headroom bound wins.
#[test]
fn trigger_small_window_is_bounded_by_headroom() {
    let trigger = trigger_threshold_tokens(1_000, 100, RESERVE_TOKENS);
    assert_eq!(trigger, 388, "min(800, 1000-100-512) = 388");
}

/// Large overhead: the trigger collapses to the remaining headroom (and to
/// 0 when the overhead alone exceeds the window).
#[test]
fn trigger_large_overhead_collapses_to_headroom() {
    let trigger = trigger_threshold_tokens(100_000, 95_000, RESERVE_TOKENS);
    assert_eq!(trigger, 4_488, "min(80_000, 100_000-95_000-512)");
    assert_eq!(trigger_threshold_tokens(1_000, 2_000, 0), 0);
    assert_eq!(trigger_threshold_tokens(600, 0, 600), 0, "reserve 吃光窗口");
}

/// Typical window: the scaled term wins, and the char facade agrees via the
/// `chars / 4` conversion.
#[test]
fn trigger_typical_window_is_the_scaled_term() {
    let trigger = trigger_threshold_tokens(128_000, 8_000, RESERVE_TOKENS);
    assert_eq!(trigger, 102_400, "min(0.8*128_000, 128_000-8_000-512)");
    assert_eq!(
        trigger_threshold_chars(128_000 * 4, 8_000 * 4, RESERVE_TOKENS),
        102_400
    );
}

/// Exactly at the threshold nothing triggers; one token over does.
#[test]
fn trigger_boundary_is_exclusive() {
    let (window, overhead) = (10_000u64, 1_000u64);
    let trigger = trigger_threshold_tokens(window, overhead, RESERVE_TOKENS);
    assert!(!exceeds_trigger(trigger, window, overhead, RESERVE_TOKENS));
    assert!(exceeds_trigger(
        trigger + 1,
        window,
        overhead,
        RESERVE_TOKENS
    ));
}


/// Budget descent is strictly decreasing and always terminates.
#[test]
fn shrink_budget_descends_strictly_until_it_stops() {
    let mut budget = 24_000u64;
    let mut steps = 0;
    while let Some(next) = shrink_budget(budget) {
        assert!(next < budget, "预算必须单调下降: {budget} -> {next}");
        budget = next;
        steps += 1;
        assert!(steps < 64, "收缩必须有限步终止");
    }
    assert_eq!(shrink_budget(24_000), Some(16_800), "24000 * 0.7");
    assert_eq!(shrink_budget(1), Some(0));
    assert_eq!(shrink_budget(0), None);
}

/// The progress guard requires both a smaller budget and a different
/// assembly; a no-progress retry is intercepted.
#[test]
fn retry_requires_budget_descent_and_new_assembly() {
    assert!(retry_makes_progress(1_000, Some(700), true));
    assert!(
        !retry_makes_progress(1_000, Some(700), false),
        "组装结果不变 = 无进展, 必须拦截"
    );
    assert!(!retry_makes_progress(1_000, Some(1_000), true), "预算不降");
    assert!(!retry_makes_progress(1_000, None, true), "预算无法再降");
}


