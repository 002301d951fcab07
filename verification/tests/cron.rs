use orchestration::cron::{describe, field_bits_eq, next_after, validate_expr, CronError, CronExpr, Schedule};
use std::str::FromStr;


#[test]
fn valid_schedule_passes() {
    assert!(Schedule::new("tick", 60).validate().is_ok());
}

#[test]
fn zero_interval_is_rejected() {
    assert!(Schedule::new("tick", 0).validate().is_err());
    assert!(Schedule::new("tick", -1).validate().is_err());
}

#[test]
fn cron_wildcard_matches_anything() {
    let e = CronExpr::parse("* * * * *").unwrap();
    for m in 0..60 {
        assert!(e.matches(m, 0, 1, 1, 0));
    }
}

#[test]
fn cron_literal() {
    let e = CronExpr::parse("30 9 * * *").unwrap();
    assert!(e.matches(30, 9, 1, 1, 0));
    assert!(!e.matches(31, 9, 1, 1, 0));
    assert!(!e.matches(30, 10, 1, 1, 0));
}

#[test]
fn cron_list_and_step() {
    let e = CronExpr::parse("*/15 * * * *").unwrap();
    for m in 0..60 {
        assert_eq!(e.matches(m, 0, 1, 1, 0), m % 15 == 0, "m={m}");
    }
}

#[test]
fn cron_list_csv() {
    let e = CronExpr::parse("0 9-17 * * 1-5").unwrap();
    assert!(!e.matches(0, 8, 1, 1, 1));
    assert!(e.matches(0, 9, 1, 1, 1));
    assert!(e.matches(0, 17, 1, 1, 5));
    assert!(!e.matches(0, 18, 1, 1, 5));
    assert!(!e.matches(0, 12, 1, 1, 6));
}

#[test]
fn cron_field_count_mismatch() {
    assert!(matches!(
        CronExpr::parse("* * * *"),
        Err(CronError::FieldCountMismatch(4))
    ));
}

#[test]
fn cron_out_of_range_rejected() {
    assert!(CronExpr::parse("60 * * * *").is_err());
}

#[test]
fn cron_parses_via_fromstr() {
    let e = CronExpr::from_str("0 12 * * 0").unwrap();
    assert!(e.matches(0, 12, 1, 1, 0));
}

#[test]
fn describe_basic() {
    let e = CronExpr::parse("0 12 * * *").unwrap();
    let s = describe(&e);
    assert!(s.contains("minute 0") && s.contains("hour 12"));
}

#[test]
fn describe_reboot() {
    let e = CronExpr::parse("@reboot").unwrap();
    assert_eq!(describe(&e), "at startup (one-shot)");
}

#[test]
fn validate_expr_returns_cron() {
    assert!(validate_expr("* * * * *").is_ok());
    assert!(validate_expr("bogus").is_err());
}

#[test]
fn next_after_finds_match() {
    let e = CronExpr::parse("0 * * * *").unwrap();
    let n = next_after(&e, 2026, 5, 9, 1, 1, 0);
    assert!(n.is_some());
    let (m, _, _, _, _) = n.unwrap();
    assert_eq!(m, 0);
}

#[test]
fn next_after_reboot_is_none() {
    let e = CronExpr::parse("@reboot").unwrap();
    assert!(next_after(&e, 2026, 0, 0, 1, 1, 0).is_none());
}

#[test]
fn shorthand_hourly() {
    let e = CronExpr::parse("@hourly").unwrap();
    assert!(e.matches(0, 0, 1, 1, 0));
    assert!(!e.matches(1, 0, 1, 1, 0));
    assert!(field_bits_eq(&e, &CronExpr::parse("0 * * * *").unwrap()));
}

#[test]
fn shorthand_daily_and_midnight() {
    let e1 = CronExpr::parse("@daily").unwrap();
    let e2 = CronExpr::parse("@midnight").unwrap();
    assert!(field_bits_eq(&e1, &e2));
    assert!(e1.matches(0, 0, 1, 1, 0));
    assert!(!e1.matches(0, 1, 1, 1, 0));
}

#[test]
fn shorthand_weekly() {
    let e = CronExpr::parse("@weekly").unwrap();
    assert!(e.matches(0, 0, 1, 1, 0));
    assert!(!e.matches(0, 0, 1, 1, 1));
}

#[test]
fn shorthand_monthly_yearly() {
    let m = CronExpr::parse("@monthly").unwrap();
    let y = CronExpr::parse("@yearly").unwrap();
    assert!(m.matches(0, 0, 1, 1, 0));
    assert!(!m.matches(0, 0, 2, 1, 0));
    assert!(y.matches(0, 0, 1, 1, 0));
    assert!(!y.matches(0, 0, 1, 2, 0));
}

#[test]
fn shorthand_yearly_annually_alias() {
    let y = CronExpr::parse("@yearly").unwrap();
    let a = CronExpr::parse("@annually").unwrap();
    assert!(field_bits_eq(&y, &a));
}

#[test]
fn shorthand_reboot_is_special() {
    let e = CronExpr::parse("@reboot").unwrap();
    assert!(e.is_reboot());
    let h = CronExpr::parse("@hourly").unwrap();
    assert!(!h.is_reboot());
}

#[test]
fn shorthand_unknown_rejected() {
    let r = CronExpr::parse("@never");
    assert!(matches!(r, Err(CronError::UnknownShorthand(_))));
}

#[test]
fn month_alias_jan() {
    let e = CronExpr::parse("0 0 1 JAN *").unwrap();
    assert!(e.matches(0, 0, 1, 1, 0));
    assert!(!e.matches(0, 0, 1, 2, 0));
    assert!(field_bits_eq(&e, &CronExpr::parse("0 0 1 1 *").unwrap()));
}

#[test]
fn month_alias_list() {
    let e = CronExpr::parse("0 0 1 JAN,APR,JUL,OCT *").unwrap();
    assert!(e.matches(0, 0, 1, 1, 0));
    assert!(e.matches(0, 0, 1, 4, 0));
    assert!(!e.matches(0, 0, 1, 2, 0));
}

#[test]
fn month_alias_case_insensitive() {
    let e1 = CronExpr::parse("0 0 1 jan *").unwrap();
    let e2 = CronExpr::parse("0 0 1 Jan *").unwrap();
    let e3 = CronExpr::parse("0 0 1 JAN *").unwrap();
    assert_eq!(e1.matches(0, 0, 1, 1, 0), e2.matches(0, 0, 1, 1, 0));
    assert_eq!(e2.matches(0, 0, 1, 1, 0), e3.matches(0, 0, 1, 1, 0));
}

#[test]
fn month_alias_range_jan_mar() {
    let a = CronExpr::parse("0 0 1 JAN-MAR *").unwrap();
    let n = CronExpr::parse("0 0 1 1-3 *").unwrap();
    assert!(field_bits_eq(&a, &n));
}

#[test]
fn dow_alias_mon_to_fri() {
    let e = CronExpr::parse("0 9 * * MON-FRI").unwrap();
    assert!(e.matches(0, 9, 1, 1, 1));
    assert!(e.matches(0, 9, 1, 1, 5));
    assert!(!e.matches(0, 9, 1, 1, 0));
    assert!(!e.matches(0, 9, 1, 1, 6));
    assert!(field_bits_eq(&e, &CronExpr::parse("0 9 * * 1-5").unwrap()));
}

#[test]
fn dow_alias_sun() {
    let e = CronExpr::parse("0 0 * * SUN").unwrap();
    assert!(e.matches(0, 0, 1, 1, 0));
    assert!(!e.matches(0, 0, 1, 1, 1));
}

#[test]
fn backward_compat_numeric_still_works() {
    let e = CronExpr::parse("30 14 1 6 3").unwrap();
    assert!(e.matches(30, 14, 1, 6, 3));
    assert!(!e.matches(30, 14, 1, 7, 3));
}

#[test]
fn business_hours_weekday_only() {
    let e = CronExpr::parse("0 9-17 * * MON-FRI").unwrap();
    assert!(e.matches(0, 9, 1, 1, 1));
    assert!(e.matches(0, 17, 1, 1, 5));
    assert!(!e.matches(0, 18, 1, 1, 1));
    assert!(!e.matches(0, 8, 1, 1, 1));
    assert!(!e.matches(0, 12, 1, 1, 6));
    assert!(!e.matches(0, 12, 1, 1, 0));
    assert!(!e.matches(30, 9, 1, 1, 1));
}

#[test]
fn nightly_backup_at_2am() {
    let e = CronExpr::parse("30 2 * * *").unwrap();
    assert!(e.matches(30, 2, 1, 1, 1));
    assert!(e.matches(30, 2, 15, 7, 3));
    assert!(!e.matches(30, 3, 1, 1, 1));
    assert!(!e.matches(31, 2, 1, 1, 1));
}

#[test]
fn heartbeat_every_5_minutes() {
    let e = CronExpr::parse("*/5 * * * *").unwrap();
    for m in 0..60 {
        assert_eq!(e.matches(m, 12, 1, 1, 1), m % 5 == 0, "minute={m}");
    }
    assert!(e.matches(0, 13, 1, 1, 1));
    assert!(e.matches(55, 23, 31, 12, 6));
}

#[test]
fn quarterly_first_day_of_quarter() {
    let e = CronExpr::parse("0 0 1 1,4,7,10 *").unwrap();
    assert!(e.matches(0, 0, 1, 1, 1));
    assert!(e.matches(0, 0, 1, 4, 1));
    assert!(e.matches(0, 0, 1, 7, 1));
    assert!(e.matches(0, 0, 1, 10, 1));
    assert!(!e.matches(0, 0, 1, 2, 1));
    assert!(!e.matches(0, 0, 1, 3, 1));
    assert!(!e.matches(0, 0, 1, 11, 1));
}

#[test]
fn last_friday_of_month_pattern() {
    let e = CronExpr::parse("0 17 24-31 * FRI").unwrap();
    assert!(e.matches(0, 17, 28, 1, 5));
    assert!(e.matches(0, 17, 25, 1, 5));
    assert!(!e.matches(0, 17, 22, 1, 5));
    assert!(!e.matches(0, 17, 24, 1, 1));
    assert!(!e.matches(0, 17, 24, 1, 6));
}

#[test]
fn next_after_every_minute_increments_correctly() {
    let e = CronExpr::parse("* * * * *").unwrap();
    let (m, h, d, mo, dw) = next_after(&e, 2026, 30, 14, 15, 6, 1).unwrap();
    assert_eq!(m, 31);
    assert_eq!((h, d, mo), (14, 15, 6));
    assert_eq!(dw, 1);
}

#[test]
fn next_after_midnight_rollover() {
    let e = CronExpr::parse("0 0 * * *").unwrap();
    let (m, h, d, mo, dw) = next_after(&e, 2026, 59, 23, 5, 8, 3).unwrap();
    assert_eq!((m, h), (0, 0));
    assert_eq!((d, mo), (6, 8));
    assert_eq!(dw, 4);
}

#[test]
fn next_after_every_15_min_quarterly() {
    let e = CronExpr::parse("*/15 * * * *").unwrap();
    let (m, h, _, _, _) = next_after(&e, 2026, 7, 14, 1, 1, 1).unwrap();
    assert_eq!((m, h), (15, 14));
    let (m, h, _, _, _) = next_after(&e, 2026, 50, 14, 1, 1, 1).unwrap();
    assert_eq!((m, h), (0, 15));
}

#[test]
fn next_after_weekly_jump() {
    let e = CronExpr::parse("0 0 * * 0").unwrap();
    let (m, h, d, mo, dw) = next_after(&e, 2026, 59, 23, 1, 8, 6).unwrap();
    assert_eq!((m, h), (0, 0));
    assert_eq!((d, mo), (2, 8));
    assert_eq!(dw, 0);
}

#[test]
fn next_after_month_boundary() {
    let e = CronExpr::parse("0 0 1 * *").unwrap();
    let (m, h, d, mo, dw) = next_after(&e, 2026, 59, 23, 31, 8, 1).unwrap();
    assert_eq!((m, h), (0, 0));
    assert_eq!((d, mo), (1, 9));
    assert_eq!(dw, 2);
}

#[test]
fn next_after_year_boundary() {
    let e = CronExpr::parse("0 0 1 1 *").unwrap();
    let (m, h, d, mo, dw) = next_after(&e, 2026, 59, 23, 31, 12, 4).unwrap();
    assert_eq!((m, h), (0, 0));
    assert_eq!((d, mo), (1, 1));
    assert_eq!(dw, 5);
}

#[test]
fn next_after_leap_year_handles_feb_29() {
    let e = CronExpr::parse("0 0 29 2 *").unwrap();
    let (m, h, d, mo, dw) = next_after(&e, 2028, 59, 23, 28, 2, 1).unwrap();
    assert_eq!((m, h), (0, 0));
    assert_eq!((d, mo), (29, 2));
    assert_eq!(dw, 2);
}

#[test]
fn parse_display_reparse_round_trip() {
    let originals = [
        "0 9-17 * * MON-FRI",
        "30 2 * * *",
        "*/5 * * * *",
        "0 0 1 1,4,7,10 *",
        "0 17 24-31 * FRI",
        "0 0 1 JAN-MAR *",
    ];
    for raw in originals {
        let e1 = CronExpr::parse(raw).unwrap();
        let e2 = CronExpr::parse(&e1.to_string()).unwrap();
        assert!(field_bits_eq(&e1, &e2), "re-parse mismatch: {raw}");
        assert!(!describe(&e1).is_empty());
    }
}

#[test]
fn invalid_exprs_fail_gracefully() {
    let invalid = [
        "",
        "* * * *",
        "* * * * * *",
        "60 * * * *",
        "* 24 * * *",
        "* * 32 * *",
        "* * 0 * *",
        "* * * 0 *",
        "* * * 13 *",
        "* * * * 7",
    ];
    for bad in invalid {
        assert!(CronExpr::parse(bad).is_err(), "should Err: {bad:?}");
    }
}

#[test]
fn unknown_shorthand_fails_with_descriptive_error() {
    let err = CronExpr::parse("@never").unwrap_err();
    let msg = format!("{err:?}");
    assert!(msg.contains("@never"), "got {msg}");
}

#[test]
fn step_zero_rejected() {
    assert!(CronExpr::parse("*/0 * * * *").is_err());
}

#[test]
fn range_step() {
    let e = CronExpr::parse("1-10/3 * * * *").unwrap();
    assert!(e.matches(1, 0, 1, 1, 0));
    assert!(e.matches(4, 0, 1, 1, 0));
    assert!(e.matches(7, 0, 1, 1, 0));
    assert!(e.matches(10, 0, 1, 1, 0));
    assert!(!e.matches(2, 0, 1, 1, 0));
    assert!(!e.matches(11, 0, 1, 1, 0));
}


fn parse_reason(expr: &str) -> (String, String) {
    match CronExpr::parse(expr) {
        Err(CronError::ParseError(text, reason)) => (text, reason),
        other => panic!("expected a parse error, got {other:?}"),
    }
}

#[test]
fn parse_errors_name_the_field_and_the_reason() {
    assert_eq!(parse_reason("61 * * * *"), ("61".to_string(), "out of range 0..=59".to_string()));
    assert_eq!(parse_reason("*/0 * * * *"), ("*/0".to_string(), "step must be > 0".to_string()));
    assert_eq!(
        parse_reason("x * * * *"),
        ("x".to_string(), "literal parse: invalid digit found in string".to_string())
    );
    assert_eq!(
        parse_reason("0 300 * * *"),
        ("300".to_string(), "literal parse: number too large to fit in target type".to_string())
    );
    assert_eq!(
        parse_reason("0 0 * * 1-"),
        ("1-".to_string(), "range end: cannot parse integer from empty string".to_string())
    );
    assert_eq!(
        parse_reason("0 0 a-3 * *"),
        ("a-3".to_string(), "range start: invalid digit found in string".to_string())
    );
    assert_eq!(
        parse_reason("*/x * * * *"),
        ("*/x".to_string(), "step parse: invalid digit found in string".to_string())
    );
    assert_eq!(
        parse_reason("0 0 * * SAT-MON"),
        ("SAT-MON".to_string(), "alias range 6..1 out of range 0..=6".to_string())
    );
}
