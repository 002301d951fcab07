//! Durable schedules: one-shot, fixed-interval and fixed-time triggers, a
//! catch-up rule that fires at most the latest missed occurrence, and a single
//! FIFO queue shared by management writes and delivery writes.
//!
//! Fixed times are wall-clock times at a constant UTC offset (no daylight
//! saving rules); a day is always 86 400 000 ms and weekdays run 0 = Sunday
//! .. 6 = Saturday (day 0, 1970-01-01, is a Thursday).
//!
//! Recording an occurrence and acknowledging its execution are two separate
//! writes: a delivery stays in the unacknowledged list until it is
//! acknowledged, so delivery is at-least-once and executors deduplicate on
//! `(schedule_id, occurrence_ms)`.
//!
//! The store here is the state machine; reading and writing the snapshot file
//! is left to the caller, who persists [`ScheduleStore::state`] after a drain
//! and reopens with [`ScheduleStore::open`].

use vstd::prelude::*;
use vstd::arithmetic::div_mod::{lemma_fundamental_div_mod, lemma_fundamental_div_mod_converse, lemma_mod_multiples_basic};
use crate::text::{push_str, push_signed_decimal, signed_decimal, str_eq, lex_lt, lex_less,
    lemma_lex_lt_irreflexive, lemma_lex_lt_transitive, lemma_lex_lt_total};

verus! {

/// Stable code of a whole-record compare-and-set conflict.
pub const SCHEDULE_CONFLICT_CODE: &'static str = "schedule_conflict";

/// Milliseconds in a day.
const DAY_MS: i64 = 86_400_000;

// ---------------------------------------------------------------------------
// Errors
// ---------------------------------------------------------------------------

/// The stable code family of schedule errors.
#[derive(Debug, Clone, Copy, PartialEq, Eq, Structural)]
pub enum ScheduleErrorCode {
    Conflict,
    NotFound,
    DuplicateId,
    InvalidTrigger,
    InvalidInput,
    Io,
    Corrupt,
}

/// The text of each code.
pub open spec fn code_text(c: ScheduleErrorCode) -> Seq<char> {
    match c {
        ScheduleErrorCode::Conflict => "schedule_conflict"@,
        ScheduleErrorCode::NotFound => "schedule_not_found"@,
        ScheduleErrorCode::DuplicateId => "schedule_duplicate_id"@,
        ScheduleErrorCode::InvalidTrigger => "schedule_invalid_trigger"@,
        ScheduleErrorCode::InvalidInput => "schedule_invalid_input"@,
        ScheduleErrorCode::Io => "schedule_io"@,
        ScheduleErrorCode::Corrupt => "schedule_corrupt"@,
    }
}

impl ScheduleErrorCode {
    /// The stable code string.
    pub fn as_str(self) -> (s: &'static str)
        ensures
            s@ == code_text(self),
    {
        match self {
            ScheduleErrorCode::Conflict => SCHEDULE_CONFLICT_CODE,
            ScheduleErrorCode::NotFound => "schedule_not_found",
            ScheduleErrorCode::DuplicateId => "schedule_duplicate_id",
            ScheduleErrorCode::InvalidTrigger => "schedule_invalid_trigger",
            ScheduleErrorCode::InvalidInput => "schedule_invalid_input",
            ScheduleErrorCode::Io => "schedule_io",
            ScheduleErrorCode::Corrupt => "schedule_corrupt",
        }
    }
}

/// A failure of the schedule domain.
#[derive(Debug, Clone, PartialEq, Eq)]
pub enum ScheduleError {
    /// The expected record differs from the stored one; nothing was written.
    Conflict { id: String, expected_revision: u64 },
    /// No schedule has this id.
    NotFound { id: String },
    /// A schedule with this id already exists.
    DuplicateId { id: String },
    /// The trigger configuration is out of range.
    InvalidTrigger { reason: String },
    /// An argument is not acceptable.
    InvalidInput { reason: String },
    /// Reading or writing the snapshot failed.
    Io { operation: &'static str, reason: String },
    /// The snapshot cannot be understood.
    Corrupt { reason: String },
}

/// What an error says, with its strings as character sequences.
#[verifier::ext_equal]
pub enum ErrorView {
    Conflict { id: Seq<char>, expected_revision: u64 },
    NotFound { id: Seq<char> },
    DuplicateId { id: Seq<char> },
    InvalidTrigger { reason: Seq<char> },
    InvalidInput { reason: Seq<char> },
    Io { operation: Seq<char>, reason: Seq<char> },
    Corrupt { reason: Seq<char> },
}

impl View for ScheduleError {
    type V = ErrorView;

    open spec fn view(&self) -> ErrorView {
        match self {
            ScheduleError::Conflict { id, expected_revision } => ErrorView::Conflict {
                id: id@,
                expected_revision: *expected_revision,
            },
            ScheduleError::NotFound { id } => ErrorView::NotFound { id: id@ },
            ScheduleError::DuplicateId { id } => ErrorView::DuplicateId { id: id@ },
            ScheduleError::InvalidTrigger { reason } => ErrorView::InvalidTrigger { reason: reason@ },
            ScheduleError::InvalidInput { reason } => ErrorView::InvalidInput { reason: reason@ },
            ScheduleError::Io { operation, reason } => ErrorView::Io {
                operation: operation@,
                reason: reason@,
            },
            ScheduleError::Corrupt { reason } => ErrorView::Corrupt { reason: reason@ },
        }
    }
}

/// The code of an error view.
pub open spec fn error_code(e: ErrorView) -> ScheduleErrorCode {
    match e {
        ErrorView::Conflict { .. } => ScheduleErrorCode::Conflict,
        ErrorView::NotFound { .. } => ScheduleErrorCode::NotFound,
        ErrorView::DuplicateId { .. } => ScheduleErrorCode::DuplicateId,
        ErrorView::InvalidTrigger { .. } => ScheduleErrorCode::InvalidTrigger,
        ErrorView::InvalidInput { .. } => ScheduleErrorCode::InvalidInput,
        ErrorView::Io { .. } => ScheduleErrorCode::Io,
        ErrorView::Corrupt { .. } => ScheduleErrorCode::Corrupt,
    }
}

impl ScheduleError {
    /// The code this error belongs to.
    pub fn code(&self) -> (c: ScheduleErrorCode)
        ensures
            c == error_code(self@),
    {
        match self {
            ScheduleError::Conflict { .. } => ScheduleErrorCode::Conflict,
            ScheduleError::NotFound { .. } => ScheduleErrorCode::NotFound,
            ScheduleError::DuplicateId { .. } => ScheduleErrorCode::DuplicateId,
            ScheduleError::InvalidTrigger { .. } => ScheduleErrorCode::InvalidTrigger,
            ScheduleError::InvalidInput { .. } => ScheduleErrorCode::InvalidInput,
            ScheduleError::Io { .. } => ScheduleErrorCode::Io,
            ScheduleError::Corrupt { .. } => ScheduleErrorCode::Corrupt,
        }
    }
}

fn invalid_trigger(prefix: &str, value: i64) -> (e: ScheduleError)
    ensures
        e@ == (ErrorView::InvalidTrigger { reason: prefix@ + signed_decimal(value as int) }),
{
    let mut reason = String::new();
    push_str(&mut reason, prefix);
    push_signed_decimal(&mut reason, value);
    ScheduleError::InvalidTrigger { reason }
}

fn invalid_input(text: &str) -> (e: ScheduleError)
    ensures
        e@ == (ErrorView::InvalidInput { reason: text@ }),
{
    let mut reason = String::new();
    push_str(&mut reason, text);
    ScheduleError::InvalidInput { reason }
}

// ---------------------------------------------------------------------------
// Triggers
// ---------------------------------------------------------------------------

/// The supported fixed-time subset of cron.
#[derive(Debug, Clone, Copy, PartialEq, Eq, Structural)]
pub enum CronSubset {
    /// Every day at `hour:minute` wall-clock time (UTC + offset).
    Daily { hour: u8, minute: u8, utc_offset_minutes: i32 },
    /// Every week on `weekday` (0 = Sunday) at `hour:minute`.
    Weekly { weekday: u8, hour: u8, minute: u8, utc_offset_minutes: i32 },
}

/// When a schedule fires.
#[derive(Debug, Clone, Copy, PartialEq, Eq, Structural)]
pub enum ScheduleTrigger {
    /// Once, at the absolute instant `at_ms`.
    After { at_ms: i64 },
    /// At `anchor_ms` and every `every_ms` after it.
    Every { every_ms: i64, anchor_ms: i64 },
    /// At a fixed wall-clock time.
    Cron { spec: CronSubset },
}

pub open spec fn in_i64(x: int) -> bool {
    i64::MIN <= x <= i64::MAX
}

/// An optional integer as an optional `i64`.
pub open spec fn narrow(o: Option<int>) -> Option<i64> {
    match o {
        Some(v) => Some(v as i64),
        None => None,
    }
}

/// An optional `i64` as an optional integer.
pub open spec fn widen(o: Option<i64>) -> Option<int> {
    match o {
        Some(v) => Some(v as int),
        None => None,
    }
}

pub open spec fn day_ms() -> int {
    86_400_000
}

/// Milliseconds into the day of `hour:minute`.
pub open spec fn time_of_day_ms(hour: u8, minute: u8) -> int {
    hour * 3_600_000 + minute * 60_000
}

/// Weekday (0 = Sunday) of a day number counted from 1970-01-01.
pub open spec fn weekday_of_day(day: int) -> int {
    (day + 4) % 7
}

/// Whether the fixed time `hour:minute` at the offset is in range.
pub open spec fn fixed_time_valid(hour: u8, minute: u8, utc_offset_minutes: i32) -> bool {
    hour <= 23 && minute <= 59 && -1440 <= utc_offset_minutes <= 1440
}

/// Whether a trigger passes validation.
pub open spec fn trigger_valid(t: ScheduleTrigger) -> bool {
    match t {
        ScheduleTrigger::After { .. } => true,
        ScheduleTrigger::Every { every_ms, .. } => every_ms > 0,
        ScheduleTrigger::Cron { spec } => match spec {
            CronSubset::Daily { hour, minute, utc_offset_minutes } =>
                fixed_time_valid(hour, minute, utc_offset_minutes),
            CronSubset::Weekly { weekday, hour, minute, utc_offset_minutes } =>
                weekday <= 6 && fixed_time_valid(hour, minute, utc_offset_minutes),
        },
    }
}

/// The error that validation reports for a fixed time, the first failing
/// check first.
pub open spec fn fixed_time_error(hour: u8, minute: u8, utc_offset_minutes: i32) -> ErrorView {
    if hour > 23 {
        ErrorView::InvalidTrigger { reason: "hour must be 0..=23, got "@ + signed_decimal(hour as int) }
    } else if minute > 59 {
        ErrorView::InvalidTrigger {
            reason: "minute must be 0..=59, got "@ + signed_decimal(minute as int),
        }
    } else {
        ErrorView::InvalidTrigger {
            reason: "utc_offset_minutes must be -1440..=1440, got "@ + signed_decimal(
                utc_offset_minutes as int,
            ),
        }
    }
}

/// The error that validation reports for an invalid trigger.
pub open spec fn trigger_error(t: ScheduleTrigger) -> ErrorView {
    match t {
        ScheduleTrigger::Every { every_ms, .. } => ErrorView::InvalidTrigger {
            reason: "every_ms must be > 0, got "@ + signed_decimal(every_ms as int),
        },
        ScheduleTrigger::Cron { spec } => match spec {
            CronSubset::Daily { hour, minute, utc_offset_minutes } =>
                fixed_time_error(hour, minute, utc_offset_minutes),
            CronSubset::Weekly { weekday, hour, minute, utc_offset_minutes } => if weekday > 6 {
                ErrorView::InvalidTrigger {
                    reason: "weekday must be 0..=6, got "@ + signed_decimal(weekday as int),
                }
            } else {
                fixed_time_error(hour, minute, utc_offset_minutes)
            },
        },
        ScheduleTrigger::After { .. } => ErrorView::InvalidInput { reason: Seq::empty() },
    }
}

fn validate_fixed_time(hour: u8, minute: u8, utc_offset_minutes: i32) -> (r: Result<(), ScheduleError>)
    ensures
        r is Ok <==> fixed_time_valid(hour, minute, utc_offset_minutes),
        r is Err ==> r->Err_0@ == fixed_time_error(hour, minute, utc_offset_minutes),
{
    if hour > 23 {
        return Err(invalid_trigger("hour must be 0..=23, got ", hour as i64));
    }
    if minute > 59 {
        return Err(invalid_trigger("minute must be 0..=59, got ", minute as i64));
    }
    if utc_offset_minutes < -1440 || utc_offset_minutes > 1440 {
        return Err(
            invalid_trigger("utc_offset_minutes must be -1440..=1440, got ", utc_offset_minutes as i64),
        );
    }
    Ok(())
}

/// Euclidean quotient and remainder of `a` by a positive `b`.
fn floor_div_mod(a: i64, b: i64) -> (res: (i64, i64))
    requires
        b > 0,
    ensures
        res.0 == a as int / b as int,
        res.1 == a as int % b as int,
{
    if a >= 0 {
        let q = (a as u64 / b as u64) as i64;
        let r = (a as u64 % b as u64) as i64;
        (q, r)
    } else {
        let na: u64 = (0i128 - (a as i128 + 1)) as u64;
        let qq = na / (b as u64);
        let rr = na % (b as u64);
        proof {
            lemma_fundamental_div_mod(na as int, b as int);
            assert(na == (b as int) * qq + rr);
            assert(qq * b <= na) by (nonlinear_arith)
                requires
                    na == (b as int) * qq + rr,
                    rr >= 0,
            ;
            assert(qq <= na) by (nonlinear_arith)
                requires
                    qq * b <= na,
                    b >= 1,
                    qq >= 0,
            ;
            assert(a as int == (-(qq as int) - 1) * (b as int) + (b - 1 - rr)) by (nonlinear_arith)
                requires
                    na == (b as int) * qq + rr,
                    na == -(a + 1),
            ;
            lemma_fundamental_div_mod_converse(a as int, b as int, -(qq as int) - 1, b - 1 - rr);
        }
        let q: i64 = -(qq as i64) - 1;
        let r: i64 = b - 1 - (rr as i64);
        (q, r)
    }
}

/// The instant of `hour:minute` within a day, in ms.
fn fixed_time_target_ms(hour: u8, minute: u8) -> (t: i64)
    ensures
        t == time_of_day_ms(hour, minute),
{
    hour as i64 * 3_600_000 + minute as i64 * 60_000
}

/// The latest fixed-time occurrence at or before `now`, computed as the
/// instant of the target time on the day that many days back, and `None`
/// when an intermediate instant leaves the `i64` range.
pub open spec fn fixed_latest(now: int, target: int, offset_minutes: int, weekday: Option<int>) -> Option<int> {
    let off = offset_minutes * 60_000;
    let local = now + off;
    let day = local / day_ms();
    let tod = local % day_ms();
    let back = match weekday {
        None => if tod < target { 1int } else { 0int },
        Some(w) => {
            let gap = (weekday_of_day(day) - w) % 7;
            if gap == 0 && tod < target { 7int } else { gap }
        },
    };
    let occ_day = (day - back) * day_ms();
    let occ_local = occ_day + target;
    if in_i64(local) && in_i64(occ_day) && in_i64(occ_local) && in_i64(occ_local - off) {
        Some(occ_local - off)
    } else {
        None
    }
}

/// The next fixed-time occurrence strictly after `after`, with the same
/// range rule as [`fixed_latest`].
pub open spec fn fixed_next(after: int, target: int, offset_minutes: int, weekday: Option<int>) -> Option<int> {
    let off = offset_minutes * 60_000;
    let local = after + off;
    let day = local / day_ms();
    let tod = local % day_ms();
    let fwd = match weekday {
        None => if tod >= target { 1int } else { 0int },
        Some(w) => {
            let gap = (w - weekday_of_day(day)) % 7;
            if gap == 0 && tod >= target { 7int } else { gap }
        },
    };
    let occ_day = (day + fwd) * day_ms();
    let occ_local = occ_day + target;
    if in_i64(local) && in_i64(occ_day) && in_i64(occ_local) && in_i64(occ_local - off) {
        Some(occ_local - off)
    } else {
        None
    }
}

/// The latest occurrence at or before `now` (a fixed interval needs a
/// positive `every_ms`).
pub open spec fn latest_occurrence(t: ScheduleTrigger, now: int) -> Option<int> {
    match t {
        ScheduleTrigger::After { at_ms } => if at_ms <= now { Some(at_ms as int) } else { None },
        ScheduleTrigger::Every { every_ms, anchor_ms } => if now < anchor_ms {
            None
        } else {
            Some(anchor_ms + ((now - anchor_ms) / (every_ms as int)) * every_ms)
        },
        ScheduleTrigger::Cron { spec } => match spec {
            CronSubset::Daily { hour, minute, utc_offset_minutes } =>
                fixed_latest(now, time_of_day_ms(hour, minute), utc_offset_minutes as int, None),
            CronSubset::Weekly { weekday, hour, minute, utc_offset_minutes } => fixed_latest(
                now,
                time_of_day_ms(hour, minute),
                utc_offset_minutes as int,
                Some(weekday as int),
            ),
        },
    }
}

/// The next occurrence strictly after `after`.
pub open spec fn next_occurrence(t: ScheduleTrigger, after: int) -> Option<int> {
    match t {
        ScheduleTrigger::After { at_ms } => if at_ms > after { Some(at_ms as int) } else { None },
        ScheduleTrigger::Every { every_ms, anchor_ms } => if after < anchor_ms {
            Some(anchor_ms as int)
        } else {
            Some(anchor_ms + ((after - anchor_ms) / (every_ms as int) + 1) * every_ms)
        },
        ScheduleTrigger::Cron { spec } => match spec {
            CronSubset::Daily { hour, minute, utc_offset_minutes } =>
                fixed_next(after, time_of_day_ms(hour, minute), utc_offset_minutes as int, None),
            CronSubset::Weekly { weekday, hour, minute, utc_offset_minutes } => fixed_next(
                after,
                time_of_day_ms(hour, minute),
                utc_offset_minutes as int,
                Some(weekday as int),
            ),
        },
    }
}

/// Whether the next occurrence after `after` is computable without leaving
/// the `i64` range (a fixed interval needs a positive `every_ms`).
pub open spec fn next_computable(t: ScheduleTrigger, after: int) -> bool {
    match t {
        ScheduleTrigger::Every { every_ms, anchor_ms } => every_ms > 0 && (after >= anchor_ms ==> in_i64(
            anchor_ms + ((after - anchor_ms) / (every_ms as int) + 1) * every_ms,
        )),
        _ => true,
    }
}

/// The exact counterpart of [`fixed_latest`] (`back` days before the day of
/// `now`, chosen by `latest`) and of [`fixed_next`] (`fwd` days after).
fn fixed_time_occurrence(
    instant: i64,
    target: i64,
    utc_offset_minutes: i32,
    weekday: Option<i64>,
    latest: bool,
) -> (r: Option<i64>)
    requires
        0 <= target <= 255 * 3_600_000 + 255 * 60_000,
        weekday is Some ==> 0 <= weekday->0 <= 255,
    ensures
        latest ==> r == narrow(fixed_latest(instant as int, target as int, utc_offset_minutes as int, widen(weekday))),
        !latest ==> r == narrow(fixed_next(instant as int, target as int, utc_offset_minutes as int, widen(weekday))),
        r is Some ==> (if latest {
            fixed_latest(instant as int, target as int, utc_offset_minutes as int, widen(weekday))
        } else {
            fixed_next(instant as int, target as int, utc_offset_minutes as int, widen(weekday))
        }) == Some(r->0 as int),
{
    let off: i64 = utc_offset_minutes as i64 * 60_000;
    let local_wide: i128 = instant as i128 + off as i128;
    if local_wide < i64::MIN as i128 || local_wide > i64::MAX as i128 {
        return None;
    }
    let local = local_wide as i64;
    let (day, tod) = floor_div_mod(local, DAY_MS);
    proof {
        lemma_fundamental_div_mod(local as int, day_ms());
        assert(day_ms() * day <= local - tod);
        assert(-106_751_992_000 <= day <= 106_751_992_000) by (nonlinear_arith)
            requires
                86_400_000 * day == local - tod,
                0 <= tod < 86_400_000,
                i64::MIN <= local <= i64::MAX,
        ;
    }
    let shift: i64 = match weekday {
        None => {
            if latest {
                if tod < target { 1 } else { 0 }
            } else {
                if tod >= target { 1 } else { 0 }
            }
        },
        Some(w) => {
            let (_, wd) = floor_div_mod(day + 4, 7);
            let diff = if latest { wd - w } else { w - wd };
            let (_, g) = floor_div_mod(diff, 7);
            if g == 0 && ((latest && tod < target) || (!latest && tod >= target)) {
                7
            } else {
                g
            }
        },
    };
    let occ_day_index: i64 = if latest { day - shift } else { day + shift };
    let occ_day: i128 = occ_day_index as i128 * DAY_MS as i128;
    proof {
        assert(-106_751_992_007 * 86_400_000 <= occ_day <= 106_751_992_007 * 86_400_000) by (nonlinear_arith)
            requires
                occ_day == occ_day_index * 86_400_000,
                -106_751_992_007 <= occ_day_index <= 106_751_992_007,
        ;
    }
    if occ_day < i64::MIN as i128 || occ_day > i64::MAX as i128 {
        return None;
    }
    let occ_local: i128 = occ_day + target as i128;
    if occ_local < i64::MIN as i128 || occ_local > i64::MAX as i128 {
        return None;
    }
    let result: i128 = occ_local - off as i128;
    if result < i64::MIN as i128 || result > i64::MAX as i128 {
        return None;
    }
    Some(result as i64)
}

/// `anchor + floor((now - anchor) / every) * every` for `now >= anchor`.
fn every_latest(now: i64, every_ms: i64, anchor_ms: i64) -> (r: i64)
    requires
        every_ms > 0,
        now >= anchor_ms,
    ensures
        r == anchor_ms + ((now - anchor_ms) / (every_ms as int)) * every_ms,
{
    let diff: u128 = (now as i128 - anchor_ms as i128) as u128;
    let every: u128 = every_ms as u128;
    let q: u128 = diff / every;
    proof {
        lemma_fundamental_div_mod(diff as int, every as int);
        assert(q * every <= diff) by (nonlinear_arith)
            requires
                diff == every * q + diff % every,
                diff % every >= 0,
        ;
    }
    let step: u128 = q * every;
    (anchor_ms as i128 + step as i128) as i64
}

impl ScheduleTrigger {
    /// Checks the configuration: a positive interval, hour 0..=23, minute
    /// 0..=59, offset -1440..=1440 minutes and weekday 0..=6.
    pub fn validate(&self) -> (r: Result<(), ScheduleError>)
        ensures
            r is Ok <==> trigger_valid(*self),
            r is Err ==> r->Err_0@ == trigger_error(*self),
    {
        match self {
            ScheduleTrigger::After { .. } => Ok(()),
            ScheduleTrigger::Every { every_ms, .. } => {
                if *every_ms <= 0 {
                    Err(invalid_trigger("every_ms must be > 0, got ", *every_ms))
                } else {
                    Ok(())
                }
            },
            ScheduleTrigger::Cron { spec } => match spec {
                CronSubset::Daily { hour, minute, utc_offset_minutes } => validate_fixed_time(
                    *hour,
                    *minute,
                    *utc_offset_minutes,
                ),
                CronSubset::Weekly { weekday, hour, minute, utc_offset_minutes } => {
                    if *weekday > 6 {
                        return Err(invalid_trigger("weekday must be 0..=6, got ", *weekday as i64));
                    }
                    validate_fixed_time(*hour, *minute, *utc_offset_minutes)
                },
            },
        }
    }

    /// The latest occurrence at or before `now_ms`, if any: the only
    /// occurrence a catch-up pass delivers.
    pub fn latest_occurrence_at_or_before(&self, now_ms: i64) -> (r: Option<i64>)
        requires
            *self matches ScheduleTrigger::Every { every_ms, .. } ==> every_ms > 0,
        ensures
            r == (match latest_occurrence(*self, now_ms as int) {
                Some(v) => Some(v as i64),
                None => None,
            }),
            latest_occurrence(*self, now_ms as int) is Some ==> in_i64(
                latest_occurrence(*self, now_ms as int)->0,
            ),
    {
        match self {
            ScheduleTrigger::After { at_ms } => if *at_ms <= now_ms {
                Some(*at_ms)
            } else {
                None
            },
            ScheduleTrigger::Every { every_ms, anchor_ms } => {
                if now_ms < *anchor_ms {
                    return None;
                }
                Some(every_latest(now_ms, *every_ms, *anchor_ms))
            },
            ScheduleTrigger::Cron { spec } => match spec {
                CronSubset::Daily { hour, minute, utc_offset_minutes } => {
                    let target = fixed_time_target_ms(*hour, *minute);
                    fixed_time_occurrence(now_ms, target, *utc_offset_minutes, None, true)
                },
                CronSubset::Weekly { weekday, hour, minute, utc_offset_minutes } => {
                    let target = fixed_time_target_ms(*hour, *minute);
                    fixed_time_occurrence(now_ms, target, *utc_offset_minutes, Some(*weekday as i64), true)
                },
            },
        }
    }

    /// The next occurrence strictly after `after_ms`, if any.
    pub fn next_occurrence_after(&self, after_ms: i64) -> (r: Option<i64>)
        requires
            next_computable(*self, after_ms as int),
        ensures
            r == (match next_occurrence(*self, after_ms as int) {
                Some(v) => Some(v as i64),
                None => None,
            }),
            next_occurrence(*self, after_ms as int) is Some ==> in_i64(
                next_occurrence(*self, after_ms as int)->0,
            ),
    {
        match self {
            ScheduleTrigger::After { at_ms } => if *at_ms > after_ms {
                Some(*at_ms)
            } else {
                None
            },
            ScheduleTrigger::Every { every_ms, anchor_ms } => {
                if after_ms < *anchor_ms {
                    return Some(*anchor_ms);
                }
                let diff: u128 = (after_ms as i128 - *anchor_ms as i128) as u128;
                let every: u128 = *every_ms as u128;
                let q: u128 = diff / every;
                proof {
                    lemma_fundamental_div_mod(diff as int, every as int);
                    assert((q + 1) * every <= diff + every) by (nonlinear_arith)
                        requires
                            diff == every * q + diff % every,
                            diff % every >= 0,
                    ;
                }
                let step: u128 = (q + 1) * every;
                Some((*anchor_ms as i128 + step as i128) as i64)
            },
            ScheduleTrigger::Cron { spec } => match spec {
                CronSubset::Daily { hour, minute, utc_offset_minutes } => {
                    let target = fixed_time_target_ms(*hour, *minute);
                    fixed_time_occurrence(after_ms, target, *utc_offset_minutes, None, false)
                },
                CronSubset::Weekly { weekday, hour, minute, utc_offset_minutes } => {
                    let target = fixed_time_target_ms(*hour, *minute);
                    fixed_time_occurrence(after_ms, target, *utc_offset_minutes, Some(*weekday as i64), false)
                },
            },
        }
    }
}

// ---------------------------------------------------------------------------
// Records and writes
// ---------------------------------------------------------------------------

/// Whether a schedule fires.
#[derive(Debug, Clone, Copy, PartialEq, Eq, Structural)]
pub enum ScheduleStatus {
    /// Due occurrences are delivered.
    Active,
    /// Nothing is delivered; on resume at most the latest occurrence is.
    Paused,
    /// A one-shot trigger has fired.
    Completed,
}

/// One durable schedule; an update compares the whole record.
#[derive(Debug, Clone, PartialEq, Eq)]
pub struct ScheduleRecord {
    pub id: String,
    /// Bumped on every write; the compare-and-set cursor.
    pub revision: u64,
    pub trigger: ScheduleTrigger,
    pub status: ScheduleStatus,
    /// Opaque payload carried by each delivery.
    pub payload: String,
    pub created_at_ms: i64,
    pub updated_at_ms: i64,
    /// The latest recorded occurrence: the catch-up cursor.
    pub last_fired_at_ms: Option<i64>,
    pub fire_count: u64,
}

/// A record with its strings as character sequences.
#[verifier::ext_equal]
pub struct RecordView {
    pub id: Seq<char>,
    pub revision: u64,
    pub trigger: ScheduleTrigger,
    pub status: ScheduleStatus,
    pub payload: Seq<char>,
    pub created_at_ms: i64,
    pub updated_at_ms: i64,
    pub last_fired_at_ms: Option<i64>,
    pub fire_count: u64,
}

impl View for ScheduleRecord {
    type V = RecordView;

    open spec fn view(&self) -> RecordView {
        RecordView {
            id: self.id@,
            revision: self.revision,
            trigger: self.trigger,
            status: self.status,
            payload: self.payload@,
            created_at_ms: self.created_at_ms,
            updated_at_ms: self.updated_at_ms,
            last_fired_at_ms: self.last_fired_at_ms,
            fire_count: self.fire_count,
        }
    }
}

/// One delivery; `(schedule_id, occurrence_ms)` identifies the occurrence.
#[derive(Debug, Clone, PartialEq, Eq)]
pub struct ScheduleDelivery {
    pub schedule_id: String,
    pub occurrence_ms: i64,
    /// When the delivery was recorded.
    pub fired_at_ms: i64,
    pub payload: String,
}

/// A delivery with its strings as character sequences.
#[verifier::ext_equal]
pub struct DeliveryView {
    pub schedule_id: Seq<char>,
    pub occurrence_ms: i64,
    pub fired_at_ms: i64,
    pub payload: Seq<char>,
}

impl View for ScheduleDelivery {
    type V = DeliveryView;

    open spec fn view(&self) -> DeliveryView {
        DeliveryView {
            schedule_id: self.schedule_id@,
            occurrence_ms: self.occurrence_ms,
            fired_at_ms: self.fired_at_ms,
            payload: self.payload@,
        }
    }
}

/// The kind of a write; management and delivery writes share one queue.
#[derive(Debug, Clone, Copy, PartialEq, Eq, Structural)]
pub enum ScheduleWriteKind {
    Create,
    Replace,
    Delete,
    SetStatus,
    RecordFire,
    AckExecution,
}

/// A queued write.
#[derive(Debug, Clone, PartialEq, Eq)]
pub enum ScheduleWrite {
    /// Management: add a schedule (non-empty, unused id).
    Create { record: ScheduleRecord },
    /// Management: whole-record compare-and-set.
    Replace { expected: ScheduleRecord, next: ScheduleRecord },
    /// Management: remove a schedule.
    Delete { id: String },
    /// Management: pause or resume.
    SetStatus { id: String, status: ScheduleStatus, at_ms: i64 },
    /// Delivery: record an occurrence.
    RecordFire { id: String, occurrence_ms: i64, at_ms: i64 },
    /// Delivery: acknowledge that an occurrence was executed.
    AckExecution { schedule_id: String, occurrence_ms: i64, at_ms: i64 },
}

/// A write with its strings as character sequences.
#[verifier::ext_equal]
pub enum WriteView {
    Create { record: RecordView },
    Replace { expected: RecordView, next: RecordView },
    Delete { id: Seq<char> },
    SetStatus { id: Seq<char>, status: ScheduleStatus, at_ms: i64 },
    RecordFire { id: Seq<char>, occurrence_ms: i64, at_ms: i64 },
    AckExecution { schedule_id: Seq<char>, occurrence_ms: i64, at_ms: i64 },
}

impl View for ScheduleWrite {
    type V = WriteView;

    open spec fn view(&self) -> WriteView {
        match self {
            ScheduleWrite::Create { record } => WriteView::Create { record: record@ },
            ScheduleWrite::Replace { expected, next } => WriteView::Replace {
                expected: expected@,
                next: next@,
            },
            ScheduleWrite::Delete { id } => WriteView::Delete { id: id@ },
            ScheduleWrite::SetStatus { id, status, at_ms } => WriteView::SetStatus {
                id: id@,
                status: *status,
                at_ms: *at_ms,
            },
            ScheduleWrite::RecordFire { id, occurrence_ms, at_ms } => WriteView::RecordFire {
                id: id@,
                occurrence_ms: *occurrence_ms,
                at_ms: *at_ms,
            },
            ScheduleWrite::AckExecution { schedule_id, occurrence_ms, at_ms } =>
                WriteView::AckExecution {
                schedule_id: schedule_id@,
                occurrence_ms: *occurrence_ms,
                at_ms: *at_ms,
            },
        }
    }
}

pub open spec fn write_kind(w: WriteView) -> ScheduleWriteKind {
    match w {
        WriteView::Create { .. } => ScheduleWriteKind::Create,
        WriteView::Replace { .. } => ScheduleWriteKind::Replace,
        WriteView::Delete { .. } => ScheduleWriteKind::Delete,
        WriteView::SetStatus { .. } => ScheduleWriteKind::SetStatus,
        WriteView::RecordFire { .. } => ScheduleWriteKind::RecordFire,
        WriteView::AckExecution { .. } => ScheduleWriteKind::AckExecution,
    }
}

impl ScheduleWrite {
    /// The kind of this write.
    pub fn kind(&self) -> (k: ScheduleWriteKind)
        ensures
            k == write_kind(self@),
    {
        match self {
            ScheduleWrite::Create { .. } => ScheduleWriteKind::Create,
            ScheduleWrite::Replace { .. } => ScheduleWriteKind::Replace,
            ScheduleWrite::Delete { .. } => ScheduleWriteKind::Delete,
            ScheduleWrite::SetStatus { .. } => ScheduleWriteKind::SetStatus,
            ScheduleWrite::RecordFire { .. } => ScheduleWriteKind::RecordFire,
            ScheduleWrite::AckExecution { .. } => ScheduleWriteKind::AckExecution,
        }
    }
}

/// The receipt of an applied write: its FIFO number and kind.
#[derive(Debug, Clone, Copy, PartialEq, Eq, Structural)]
pub struct WriteReceipt {
    pub seq: u64,
    pub kind: ScheduleWriteKind,
}

// ---------------------------------------------------------------------------
// State and its transitions
// ---------------------------------------------------------------------------

/// The persistent part of a store: the last applied FIFO number, the
/// records in increasing id order, and the unacknowledged deliveries.
#[derive(Debug, Clone, PartialEq, Eq)]
pub struct ScheduleState {
    write_seq: u64,
    records: Vec<ScheduleRecord>,
    pending: Vec<ScheduleDelivery>,
}

#[verifier::ext_equal]
pub struct StateView {
    pub write_seq: u64,
    pub records: Seq<RecordView>,
    pub pending: Seq<DeliveryView>,
}

impl View for ScheduleState {
    type V = StateView;

    closed spec fn view(&self) -> StateView {
        StateView {
            write_seq: self.write_seq,
            records: record_views(self.records@),
            pending: delivery_views(self.pending@),
        }
    }
}

pub open spec fn record_views(v: Seq<ScheduleRecord>) -> Seq<RecordView> {
    v.map_values(|r: ScheduleRecord| r@)
}

pub open spec fn delivery_views(v: Seq<ScheduleDelivery>) -> Seq<DeliveryView> {
    v.map_values(|d: ScheduleDelivery| d@)
}

/// Records in strictly increasing id order, each with a valid trigger.
pub open spec fn records_wf(recs: Seq<RecordView>) -> bool {
    &&& forall|i: int, j: int| 0 <= i < j < recs.len() ==> lex_lt(#[trigger] recs[i].id, #[trigger] recs[j].id)
    &&& forall|i: int| 0 <= i < recs.len() ==> trigger_valid(#[trigger] recs[i].trigger)
}

/// The index of the record with this id.
pub open spec fn index_of(recs: Seq<RecordView>, id: Seq<char>) -> Option<int> {
    if exists|i: int| 0 <= i < recs.len() && recs[i].id == id {
        Some(choose|i: int| 0 <= i < recs.len() && recs[i].id == id)
    } else {
        None
    }
}

/// The position at which a new id keeps the records in order.
pub open spec fn is_insert_point(recs: Seq<RecordView>, id: Seq<char>, p: int) -> bool {
    &&& 0 <= p <= recs.len()
    &&& forall|k: int| 0 <= k < p ==> lex_lt(#[trigger] recs[k].id, id)
    &&& forall|k: int| p <= k < recs.len() ==> lex_lt(id, #[trigger] recs[k].id)
}

pub open spec fn insert_point(recs: Seq<RecordView>, id: Seq<char>) -> int {
    choose|p: int| is_insert_point(recs, id, p)
}

/// The first unacknowledged delivery of this occurrence.
pub open spec fn ack_position(p: Seq<DeliveryView>, sid: Seq<char>, occ: i64) -> Option<int> {
    if exists|i: int| 0 <= i < p.len() && p[i].schedule_id == sid && p[i].occurrence_ms == occ {
        Some(
            choose|i: int|
                0 <= i < p.len() && p[i].schedule_id == sid && p[i].occurrence_ms == occ && forall|
                    j: int,
                |
                    0 <= j < i ==> !(p[j].schedule_id == sid && p[j].occurrence_ms == occ),
        )
    } else {
        None
    }
}

pub open spec fn bump(n: u64) -> u64 {
    if n == u64::MAX { n } else { (n + 1) as u64 }
}

pub open spec fn fire_error(id: Seq<char>, occ: i64) -> ErrorView {
    ErrorView::InvalidInput {
        reason: "occurrence "@ + signed_decimal(occ as int) + " already recorded for schedule "@ + id,
    }
}

/// What one write does to the state: the new state, or the error that
/// leaves the state as it was.
pub open spec fn step(st: StateView, w: WriteView, ticket: u64) -> Result<StateView, ErrorView> {
    let recs = st.records;
    match w {
        WriteView::Create { record } => if record.id.len() == 0 {
            Err(ErrorView::InvalidInput { reason: "schedule id must not be empty"@ })
        } else if !trigger_valid(record.trigger) {
            Err(trigger_error(record.trigger))
        } else if index_of(recs, record.id) is Some {
            Err(ErrorView::DuplicateId { id: record.id })
        } else {
            Ok(
                StateView {
                    write_seq: ticket,
                    records: recs.insert(
                        insert_point(recs, record.id),
                        RecordView { revision: 1, ..record },
                    ),
                    ..st
                },
            )
        },
        WriteView::Replace { expected, next } => match index_of(recs, expected.id) {
            None => Err(ErrorView::NotFound { id: expected.id }),
            Some(i) => if recs[i] != expected {
                Err(
                    ErrorView::Conflict { id: expected.id, expected_revision: expected.revision },
                )
            } else if next.id != expected.id {
                Err(ErrorView::InvalidInput { reason: "next record must keep the same schedule id"@ })
            } else if !trigger_valid(next.trigger) {
                Err(trigger_error(next.trigger))
            } else {
                Ok(
                    StateView {
                        write_seq: ticket,
                        records: recs.update(i, RecordView { revision: bump(recs[i].revision), ..next }),
                        ..st
                    },
                )
            },
        },
        WriteView::Delete { id } => match index_of(recs, id) {
            None => Err(ErrorView::NotFound { id }),
            Some(i) => Ok(StateView { write_seq: ticket, records: recs.remove(i), ..st }),
        },
        WriteView::SetStatus { id, status, at_ms } => match index_of(recs, id) {
            None => Err(ErrorView::NotFound { id }),
            Some(i) => Ok(
                StateView {
                    write_seq: ticket,
                    records: recs.update(
                        i,
                        RecordView {
                            status,
                            updated_at_ms: at_ms,
                            revision: bump(recs[i].revision),
                            ..recs[i]
                        },
                    ),
                    ..st
                },
            ),
        },
        WriteView::RecordFire { id, occurrence_ms, at_ms } => match index_of(recs, id) {
            None => Err(ErrorView::NotFound { id }),
            Some(i) => {
                let r = recs[i];
                if r.last_fired_at_ms is Some && occurrence_ms <= r.last_fired_at_ms->0 {
                    Err(fire_error(id, occurrence_ms))
                } else {
                    Ok(
                        StateView {
                            write_seq: ticket,
                            records: recs.update(
                                i,
                                RecordView {
                                    last_fired_at_ms: Some(occurrence_ms),
                                    fire_count: bump(r.fire_count),
                                    updated_at_ms: at_ms,
                                    revision: bump(r.revision),
                                    status: if r.trigger is After {
                                        ScheduleStatus::Completed
                                    } else {
                                        r.status
                                    },
                                    ..r
                                },
                            ),
                            pending: st.pending.push(
                                DeliveryView {
                                    schedule_id: id,
                                    occurrence_ms,
                                    fired_at_ms: at_ms,
                                    payload: r.payload,
                                },
                            ),
                            ..st
                        },
                    )
                }
            },
        },
        WriteView::AckExecution { schedule_id, occurrence_ms, .. } => match ack_position(
            st.pending,
            schedule_id,
            occurrence_ms,
        ) {
            None => Err(ErrorView::NotFound { id: schedule_id }),
            Some(p) => Ok(StateView { write_seq: ticket, pending: st.pending.remove(p), ..st }),
        },
    }
}

impl ScheduleState {
    /// The state invariant: records in increasing id order with valid triggers.
    pub closed spec fn wf(&self) -> bool {
        records_wf(self@.records)
    }
}

/// Ids in increasing order are unique: the record found by id is the one.
proof fn lemma_index_of_sorted(recs: Seq<RecordView>, i: int)
    requires
        records_wf(recs),
        0 <= i < recs.len(),
    ensures
        index_of(recs, recs[i].id) == Some(i),
{
    let id = recs[i].id;
    assert(recs[i].id == id);
    let j = choose|j: int| 0 <= j < recs.len() && recs[j].id == id;
    if j < i {
        assert(lex_lt(recs[j].id, recs[i].id));
        lemma_lex_lt_irreflexive(id);
    } else if i < j {
        assert(lex_lt(recs[i].id, recs[j].id));
        lemma_lex_lt_irreflexive(id);
    }
}

/// At most one position keeps the records in order.
proof fn lemma_insert_point_unique(recs: Seq<RecordView>, id: Seq<char>, p: int)
    requires
        is_insert_point(recs, id, p),
    ensures
        insert_point(recs, id) == p,
{
    let q = insert_point(recs, id);
    assert(is_insert_point(recs, id, q));
    if q < p {
        assert(lex_lt(recs[q].id, id));
        assert(lex_lt(id, recs[q].id));
        lemma_lex_lt_transitive(id, recs[q].id, id);
        lemma_lex_lt_irreflexive(id);
    } else if p < q {
        assert(lex_lt(recs[p].id, id));
        assert(lex_lt(id, recs[p].id));
        lemma_lex_lt_transitive(id, recs[p].id, id);
        lemma_lex_lt_irreflexive(id);
    }
}

fn clone_record(r: &ScheduleRecord) -> (c: ScheduleRecord)
    ensures
        c@ == r@,
{
    ScheduleRecord {
        id: r.id.clone(),
        revision: r.revision,
        trigger: r.trigger,
        status: r.status,
        payload: r.payload.clone(),
        created_at_ms: r.created_at_ms,
        updated_at_ms: r.updated_at_ms,
        last_fired_at_ms: r.last_fired_at_ms,
        fire_count: r.fire_count,
    }
}

fn clone_delivery(d: &ScheduleDelivery) -> (c: ScheduleDelivery)
    ensures
        c@ == d@,
{
    ScheduleDelivery {
        schedule_id: d.schedule_id.clone(),
        occurrence_ms: d.occurrence_ms,
        fired_at_ms: d.fired_at_ms,
        payload: d.payload.clone(),
    }
}

fn same_option(a: Option<i64>, b: Option<i64>) -> (r: bool)
    ensures
        r == (a == b),
{
    match (a, b) {
        (Some(x), Some(y)) => x == y,
        (None, None) => true,
        _ => false,
    }
}

/// Field-by-field equality of two records.
fn records_equal(a: &ScheduleRecord, b: &ScheduleRecord) -> (r: bool)
    ensures
        r == (a@ == b@),
{
    let r = str_eq(a.id.as_str(), b.id.as_str()) && a.revision == b.revision && a.trigger
        == b.trigger && a.status == b.status && str_eq(a.payload.as_str(), b.payload.as_str())
        && a.created_at_ms == b.created_at_ms && a.updated_at_ms == b.updated_at_ms && same_option(
        a.last_fired_at_ms,
        b.last_fired_at_ms,
    ) && a.fire_count == b.fire_count;
    proof {
        if r {
            assert(a@ =~= b@);
        }
    }
    r
}

/// The index of the record with this id.
fn find_record(records: &Vec<ScheduleRecord>, id: &str) -> (r: Option<usize>)
    requires
        records_wf(record_views(records@)),
    ensures
        r is Some ==> index_of(record_views(records@), id@) == Some(r->0 as int),
        r is None ==> index_of(record_views(records@), id@) is None,
        r is Some ==> r->0 < records@.len(),
{
    let ghost rv = record_views(records@);
    let mut i: usize = 0;
    while i < records.len()
        invariant
            rv == record_views(records@),
            records_wf(rv),
            i <= records@.len(),
            forall|k: int| 0 <= k < i ==> rv[k].id != id@,
        decreases records@.len() - i,
    {
        if str_eq(records[i].id.as_str(), id) {
            proof {
                lemma_index_of_sorted(rv, i as int);
            }
            return Some(i);
        }
        i = i + 1;
    }
    None
}

/// Where a new id goes to keep the records in order.
fn find_insert_point(records: &Vec<ScheduleRecord>, id: &str) -> (p: usize)
    requires
        records_wf(record_views(records@)),
        index_of(record_views(records@), id@) is None,
    ensures
        p == insert_point(record_views(records@), id@),
        is_insert_point(record_views(records@), id@, p as int),
        p <= records@.len(),
{
    let ghost rv = record_views(records@);
    let mut i: usize = 0;
    while i < records.len() && lex_less(records[i].id.as_str(), id)
        invariant
            rv == record_views(records@),
            i <= records@.len(),
            forall|k: int| 0 <= k < i ==> lex_lt(#[trigger] rv[k].id, id@),
        decreases records@.len() - i,
    {
        i = i + 1;
    }
    proof {
        if i < records@.len() {
            assert(!lex_lt(rv[i as int].id, id@));
            assert(rv[i as int].id != id@);
            lemma_lex_lt_total(rv[i as int].id, id@);
            assert forall|k: int| i <= k < rv.len() implies lex_lt(id@, #[trigger] rv[k].id) by {
                if k > i {
                    assert(lex_lt(rv[i as int].id, rv[k].id));
                    lemma_lex_lt_transitive(id@, rv[i as int].id, rv[k].id);
                }
            }
        }
        lemma_insert_point_unique(rv, id@, i as int);
    }
    i
}

/// Keeping the order when inserting at an insert point.
proof fn lemma_insert_keeps_order(rv: Seq<RecordView>, p: int, x: RecordView)
    requires
        records_wf(rv),
        is_insert_point(rv, x.id, p),
        trigger_valid(x.trigger),
    ensures
        records_wf(rv.insert(p, x)),
{
    let n = rv.insert(p, x);
    assert forall|i: int, j: int| 0 <= i < j < n.len() implies lex_lt(#[trigger] n[i].id, #[trigger] n[j].id) by {
        if j < p {
            assert(lex_lt(rv[i].id, rv[j].id));
        } else if j == p {
            assert(lex_lt(rv[i].id, x.id));
        } else if i < p {
            assert(lex_lt(rv[i].id, rv[j - 1].id));
        } else if i == p {
            assert(lex_lt(x.id, rv[j - 1].id));
        } else {
            assert(lex_lt(rv[i - 1].id, rv[j - 1].id));
        }
    }
    assert forall|i: int| 0 <= i < n.len() implies trigger_valid(#[trigger] n[i].trigger) by {
        if i < p {
            assert(trigger_valid(rv[i].trigger));
        } else if i > p {
            assert(trigger_valid(rv[i - 1].trigger));
        }
    }
}

/// Removing a record keeps the order.
proof fn lemma_remove_keeps_order(rv: Seq<RecordView>, p: int)
    requires
        records_wf(rv),
        0 <= p < rv.len(),
    ensures
        records_wf(rv.remove(p)),
{
    let n = rv.remove(p);
    assert forall|i: int, j: int| 0 <= i < j < n.len() implies lex_lt(#[trigger] n[i].id, #[trigger] n[j].id) by {
        if j < p {
            assert(lex_lt(rv[i].id, rv[j].id));
        } else if i < p {
            assert(lex_lt(rv[i].id, rv[j + 1].id));
        } else {
            assert(lex_lt(rv[i + 1].id, rv[j + 1].id));
        }
    }
    assert forall|i: int| 0 <= i < n.len() implies trigger_valid(#[trigger] n[i].trigger) by {
        if i < p {
            assert(trigger_valid(rv[i].trigger));
        } else {
            assert(trigger_valid(rv[i + 1].trigger));
        }
    }
}

/// Replacing a record by one with the same id and a valid trigger keeps
/// the order.
proof fn lemma_update_keeps_order(rv: Seq<RecordView>, p: int, x: RecordView)
    requires
        records_wf(rv),
        0 <= p < rv.len(),
        x.id == rv[p].id,
        trigger_valid(x.trigger),
    ensures
        records_wf(rv.update(p, x)),
{
    let n = rv.update(p, x);
    assert forall|i: int, j: int| 0 <= i < j < n.len() implies lex_lt(#[trigger] n[i].id, #[trigger] n[j].id) by {
        assert(lex_lt(rv[i].id, rv[j].id));
    }
    assert forall|i: int| 0 <= i < n.len() implies trigger_valid(#[trigger] n[i].trigger) by {
        if i != p {
            assert(trigger_valid(rv[i].trigger));
        }
    }
}

fn bump_u64(n: u64) -> (r: u64)
    ensures
        r == bump(n),
{
    if n == u64::MAX { n } else { n + 1 }
}

/// The first unacknowledged delivery of this occurrence.
fn find_pending(pending: &Vec<ScheduleDelivery>, schedule_id: &str, occurrence_ms: i64) -> (r: Option<usize>)
    ensures
        r is Some ==> ack_position(delivery_views(pending@), schedule_id@, occurrence_ms) == Some(r->0 as int),
        r is None ==> ack_position(delivery_views(pending@), schedule_id@, occurrence_ms) is None,
        r is Some ==> r->0 < pending@.len(),
{
    let ghost pv = delivery_views(pending@);
    let mut i: usize = 0;
    while i < pending.len()
        invariant
            pv == delivery_views(pending@),
            i <= pending@.len(),
            forall|k: int| 0 <= k < i ==> !(pv[k].schedule_id == schedule_id@ && pv[k].occurrence_ms == occurrence_ms),
        decreases pending@.len() - i,
    {
        if str_eq(pending[i].schedule_id.as_str(), schedule_id) && pending[i].occurrence_ms == occurrence_ms {
            proof {
                let ii = i as int;
                assert(pv[ii].schedule_id == schedule_id@ && pv[ii].occurrence_ms == occurrence_ms);
                let c = choose|c: int|
                    0 <= c < pv.len() && pv[c].schedule_id == schedule_id@ && pv[c].occurrence_ms
                        == occurrence_ms && forall|j: int|
                        0 <= j < c ==> !(pv[j].schedule_id == schedule_id@ && pv[j].occurrence_ms
                            == occurrence_ms);
                if c < ii {
                } else if ii < c {
                    assert(!(pv[ii].schedule_id == schedule_id@ && pv[ii].occurrence_ms == occurrence_ms));
                }
            }
            return Some(i);
        }
        i = i + 1;
    }
    None
}

fn fire_error_exec(id: &str, occurrence_ms: i64) -> (e: ScheduleError)
    ensures
        e@ == fire_error(id@, occurrence_ms),
{
    let mut reason = String::new();
    push_str(&mut reason, "occurrence ");
    push_signed_decimal(&mut reason, occurrence_ms);
    push_str(&mut reason, " already recorded for schedule ");
    push_str(&mut reason, id);
    ScheduleError::InvalidInput { reason }
}

/// What a transition promises, whatever the write.
pub open spec fn transition_post(old: StateView, w: WriteView, ticket: u64, r: Result<(), ErrorView>, new: StateView) -> bool {
    match step(old, w, ticket) {
        Ok(s) => r is Ok && new == s,
        Err(e) => r == Err::<(), ErrorView>(e) && new == old,
    }
}

pub open spec fn unit_result(r: Result<(), ScheduleError>) -> Result<(), ErrorView> {
    match r {
        Ok(()) => Ok(()),
        Err(e) => Err(e@),
    }
}

fn apply_create(state: &mut ScheduleState, record: ScheduleRecord, ticket: u64) -> (r: Result<(), ScheduleError>)
    requires
        old(state).wf(),
    ensures
        final(state).wf(),
        transition_post(old(state)@, WriteView::Create { record: record@ }, ticket, unit_result(r), final(state)@),
{
    if record.id.as_str().is_empty() {
        return Err(invalid_input("schedule id must not be empty"));
    }
    match record.trigger.validate() {
        Err(e) => {
            return Err(e);
        },
        Ok(()) => {},
    }
    match find_record(&state.records, record.id.as_str()) {
        Some(_) => {
            return Err(ScheduleError::DuplicateId { id: record.id });
        },
        None => {},
    }
    let ghost rv = record_views(state.records@);
    let p = find_insert_point(&state.records, record.id.as_str());
    let mut record = record;
    record.revision = 1;
    let ghost x = record@;
    state.records.insert(p, record);
    state.write_seq = ticket;
    proof {
        assert(is_insert_point(rv, x.id, p as int));
        lemma_insert_keeps_order(rv, p as int, x);
        assert(record_views(state.records@) =~= rv.insert(p as int, x));
    }
    Ok(())
}

fn apply_replace(state: &mut ScheduleState, expected: ScheduleRecord, next: ScheduleRecord, ticket: u64) -> (r: Result<(), ScheduleError>)
    requires
        old(state).wf(),
    ensures
        final(state).wf(),
        transition_post(
            old(state)@,
            WriteView::Replace { expected: expected@, next: next@ },
            ticket,
            unit_result(r),
            final(state)@,
        ),
{
    let ghost rv = record_views(state.records@);
    let i = match find_record(&state.records, expected.id.as_str()) {
        None => {
            return Err(ScheduleError::NotFound { id: expected.id });
        },
        Some(i) => i,
    };
    if !records_equal(&state.records[i], &expected) {
        return Err(ScheduleError::Conflict { id: expected.id, expected_revision: expected.revision });
    }
    if !str_eq(next.id.as_str(), expected.id.as_str()) {
        return Err(invalid_input("next record must keep the same schedule id"));
    }
    match next.trigger.validate() {
        Err(e) => {
            return Err(e);
        },
        Ok(()) => {},
    }
    let mut next = next;
    next.revision = bump_u64(state.records[i].revision);
    let ghost x = next@;
    state.records.set(i, next);
    state.write_seq = ticket;
    proof {
        lemma_update_keeps_order(rv, i as int, x);
        assert(record_views(state.records@) =~= rv.update(i as int, x));
    }
    Ok(())
}

fn apply_delete(state: &mut ScheduleState, id: String, ticket: u64) -> (r: Result<(), ScheduleError>)
    requires
        old(state).wf(),
    ensures
        final(state).wf(),
        transition_post(old(state)@, WriteView::Delete { id: id@ }, ticket, unit_result(r), final(state)@),
{
    let ghost rv = record_views(state.records@);
    let i = match find_record(&state.records, id.as_str()) {
        None => {
            return Err(ScheduleError::NotFound { id });
        },
        Some(i) => i,
    };
    state.records.remove(i);
    state.write_seq = ticket;
    proof {
        lemma_remove_keeps_order(rv, i as int);
        assert(record_views(state.records@) =~= rv.remove(i as int));
    }
    Ok(())
}

fn apply_set_status(state: &mut ScheduleState, id: String, status: ScheduleStatus, at_ms: i64, ticket: u64) -> (r: Result<(), ScheduleError>)
    requires
        old(state).wf(),
    ensures
        final(state).wf(),
        transition_post(
            old(state)@,
            WriteView::SetStatus { id: id@, status, at_ms },
            ticket,
            unit_result(r),
            final(state)@,
        ),
{
    let ghost rv = record_views(state.records@);
    let i = match find_record(&state.records, id.as_str()) {
        None => {
            return Err(ScheduleError::NotFound { id });
        },
        Some(i) => i,
    };
    let mut rec = clone_record(&state.records[i]);
    proof {
        assert(trigger_valid(rv[i as int].trigger));
    }
    rec.status = status;
    rec.updated_at_ms = at_ms;
    rec.revision = bump_u64(rec.revision);
    let ghost x = rec@;
    state.records.set(i, rec);
    state.write_seq = ticket;
    proof {
        lemma_update_keeps_order(rv, i as int, x);
        assert(record_views(state.records@) =~= rv.update(i as int, x));
    }
    Ok(())
}

fn apply_record_fire(state: &mut ScheduleState, id: String, occurrence_ms: i64, at_ms: i64, ticket: u64) -> (r: Result<(), ScheduleError>)
    requires
        old(state).wf(),
    ensures
        final(state).wf(),
        transition_post(
            old(state)@,
            WriteView::RecordFire { id: id@, occurrence_ms, at_ms },
            ticket,
            unit_result(r),
            final(state)@,
        ),
{
    let ghost rv = record_views(state.records@);
    let ghost pv = delivery_views(state.pending@);
    let i = match find_record(&state.records, id.as_str()) {
        None => {
            return Err(ScheduleError::NotFound { id });
        },
        Some(i) => i,
    };
    let mut rec = clone_record(&state.records[i]);
    proof {
        assert(trigger_valid(rv[i as int].trigger));
    }
    match rec.last_fired_at_ms {
        Some(last) => {
            if occurrence_ms <= last {
                return Err(fire_error_exec(id.as_str(), occurrence_ms));
            }
        },
        None => {},
    }
    rec.last_fired_at_ms = Some(occurrence_ms);
    rec.fire_count = bump_u64(rec.fire_count);
    rec.updated_at_ms = at_ms;
    rec.revision = bump_u64(rec.revision);
    if let ScheduleTrigger::After { .. } = rec.trigger {
        rec.status = ScheduleStatus::Completed;
    }
    let payload = rec.payload.clone();
    let ghost x = rec@;
    state.records.set(i, rec);
    let delivery = ScheduleDelivery { schedule_id: id, occurrence_ms, fired_at_ms: at_ms, payload };
    let ghost d = delivery@;
    state.pending.push(delivery);
    state.write_seq = ticket;
    proof {
        lemma_update_keeps_order(rv, i as int, x);
        assert(record_views(state.records@) =~= rv.update(i as int, x));
        assert(delivery_views(state.pending@) =~= pv.push(d));
    }
    Ok(())
}

fn apply_ack(state: &mut ScheduleState, schedule_id: String, occurrence_ms: i64, at_ms: i64, ticket: u64) -> (r: Result<(), ScheduleError>)
    requires
        old(state).wf(),
    ensures
        final(state).wf(),
        transition_post(
            old(state)@,
            WriteView::AckExecution { schedule_id: schedule_id@, occurrence_ms, at_ms },
            ticket,
            unit_result(r),
            final(state)@,
        ),
{
    let ghost pv = delivery_views(state.pending@);
    let p = match find_pending(&state.pending, schedule_id.as_str(), occurrence_ms) {
        None => {
            return Err(ScheduleError::NotFound { id: schedule_id });
        },
        Some(p) => p,
    };
    state.pending.remove(p);
    state.write_seq = ticket;
    proof {
        assert(delivery_views(state.pending@) =~= pv.remove(p as int));
    }
    Ok(())
}

/// Applies one write to the state, or reports why it cannot be applied and
/// leaves the state as it was.
fn transition(state: &mut ScheduleState, write: ScheduleWrite, ticket: u64) -> (r: Result<(), ScheduleError>)
    requires
        old(state).wf(),
    ensures
        final(state).wf(),
        transition_post(old(state)@, write@, ticket, unit_result(r), final(state)@),
{
    match write {
        ScheduleWrite::Create { record } => apply_create(state, record, ticket),
        ScheduleWrite::Replace { expected, next } => apply_replace(state, expected, next, ticket),
        ScheduleWrite::Delete { id } => apply_delete(state, id, ticket),
        ScheduleWrite::SetStatus { id, status, at_ms } => apply_set_status(state, id, status, at_ms, ticket),
        ScheduleWrite::RecordFire { id, occurrence_ms, at_ms } => apply_record_fire(
            state,
            id,
            occurrence_ms,
            at_ms,
            ticket,
        ),
        ScheduleWrite::AckExecution { schedule_id, occurrence_ms, at_ms } => apply_ack(
            state,
            schedule_id,
            occurrence_ms,
            at_ms,
            ticket,
        ),
    }
}

impl ScheduleState {
    /// An empty state: no writes, no records, no deliveries.
    pub fn empty() -> (s: ScheduleState)
        ensures
            s.wf(),
            s@.write_seq == 0,
            s@.records.len() == 0,
            s@.pending.len() == 0,
    {
        let s = ScheduleState { write_seq: 0, records: Vec::new(), pending: Vec::new() };
        proof {
            assert(record_views(s.records@).len() == 0);
        }
        s
    }

    /// A state read back from a snapshot: accepted when the records have
    /// strictly increasing ids and valid triggers, refused as corrupt
    /// otherwise.
    pub fn from_parts(write_seq: u64, records: Vec<ScheduleRecord>, pending: Vec<ScheduleDelivery>) -> (r: Result<ScheduleState, ScheduleError>)
        ensures
            r is Ok <==> records_wf(record_views(records@)),
            r is Ok ==> r->Ok_0.wf() && r->Ok_0@ == (StateView {
                write_seq,
                records: record_views(records@),
                pending: delivery_views(pending@),
            }),
            r is Err ==> error_code(r->Err_0@) == ScheduleErrorCode::Corrupt,
    {
        let ghost rv = record_views(records@);
        let mut k: usize = 0;
        while k < records.len()
            invariant
                rv == record_views(records@),
                k <= records@.len(),
                forall|i: int, j: int| 0 <= i < j < k ==> lex_lt(#[trigger] rv[i].id, #[trigger] rv[j].id),
                forall|i: int| 0 <= i < k ==> trigger_valid(#[trigger] rv[i].trigger),
            decreases records@.len() - k,
        {
            let valid = records[k].trigger.validate().is_ok();
            let ordered = k == 0 || lex_less(records[k - 1].id.as_str(), records[k].id.as_str());
            if !valid || !ordered {
                proof {
                    if !valid {
                        assert(!trigger_valid(rv[k as int].trigger));
                    } else {
                        assert(!lex_lt(rv[k - 1].id, rv[k as int].id));
                    }
                }
                let mut reason = String::new();
                push_str(&mut reason, "records must have increasing ids and valid triggers");
                return Err(ScheduleError::Corrupt { reason });
            }
            proof {
                assert forall|i: int, j: int| 0 <= i < j < k + 1 implies lex_lt(#[trigger] rv[i].id, #[trigger] rv[j].id) by {
                    if j == k && i < k - 1 {
                        lemma_lex_lt_transitive(rv[i].id, rv[k - 1].id, rv[j].id);
                    }
                }
            }
            k = k + 1;
        }
        Ok(ScheduleState { write_seq, records, pending })
    }

    /// The last applied FIFO number.
    pub fn write_seq(&self) -> (n: u64)
        ensures
            n == self@.write_seq,
    {
        self.write_seq
    }

    /// The records, in increasing id order.
    pub fn records(&self) -> (r: &[ScheduleRecord])
        ensures
            record_views(r@) == self@.records,
    {
        self.records.as_slice()
    }

    /// The deliveries recorded and not yet acknowledged.
    pub fn pending(&self) -> (r: &[ScheduleDelivery])
        ensures
            delivery_views(r@) == self@.pending,
    {
        self.pending.as_slice()
    }
}

/// `k` ticket increments from `t`, each saturating at `u64::MAX`.
pub open spec fn bump_n(t: u64, k: nat) -> u64
    decreases k,
{
    if k == 0 { t } else { bump(bump_n(t, (k - 1) as nat)) }
}

pub open spec fn outcome_view(o: Result<WriteReceipt, ScheduleError>) -> Result<WriteReceipt, ErrorView> {
    match o {
        Ok(r) => Ok(r),
        Err(e) => Err(e@),
    }
}

/// Applying queued writes in order: the final state and one outcome per
/// write; a failed write leaves the state as it was and the next ones run.
pub open spec fn run_queue(st: StateView, q: Seq<(u64, WriteView)>) -> (StateView, Seq<Result<WriteReceipt, ErrorView>>)
    decreases q.len(),
{
    if q.len() == 0 {
        (st, Seq::empty())
    } else {
        let t = q[0].0;
        let w = q[0].1;
        let (next, o) = match step(st, w, t) {
            Ok(s) => (s, Ok(WriteReceipt { seq: t, kind: write_kind(w) })),
            Err(e) => (st, Err(e)),
        };
        let rest = run_queue(next, q.drop_first());
        (rest.0, seq![o] + rest.1)
    }
}

/// The receipts of the successful outcomes, in order.
pub open spec fn receipts(outs: Seq<Result<WriteReceipt, ErrorView>>) -> Seq<WriteReceipt>
    decreases outs.len(),
{
    if outs.len() == 0 {
        Seq::empty()
    } else {
        let before = receipts(outs.drop_last());
        match outs.last() {
            Ok(r) => before.push(r),
            Err(_) => before,
        }
    }
}

/// The first failed outcome, if any.
pub open spec fn first_error(outs: Seq<Result<WriteReceipt, ErrorView>>) -> Option<ErrorView>
    decreases outs.len(),
{
    if outs.len() == 0 {
        None
    } else {
        match outs[0] {
            Err(e) => Some(e),
            Ok(_) => first_error(outs.drop_first()),
        }
    }
}

/// The deliveries a catch-up pass at `now` makes: for each active record,
/// in id order, its latest occurrence at or before `now` when that is later
/// than the last recorded one.
pub open spec fn due_fires(recs: Seq<RecordView>, now: i64) -> Seq<DeliveryView>
    decreases recs.len(),
{
    if recs.len() == 0 {
        Seq::empty()
    } else {
        let before = due_fires(recs.drop_last(), now);
        let r = recs.last();
        let occ = latest_occurrence(r.trigger, now as int);
        if r.status == ScheduleStatus::Active && occ is Some && !(r.last_fired_at_ms is Some
            && occ->0 <= r.last_fired_at_ms->0) {
            before.push(
                DeliveryView {
                    schedule_id: r.id,
                    occurrence_ms: occ->0 as i64,
                    fired_at_ms: now,
                    payload: r.payload,
                },
            )
        } else {
            before
        }
    }
}

/// The writes that record the due deliveries, numbered from `t`.
pub open spec fn fire_writes(ds: Seq<DeliveryView>, t: u64, now: i64) -> Seq<(u64, WriteView)> {
    Seq::new(
        ds.len(),
        |k: int|
            (
                bump_n(t, k as nat),
                WriteView::RecordFire { id: ds[k].schedule_id, occurrence_ms: ds[k].occurrence_ms, at_ms: now },
            ),
    )
}

/// The schedule store: the state, the next FIFO number, the queue of writes
/// not yet applied, and the receipts of the applied ones.
pub struct ScheduleStore {
    state: ScheduleState,
    ticket: u64,
    queue: std::collections::VecDeque<(u64, ScheduleWrite)>,
    applied: Vec<WriteReceipt>,
}

pub open spec fn queued_view(q: Seq<(u64, ScheduleWrite)>) -> Seq<(u64, WriteView)> {
    q.map_values(|e: (u64, ScheduleWrite)| (e.0, e.1@))
}

impl ScheduleStore {
    pub closed spec fn wf(&self) -> bool {
        self.state.wf()
    }

    /// The applied state.
    pub closed spec fn state_view(&self) -> StateView {
        self.state@
    }

    /// The next FIFO number.
    pub closed spec fn next_ticket(&self) -> u64 {
        self.ticket
    }

    /// The queued writes, oldest first, with their FIFO numbers.
    pub closed spec fn queue_view(&self) -> Seq<(u64, WriteView)> {
        queued_view(self.queue@)
    }

    /// The receipts of the applied writes, in order.
    pub closed spec fn applied_view(&self) -> Seq<WriteReceipt> {
        self.applied@
    }

    /// A store over a state read back from a snapshot (or
    /// [`ScheduleState::empty`]): numbering resumes after its `write_seq`.
    pub fn open(state: ScheduleState) -> (s: ScheduleStore)
        requires
            state.wf(),
        ensures
            s.wf(),
            s.state_view() == state@,
            s.next_ticket() == bump(state@.write_seq),
            s.queue_view().len() == 0,
            s.applied_view().len() == 0,
    {
        let ticket = bump_u64(state.write_seq);
        let s = ScheduleStore {
            state,
            ticket,
            queue: std::collections::VecDeque::new(),
            applied: Vec::new(),
        };
        proof {
            assert(queued_view(s.queue@).len() == 0);
        }
        s
    }

    /// The applied state, for persisting.
    pub fn state(&self) -> (st: &ScheduleState)
        ensures
            st@ == self.state_view(),
            st.wf() == self.wf(),
    {
        &self.state
    }

    /// The last applied FIFO number.
    pub fn write_seq(&self) -> (n: u64)
        ensures
            n == self.state_view().write_seq,
    {
        self.state.write_seq
    }

    /// How many writes wait in the queue.
    pub fn pending_writes(&self) -> (n: usize)
        ensures
            n == self.queue_view().len(),
    {
        self.queue.len()
    }

    /// The receipts of the applied writes, in application order.
    pub fn applied_writes(&self) -> (r: &[WriteReceipt])
        ensures
            r@ == self.applied_view(),
    {
        self.applied.as_slice()
    }

    /// The record with this id.
    pub fn get(&self, id: &str) -> (r: Option<&ScheduleRecord>)
        requires
            self.wf(),
        ensures
            match index_of(self.state_view().records, id@) {
                Some(i) => r is Some && r->0@ == self.state_view().records[i],
                None => r is None,
            },
    {
        match find_record(&self.state.records, id) {
            Some(i) => Some(&self.state.records[i]),
            None => None,
        }
    }

    /// All records, in increasing id order.
    pub fn records(&self) -> (r: &[ScheduleRecord])
        ensures
            record_views(r@) == self.state_view().records,
    {
        self.state.records.as_slice()
    }

    /// Deliveries recorded and not yet acknowledged; after a restart they
    /// are still here, so the same occurrence can be delivered again.
    pub fn unacknowledged_deliveries(&self) -> (r: &[ScheduleDelivery])
        ensures
            delivery_views(r@) == self.state_view().pending,
    {
        self.state.pending.as_slice()
    }

    /// Queues a management or delivery write and returns its FIFO number;
    /// nothing is applied yet.
    pub fn enqueue(&mut self, write: ScheduleWrite) -> (t: u64)
        ensures
            t == old(self).next_ticket(),
            final(self).next_ticket() == bump(t),
            final(self).queue_view() == old(self).queue_view().push((t, write@)),
            final(self).state_view() == old(self).state_view(),
            final(self).applied_view() == old(self).applied_view(),
            final(self).wf() == old(self).wf(),
    {
        let ticket = self.ticket;
        self.ticket = bump_u64(self.ticket);
        let ghost w = write@;
        self.queue.push_back((ticket, write));
        proof {
            assert(queued_view(self.queue@) =~= queued_view(old(self).queue@).push((ticket, w)));
        }
        ticket
    }
}

pub open spec fn outcome_views(v: Seq<Result<WriteReceipt, ScheduleError>>) -> Seq<Result<WriteReceipt, ErrorView>> {
    v.map_values(|o: Result<WriteReceipt, ScheduleError>| outcome_view(o))
}

proof fn lemma_run_queue_len(st: StateView, q: Seq<(u64, WriteView)>)
    ensures
        run_queue(st, q).1.len() == q.len(),
    decreases q.len(),
{
    if q.len() > 0 {
        let t = q[0].0;
        let w = q[0].1;
        let next = match step(st, w, t) {
            Ok(s) => s,
            Err(_) => st,
        };
        lemma_run_queue_len(next, q.drop_first());
    }
}

/// What applying one write after the queued ones does to the store.
pub open spec fn apply_post(old: ScheduleStore, new: ScheduleStore, w: WriteView, r: Result<WriteReceipt, ErrorView>) -> bool {
    let t = old.next_ticket();
    let q = old.queue_view().push((t, w));
    let run = run_queue(old.state_view(), q);
    &&& new.wf()
    &&& new.state_view() == run.0
    &&& r == run.1[0]
    &&& new.applied_view() == old.applied_view() + receipts(run.1)
    &&& new.queue_view().len() == 0
    &&& new.next_ticket() == bump(t)
    &&& old.queue_view().len() == 0 ==> match step(old.state_view(), w, t) {
        Ok(s) => new.state_view() == s && r == Ok::<WriteReceipt, ErrorView>(
            WriteReceipt { seq: t, kind: write_kind(w) },
        ),
        Err(e) => new.state_view() == old.state_view() && r == Err::<WriteReceipt, ErrorView>(e),
    }
}

impl ScheduleStore {
    /// Applies every queued write in FIFO order; a write that fails leaves
    /// the state as it was, gets its error as its outcome, and the next
    /// write still runs.
    pub fn drain(&mut self) -> (outs: Vec<Result<WriteReceipt, ScheduleError>>)
        requires
            old(self).wf(),
        ensures
            final(self).wf(),
            final(self).state_view() == run_queue(old(self).state_view(), old(self).queue_view()).0,
            outcome_views(outs@) == run_queue(old(self).state_view(), old(self).queue_view()).1,
            final(self).applied_view() == old(self).applied_view() + receipts(
                run_queue(old(self).state_view(), old(self).queue_view()).1,
            ),
            final(self).queue_view().len() == 0,
            final(self).next_ticket() == old(self).next_ticket(),
    {
        broadcast use vstd::std_specs::vecdeque::axiom_spec_len;
        let ghost st0 = self.state@;
        let ghost q0 = queued_view(self.queue@);
        let ghost a0 = self.applied@;
        let mut outcomes: Vec<Result<WriteReceipt, ScheduleError>> = Vec::new();
        proof {
            assert(outcome_views(outcomes@) =~= Seq::<Result<WriteReceipt, ErrorView>>::empty());
            assert(a0 + receipts(outcome_views(outcomes@)) =~= a0);
            assert(Seq::<Result<WriteReceipt, ErrorView>>::empty() + run_queue(st0, q0).1 =~= run_queue(st0, q0).1);
        }
        while self.queue.len() > 0
            invariant
                self.state.wf(),
                run_queue(st0, q0).0 == run_queue(self.state@, queued_view(self.queue@)).0,
                run_queue(st0, q0).1 == outcome_views(outcomes@) + run_queue(self.state@, queued_view(self.queue@)).1,
                self.applied@ == a0 + receipts(outcome_views(outcomes@)),
                self.ticket == old(self).ticket,
            decreases self.queue@.len(),
        {
            let ghost st = self.state@;
            let ghost q = queued_view(self.queue@);
            let ghost outs_before = outcome_views(outcomes@);
            let entry = self.queue.pop_front();
            match entry {
                Some((ticket, write)) => {
                    proof {
                        assert(queued_view(self.queue@) =~= q.drop_first());
                        assert(q[0] == (ticket, write@));
                    }
                    let ghost w = write@;
                    let kind = write.kind();
                    let res = transition(&mut self.state, write, ticket);
                    let ghost o;
                    match res {
                        Ok(()) => {
                            let receipt = WriteReceipt { seq: ticket, kind };
                            self.applied.push(receipt);
                            outcomes.push(Ok(receipt));
                            proof {
                                o = Ok::<WriteReceipt, ErrorView>(receipt);
                            }
                        },
                        Err(e) => {
                            proof {
                                o = Err::<WriteReceipt, ErrorView>(e@);
                            }
                            outcomes.push(Err(e));
                        },
                    }
                    proof {
                        assert(outcome_views(outcomes@) =~= outs_before.push(o));
                        assert(outs_before.push(o).drop_last() =~= outs_before);
                        let rest = run_queue(self.state@, queued_view(self.queue@));
                        assert(run_queue(st, q).1 =~= seq![o] + rest.1);
                        assert(outs_before + run_queue(st, q).1 =~= outs_before.push(o) + rest.1);
                        assert(self.applied@ =~= a0 + receipts(outcome_views(outcomes@)));
                    }
                },
                None => {},
            }
        }
        outcomes
    }

    /// Queues a write, drains the queue, and returns the first outcome of the
    /// drain (which is this write's when the queue was empty).
    pub fn apply(&mut self, write: ScheduleWrite) -> (r: Result<WriteReceipt, ScheduleError>)
        requires
            old(self).wf(),
        ensures
            apply_post(*old(self), *final(self), write@, outcome_view(r)),
    {
        let ghost w = write@;
        let ghost st0 = self.state_view();
        self.enqueue(write);
        let ghost q = self.queue_view();
        let mut outs = self.drain();
        proof {
            lemma_run_queue_len(st0, q);
            if old(self).queue_view().len() == 0 {
                assert(q.drop_first() =~= Seq::<(u64, WriteView)>::empty());
                reveal_with_fuel(run_queue, 2);
                assert(q[0] == (old(self).next_ticket(), w));
            }
        }
        if outs.len() == 0 {
            return Err(invalid_input("queued write vanished before apply"));
        }
        let ghost ov = outcome_views(outs@);
        let first = outs.remove(0);
        proof {
            assert(ov[0] == outcome_view(first));
            assert(q.len() > 0);
            assert(self.next_ticket() == bump(old(self).next_ticket()));
        }
        first
    }

    /// Management write: add a schedule.
    pub fn create(&mut self, record: ScheduleRecord) -> (r: Result<WriteReceipt, ScheduleError>)
        requires
            old(self).wf(),
        ensures
            apply_post(*old(self), *final(self), WriteView::Create { record: record@ }, outcome_view(r)),
    {
        self.apply(ScheduleWrite::Create { record })
    }

    /// Management write: whole-record compare-and-set; a stored record that
    /// differs from `expected` in any field is a conflict and nothing is
    /// written.
    pub fn compare_and_set(&mut self, expected: ScheduleRecord, next: ScheduleRecord) -> (r: Result<WriteReceipt, ScheduleError>)
        requires
            old(self).wf(),
        ensures
            apply_post(
                *old(self),
                *final(self),
                WriteView::Replace { expected: expected@, next: next@ },
                outcome_view(r),
            ),
    {
        self.apply(ScheduleWrite::Replace { expected, next })
    }

    /// Management write: remove a schedule.
    pub fn delete(&mut self, id: &str) -> (r: Result<WriteReceipt, ScheduleError>)
        requires
            old(self).wf(),
        ensures
            apply_post(*old(self), *final(self), WriteView::Delete { id: id@ }, outcome_view(r)),
    {
        let mut owned = String::new();
        push_str(&mut owned, id);
        self.apply(ScheduleWrite::Delete { id: owned })
    }

    /// Management write: pause or resume.
    pub fn set_status(&mut self, id: &str, status: ScheduleStatus, at_ms: i64) -> (r: Result<WriteReceipt, ScheduleError>)
        requires
            old(self).wf(),
        ensures
            apply_post(
                *old(self),
                *final(self),
                WriteView::SetStatus { id: id@, status, at_ms },
                outcome_view(r),
            ),
    {
        let mut owned = String::new();
        push_str(&mut owned, id);
        self.apply(ScheduleWrite::SetStatus { id: owned, status, at_ms })
    }

    /// Delivery write: acknowledge that an occurrence was executed, removing
    /// it from the unacknowledged deliveries.
    pub fn acknowledge_execution(&mut self, schedule_id: &str, occurrence_ms: i64, at_ms: i64) -> (r: Result<WriteReceipt, ScheduleError>)
        requires
            old(self).wf(),
        ensures
            apply_post(
                *old(self),
                *final(self),
                WriteView::AckExecution { schedule_id: schedule_id@, occurrence_ms, at_ms },
                outcome_view(r),
            ),
    {
        let mut owned = String::new();
        push_str(&mut owned, schedule_id);
        self.apply(ScheduleWrite::AckExecution { schedule_id: owned, occurrence_ms, at_ms })
    }
}

proof fn lemma_first_error_at(outs: Seq<Result<WriteReceipt, ErrorView>>, j: int)
    requires
        0 <= j < outs.len(),
        forall|m: int| 0 <= m < j ==> (#[trigger] outs[m]) is Ok,
        outs[j] is Err,
    ensures
        first_error(outs) == Some(outs[j]->Err_0),
    decreases j,
{
    if j > 0 {
        assert(outs[0] is Ok);
        let rest = outs.drop_first();
        assert forall|m: int| 0 <= m < j - 1 implies (#[trigger] rest[m]) is Ok by {
            assert(rest[m] == outs[m + 1]);
        }
        lemma_first_error_at(rest, j - 1);
    }
}

proof fn lemma_no_error(outs: Seq<Result<WriteReceipt, ErrorView>>)
    requires
        forall|m: int| 0 <= m < outs.len() ==> (#[trigger] outs[m]) is Ok,
    ensures
        first_error(outs) is None,
    decreases outs.len(),
{
    if outs.len() > 0 {
        assert(outs[0] is Ok);
        let rest = outs.drop_first();
        assert forall|m: int| 0 <= m < rest.len() implies (#[trigger] rest[m]) is Ok by {
            assert(rest[m] == outs[m + 1]);
        }
        lemma_no_error(rest);
    }
}

/// The first failed outcome of a drain, if any.
fn first_failure(outcomes: Vec<Result<WriteReceipt, ScheduleError>>) -> (r: Option<ScheduleError>)
    ensures
        match first_error(outcome_views(outcomes@)) {
            None => r is None,
            Some(e) => r is Some && r->0@ == e,
        },
{
    let ghost ov = outcome_views(outcomes@);
    let mut outs = outcomes;
    let mut j: usize = 0;
    while j < outs.len()
        invariant
            ov == outcome_views(outs@),
            ov == outcome_views(outcomes@),
            j <= outs@.len(),
            forall|m: int| 0 <= m < j ==> (#[trigger] ov[m]) is Ok,
        decreases outs@.len() - j,
    {
        let failed = match &outs[j] {
            Ok(_) => false,
            Err(_) => true,
        };
        if failed {
            proof {
                assert(ov[j as int] is Err);
                lemma_first_error_at(ov, j as int);
            }
            let ghost before = outs@;
            let e = outs.remove(j);
            proof {
                assert(e == before[j as int]);
                assert(ov[j as int] == outcome_view(e));
            }
            match e {
                Err(err) => {
                    proof {
                        assert(outcome_view(e) == Err::<WriteReceipt, ErrorView>(err@));
                        assert(ov[j as int]->Err_0 == err@);
                        assert(first_error(ov) == Some(err@));
                    }
                    return Some(err);
                },
                Ok(_) => {
                    return None;
                },
            }
        }
        proof {
            assert(ov[j as int] is Ok);
        }
        j = j + 1;
    }
    proof {
        lemma_no_error(ov);
    }
    None
}

impl ScheduleStore {
    /// Catch-up pass: for each active schedule, in id order, records its
    /// latest occurrence at or before `now_ms` when that is later than the
    /// last recorded one (earlier missed occurrences are dropped, so at most
    /// one delivery per schedule), drains the queue, and returns those
    /// deliveries, or the first error of the drain.
    pub fn collect_due(&mut self, now_ms: i64) -> (r: Result<Vec<ScheduleDelivery>, ScheduleError>)
        requires
            old(self).wf(),
        ensures
            ({
                let due = due_fires(old(self).state_view().records, now_ms);
                let q = old(self).queue_view() + fire_writes(due, old(self).next_ticket(), now_ms);
                let run = run_queue(old(self).state_view(), q);
                &&& final(self).wf()
                &&& final(self).state_view() == run.0
                &&& final(self).applied_view() == old(self).applied_view() + receipts(run.1)
                &&& final(self).queue_view().len() == 0
                &&& final(self).next_ticket() == bump_n(old(self).next_ticket(), due.len())
                &&& match first_error(run.1) {
                    None => r is Ok && delivery_views(r->Ok_0@) == due,
                    Some(e) => r is Err && r->Err_0@ == e,
                }
            }),
    {
        let ghost recs = self.state@.records;
        let ghost due = due_fires(recs, now_ms);
        let mut deliveries: Vec<ScheduleDelivery> = Vec::new();
        let mut i: usize = 0;
        proof {
            assert(recs.take(0) =~= Seq::<RecordView>::empty());
            assert(delivery_views(deliveries@) =~= Seq::<DeliveryView>::empty());
        }
        while i < self.state.records.len()
            invariant
                self.state.wf(),
                *self == *old(self),
                recs == self.state@.records,
                i <= recs.len(),
                delivery_views(deliveries@) == due_fires(recs.take(i as int), now_ms),
            decreases recs.len() - i,
        {
            let ghost before = delivery_views(deliveries@);
            let record = &self.state.records[i];
            proof {
                assert(recs.take(i + 1).drop_last() =~= recs.take(i as int));
                assert(recs.take(i + 1).last() == recs[i as int]);
                assert(recs[i as int] == record@);
                assert(trigger_valid(recs[i as int].trigger));
            }
            if record.status == ScheduleStatus::Active {
                match record.trigger.latest_occurrence_at_or_before(now_ms) {
                    Some(occ) => {
                        let seen = match record.last_fired_at_ms {
                            Some(last) => occ <= last,
                            None => false,
                        };
                        if !seen {
                            let d = ScheduleDelivery {
                                schedule_id: record.id.clone(),
                                occurrence_ms: occ,
                                fired_at_ms: now_ms,
                                payload: record.payload.clone(),
                            };
                            let ghost dv = d@;
                            deliveries.push(d);
                            proof {
                                assert(delivery_views(deliveries@) =~= before.push(dv));
                            }
                        }
                    },
                    None => {},
                }
            }
            i = i + 1;
        }
        proof {
            assert(recs.take(recs.len() as int) =~= recs);
        }
        let ghost t0 = self.ticket;
        let ghost q0 = self.queue_view();
        let mut k: usize = 0;
        proof {
            assert(fire_writes(due.take(0), t0, now_ms) =~= Seq::<(u64, WriteView)>::empty());
            assert(q0 + fire_writes(due.take(0), t0, now_ms) =~= q0);
        }
        while k < deliveries.len()
            invariant
                self.wf(),
                self.state_view() == old(self).state_view(),
                self.applied_view() == old(self).applied_view(),
                delivery_views(deliveries@) == due,
                k <= due.len(),
                self.queue_view() == q0 + fire_writes(due.take(k as int), t0, now_ms),
                self.next_ticket() == bump_n(t0, k as nat),
            decreases due.len() - k,
        {
            let d = &deliveries[k];
            let write = ScheduleWrite::RecordFire {
                id: d.schedule_id.clone(),
                occurrence_ms: d.occurrence_ms,
                at_ms: now_ms,
            };
            let ghost wv = write@;
            let ghost before = self.queue_view();
            let t = self.enqueue(write);
            proof {
                assert(wv == (WriteView::RecordFire {
                    id: due[k as int].schedule_id,
                    occurrence_ms: due[k as int].occurrence_ms,
                    at_ms: now_ms,
                }));
                assert(fire_writes(due.take(k + 1), t0, now_ms) =~= fire_writes(due.take(k as int), t0, now_ms).push(
                    (t, wv),
                ));
                assert(self.queue_view() =~= q0 + fire_writes(due.take(k + 1), t0, now_ms));
            }
            k = k + 1;
        }
        proof {
            assert(due.take(due.len() as int) =~= due);
        }
        let outcomes = self.drain();
        match first_failure(outcomes) {
            Some(e) => Err(e),
            None => Ok(deliveries),
        }
    }
}

// ---------------------------------------------------------------------------
// Laws
// ---------------------------------------------------------------------------

/// `s` is on the interval grid that starts at `anchor`.
pub open spec fn every_hit(every: int, anchor: int, s: int) -> bool {
    s >= anchor && (s - anchor) % every == 0
}

/// The local instant `x` is at `target` ms into its day.
pub open spec fn daily_hit(x: int, target: int) -> bool {
    x % day_ms() == target
}

/// The local instant `x` is at `target` ms into a day with weekday `w`.
pub open spec fn weekly_hit(x: int, target: int, w: int) -> bool {
    x % day_ms() == target && weekday_of_day(x / day_ms()) == w
}

/// Whether the instant `s` is an occurrence of the trigger.
pub open spec fn is_occurrence(t: ScheduleTrigger, s: int) -> bool {
    match t {
        ScheduleTrigger::After { at_ms } => s == at_ms,
        ScheduleTrigger::Every { every_ms, anchor_ms } => every_hit(every_ms as int, anchor_ms as int, s),
        ScheduleTrigger::Cron { spec } => match spec {
            CronSubset::Daily { hour, minute, utc_offset_minutes } => daily_hit(
                s + utc_offset_minutes * 60_000,
                time_of_day_ms(hour, minute),
            ),
            CronSubset::Weekly { weekday, hour, minute, utc_offset_minutes } => weekly_hit(
                s + utc_offset_minutes * 60_000,
                time_of_day_ms(hour, minute),
                weekday as int,
            ),
        },
    }
}

proof fn lemma_every_latest(every: int, anchor: int, now: int)
    requires
        every > 0,
        now >= anchor,
    ensures
        ({
            let r = anchor + ((now - anchor) / every) * every;
            &&& r <= now
            &&& r >= anchor
            &&& (r - anchor) % every == 0
            &&& forall|s: int| #[trigger] every_hit(every, anchor, s) && s <= now ==> s <= r
        }),
{
    let q = (now - anchor) / every;
    let rem = (now - anchor) % every;
    lemma_fundamental_div_mod(now - anchor, every);
    lemma_fundamental_div_mod_converse(now - anchor, every, q, rem);
    assert(0 <= rem < every) by {
        vstd::arithmetic::div_mod::lemma_mod_bound(now - anchor, every);
    }
    assert(q >= 0) by (nonlinear_arith)
        requires
            now - anchor == every * q + rem,
            0 <= rem < every,
            now - anchor >= 0,
    ;
    assert(q * every >= 0) by (nonlinear_arith)
        requires
            q >= 0,
            every > 0,
    ;
    lemma_mod_multiples_basic(q, every);
    assert forall|s: int| #[trigger] every_hit(every, anchor, s) && s <= now implies s <= anchor + q * every by {
        let k = (s - anchor) / every;
        lemma_fundamental_div_mod(s - anchor, every);
        assert(k <= q) by (nonlinear_arith)
            requires
                s - anchor == every * k,
                now - anchor == every * q + rem,
                rem < every,
                s <= now,
                every > 0,
        ;
        assert(k * every <= q * every) by (nonlinear_arith)
            requires
                k <= q,
                every > 0,
        ;
    }
}

/// A fixed time of day, shifted back by `back` days from the day of `local`,
/// is the latest such instant at or before `local` when `back` counts the
/// days to step back.
proof fn lemma_fixed_latest_daily(local: int, target: int)
    requires
        0 <= target < day_ms(),
    ensures
        ({
            let day = local / day_ms();
            let tod = local % day_ms();
            let back: int = if tod < target { 1 } else { 0 };
            let occ = (day - back) * day_ms() + target;
            &&& occ <= local
            &&& occ % day_ms() == target
            &&& occ / day_ms() == day - back
            &&& forall|x: int| #[trigger] daily_hit(x, target) && x <= local ==> x <= occ
        }),
{
    let d = day_ms();
    let day = local / d;
    let tod = local % d;
    lemma_fundamental_div_mod(local, d);
    vstd::arithmetic::div_mod::lemma_mod_bound(local, d);
    let back: int = if tod < target { 1 } else { 0 };
    let occ = (day - back) * d + target;
    lemma_fundamental_div_mod_converse(occ, d, day - back, target);
    assert(occ <= local) by (nonlinear_arith)
        requires
            local == d * day + tod,
            occ == (day - back) * d + target,
            back == (if tod < target { 1int } else { 0int }),
            0 <= tod < d,
            0 <= target < d,
    ;
    assert forall|x: int| #[trigger] daily_hit(x, target) && x <= local implies x <= occ by {
        let k = x / d;
        lemma_fundamental_div_mod(x, d);
        assert(k <= day - back) by (nonlinear_arith)
            requires
                x == d * k + target,
                local == d * day + tod,
                back == (if tod < target { 1int } else { 0int }),
                x <= local,
                0 <= tod < d,
                0 <= target < d,
        ;
        assert(k * d <= (day - back) * d) by (nonlinear_arith)
            requires
                k <= day - back,
                d > 0,
        ;
    }
}

proof fn lemma_fixed_latest_weekly(local: int, target: int, w: int)
    requires
        0 <= target < day_ms(),
        0 <= w <= 6,
    ensures
        ({
            let day = local / day_ms();
            let tod = local % day_ms();
            let gap = (weekday_of_day(day) - w) % 7;
            let back: int = if gap == 0 && tod < target { 7 } else { gap };
            let occ = (day - back) * day_ms() + target;
            &&& occ <= local
            &&& occ % day_ms() == target
            &&& weekday_of_day(occ / day_ms()) == w
            &&& forall|x: int| #[trigger] weekly_hit(x, target, w) && x <= local ==> x <= occ
        }),
{
    let d = day_ms();
    let day = local / d;
    let tod = local % d;
    lemma_fundamental_div_mod(local, d);
    vstd::arithmetic::div_mod::lemma_mod_bound(local, d);
    let wd = weekday_of_day(day);
    let a = (day + 4) / 7;
    lemma_fundamental_div_mod(day + 4, 7);
    vstd::arithmetic::div_mod::lemma_mod_bound(day + 4, 7);
    let gap = (wd - w) % 7;
    let b = (wd - w) / 7;
    lemma_fundamental_div_mod(wd - w, 7);
    vstd::arithmetic::div_mod::lemma_mod_bound(wd - w, 7);
    let back: int = if gap == 0 && tod < target { 7 } else { gap };
    let rd = day - back;
    let occ = rd * d + target;
    lemma_fundamental_div_mod_converse(occ, d, rd, target);
    // The weekday of the chosen day.
    let m: int = if gap == 0 && tod < target { a + b - 1 } else { a + b };
    assert(rd + 4 == 7 * m + w);
    lemma_fundamental_div_mod_converse(rd + 4, 7, m, w);
    assert(occ <= local) by (nonlinear_arith)
        requires
            local == d * day + tod,
            occ == rd * d + target,
            rd == day - back,
            back >= 0,
            back == 0 ==> target <= tod,
            0 <= tod < d,
            0 <= target < d,
    ;
    assert forall|x: int| #[trigger] weekly_hit(x, target, w) && x <= local implies x <= occ by {
        let k = x / d;
        lemma_fundamental_div_mod(x, d);
        let c = (k + 4) / 7;
        lemma_fundamental_div_mod(k + 4, 7);
        assert(k <= day) by (nonlinear_arith)
            requires
                x == d * k + target,
                local == d * day + tod,
                x <= local,
                0 <= tod < d,
                0 <= target < d,
        ;
        assert(k == day ==> target <= tod) by (nonlinear_arith)
            requires
                x == d * k + target,
                local == d * day + tod,
                x <= local,
        ;
        assert(k - rd == 7 * (c - m));
        assert(k <= rd) by (nonlinear_arith)
            requires
                k - rd == 7 * (c - m),
                k <= day,
                rd == day - back,
                0 <= gap < 7,
                back == (if gap == 0 && tod < target { 7int } else { gap }),
                k == day ==> target <= tod,
        ;
        assert(k * d <= rd * d) by (nonlinear_arith)
            requires
                k <= rd,
                d > 0,
        ;
    }
}

/// The catch-up instant is the latest occurrence at or before `now`: it is
/// an occurrence, it is not after `now`, and no occurrence in between is
/// skipped. A one-shot or interval trigger with no result has no
/// occurrence at or before `now`.
pub proof fn latest_occurrence_is_the_latest(t: ScheduleTrigger, now: i64)
    requires
        trigger_valid(t),
    ensures
        match latest_occurrence(t, now as int) {
            Some(r) => r <= now && is_occurrence(t, r) && forall|s: int|
                #[trigger] is_occurrence(t, s) && s <= now ==> s <= r,
            None => t is Cron || forall|s: int| #[trigger] is_occurrence(t, s) ==> s > now,
        },
{
    match t {
        ScheduleTrigger::After { .. } => {},
        ScheduleTrigger::Every { every_ms, anchor_ms } => {
            if now >= anchor_ms {
                lemma_every_latest(every_ms as int, anchor_ms as int, now as int);
            }
        },
        ScheduleTrigger::Cron { spec } => match spec {
            CronSubset::Daily { hour, minute, utc_offset_minutes } => {
                let off = utc_offset_minutes * 60_000;
                let target = time_of_day_ms(hour, minute);
                lemma_fixed_latest_daily(now + off, target);
                if latest_occurrence(t, now as int) is Some {
                    assert forall|s: int| #[trigger] is_occurrence(t, s) && s <= now implies s <= latest_occurrence(t, now as int)->0 by {
                        assert(daily_hit(s + off, target));
                    }
                }
            },
            CronSubset::Weekly { weekday, hour, minute, utc_offset_minutes } => {
                let off = utc_offset_minutes * 60_000;
                let target = time_of_day_ms(hour, minute);
                lemma_fixed_latest_weekly(now + off, target, weekday as int);
                if latest_occurrence(t, now as int) is Some {
                    assert forall|s: int| #[trigger] is_occurrence(t, s) && s <= now implies s <= latest_occurrence(t, now as int)->0 by {
                        assert(weekly_hit(s + off, target, weekday as int));
                    }
                }
            },
        },
    }
}

proof fn lemma_every_next(every: int, anchor: int, after: int)
    requires
        every > 0,
        after >= anchor,
    ensures
        ({
            let n = anchor + ((after - anchor) / every + 1) * every;
            &&& n > after
            &&& every_hit(every, anchor, n)
            &&& forall|s: int| #[trigger] every_hit(every, anchor, s) && s > after ==> s >= n
        }),
{
    let q = (after - anchor) / every;
    let rem = (after - anchor) % every;
    lemma_fundamental_div_mod(after - anchor, every);
    vstd::arithmetic::div_mod::lemma_mod_bound(after - anchor, every);
    assert(q >= 0) by (nonlinear_arith)
        requires
            after - anchor == every * q + rem,
            0 <= rem < every,
            after - anchor >= 0,
    ;
    let n = anchor + (q + 1) * every;
    assert(n > after) by (nonlinear_arith)
        requires
            after - anchor == every * q + rem,
            rem < every,
            n == anchor + (q + 1) * every,
    ;
    assert((q + 1) * every >= 0) by (nonlinear_arith)
        requires
            q >= 0,
            every > 0,
    ;
    lemma_mod_multiples_basic(q + 1, every);
    assert forall|s: int| #[trigger] every_hit(every, anchor, s) && s > after implies s >= n by {
        let k = (s - anchor) / every;
        lemma_fundamental_div_mod(s - anchor, every);
        assert(k >= q + 1) by (nonlinear_arith)
            requires
                s - anchor == every * k,
                after - anchor == every * q + rem,
                0 <= rem,
                s > after,
                every > 0,
        ;
        assert(k * every >= (q + 1) * every) by (nonlinear_arith)
            requires
                k >= q + 1,
                every > 0,
        ;
    }
}

proof fn lemma_fixed_next_daily(local: int, target: int)
    requires
        0 <= target < day_ms(),
    ensures
        ({
            let day = local / day_ms();
            let tod = local % day_ms();
            let fwd: int = if tod >= target { 1 } else { 0 };
            let occ = (day + fwd) * day_ms() + target;
            &&& occ > local
            &&& daily_hit(occ, target)
            &&& forall|x: int| #[trigger] daily_hit(x, target) && x > local ==> x >= occ
        }),
{
    let d = day_ms();
    let day = local / d;
    let tod = local % d;
    lemma_fundamental_div_mod(local, d);
    vstd::arithmetic::div_mod::lemma_mod_bound(local, d);
    let fwd: int = if tod >= target { 1 } else { 0 };
    let occ = (day + fwd) * d + target;
    lemma_fundamental_div_mod_converse(occ, d, day + fwd, target);
    assert(occ > local) by (nonlinear_arith)
        requires
            local == d * day + tod,
            occ == (day + fwd) * d + target,
            fwd == (if tod >= target { 1int } else { 0int }),
            0 <= tod < d,
            0 <= target < d,
    ;
    assert forall|x: int| #[trigger] daily_hit(x, target) && x > local implies x >= occ by {
        let k = x / d;
        lemma_fundamental_div_mod(x, d);
        assert(k >= day + fwd) by (nonlinear_arith)
            requires
                x == d * k + target,
                local == d * day + tod,
                fwd == (if tod >= target { 1int } else { 0int }),
                x > local,
                0 <= tod < d,
                0 <= target < d,
        ;
        assert(k * d >= (day + fwd) * d) by (nonlinear_arith)
            requires
                k >= day + fwd,
                d > 0,
        ;
    }
}

proof fn lemma_fixed_next_weekly(local: int, target: int, w: int)
    requires
        0 <= target < day_ms(),
        0 <= w <= 6,
    ensures
        ({
            let day = local / day_ms();
            let tod = local % day_ms();
            let gap = (w - weekday_of_day(day)) % 7;
            let fwd: int = if gap == 0 && tod >= target { 7 } else { gap };
            let occ = (day + fwd) * day_ms() + target;
            &&& occ > local
            &&& weekly_hit(occ, target, w)
            &&& forall|x: int| #[trigger] weekly_hit(x, target, w) && x > local ==> x >= occ
        }),
{
    let d = day_ms();
    let day = local / d;
    let tod = local % d;
    lemma_fundamental_div_mod(local, d);
    vstd::arithmetic::div_mod::lemma_mod_bound(local, d);
    let wd = weekday_of_day(day);
    let a = (day + 4) / 7;
    lemma_fundamental_div_mod(day + 4, 7);
    vstd::arithmetic::div_mod::lemma_mod_bound(day + 4, 7);
    let gap = (w - wd) % 7;
    let b = (w - wd) / 7;
    lemma_fundamental_div_mod(w - wd, 7);
    vstd::arithmetic::div_mod::lemma_mod_bound(w - wd, 7);
    let fwd: int = if gap == 0 && tod >= target { 7 } else { gap };
    let rd = day + fwd;
    let occ = rd * d + target;
    lemma_fundamental_div_mod_converse(occ, d, rd, target);
    let m: int = if gap == 0 && tod >= target { a - b + 1 } else { a - b };
    assert(rd + 4 == 7 * m + w);
    lemma_fundamental_div_mod_converse(rd + 4, 7, m, w);
    assert(occ > local) by (nonlinear_arith)
        requires
            local == d * day + tod,
            occ == rd * d + target,
            rd == day + fwd,
            fwd >= 0,
            fwd == 0 ==> target > tod,
            0 <= tod < d,
            0 <= target < d,
    ;
    assert forall|x: int| #[trigger] weekly_hit(x, target, w) && x > local implies x >= occ by {
        let k = x / d;
        lemma_fundamental_div_mod(x, d);
        let c = (k + 4) / 7;
        lemma_fundamental_div_mod(k + 4, 7);
        assert(k >= day) by (nonlinear_arith)
            requires
                x == d * k + target,
                local == d * day + tod,
                x > local,
                0 <= tod < d,
                0 <= target < d,
        ;
        assert(k == day ==> target > tod) by (nonlinear_arith)
            requires
                x == d * k + target,
                local == d * day + tod,
                x > local,
        ;
        assert(k - rd == 7 * (c - m));
        assert(k >= rd) by (nonlinear_arith)
            requires
                k - rd == 7 * (c - m),
                k >= day,
                rd == day + fwd,
                0 <= gap < 7,
                fwd == (if gap == 0 && tod >= target { 7int } else { gap }),
                k == day ==> target > tod,
        ;
        assert(k * d >= rd * d) by (nonlinear_arith)
            requires
                k >= rd,
                d > 0,
        ;
    }
}

/// The next occurrence strictly after `after` is the first one: it is an
/// occurrence, it lies after `after`, and no occurrence in between is
/// skipped. A one-shot or interval trigger with no result has no
/// occurrence after `after`.
pub proof fn next_occurrence_is_the_next(t: ScheduleTrigger, after: i64)
    requires
        trigger_valid(t),
    ensures
        match next_occurrence(t, after as int) {
            Some(n) => n > after && is_occurrence(t, n) && forall|s: int|
                #[trigger] is_occurrence(t, s) && s > after ==> s >= n,
            None => t is Cron || forall|s: int| #[trigger] is_occurrence(t, s) ==> s <= after,
        },
{
    match t {
        ScheduleTrigger::After { .. } => {},
        ScheduleTrigger::Every { every_ms, anchor_ms } => {
            if after >= anchor_ms {
                lemma_every_next(every_ms as int, anchor_ms as int, after as int);
            } else {
                lemma_mod_multiples_basic(0, every_ms as int);
                assert(every_hit(every_ms as int, anchor_ms as int, anchor_ms as int));
            }
        },
        ScheduleTrigger::Cron { spec } => match spec {
            CronSubset::Daily { hour, minute, utc_offset_minutes } => {
                let off = utc_offset_minutes * 60_000;
                let target = time_of_day_ms(hour, minute);
                lemma_fixed_next_daily(after + off, target);
                if next_occurrence(t, after as int) is Some {
                    assert forall|s: int| #[trigger] is_occurrence(t, s) && s > after implies s >= next_occurrence(t, after as int)->0 by {
                        assert(daily_hit(s + off, target));
                    }
                }
            },
            CronSubset::Weekly { weekday, hour, minute, utc_offset_minutes } => {
                let off = utc_offset_minutes * 60_000;
                let target = time_of_day_ms(hour, minute);
                lemma_fixed_next_weekly(after + off, target, weekday as int);
                if next_occurrence(t, after as int) is Some {
                    assert forall|s: int| #[trigger] is_occurrence(t, s) && s > after implies s >= next_occurrence(t, after as int)->0 by {
                        assert(weekly_hit(s + off, target, weekday as int));
                    }
                }
            },
        },
    }
}

/// The next occurrence after `after` and the latest at or before agree:
/// the latest at or before `n` is `n` itself, and the latest just before
/// `n` is the latest at or before `after`, whenever both latest are
/// computable (always, but for a fixed time of day near the ends of the
/// `i64` range).
pub proof fn next_and_latest_agree(t: ScheduleTrigger, after: i64, n: i64)
    requires
        trigger_valid(t),
        next_occurrence(t, after as int) == Some(n as int),
    ensures
        latest_occurrence(t, n as int) is Some ==> latest_occurrence(t, n as int) == Some(n as int),
        !(t is Cron) ==> latest_occurrence(t, n as int) == Some(n as int),
        (latest_occurrence(t, n - 1) is Some && latest_occurrence(t, after as int) is Some) || !(t is Cron) ==> latest_occurrence(
            t,
            n - 1,
        ) == latest_occurrence(t, after as int),
{
    next_occurrence_is_the_next(t, after);
    let p: i64 = (n - 1) as i64;
    latest_occurrence_is_the_latest(t, n);
    latest_occurrence_is_the_latest(t, p);
    latest_occurrence_is_the_latest(t, after);
    assert(is_occurrence(t, n as int));
    match latest_occurrence(t, after as int) {
        Some(r1) => {
            assert(is_occurrence(t, r1));
        },
        None => {},
    }
    match latest_occurrence(t, p as int) {
        Some(r2) => {
            assert(is_occurrence(t, r2));
        },
        None => {},
    }
}

/// The delivery `d` is the catch-up delivery of the record `r` at `now`.
pub open spec fn fired_from(r: RecordView, d: DeliveryView, now: i64) -> bool {
    &&& r.id == d.schedule_id
    &&& r.status == ScheduleStatus::Active
    &&& latest_occurrence(r.trigger, now as int) == Some(d.occurrence_ms as int)
    &&& d.payload == r.payload
    &&& d.fired_at_ms == now
}

/// Some record of `recs` is the source of `d`.
pub open spec fn has_source(recs: Seq<RecordView>, d: DeliveryView, now: i64) -> bool {
    exists|k: int| 0 <= k < recs.len() && #[trigger] fired_from(recs[k], d, now)
}

proof fn lemma_due_fires_from_records(recs: Seq<RecordView>, now: i64)
    requires
        forall|k: int| 0 <= k < recs.len() ==> trigger_valid(#[trigger] recs[k].trigger),
    ensures
        forall|i: int| 0 <= i < due_fires(recs, now).len() ==> has_source(recs, #[trigger] due_fires(recs, now)[i], now),
    decreases recs.len(),
{
    if recs.len() > 0 {
        let init = recs.drop_last();
        assert forall|k: int| 0 <= k < init.len() implies trigger_valid(#[trigger] init[k].trigger) by {
            assert(trigger_valid(recs[k].trigger));
        }
        lemma_due_fires_from_records(init, now);
        let due = due_fires(recs, now);
        let before = due_fires(init, now);
        assert forall|i: int| 0 <= i < due.len() implies has_source(recs, #[trigger] due_fires(recs, now)[i], now) by {
            if i < before.len() {
                assert(due[i] == before[i]);
                assert(has_source(init, before[i], now));
                let k = choose|k: int| 0 <= k < init.len() && #[trigger] fired_from(init[k], before[i], now);
                assert(recs[k] == init[k]);
                assert(fired_from(recs[k], due[i], now));
            } else {
                let k = recs.len() - 1;
                let occ = latest_occurrence(recs[k].trigger, now as int);
                lemma_latest_in_range(recs[k].trigger, now);
                assert(trigger_valid(recs[k].trigger));
                assert(recs[k] == recs.last());
                assert(fired_from(recs[k], due[i], now));
            }
        }
    }
}

proof fn lemma_latest_in_range(t: ScheduleTrigger, now: i64)
    ensures
        latest_occurrence(t, now as int) is Some && (t matches ScheduleTrigger::Every { every_ms, .. } ==> every_ms > 0)
            ==> in_i64(latest_occurrence(t, now as int)->0),
{
    if let ScheduleTrigger::Every { every_ms, anchor_ms } = t {
        if every_ms > 0 && now >= anchor_ms {
            lemma_every_latest(every_ms as int, anchor_ms as int, now as int);
        }
    }
}

/// A catch-up pass delivers at most one occurrence per schedule: the
/// deliveries come in strictly increasing schedule-id order, and each comes
/// from an active schedule as that schedule's latest occurrence at or
/// before `now`.
pub proof fn catch_up_fires_at_most_once_per_schedule(recs: Seq<RecordView>, now: i64)
    requires
        records_wf(recs),
    ensures
        forall|i: int, j: int|
            0 <= i < j < due_fires(recs, now).len() ==> lex_lt(
                #[trigger] due_fires(recs, now)[i].schedule_id,
                #[trigger] due_fires(recs, now)[j].schedule_id,
            ),
        forall|i: int| 0 <= i < due_fires(recs, now).len() ==> has_source(recs, #[trigger] due_fires(recs, now)[i], now),
    decreases recs.len(),
{
    lemma_due_fires_from_records(recs, now);
    if recs.len() > 0 {
        let init = recs.drop_last();
        assert(records_wf(init)) by {
            assert forall|i: int, j: int| 0 <= i < j < init.len() implies lex_lt(#[trigger] init[i].id, #[trigger] init[j].id) by {
                assert(lex_lt(recs[i].id, recs[j].id));
            }
            assert forall|i: int| 0 <= i < init.len() implies trigger_valid(#[trigger] init[i].trigger) by {
                assert(trigger_valid(recs[i].trigger));
            }
        }
        catch_up_fires_at_most_once_per_schedule(init, now);
        let due = due_fires(recs, now);
        let before = due_fires(init, now);
        assert forall|i: int, j: int| 0 <= i < j < due.len() implies lex_lt(
            #[trigger] due[i].schedule_id,
            #[trigger] due[j].schedule_id,
        ) by {
            if j < before.len() {
                assert(due[i] == before[i] && due[j] == before[j]);
            } else {
                assert(due[i] == before[i]);
                assert(due[j].schedule_id == recs.last().id);
                assert(has_source(init, before[i], now));
                let k = choose|k: int| 0 <= k < init.len() && #[trigger] fired_from(init[k], before[i], now);
                assert(lex_lt(recs[k].id, recs[recs.len() - 1].id));
            }
        }
    }
}

/// A compare-and-set whose expected record differs in any field from the
/// stored one is a conflict and writes nothing.
pub proof fn stale_compare_and_set_conflicts(st: StateView, expected: RecordView, next: RecordView, ticket: u64)
    requires
        index_of(st.records, expected.id) is Some,
        st.records[index_of(st.records, expected.id)->0] != expected,
    ensures
        step(st, WriteView::Replace { expected, next }, ticket) == Err::<StateView, ErrorView>(
            ErrorView::Conflict { id: expected.id, expected_revision: expected.revision },
        ),
{
}

/// Recorded deliveries stay until acknowledged: no write but an
/// acknowledgement removes or reorders an unacknowledged delivery.
pub proof fn deliveries_stay_until_acknowledged(st: StateView, w: WriteView, ticket: u64)
    requires
        !(w is AckExecution),
        step(st, w, ticket) is Ok,
    ensures
        st.pending.len() <= step(st, w, ticket)->Ok_0.pending.len(),
        step(st, w, ticket)->Ok_0.pending.take(st.pending.len() as int) == st.pending,
{
    let n = step(st, w, ticket)->Ok_0.pending;
    assert(n.take(st.pending.len() as int) =~= st.pending);
}

} // verus!
