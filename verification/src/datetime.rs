//! Conversions between wire-format time values and [`Timestamp`] ticks.
//!
//! The firmware emits timestamps either as milliseconds since the Unix
//! epoch or directly as 100-nanosecond ticks; both convert fallibly into
//! the model's tick count.  The Robot-log format carries a calendar date
//! and time of day instead; turning that into an epoch value is delegated
//! to the calendar implementation in `chrono` behind a trusted wrapper
//! whose contract states the proleptic-Gregorian day arithmetic exactly.

use vstd::prelude::*;

use crate::model::Timestamp;

verus! {

/// Ticks per millisecond: one tick is 100 ns.
pub open spec fn spec_from_timestamp_ms(ms: u64) -> Option<Timestamp> {
    if ms * 10_000 <= i64::MAX {
        Some(Timestamp { ticks: (ms * 10_000) as i64 })
    } else {
        None
    }
}

/// Converts milliseconds since the Unix epoch; `None` when the tick count
/// would not fit the timestamp range.
pub fn from_timestamp_ms(ms: u64) -> (r: Option<Timestamp>)
    ensures
        r == spec_from_timestamp_ms(ms),
{
    if ms <= 922_337_203_685_477u64 {
        Some(Timestamp { ticks: (ms * 10_000) as i64 })
    } else {
        None
    }
}

pub open spec fn spec_from_100ns(t: u64) -> Option<Timestamp> {
    if t <= i64::MAX {
        Some(Timestamp { ticks: t as i64 })
    } else {
        None
    }
}

/// Converts a raw unsigned 100 ns tick count since the Unix epoch; `None`
/// when it does not fit the signed timestamp range.
pub fn from_100ns(t: u64) -> (r: Option<Timestamp>)
    ensures
        r == spec_from_100ns(t),
{
    if t <= i64::MAX as u64 {
        Some(Timestamp { ticks: t as i64 })
    } else {
        None
    }
}

pub open spec fn spec_add_offset_100ns(ts: Timestamp, off: i64) -> Option<Timestamp> {
    if i64::MIN <= ts.ticks + off <= i64::MAX {
        Some(Timestamp { ticks: (ts.ticks + off) as i64 })
    } else {
        None
    }
}

/// Shifts a timestamp by a signed 100 ns offset; `None` on overflow.
pub fn add_offset_100ns(ts: Timestamp, off: i64) -> (r: Option<Timestamp>)
    ensures
        r == spec_add_offset_100ns(ts, off),
{
    match ts.ticks.checked_add(off) {
        Some(t) => Some(Timestamp { ticks: t }),
        None => None,
    }
}

pub open spec fn is_leap_year(y: int) -> bool {
    y % 4 == 0 && (y % 100 != 0 || y % 400 == 0)
}

pub open spec fn days_in_month(y: int, m: int) -> int {
    if m == 2 {
        if is_leap_year(y) {
            29
        } else {
            28
        }
    } else if m == 4 || m == 6 || m == 9 || m == 11 {
        30
    } else {
        31
    }
}

/// A valid proleptic-Gregorian calendar date with a valid time of day
/// (leap seconds excluded).
pub open spec fn valid_civil(y: int, mo: int, d: int, h: int, mi: int, s: int, us: int) -> bool {
    &&& 1 <= mo <= 12
    &&& 1 <= d <= days_in_month(y, mo)
    &&& 0 <= h <= 23
    &&& 0 <= mi <= 59
    &&& 0 <= s <= 59
    &&& 0 <= us <= 999_999
}

/// Days from the Unix epoch to the given proleptic-Gregorian date
/// (negative for dates before 1970-01-01).
pub open spec fn days_from_civil(y: int, mo: int, d: int) -> int {
    let yy = if mo <= 2 {
        y - 1
    } else {
        y
    };
    let era = yy / 400;
    let yoe = yy - era * 400;
    let mp = if mo > 2 {
        mo - 3
    } else {
        mo + 9
    };
    let doy = (153 * mp + 2) / 5 + d - 1;
    let doe = yoe * 365 + yoe / 4 - yoe / 100 + doy;
    era * 146_097 + doe - 719_468
}

/// 100 ns ticks since the Unix epoch of a civil date and time of day.
pub open spec fn ticks_of_civil(y: int, mo: int, d: int, h: int, mi: int, s: int, us: int) -> int {
    days_from_civil(y, mo, d) * 864_000_000_000 + h * 36_000_000_000 + mi * 600_000_000 + s
        * 10_000_000 + us * 10
}

/// Relies on chrono's `NaiveDate::from_ymd_opt`, `NaiveDate::and_hms_micro_opt`,
/// `NaiveDateTime::and_utc` and `DateTime::timestamp_micros`: a valid
/// proleptic-Gregorian date and time of day (with `micros` below one
/// million, which rules leap-second encodings out) converts to
/// microseconds since the Unix epoch; an invalid one is rejected.
#[verifier::external_body]
pub(crate) fn civil_to_ticks(
    year: u32,
    month: u32,
    day: u32,
    hour: u32,
    minute: u32,
    second: u32,
    micros: u32,
) -> (r: Option<Timestamp>)
    requires
        year <= 9999,
        micros <= 999_999,
    ensures
        r == (if valid_civil(
            year as int,
            month as int,
            day as int,
            hour as int,
            minute as int,
            second as int,
            micros as int,
        ) {
            Some(
                Timestamp {
                    ticks: ticks_of_civil(
                        year as int,
                        month as int,
                        day as int,
                        hour as int,
                        minute as int,
                        second as int,
                        micros as int,
                    ) as i64,
                },
            )
        } else {
            None::<Timestamp>
        }),
{
    match chrono::NaiveDate::from_ymd_opt(year as i32, month, day) {
        Some(date) => match date.and_hms_micro_opt(hour, minute, second, micros) {
            Some(dt) => Some(Timestamp { ticks: dt.and_utc().timestamp_micros() * 10 }),
            None => None,
        },
        None => None,
    }
}

} // verus!
