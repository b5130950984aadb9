//! Calendar dates in the proleptic Gregorian calendar, and their mapping to
//! seconds since 1970-01-01T00:00:00 UTC.
use vstd::prelude::*;

verus! {

/// Earliest year that a calendar date can have.
pub const MIN_YEAR: i32 = -262143;

/// Latest year that a calendar date can have.
pub const MAX_YEAR: i32 = 262142;

/// A calendar date, without a time of day; it need not exist in the calendar.
#[derive(Clone, Copy, Debug, PartialEq, Eq)]
pub struct Date {
    pub year: i32,
    pub month: u32,
    pub day: u32,
}

pub open spec fn is_leap_year(y: int) -> bool {
    y % 4 == 0 && (y % 100 != 0 || y % 400 == 0)
}

pub open spec fn days_in_month(y: int, m: int) -> int {
    if m == 2 {
        if is_leap_year(y) { 29 } else { 28 }
    } else if m == 4 || m == 6 || m == 9 || m == 11 {
        30
    } else {
        31
    }
}

/// The date names a day of the calendar, within the supported years.
pub open spec fn is_valid_date(y: int, m: int, d: int) -> bool {
    MIN_YEAR <= y <= MAX_YEAR && 1 <= m <= 12 && 1 <= d <= days_in_month(y, m)
}

/// Days from 1970-01-01 to the given date (negative before it).
pub open spec fn days_from_epoch(y: int, m: int, d: int) -> int {
    let y1 = if m <= 2 { y - 1 } else { y };
    let era = y1 / 400;
    let yoe = y1 - era * 400;
    let mp = if m > 2 { m - 3 } else { m + 9 };
    let doy = (153 * mp + 2) / 5 + d - 1;
    let doe = yoe * 365 + yoe / 4 - yoe / 100 + doy;
    era * 146097 + doe - 719468
}

/// Seconds since the epoch of the given date at the given time of day, UTC.
pub open spec fn seconds_at(y: int, m: int, d: int, secs_of_day: int) -> int {
    days_from_epoch(y, m, d) * 86400 + secs_of_day
}

/// First second of the earliest supported day.
pub open spec fn earliest_second() -> int {
    seconds_at(MIN_YEAR as int, 1, 1, 0)
}

/// Last second of the latest supported day.
pub open spec fn latest_second() -> int {
    seconds_at(MAX_YEAR as int, 12, 31, 86399)
}

/// A count of seconds since the epoch names an instant of a supported day.
pub open spec fn is_decodable(ts: int) -> bool {
    earliest_second() <= ts <= latest_second()
}

/// Relies on chrono's `NaiveDate::from_ymd_opt`, `NaiveDate::and_hms_opt`,
/// `NaiveDateTime::and_utc` and `DateTime::timestamp`: the date exists when it
/// is a real calendar day of a year in `MIN_YEAR..=MAX_YEAR`, and the
/// timestamp counts the seconds since the epoch.
#[verifier::external_body]
fn utc_timestamp(d: Date, hour: u32, minute: u32, second: u32) -> (r: Option<i64>)
    requires
        hour < 24,
        minute < 60,
        second < 60,
    ensures
        r is Some <==> is_valid_date(d.year as int, d.month as int, d.day as int),
        r matches Some(t) ==> t == seconds_at(
            d.year as int,
            d.month as int,
            d.day as int,
            hour * 3600 + minute * 60 + second,
        ),
{
    match chrono::NaiveDate::from_ymd_opt(d.year, d.month, d.day) {
        Some(date) => match date.and_hms_opt(hour, minute, second) {
            Some(at) => Some(at.and_utc().timestamp()),
            None => None,
        },
        None => None,
    }
}

/// Relies on chrono's `DateTime::<Utc>::from_timestamp`: it gives an instant
/// exactly when the seconds fall on a day of a year in `MIN_YEAR..=MAX_YEAR`.
#[verifier::external_body]
fn timestamp_decodes(ts: i64) -> (r: bool)
    ensures
        r == is_decodable(ts as int),
{
    chrono::DateTime::<chrono::Utc>::from_timestamp(ts, 0).is_some()
}

impl Date {
    /// The first second of this day, or `None` where the date does not exist.
    pub fn start_of_day(&self) -> (r: Option<i64>)
        ensures
            r is Some <==> is_valid_date(self.year as int, self.month as int, self.day as int),
            r matches Some(t) ==> t == seconds_at(
                self.year as int,
                self.month as int,
                self.day as int,
                0,
            ),
    {
        utc_timestamp(*self, 0, 0, 0)
    }

    /// The last second of this day, or `None` where the date does not exist.
    pub fn end_of_day(&self) -> (r: Option<i64>)
        ensures
            r is Some <==> is_valid_date(self.year as int, self.month as int, self.day as int),
            r matches Some(t) ==> t == seconds_at(
                self.year as int,
                self.month as int,
                self.day as int,
                86399,
            ),
    {
        utc_timestamp(*self, 23, 59, 59)
    }
}

/// Whether a stored count of seconds can be read back as an instant.
pub fn is_representable(ts: i64) -> (r: bool)
    ensures
        r == is_decodable(ts as int),
{
    timestamp_decodes(ts)
}

} // verus!
