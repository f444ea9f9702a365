//! Calendar date-times in UTC with second precision, as `chrono` checks,
//! parses and formats them.

use chrono::{Datelike, Timelike};
use vstd::prelude::*;

use crate::text::{decimal_text, two_digits};

verus! {

/// Year, month, day, hour, minute, second.
pub type DateTimeParts = (i32, u32, u32, u32, u32, u32);

pub open spec fn is_leap_year(y: int) -> bool {
    y % 4 == 0 && (y % 100 != 0 || y % 400 == 0)
}

pub open spec fn days_in_month(y: int, m: int) -> int {
    if m == 2 {
        if is_leap_year(y) {
            29
        } else {
            28
        }
    } else if m == 4 || m == 6 || m == 9 || m == 11 {
        30
    } else {
        31
    }
}

/// The date-times that `chrono::NaiveDate::from_ymd_opt(..).and_hms_opt(..)`
/// accepts: a proleptic Gregorian date with year in -262143..=262142, and a
/// time of day without a leap second.
pub open spec fn valid_parts(t: DateTimeParts) -> bool {
    &&& -262143 <= t.0 <= 262142
    &&& 1 <= t.1 <= 12
    &&& 1 <= t.2 <= days_in_month(t.0 as int, t.1 as int)
    &&& t.3 < 24
    &&& t.4 < 60
    &&& t.5 < 60
}

/// A valid UTC date-time, to the second.
#[derive(Clone, Copy, Debug, PartialEq, Eq)]
pub struct UtcDateTime {
    year: i32,
    month: u32,
    day: u32,
    hour: u32,
    minute: u32,
    second: u32,
}

impl View for UtcDateTime {
    type V = DateTimeParts;

    closed spec fn view(&self) -> DateTimeParts {
        (self.year, self.month, self.day, self.hour, self.minute, self.second)
    }
}

impl UtcDateTime {
    #[verifier::type_invariant]
    spec fn inv(self) -> bool {
        valid_parts((self.year, self.month, self.day, self.hour, self.minute, self.second))
    }

    /// The date-time with these fields, where they form a valid one.
    pub fn new(year: i32, month: u32, day: u32, hour: u32, minute: u32, second: u32) -> (r: Option<
        UtcDateTime,
    >)
        ensures
            r is Some <==> valid_parts((year, month, day, hour, minute, second)),
            r matches Some(d) ==> d@ == (year, month, day, hour, minute, second),
    {
        if chrono_accepts(year, month, day, hour, minute, second) {
            Some(UtcDateTime { year, month, day, hour, minute, second })
        } else {
            None
        }
    }

    pub fn from_parts(t: DateTimeParts) -> (r: Option<UtcDateTime>)
        ensures
            r is Some <==> valid_parts(t),
            r matches Some(d) ==> d@ == t,
    {
        Self::new(t.0, t.1, t.2, t.3, t.4, t.5)
    }

    pub fn parts(&self) -> (r: DateTimeParts)
        ensures
            r == self@,
            valid_parts(r),
    {
        proof {
            use_type_invariant(self);
        }
        (self.year, self.month, self.day, self.hour, self.minute, self.second)
    }
}

/// Calls `chrono::NaiveDate::from_ymd_opt` and `NaiveDate::and_hms_opt`.
/// Claimed: they succeed exactly on `valid_parts`.
#[verifier::external_body]
fn chrono_accepts(year: i32, month: u32, day: u32, hour: u32, minute: u32, second: u32) -> (r:
    bool)
    ensures
        r == valid_parts((year, month, day, hour, minute, second)),
{
    chrono::NaiveDate::from_ymd_opt(year, month, day).and_then(
        |d| d.and_hms_opt(hour, minute, second),
    ).is_some()
}

/// What `chrono::NaiveDateTime::parse_from_str(text, fmt)` yields.
pub uninterp spec fn chrono_parse(text: Seq<char>, fmt: Seq<char>) -> Option<DateTimeParts>;

/// Calls `chrono::NaiveDateTime::parse_from_str`. Claimed: the result is
/// `chrono_parse` of the arguments, and a parsed date-time is a valid one.
#[verifier::external_body]
pub(crate) fn parse_date_time(text: &str, fmt: &str) -> (r: Option<DateTimeParts>)
    ensures
        r == chrono_parse(text@, fmt@),
        r matches Some(t) ==> valid_parts(t),
{
    chrono::NaiveDateTime::parse_from_str(text, fmt).ok().map(
        |n| (n.year(), n.month(), n.day(), n.hour(), n.minute(), n.second()),
    )
}

/// How many leap years the proleptic Gregorian calendar has before year
/// `y`, counted from year 1 (negative for years before it).
pub open spec fn leap_years_before(y: int) -> int {
    (y - 1) / 4 - (y - 1) / 100 + (y - 1) / 400
}

/// The days of year `y` before the first day of month `m`.
pub open spec fn days_before_month(y: int, m: int) -> int
    decreases m,
{
    if m <= 1 {
        0
    } else {
        days_before_month(y, m - 1) + days_in_month(y, m - 1)
    }
}

/// The number of the day `y-m-d` counted from 1970-01-01 (day 0).
pub open spec fn day_number(y: int, m: int, d: int) -> int {
    365 * (y - 1970) + leap_years_before(y) - leap_years_before(1970) + days_before_month(y, m) + d - 1
}

/// The UTC date-time `ms` milliseconds after 1970-01-01T00:00:00, to the
/// second: the valid date-time on day `ms / 86_400_000` (rounded down) whose
/// time of day is the whole seconds left over; none where no valid date has
/// that day number.
pub open spec fn chrono_from_millis(ms: i64) -> Option<DateTimeParts> {
    let secs = (ms as int) / 1000;
    let days = secs / 86400;
    let sod = secs % 86400;
    let fits = |t: DateTimeParts|
        valid_parts(t) && day_number(t.0 as int, t.1 as int, t.2 as int) == days && t.3 == sod / 3600
            && t.4 == (sod % 3600) / 60 && t.5 == sod % 60;
    if exists|t: DateTimeParts| #[trigger] fits(t) {
        Some(choose|t: DateTimeParts| #[trigger] fits(t))
    } else {
        None
    }
}

/// Calls `chrono::DateTime::from_timestamp_millis`. Claimed: the result is
/// `chrono_from_millis(ms)`, the date-time that many milliseconds after the
/// Unix epoch in UTC, to the second (chrono divides with `div_euclid`, so
/// earlier instants round down), and it is a valid date-time.
#[verifier::external_body]
pub(crate) fn from_timestamp_millis(ms: i64) -> (r: Option<DateTimeParts>)
    ensures
        r == chrono_from_millis(ms),
        r matches Some(t) ==> valid_parts(t),
{
    chrono::DateTime::from_timestamp_millis(ms).map(
        |d| (d.year(), d.month(), d.day(), d.hour(), d.minute(), d.second()),
    )
}

/// `n` zero-padded to at least four digits.
pub open spec fn four_digits(n: nat) -> Seq<char> {
    if n < 10 {
        seq!['0', '0', '0'] + decimal_text(n)
    } else if n < 100 {
        seq!['0', '0'] + decimal_text(n)
    } else if n < 1000 {
        seq!['0'] + decimal_text(n)
    } else {
        decimal_text(n)
    }
}

/// chrono's `%Y`: four zero-padded digits for years 0..=9999, otherwise a
/// sign followed by at least four digits.
pub open spec fn year_text(y: int) -> Seq<char> {
    if 0 <= y <= 9999 {
        four_digits(y as nat)
    } else if y < 0 {
        seq!['-'] + four_digits((-y) as nat)
    } else {
        seq!['+'] + four_digits(y as nat)
    }
}

/// The text of `format("%Y-%m-%d %H:%M")`.
pub open spec fn minute_text(t: DateTimeParts) -> Seq<char> {
    year_text(t.0 as int) + seq!['-'] + two_digits(t.1 as nat) + seq!['-'] + two_digits(
        t.2 as nat,
    ) + seq![' '] + two_digits(t.3 as nat) + seq![':'] + two_digits(t.4 as nat)
}

/// Calls chrono's `format` with the pattern `"%Y-%m-%d %H:%M"`. Claimed: the
/// text is `minute_text` of the date-time.
#[verifier::external_body]
pub(crate) fn format_minutes(dt: &UtcDateTime, fmt: &str) -> (r: String)
    requires
        fmt@ == "%Y-%m-%d %H:%M"@,
    ensures
        r@ == minute_text(dt@),
{
    chrono::NaiveDate::from_ymd_opt(dt.year, dt.month, dt.day).and_then(
        |d| d.and_hms_opt(dt.hour, dt.minute, dt.second),
    ).map(|n| n.format(fmt).to_string()).unwrap_or_default()
}

} // verus!
