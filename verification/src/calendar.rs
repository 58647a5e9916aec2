//! Calendar months in milliseconds since the epoch, and times as text.

use vstd::prelude::*;

use chrono::{DateTime, Datelike};

use crate::hours::DAY_MS;
use crate::text;

verus! {

/// The first year that a point in time can fall into.
pub const FIRST_YEAR: i32 = -262_143;

/// The last year that a point in time can fall into.
pub const LAST_YEAR: i32 = 262_142;

/// Whether a year of the Gregorian calendar has a 29th of February.
pub open spec fn is_leap(year: int) -> bool {
    year % 4 == 0 && (year % 100 != 0 || year % 400 == 0)
}

/// How many leap years lie in the years one to `year`, and for an earlier year
/// how many lie between, as a negative number.
pub open spec fn leaps_through(year: int) -> int {
    year / 4 - year / 100 + year / 400
}

/// The days from the first of January 1970 to that of `year`.
#[verifier::opaque]
pub open spec fn year_start(year: int) -> int {
    365 * (year - 1970) + leaps_through(year - 1) - leaps_through(1969)
}

/// The days of a year before its month `month`, and of the whole year before
/// month thirteen.
#[verifier::opaque]
pub open spec fn days_before(year: int, month: int) -> int {
    let leap: int = if is_leap(year) {
        1
    } else {
        0
    };
    if month <= 1 {
        0
    } else if month == 2 {
        31
    } else if month == 3 {
        59 + leap
    } else if month == 4 {
        90 + leap
    } else if month == 5 {
        120 + leap
    } else if month == 6 {
        151 + leap
    } else if month == 7 {
        181 + leap
    } else if month == 8 {
        212 + leap
    } else if month == 9 {
        243 + leap
    } else if month == 10 {
        273 + leap
    } else if month == 11 {
        304 + leap
    } else if month == 12 {
        334 + leap
    } else {
        365 + leap
    }
}

/// The first millisecond of a month; that of month thirteen is the first of the
/// year behind it.
pub open spec fn month_start(year: int, month: int) -> int {
    (year_start(year) + days_before(year, month)) * DAY_MS
}

/// Whether a point in time falls into a month.
pub open spec fn in_month(ts: int, year: int, month: int) -> bool {
    &&& 1 <= month <= 12
    &&& month_start(year, month) <= ts < month_start(year, month + 1)
}

/// Whether a point in time lies in the years that there are.
pub open spec fn in_calendar(ts: int) -> bool {
    month_start(FIRST_YEAR as int, 1) <= ts < month_start(LAST_YEAR as int, 13)
}

/// `chrono::DateTime::from_timestamp_millis`, and `Datelike::year` and `month` of
/// what it returns: the year and the month of the Gregorian calendar, reckoned
/// backwards too, that hold the point in time, and nothing for one outside the
/// years that chrono has.
#[verifier::external_body]
fn utc_month(ts_ms: i64) -> (r: Option<(i32, u32)>)
    ensures
        r is Some <==> in_calendar(ts_ms as int),
        r matches Some((year, month)) ==> FIRST_YEAR <= year <= LAST_YEAR && in_month(
            ts_ms as int,
            year as int,
            month as int,
        ),
{
    DateTime::from_timestamp_millis(ts_ms).map(|dt| (dt.year(), dt.month()))
}

proof fn lemma_next_year(year: int)
    ensures
        year_start(year + 1) == year_start(year) + days_before(year, 13),
        days_before(year, 1) == 0,
        days_before(year, 13) > 0,
{
    reveal(year_start);
    reveal(days_before);
}

/// A time in a month lies in its year.
proof fn lemma_in_year(ts: int, year: int, month: int)
    requires
        in_month(ts, year, month),
    ensures
        month_start(year, 1) <= ts < month_start(year + 1, 1),
{
    lemma_next_year(year);
    lemma_next_year(year + 1);
    reveal(days_before);
}

proof fn lemma_years_ascend(a: int, b: int)
    requires
        a <= b,
    ensures
        year_start(a) <= year_start(b),
    decreases b - a,
{
    if a < b {
        lemma_years_ascend(a, b - 1);
        lemma_next_year(b - 1);
    }
}

/// A month ends before a later one begins.
pub proof fn lemma_months_ascend(year1: int, month1: int, year2: int, month2: int)
    requires
        1 <= month1 <= 12,
        1 <= month2 <= 12,
        year1 < year2 || (year1 == year2 && month1 < month2),
    ensures
        month_start(year1, month1 + 1) <= month_start(year2, month2),
{
    reveal(days_before);
    if year1 < year2 {
        lemma_next_year(year1);
        lemma_years_ascend(year1 + 1, year2);
    }
}

/// No point in time falls into two months.
pub proof fn law_one_month(ts: int, year1: int, month1: int, year2: int, month2: int)
    requires
        in_month(ts, year1, month1),
        in_month(ts, year2, month2),
    ensures
        year1 == year2,
        month1 == month2,
{
    if year1 < year2 || (year1 == year2 && month1 < month2) {
        lemma_months_ascend(year1, month1, year2, month2);
    } else if year2 < year1 || month2 < month1 {
        lemma_months_ascend(year2, month2, year1, month1);
    }
}

/// The year, in its low sixteen bits, and the month that hold a point in time.
pub open spec fn month_of(ts: int) -> Option<(u16, u8)> {
    if in_calendar(ts) {
        let (year, month) = choose|year: int, month: int| in_month(ts, year, month);
        Some(((year % 0x1_0000) as u16, month as u8))
    } else {
        None
    }
}

/// What `month_of` is where the month is known.
pub proof fn lemma_month_of(ts: int, year: int, month: int)
    requires
        in_month(ts, year, month),
        in_calendar(ts),
    ensures
        month_of(ts) == Some(((year % 0x1_0000) as u16, month as u8)),
{
    let (y, m) = choose|y: int, m: int| in_month(ts, y, m);
    law_one_month(ts, year, month, y, m);
}

/// The year, in its low sixteen bits, and the month that hold a point in time.
pub fn month_for(ts_ms: i64) -> (r: Option<(u16, u8)>)
    ensures
        r == month_of(ts_ms as int),
{
    match utc_month(ts_ms) {
        Some((year, month)) => {
            let wrapped: i64 = (year as i64 + 0x10_0000) % 0x1_0000;
            assert(wrapped == (year as int) % 0x1_0000);
            proof {
                lemma_month_of(ts_ms as int, year as int, month as int);
            }
            Some((wrapped as u16, month as u8))
        },
        None => None,
    }
}

fn year_start_of(year: i64) -> (r: i64)
    requires
        0 <= year <= 0x1_0000,
    ensures
        r == year_start(year as int),
        -1_000_000 <= r <= 24_000_000,
{
    reveal(year_start);
    if year == 0 {
        return -719_528;
    }
    let before: i64 = year - 1;
    365 * (year - 1970) + (before / 4 - before / 100 + before / 400) - 477
}

fn days_before_month(year: i64, month: u8) -> (r: i64)
    requires
        0 <= year <= 0x1_0000,
    ensures
        r == days_before(year as int, month as int),
        0 <= r <= 366,
{
    reveal(days_before);
    let leap: i64 = if year % 4 == 0 && (year % 100 != 0 || year % 400 == 0) {
        1
    } else {
        0
    };
    if month <= 1 {
        0
    } else if month == 2 {
        31
    } else if month == 3 {
        59 + leap
    } else if month == 4 {
        90 + leap
    } else if month == 5 {
        120 + leap
    } else if month == 6 {
        151 + leap
    } else if month == 7 {
        181 + leap
    } else if month == 8 {
        212 + leap
    } else if month == 9 {
        243 + leap
    } else if month == 10 {
        273 + leap
    } else if month == 11 {
        304 + leap
    } else if month == 12 {
        334 + leap
    } else {
        365 + leap
    }
}

/// The first millisecond of a month, and that of the month behind it.
pub fn month_bounds(year: u16, month: u8) -> (r: (i64, i64))
    requires
        1 <= month <= 12,
    ensures
        r.0 == month_start(year as int, month as int),
        r.1 == month_start(year as int, month + 1),
{
    let start: i64 = year_start_of(year as i64);
    let from: i64 = (start + days_before_month(year as i64, month)) * DAY_MS;
    let to: i64 = (start + days_before_month(year as i64, month + 1)) * DAY_MS;
    (from, to)
}

/// Every time that falls into a month of the years that sixteen bits hold is
/// told its month, and no other time is.
pub proof fn law_month_and_bounds(ts: int, year: u16, month: u8)
    requires
        1 <= month <= 12,
        0 <= ts,
        ts < month_start(0x1_0000, 1),
    ensures
        month_of(ts) == Some((year, month)) <==> month_start(year as int, month as int) <= ts
            < month_start(year as int, month + 1),
{
    lemma_calendar_holds(ts);
    if in_month(ts, year as int, month as int) {
        lemma_month_of(ts, year as int, month as int);
        assert((year as int) % 0x1_0000 == year as int);
    } else if month_of(ts) == Some((year, month)) {
        lemma_some_month(ts, 1970, 0x1_0000);
        let (y, m) = choose|y: int, m: int| in_month(ts, y, m);
        lemma_in_year(ts, y, m);
        lemma_next_year(0x1_0000);
        lemma_next_year(1970);
        lemma_next_year(y);
        lemma_next_year(y + 1);
        if y >= 0x1_0000 {
            lemma_years_ascend(0x1_0000, y);
        }
        if y < 1970 {
            lemma_years_ascend(y + 1, 1970);
        }
        assert(y % 0x1_0000 == y);
    }
}

proof fn lemma_calendar_holds(ts: int)
    requires
        0 <= ts,
        ts < month_start(0x1_0000, 1),
    ensures
        in_calendar(ts),
        month_start(1970, 1) == 0,
{
    reveal(year_start);
    reveal(days_before);
    lemma_years_ascend(FIRST_YEAR as int, 1970);
    lemma_years_ascend(0x1_0000, LAST_YEAR as int);
    lemma_next_year(LAST_YEAR as int);
}

/// A time between two years' starts falls into some month.
proof fn lemma_some_month(ts: int, from: int, to: int)
    requires
        from <= to,
        month_start(from, 1) <= ts < month_start(to, 1),
    ensures
        exists|year: int, month: int| in_month(ts, year, month),
    decreases to - from,
{
    if from < to {
        lemma_next_year(from);
        lemma_next_year(from + 1);
        if ts >= month_start(from + 1, 1) {
            lemma_some_month(ts, from + 1, to);
        } else {
            reveal(days_before);
            assert(in_month(ts, from, 1) || in_month(ts, from, 2) || in_month(ts, from, 3)
                || in_month(ts, from, 4) || in_month(ts, from, 5) || in_month(ts, from, 6)
                || in_month(ts, from, 7) || in_month(ts, from, 8) || in_month(ts, from, 9)
                || in_month(ts, from, 10) || in_month(ts, from, 11) || in_month(ts, from, 12));
        }
    }
}

/// The point in time that a text gives in the form of RFC 3339, in milliseconds
/// since the epoch, or what is said of a text that gives none.
pub uninterp spec fn rfc3339_time(s: Seq<char>) -> Result<i64, Seq<char>>;

/// A text result by its contents.
pub open spec fn time_view(r: Result<i64, String>) -> Result<i64, Seq<char>> {
    match r {
        Ok(ts) => Ok(ts),
        Err(e) => Err(e@),
    }
}

/// `chrono::DateTime::parse_from_rfc3339`, and `timestamp_millis` of what it
/// returns: the point in time, or the error's text, depends on the text alone.
#[verifier::external_body]
pub(crate) fn parse_rfc3339(s: &str) -> (r: Result<i64, String>)
    ensures
        time_view(r) == rfc3339_time(s@),
{
    DateTime::parse_from_rfc3339(s).map(|dt| dt.timestamp_millis()).map_err(|e| format!("{}", e))
}

/// A point in time in the calendar, to the second.
pub uninterp spec fn utc_text(ts: i64) -> Option<Seq<char>>;

/// `chrono::DateTime::from_timestamp_millis`, and `format` with
/// `%Y-%m-%dT%H:%M:%SZ` of what it returns: a text that depends on the time alone,
/// and nothing for a time outside the years that chrono has.
#[verifier::external_body]
fn utc_text_of(ts_ms: i64) -> (r: Option<String>)
    ensures
        text::option_view(r) == utc_text(ts_ms),
        r is Some <==> in_calendar(ts_ms as int),
{
    DateTime::from_timestamp_millis(ts_ms).map(|dt| dt.format("%Y-%m-%dT%H:%M:%SZ").to_string())
}

/// A point in time for a reader.
pub open spec fn shown_time(ts: i64) -> Seq<char> {
    match utc_text(ts) {
        Some(t) => t,
        None => "<invalid>"@,
    }
}

/// A point in time for a reader: `<invalid>` where it has no date.
pub fn format_ms(ms: i64) -> (r: String)
    ensures
        r@ == shown_time(ms),
{
    match utc_text_of(ms) {
        Some(t) => t,
        None => "<invalid>".to_owned(),
    }
}

/// Months have the lengths of the Gregorian calendar, each begins where the one before
/// it ends, and time is counted from the first of January 1970.
pub proof fn law_lengths_of_months(year: int, month: int)
    requires
        1 <= month <= 12,
    ensures
        month_start(year, month + 1) - month_start(year, month) == 86_400_000 * (if month == 4
            || month == 6 || month == 9 || month == 11 {
            30int
        } else if month != 2 {
            31
        } else if year % 400 == 0 || (year % 4 == 0 && year % 100 != 0) {
            29
        } else {
            28
        }),
        month_start(year, 13) == month_start(year + 1, 1),
        month_start(1970, 1) == 0,
{
    reveal(year_start);
    reveal(days_before);
    lemma_next_year(year);
    lemma_next_year(year + 1);
}

/// The months of the years that sixteen bits hold begin at times that there are.
pub proof fn lemma_month_starts(year: int, month: int)
    requires
        0 <= year <= 0xffff,
        1 <= month <= 12,
    ensures
        i64::MIN <= month_start(year, month) <= month_start(year, month + 1) <= i64::MAX,
{
    reveal(year_start);
    reveal(days_before);
}

} // verus!
