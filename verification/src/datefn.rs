//! Date and timestamp scalar functions.
//!
//! Once a temporal column is decoded to a [`Date`] or [`Timestamp`], queries
//! apply the usual calendar functions: extract a field, truncate to a unit, add
//! an interval, compute a difference. These build on [`crate::temporal`] and
//! return plain integers or new temporal values, so they slot into the scalar
//! evaluation path alongside the numeric functions.

use crate::temporal;
use crate::temporal::{Date, Timestamp};
use crate::text;
use vstd::prelude::*;
use vstd::string::*;

verus! {

/// A field extractable from a date or timestamp.
#[derive(Debug, Clone, Copy, PartialEq, Eq, Structural)]
pub enum DatePart {
    Year,
    Month,
    Day,
    Weekday,
    DayOfYear,
    Quarter,
    Hour,
    Minute,
    Second,
}

/// The part that a lower-case name stands for.
pub open spec fn part_named(s: Seq<char>) -> Option<DatePart> {
    if s == "year"@ || s == "yr"@ {
        Some(DatePart::Year)
    } else if s == "month"@ || s == "mon"@ {
        Some(DatePart::Month)
    } else if s == "day"@ {
        Some(DatePart::Day)
    } else if s == "weekday"@ || s == "dow"@ {
        Some(DatePart::Weekday)
    } else if s == "doy"@ || s == "dayofyear"@ {
        Some(DatePart::DayOfYear)
    } else if s == "quarter"@ || s == "qtr"@ {
        Some(DatePart::Quarter)
    } else if s == "hour"@ {
        Some(DatePart::Hour)
    } else if s == "minute"@ || s == "min"@ {
        Some(DatePart::Minute)
    } else if s == "second"@ || s == "sec"@ {
        Some(DatePart::Second)
    } else {
        None
    }
}

impl DatePart {
    /// Parse a part name (case-insensitive).
    pub fn parse(name: &str) -> (r: Option<DatePart>)
        ensures
            r == part_named(text::lowered(name@)),
    {
        if text::is_lowered(name, "year") || text::is_lowered(name, "yr") {
            Some(DatePart::Year)
        } else if text::is_lowered(name, "month") || text::is_lowered(name, "mon") {
            Some(DatePart::Month)
        } else if text::is_lowered(name, "day") {
            Some(DatePart::Day)
        } else if text::is_lowered(name, "weekday") || text::is_lowered(name, "dow") {
            Some(DatePart::Weekday)
        } else if text::is_lowered(name, "doy") || text::is_lowered(name, "dayofyear") {
            Some(DatePart::DayOfYear)
        } else if text::is_lowered(name, "quarter") || text::is_lowered(name, "qtr") {
            Some(DatePart::Quarter)
        } else if text::is_lowered(name, "hour") {
            Some(DatePart::Hour)
        } else if text::is_lowered(name, "minute") || text::is_lowered(name, "min") {
            Some(DatePart::Minute)
        } else if text::is_lowered(name, "second") || text::is_lowered(name, "sec") {
            Some(DatePart::Second)
        } else {
            None
        }
    }
}

/// A field of the day with number `days`.
pub open spec fn date_field(days: int, part: DatePart) -> int {
    let (y, m, d) = temporal::ymd(days);
    match part {
        DatePart::Year => y,
        DatePart::Month => m,
        DatePart::Day => d,
        DatePart::Weekday => (days + 3) % 7,
        DatePart::DayOfYear => temporal::before_month(y, m) + d,
        DatePart::Quarter => (m - 1) / 3 + 1,
        DatePart::Hour | DatePart::Minute | DatePart::Second => 0,
    }
}

/// A field of a count of microseconds.
pub open spec fn stamp_field(micros: int, part: DatePart) -> int {
    let second = micros % temporal::day_micros() / 1_000_000;
    match part {
        DatePart::Hour => second / 3600,
        DatePart::Minute => second / 60 % 60,
        DatePart::Second => second % 60,
        _ => date_field(micros / temporal::day_micros(), part),
    }
}

/// The first day of the unit that a day falls in; for other units, the day.
pub open spec fn truncated(days: int, unit: Seq<char>) -> int {
    let (y, m, d) = temporal::ymd(days);
    if unit == "year"@ {
        temporal::day_number(y, 1, 1)
    } else if unit == "quarter"@ {
        temporal::day_number(y, (m - 1) / 3 * 3 + 1, 1)
    } else if unit == "month"@ {
        temporal::day_number(y, m, 1)
    } else if unit == "week"@ {
        days - (days + 3) % 7
    } else {
        days
    }
}

/// The day an interval later; for other units, the day.
pub open spec fn advanced(days: int, n: int, unit: Seq<char>) -> int {
    if unit == "day"@ || unit == "days"@ {
        days + n
    } else if unit == "week"@ || unit == "weeks"@ {
        days + n * 7
    } else if unit == "month"@ || unit == "months"@ {
        temporal::months_later(days, n)
    } else if unit == "year"@ || unit == "years"@ {
        temporal::months_later(days, n * 12)
    } else {
        days
    }
}

/// The number of units is one that an `i32` holds once in days or months.
pub open spec fn amount_fits(n: int, unit: Seq<char>) -> bool {
    &&& (unit == "week"@ || unit == "weeks"@) ==> i32::MIN <= n * 7 <= i32::MAX
    &&& (unit == "year"@ || unit == "years"@) ==> i32::MIN <= n * 12 <= i32::MAX
}

/// Extract a field from a date (time fields return 0).
pub fn extract_date(date: Date, part: DatePart) -> (r: i64)
    ensures
        r == date_field(date.days as int, part),
{
    let c = date.calendar();
    match part {
        DatePart::Year => c.year as i64,
        DatePart::Month => c.month as i64,
        DatePart::Day => c.day as i64,
        DatePart::Weekday => date.weekday() as i64,
        DatePart::DayOfYear => day_of_year(date) as i64,
        DatePart::Quarter => ((c.month - 1) / 3 + 1) as i64,
        DatePart::Hour | DatePart::Minute | DatePart::Second => 0,
    }
}

/// Extract a field from a timestamp.
pub fn extract_timestamp(ts: Timestamp, part: DatePart) -> (r: i64)
    ensures
        r == stamp_field(ts.micros as int, part),
{
    match part {
        DatePart::Hour | DatePart::Minute | DatePart::Second => {
            let (h, m, s, _) = ts.time_of_day();
            match part {
                DatePart::Hour => h as i64,
                DatePart::Minute => m as i64,
                _ => s as i64,
            }
        },
        _ => extract_date(ts.date(), part),
    }
}

/// The 1-based day of the year.
pub fn day_of_year(date: Date) -> (r: u32)
    ensures
        r == date_field(date.days as int, DatePart::DayOfYear),
{
    let c = date.calendar();
    temporal::days_before_month(c.year as i64, c.month) + c.day
}

/// Truncate a date to the first day of its unit (`year`, `quarter`, `month`,
/// `week`).
pub fn date_trunc(date: Date, unit: &str) -> (r: Date)
    requires
        temporal::fits(truncated(date.days as int, text::lowered(unit@))),
    ensures
        r.days == truncated(date.days as int, text::lowered(unit@)),
{
    let c = date.calendar();
    if text::is_lowered(unit, "year") {
        Date::from_ymd(c.year, 1, 1)
    } else if text::is_lowered(unit, "quarter") {
        let qmonth: u32 = ((c.month - 1) / 3) * 3 + 1;
        Date::from_ymd(c.year, qmonth, 1)
    } else if text::is_lowered(unit, "month") {
        Date::from_ymd(c.year, c.month, 1)
    } else if text::is_lowered(unit, "week") {
        date.add_days(-(date.weekday() as i32))
    } else {
        date
    }
}

/// Add an interval expressed in a unit to a date.
pub fn date_add(date: Date, amount: i32, unit: &str) -> (r: Date)
    requires
        amount_fits(amount as int, text::lowered(unit@)),
        temporal::fits(advanced(date.days as int, amount as int, text::lowered(unit@))),
    ensures
        r.days == advanced(date.days as int, amount as int, text::lowered(unit@)),
{
    proof {
        reveal_strlit("day");
        reveal_strlit("days");
        reveal_strlit("week");
        reveal_strlit("weeks");
        reveal_strlit("month");
        reveal_strlit("months");
        reveal_strlit("year");
        reveal_strlit("years");
    }
    if text::is_lowered(unit, "day") || text::is_lowered(unit, "days") {
        date.add_days(amount)
    } else if text::is_lowered(unit, "week") || text::is_lowered(unit, "weeks") {
        date.add_days(amount * 7)
    } else if text::is_lowered(unit, "month") || text::is_lowered(unit, "months") {
        date.add_months(amount)
    } else if text::is_lowered(unit, "year") || text::is_lowered(unit, "years") {
        date.add_months(amount * 12)
    } else {
        date
    }
}

/// Whole days from `a` to `b`.
pub fn date_diff_days(a: Date, b: Date) -> (r: i64)
    ensures
        r == b.days - a.days,
{
    a.days_until(&b)
}

/// Whole months from one day to another, toward zero: a month counts once its
/// day has come, going forward as well as back.
pub open spec fn months_between(a: int, b: int) -> int {
    let (y, m, d) = temporal::ymd(a);
    let (y2, m2, d2) = temporal::ymd(b);
    let n = (y2 - y) * 12 + (m2 - m);
    if n > 0 && d2 < d {
        n - 1
    } else if n < 0 && d2 > d {
        n + 1
    } else {
        n
    }
}

/// Going back takes as many whole months as going forward.
pub proof fn lemma_months_back(a: int, b: int)
    ensures
        months_between(b, a) == -months_between(a, b),
{
}

/// Whole months between two dates (calendar months, truncated).
pub fn date_diff_months(a: Date, b: Date) -> (r: i64)
    ensures
        r == months_between(a.days as int, b.days as int),
{
    let ca = a.calendar();
    let cb = b.calendar();
    let mut months: i64 = (cb.year as i64 - ca.year as i64) * 12 + (cb.month as i64 - ca.month as i64);
    if months > 0 && cb.day < ca.day {
        months -= 1;
    } else if months < 0 && cb.day > ca.day {
        months += 1;
    }
    months
}

/// The number of the last day of the month that a day falls in.
pub open spec fn month_end(days: int) -> int {
    let (y, m, d) = temporal::ymd(days);
    temporal::day_number(y, m, temporal::month_len(y, m))
}

/// The last day of the month containing `date`.
pub fn last_day_of_month(date: Date) -> (r: Date)
    requires
        temporal::fits(month_end(date.days as int)),
    ensures
        r.days == month_end(date.days as int),
{
    let c = date.calendar();
    Date::from_ymd(c.year, c.month, temporal::days_in_month(c.year as i64, c.month))
}

/// `true` if the date falls on a weekend (Saturday or Sunday).
pub fn is_weekend(date: Date) -> (r: bool)
    ensures
        r == (date_field(date.days as int, DatePart::Weekday) >= 5),
{
    date.weekday() >= 5
}

/// The fields of a day of the calendar: its year, month and day, the quarter of three
/// months, and the days of the year up to it. The weekday goes up by one from day to
/// day and round after seven; the first of January 1970 was a Thursday.
pub proof fn lemma_date_fields(y: int, m: int, d: int, n: int)
    requires
        temporal::is_day(y, m, d),
    ensures
        ({
            let days = temporal::day_number(y, m, d);
            &&& date_field(days, DatePart::Year) == y
            &&& date_field(days, DatePart::Month) == m
            &&& date_field(days, DatePart::Day) == d
            &&& 1 <= m <= 3 ==> date_field(days, DatePart::Quarter) == 1
            &&& 4 <= m <= 6 ==> date_field(days, DatePart::Quarter) == 2
            &&& 7 <= m <= 9 ==> date_field(days, DatePart::Quarter) == 3
            &&& 10 <= m <= 12 ==> date_field(days, DatePart::Quarter) == 4
            &&& date_field(days, DatePart::DayOfYear) == days - temporal::day_number(y, 1, 1) + 1
            &&& date_field(days, DatePart::Hour) == 0
            &&& date_field(days, DatePart::Minute) == 0
            &&& date_field(days, DatePart::Second) == 0
        }),
        date_field(0, DatePart::Weekday) == 3,
        0 <= date_field(n, DatePart::Weekday) < 7,
        date_field(n + 1, DatePart::Weekday) == if date_field(n, DatePart::Weekday) == 6 {
            0
        } else {
            date_field(n, DatePart::Weekday) + 1
        },
{
    temporal::lemma_ymd(y, m, d);
    assert(temporal::before_month(y, 1) == 0);
}

/// The time of a timestamp: hours, minutes and seconds put the second of the day
/// together again, minutes and seconds below sixty.
pub proof fn lemma_stamp_fields(micros: int)
    ensures
        ({
            let h = stamp_field(micros, DatePart::Hour);
            let m = stamp_field(micros, DatePart::Minute);
            let s = stamp_field(micros, DatePart::Second);
            &&& 0 <= h < 24 && 0 <= m < 60 && 0 <= s < 60
            &&& (h * 3600 + m * 60 + s) * 1_000_000 <= micros % 86_400_000_000 < (h * 3600 + m * 60 + s + 1) * 1_000_000
            &&& stamp_field(micros, DatePart::Year) == date_field(micros / 86_400_000_000, DatePart::Year)
            &&& stamp_field(micros, DatePart::Month) == date_field(micros / 86_400_000_000, DatePart::Month)
            &&& stamp_field(micros, DatePart::Day) == date_field(micros / 86_400_000_000, DatePart::Day)
            &&& stamp_field(micros, DatePart::Weekday) == date_field(micros / 86_400_000_000, DatePart::Weekday)
        }),
{
}

/// A day cut down to its unit: to the first of January, of its quarter or of its month,
/// or to the Monday of its week, at most six days before. Any other unit leaves it.
pub proof fn lemma_truncated(y: int, m: int, d: int, unit: Seq<char>)
    requires
        temporal::is_day(y, m, d),
    ensures
        ({
            let days = temporal::day_number(y, m, d);
            &&& truncated(days, seq!['y', 'e', 'a', 'r']) == temporal::day_number(y, 1, 1)
            &&& 1 <= m <= 3 ==> truncated(days, seq!['q', 'u', 'a', 'r', 't', 'e', 'r']) == temporal::day_number(y, 1, 1)
            &&& 4 <= m <= 6 ==> truncated(days, seq!['q', 'u', 'a', 'r', 't', 'e', 'r']) == temporal::day_number(y, 4, 1)
            &&& 7 <= m <= 9 ==> truncated(days, seq!['q', 'u', 'a', 'r', 't', 'e', 'r']) == temporal::day_number(y, 7, 1)
            &&& 10 <= m <= 12 ==> truncated(days, seq!['q', 'u', 'a', 'r', 't', 'e', 'r']) == temporal::day_number(y, 10, 1)
            &&& truncated(days, seq!['m', 'o', 'n', 't', 'h']) == temporal::day_number(y, m, 1)
            &&& days - 6 <= truncated(days, seq!['w', 'e', 'e', 'k']) <= days
            &&& date_field(truncated(days, seq!['w', 'e', 'e', 'k']), DatePart::Weekday) == 0
            &&& truncated(days, seq!['d', 'a', 'y']) == days
            &&& month_end(days) == temporal::day_number(y, m, temporal::month_len(y, m))
        }),
{
    temporal::lemma_ymd(y, m, d);
    reveal_strlit("year");
    reveal_strlit("quarter");
    reveal_strlit("month");
    reveal_strlit("week");
    assert("year"@ =~= seq!['y', 'e', 'a', 'r']);
    assert("quarter"@ =~= seq!['q', 'u', 'a', 'r', 't', 'e', 'r']);
    assert("month"@ =~= seq!['m', 'o', 'n', 't', 'h']);
    assert("week"@ =~= seq!['w', 'e', 'e', 'k']);
    assert("year"@.len() == 4 && "week"@.len() == 4 && "year"@[0] != "week"@[0]);
    assert("quarter"@.len() == 7 && "month"@.len() == 5);
}

/// An interval added to a day: days one by one, weeks by seven, months from month to
/// month, years by twelve of them. Any other unit leaves the day.
pub proof fn lemma_advanced(days: int, n: int)
    ensures
        advanced(days, n, seq!['d', 'a', 'y']) == days + n,
        advanced(days, n, seq!['d', 'a', 'y', 's']) == days + n,
        advanced(days, n, seq!['w', 'e', 'e', 'k']) == days + 7 * n,
        advanced(days, n, seq!['w', 'e', 'e', 'k', 's']) == days + 7 * n,
        advanced(days, n, seq!['m', 'o', 'n', 't', 'h']) == temporal::months_later(days, n),
        advanced(days, n, seq!['m', 'o', 'n', 't', 'h', 's']) == temporal::months_later(days, n),
        advanced(days, n, seq!['y', 'e', 'a', 'r']) == temporal::months_later(days, 12 * n),
        advanced(days, n, seq!['y', 'e', 'a', 'r', 's']) == temporal::months_later(days, 12 * n),
        advanced(days, n, seq!['q', 'u', 'a', 'r', 't', 'e', 'r']) == days,
{
    reveal_strlit("day");
    reveal_strlit("days");
    reveal_strlit("week");
    reveal_strlit("weeks");
    reveal_strlit("month");
    reveal_strlit("months");
    reveal_strlit("year");
    reveal_strlit("years");
    assert("day"@ =~= seq!['d', 'a', 'y']);
    assert("days"@ =~= seq!['d', 'a', 'y', 's']);
    assert("week"@ =~= seq!['w', 'e', 'e', 'k']);
    assert("weeks"@ =~= seq!['w', 'e', 'e', 'k', 's']);
    assert("month"@ =~= seq!['m', 'o', 'n', 't', 'h']);
    assert("months"@ =~= seq!['m', 'o', 'n', 't', 'h', 's']);
    assert("year"@ =~= seq!['y', 'e', 'a', 'r']);
    assert("years"@ =~= seq!['y', 'e', 'a', 'r', 's']);
    let q = seq!['q', 'u', 'a', 'r', 't', 'e', 'r'];
    assert(q.len() == 7);
    let w = seq!['w', 'e', 'e', 'k'];
    let y = seq!['y', 'e', 'a', 'r'];
    let ds = seq!['d', 'a', 'y', 's'];
    assert(w[0] == 'w' && y[0] == 'y' && ds[0] == 'd');
    let ws = seq!['w', 'e', 'e', 'k', 's'];
    let ys = seq!['y', 'e', 'a', 'r', 's'];
    let mo = seq!['m', 'o', 'n', 't', 'h'];
    assert(ws[0] == 'w' && ys[0] == 'y' && mo[0] == 'm');
}

/// Months between two days: where the day of the month is there in both, as many months
/// later as there are between them leads from the one to the other.
pub proof fn lemma_months_between(y: int, m: int, d: int, n: int)
    requires
        temporal::is_day(y, m, d),
        d <= 28,
    ensures
        ({
            let days = temporal::day_number(y, m, d);
            months_between(days, temporal::months_later(days, n)) == n
        }),
        ({
            let days = temporal::day_number(y, m, d);
            let (y2, m2, d2) = temporal::ymd(temporal::months_later(days, n));
            n > 0 && d > 1 ==> months_between(days, temporal::day_number(y2, m2, d - 1)) == n - 1
        }),
{
    let days = temporal::day_number(y, m, d);
    temporal::lemma_months_later(y, m, d, n);
    temporal::lemma_ymd(y, m, d);
    let (y2, m2, d2) = temporal::ymd(temporal::months_later(days, n));
    temporal::lemma_month_lengths(y2);
    assert(temporal::month_len(y2, m2) >= 28);
    assert(d2 == d);
    temporal::lemma_ymd(y2, m2, d);
    if d > 1 {
        temporal::lemma_ymd(y2, m2, d - 1);
    }
    let (y3, m3) = temporal::month_of(temporal::months_total(y, m, n));
    temporal::lemma_ymd(y3, m3, d);
}

} // verus!
