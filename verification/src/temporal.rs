//! Calendar dates and timestamps.
//!
//! A [`Date`] counts days from 1970-01-01 in the proleptic Gregorian calendar;
//! a [`Timestamp`] counts microseconds from the start of that day.

use crate::text;
use vstd::prelude::*;

verus! {

pub open spec fn is_leap(y: int) -> bool {
    y % 4 == 0 && (y % 100 != 0 || y % 400 == 0)
}

pub open spec fn month_len(y: int, m: int) -> int {
    if m == 2 {
        if is_leap(y) {
            29
        } else {
            28
        }
    } else if m == 4 || m == 6 || m == 9 || m == 11 {
        30
    } else {
        31
    }
}

pub open spec fn year_len(y: int) -> int {
    if is_leap(y) {
        366
    } else {
        365
    }
}

/// Days from the first day of year 1 to the first day of year `y`.
pub open spec fn before_year(y: int) -> int {
    let p = y - 1;
    365 * p + p / 4 - p / 100 + p / 400
}

/// Days in the months of year `y` before month `m`.
pub open spec fn before_month(y: int, m: int) -> int
    decreases m,
{
    if m <= 1 {
        0
    } else {
        before_month(y, m - 1) + month_len(y, m - 1)
    }
}

/// Days from year 1 to 1970-01-01.
pub open spec fn epoch() -> int {
    719162
}

/// A day of the calendar.
pub open spec fn is_day(y: int, m: int, d: int) -> bool {
    1 <= m <= 12 && 1 <= d <= month_len(y, m)
}

/// The days from 1970-01-01 to a day of the calendar.
pub open spec fn day_number(y: int, m: int, d: int) -> int {
    before_year(y) + before_month(y, m) + d - 1 - epoch()
}

/// Months from year 0 to the month `n` months after a month.
pub open spec fn months_total(y: int, m: int, n: int) -> int {
    12 * y + (m - 1) + n
}

/// The year and month of a count of months.
pub open spec fn month_of(t: int) -> (int, int) {
    (t / 12, t % 12 + 1)
}

proof fn lemma_year(y: int)
    ensures
        before_year(y + 1) == before_year(y) + year_len(y),
{
    lemma_step4(y);
    lemma_step100(y);
    lemma_step400(y);
    assert(y % 400 == 0 ==> y % 100 == 0);
    assert(y % 100 == 0 ==> y % 4 == 0);
}

proof fn lemma_step4(y: int)
    ensures
        y / 4 == (y - 1) / 4 + if y % 4 == 0 {
            1int
        } else {
            0
        },
{
}

proof fn lemma_step100(y: int)
    ensures
        y / 100 == (y - 1) / 100 + if y % 100 == 0 {
            1int
        } else {
            0
        },
{
}

proof fn lemma_step400(y: int)
    ensures
        y / 400 == (y - 1) / 400 + if y % 400 == 0 {
            1int
        } else {
            0
        },
{
}

proof fn lemma_year_mono(a: int, b: int)
    requires
        a <= b,
    ensures
        before_year(b) - before_year(a) >= 365 * (b - a),
        before_year(b) - before_year(a) <= 366 * (b - a),
    decreases b - a,
{
    let p = a - 1;
    let q = b - 1;
    assert(q / 4 - p / 4 >= 0);
    assert(4 * (q / 4) <= q && 4 * (p / 4) > p - 4);
    if a < b {
        lemma_year_mono(a, b - 1);
        lemma_year(b - 1);
    }
}

proof fn lemma_months(y: int)
    ensures
        before_month(y, 1) == 0,
        before_month(y, 2) == 31,
        before_month(y, 13) == year_len(y),
        forall|m: int| 1 <= m <= 12 ==> before_month(y, m + 1) == #[trigger] before_month(y, m) + month_len(y, m),
        forall|m: int| 1 <= m <= 13 ==> 0 <= #[trigger] before_month(y, m) <= year_len(y),
{
    reveal_with_fuel(before_month, 14);
    assert forall|m: int| 1 <= m <= 13 implies 0 <= #[trigger] before_month(y, m) <= year_len(y) by {
        if m == 1 || m == 2 || m == 3 || m == 4 || m == 5 || m == 6 || m == 7 || m == 8 || m == 9 || m == 10 || m
            == 11 || m == 12 || m == 13 {
        }
    }
}

proof fn lemma_month_mono(y: int, a: int, b: int)
    requires
        1 <= a < b <= 12,
    ensures
        before_month(y, b) >= before_month(y, a) + month_len(y, a),
    decreases b,
{
    if a < b - 1 {
        lemma_month_mono(y, a, b - 1);
    }
}

/// Every day has one number, and no two days share one.
pub proof fn lemma_day_number_unique(y: int, m: int, d: int, y2: int, m2: int, d2: int)
    requires
        is_day(y, m, d),
        is_day(y2, m2, d2),
        day_number(y, m, d) == day_number(y2, m2, d2),
    ensures
        y == y2 && m == m2 && d == d2,
{
    lemma_in_year(y, m, d);
    lemma_in_year(y2, m2, d2);
    lemma_year(y);
    lemma_year(y2);
    if y < y2 {
        lemma_year_mono(y + 1, y2);
    } else if y2 < y {
        lemma_year_mono(y2 + 1, y);
    }
    if m < m2 {
        lemma_month_mono(y, m, m2);
    } else if m2 < m {
        lemma_month_mono(y, m2, m);
    }
}

/// The day of the calendar that has a number.
pub open spec fn ymd(days: int) -> (int, int, int) {
    choose|y: int, m: int, d: int| is_day(y, m, d) && #[trigger] day_number(y, m, d) == days
}

/// The day of a day's number is that day.
pub proof fn lemma_ymd(y: int, m: int, d: int)
    requires
        is_day(y, m, d),
    ensures
        ymd(day_number(y, m, d)) == (y, m, d),
{
    let n = day_number(y, m, d);
    let (a, b, c) = ymd(n);
    assert(is_day(a, b, c) && day_number(a, b, c) == n);
    lemma_day_number_unique(y, m, d, a, b, c);
}

/// The number of the day `n` months after the day with number `days`: the same
/// day of the month, or the last one where the month is shorter.
pub open spec fn months_later(days: int, n: int) -> int {
    let (y, m, d) = ymd(days);
    let (y2, m2) = month_of(months_total(y, m, n));
    day_number(
        y2,
        m2,
        if d <= month_len(y2, m2) {
            d
        } else {
            month_len(y2, m2)
        },
    )
}

proof fn lemma_in_year(y: int, m: int, d: int)
    requires
        is_day(y, m, d),
    ensures
        0 <= before_month(y, m) + d - 1 < year_len(y),
{
    lemma_months(y);
    if m < 12 {
        lemma_month_mono(y, m, 12);
    }
    assert(before_month(y, 13) == before_month(y, 12) + month_len(y, 12));
}

/// The year of a day whose number fits is not far off.
proof fn lemma_year_bound(y: int, m: int, d: int)
    requires
        is_day(y, m, d),
        i32::MIN <= day_number(y, m, d) <= i32::MAX,
    ensures
        -6_000_000 < y < 6_000_000,
{
    lemma_in_year(y, m, d);
    assert(before_year(1) == 0);
    if y >= 6_000_000 {
        lemma_year_mono(1, y);
    } else if y <= -6_000_000 {
        lemma_year_mono(y, 1);
    }
}

/// Whether a year has a 29 February.
fn leap(y: i64) -> (r: bool)
    requires
        -200_000_000 < y < 200_000_000,
    ensures
        r == is_leap(y as int),
{
    let p: u64 = (y + 200_000_000) as u64;
    p % 4 == 0 && (p % 100 != 0 || p % 400 == 0)
}

/// The number of days of a month.
pub fn days_in_month(y: i64, m: u32) -> (r: u32)
    requires
        -200_000_000 < y < 200_000_000,
    ensures
        r == month_len(y as int, m as int),
{
    if m == 2 {
        if leap(y) {
            29
        } else {
            28
        }
    } else if m == 4 || m == 6 || m == 9 || m == 11 {
        30
    } else {
        31
    }
}

fn days_before_year(y: i64) -> (r: i64)
    requires
        -200_000_000 < y < 200_000_000,
    ensures
        r == before_year(y as int),
{
    let p: u64 = (y + 199_999_999) as u64;
    proof {
        let q = y - 1;
        vstd::arithmetic::div_mod::lemma_hoist_over_denominator(q, 50_000_000, 4);
        vstd::arithmetic::div_mod::lemma_hoist_over_denominator(q, 2_000_000, 100);
        vstd::arithmetic::div_mod::lemma_hoist_over_denominator(q, 500_000, 400);
        assert(p as int / 4 == q / 4 + 50_000_000);
        assert(p as int / 100 == q / 100 + 2_000_000);
        assert(p as int / 400 == q / 400 + 500_000);
    }
    let n: u64 = 365 * p + p / 4 - p / 100 + p / 400;
    n as i64 - 73_048_500_000
}

/// Days in the months of a year before a month.
pub fn days_before_month(y: i64, m: u32) -> (r: u32)
    requires
        -200_000_000 < y < 200_000_000,
        1 <= m <= 12,
    ensures
        r == before_month(y as int, m as int),
        r <= 366,
{
    let mut n: u32 = 0;
    let mut k: u32 = 1;
    proof {
        lemma_months(y as int);
    }
    while k < m
        invariant
            1 <= k <= m <= 12,
            -200_000_000 < y < 200_000_000,
            n == before_month(y as int, k as int),
            forall|m: int| 1 <= m <= 13 ==> 0 <= #[trigger] before_month(y as int, m) <= year_len(y as int),
        decreases m - k,
    {
        assert(before_month(y as int, k + 1) == before_month(y as int, k as int) + month_len(y as int, k as int));
        n += days_in_month(y, k);
        k += 1;
    }
    n
}

/// Years and months of a count of months, rounding down.
fn split_months(t: i64) -> (r: (i64, u32))
    requires
        -2_300_000_000 < t < 2_300_000_000,
    ensures
        r.0 == t as int / 12,
        r.1 == t as int % 12,
{
    let u: u64 = (t + 2_400_000_000) as u64;
    assert(u as int == t + 2_400_000_000);
    assert(u as int / 12 == t as int / 12 + 200_000_000);
    assert(u as int % 12 == t as int % 12);
    ((u / 12) as i64 - 200_000_000, (u % 12) as u32)
}

/// The day number of a day.
fn number_of(y: i64, m: u32, d: u32) -> (r: i64)
    requires
        -200_000_000 < y < 200_000_000,
        is_day(y as int, m as int, d as int),
    ensures
        r == day_number(y as int, m as int, d as int),
{
    days_before_year(y) + days_before_month(y, m) as i64 + d as i64 - 1 - 719162
}

/// A date of the calendar.
#[derive(Debug, Clone, Copy, PartialEq, Eq, Structural)]
pub struct Calendar {
    pub year: i32,
    pub month: u32,
    pub day: u32,
}

impl Calendar {
    pub open spec fn valid(self) -> bool {
        is_day(self.year as int, self.month as int, self.day as int)
    }

    pub open spec fn number(self) -> int {
        day_number(self.year as int, self.month as int, self.day as int)
    }
}

/// A calendar date.
#[derive(Debug, Clone, Copy, PartialEq, Eq, Structural)]
pub struct Date {
    /// Days since 1970-01-01.
    pub days: i32,
}

/// A day number fits a [`Date`].
pub open spec fn fits(n: int) -> bool {
    i32::MIN <= n <= i32::MAX
}

impl Date {
    /// The date of a year, month and day.
    pub fn from_ymd(year: i32, month: u32, day: u32) -> (r: Date)
        requires
            is_day(year as int, month as int, day as int),
            fits(day_number(year as int, month as int, day as int)),
        ensures
            r.days == day_number(year as int, month as int, day as int),
    {
        proof {
            lemma_year_bound(year as int, month as int, day as int);
        }
        Date { days: number_of(year as i64, month, day) as i32 }
    }

    /// The year, month and day.
    pub fn calendar(&self) -> (c: Calendar)
        ensures
            c.valid(),
            c.number() == self.days,
            (c.year as int, c.month as int, c.day as int) == ymd(self.days as int),
            -6_000_000 < c.year < 6_000_000,
    {
        let n: u64 = (self.days as i64 + 719162 + 2_191_455_000) as u64;
        // Whole 400-year cycles have been added; year `y` here is `y - 6_000_000`.
        let mut y: u64 = n * 400 / 146097;
        if y == 0 {
            y = 1;
        }
        proof {
            let p = y - 1;
            assert(400 * before_year(y as int) <= 146097 * p + 396);
            assert(146097 * (n * 400 / 146097) <= n * 400);
            assert(before_year(y as int) <= n);
            assert(before_year(y as int) >= 365 * p) by {
                lemma_year_mono(1, y as int);
                assert(before_year(1) == 0);
            }
        }
        let mut start: i64 = days_before_year(y as i64);
        let mut next: i64 = days_before_year(y as i64 + 1);
        while next <= n as i64
            invariant
                1 <= y,
                y <= n / 365 + 1,
                n <= 0x2_0000_0000,
                start == before_year(y as int),
                next == before_year(y + 1),
                start <= n,
            decreases n + 1 - start,
        {
            proof {
                lemma_year(y as int);
                lemma_year_mono(1, y + 1);
                assert(before_year(1) == 0);
                assert(365 * y <= n);
            }
            y = y + 1;
            start = next;
            next = days_before_year(y as i64 + 1);
        }
        let year: i64 = y as i64 - 6_000_000;
        let mut rest: u32 = (n as i64 - start) as u32;
        proof {
            lemma_year(y as int);
            lemma_cycle(y as int);
            lemma_months(year as int);
            assert(rest < year_len(year as int));
        }
        let ghost whole = rest as int;
        let mut m: u32 = 1;
        while m < 12 && rest >= days_in_month(year, m)
            invariant
                1 <= m <= 12,
                -200_000_000 < year < 200_000_000,
                rest + before_month(year as int, m as int) == whole,
                whole < year_len(year as int),
            decreases 12 - m,
        {
            rest -= days_in_month(year, m);
            m += 1;
        }
        proof {
            lemma_months(year as int);
            assert(before_month(year as int, 13) == before_month(year as int, 12) + month_len(year as int, 12));
            lemma_year_bound(year as int, m as int, rest + 1);
            lemma_ymd(year as int, m as int, rest + 1);
        }
        Calendar { year: year as i32, month: m, day: rest + 1 }
    }

    /// The day of the week, Monday being 0.
    pub fn weekday(&self) -> (r: u32)
        ensures
            r == (self.days + 3) % 7,
            r < 7,
    {
        ((self.days as i64 + 3 + 7_000_000_000) as u64 % 7) as u32
    }

    /// Days from this date to another.
    pub fn days_until(&self, other: &Date) -> (r: i64)
        ensures
            r == other.days - self.days,
    {
        other.days as i64 - self.days as i64
    }

    /// The date a number of days later.
    pub fn add_days(&self, n: i32) -> (r: Date)
        requires
            fits(self.days + n),
        ensures
            r.days == self.days + n,
    {
        Date { days: self.days + n }
    }

    /// The date a number of months later, on the last day of the month where the
    /// month is too short.
    pub fn add_months(&self, n: i32) -> (r: Date)
        requires
            fits(months_later(self.days as int, n as int)),
        ensures
            r.days == months_later(self.days as int, n as int),
    {
        let c = self.calendar();
        let t: i64 = 12 * (c.year as i64) + (c.month as i64 - 1) + n as i64;
        let (y, m0) = split_months(t);
        let m: u32 = m0 + 1;
        let last: u32 = days_in_month(y, m);
        let d: u32 = if c.day <= last {
            c.day
        } else {
            last
        };
        let r: i64 = number_of(y, m, d);
        proof {
            let (y0, mth0, d0) = ymd(self.days as int);
            assert(y0 == c.year && mth0 == c.month && d0 == c.day);
            assert(months_total(y0, mth0, n as int) == t as int);
            assert(month_of(t as int) == (y as int, m as int));
        }
        Date { days: r as i32 }
    }
}

/// 15000 whole cycles of 400 years.
proof fn lemma_cycle(y: int)
    ensures
        before_year(y) == before_year(y - 6_000_000) + 2_191_455_000,
        is_leap(y) == is_leap(y - 6_000_000),
{
    let q = y - 1 - 6_000_000;
    vstd::arithmetic::div_mod::lemma_hoist_over_denominator(q, 1_500_000, 4);
    vstd::arithmetic::div_mod::lemma_hoist_over_denominator(q, 60_000, 100);
    vstd::arithmetic::div_mod::lemma_hoist_over_denominator(q, 15_000, 400);
    vstd::arithmetic::div_mod::lemma_mod_multiples_vanish(1_500_000, q + 1, 4);
    vstd::arithmetic::div_mod::lemma_mod_multiples_vanish(60_000, q + 1, 100);
    vstd::arithmetic::div_mod::lemma_mod_multiples_vanish(15_000, q + 1, 400);
}

// Timestamps

/// Microseconds in a day.
pub open spec fn day_micros() -> int {
    86_400_000_000
}

/// A point in time: microseconds since 1970-01-01 00:00:00.
#[derive(Debug, Clone, Copy, PartialEq, Eq, Structural)]
pub struct Timestamp {
    pub micros: i64,
}

/// `n` digits of a text from `at` on as a number.
pub open spec fn field(s: Seq<char>, at: int, n: int) -> int {
    text::number(s.subrange(at, at + n)) as int
}

/// A text of the form `YYYY-MM-DD HH:MM:SS` that names a second of a day.
pub open spec fn is_stamp(s: Seq<char>) -> bool {
    &&& s.len() == 19
    &&& s[4] == '-' && s[7] == '-' && s[10] == ' ' && s[13] == ':' && s[16] == ':'
    &&& forall|i: int|
        0 <= i < 19 && i != 4 && i != 7 && i != 10 && i != 13 && i != 16 ==> text::is_digit(#[trigger] s[i])
    &&& is_day(field(s, 0, 4), field(s, 5, 2), field(s, 8, 2))
    &&& field(s, 11, 2) < 24
    &&& field(s, 14, 2) < 60
    &&& field(s, 17, 2) < 60
}

/// The microseconds that a timestamp text names.
pub open spec fn stamp_micros(s: Seq<char>) -> int {
    day_number(field(s, 0, 4), field(s, 5, 2), field(s, 8, 2)) * day_micros() + ((field(s, 11, 2) * 60 + field(
        s,
        14,
        2,
    )) * 60 + field(s, 17, 2)) * 1_000_000
}

/// Two or four digits read as a number.
fn read_field(v: &Vec<char>, at: usize, n: usize) -> (r: Option<u32>)
    requires
        at + n <= v@.len(),
        n == 2 || n == 4,
    ensures
        r is Some <==> forall|i: int| at <= i < at + n ==> text::is_digit(#[trigger] v@[i]),
        r matches Some(x) ==> x == field(v@, at as int, n as int) && x < 10000 && (n == 2 ==> x < 100),
{
    let ghost s = v@.subrange(at as int, at + n);
    assert(v.len() == v@.len());
    let mut x: u32 = 0;
    let mut i: usize = 0;
    assert(s.subrange(0, 0) =~= Seq::<char>::empty());
    while i < n
        invariant
            i <= n,
            n == 2 || n == 4,
            at + n <= v@.len(),
            v.len() == v@.len(),
            s == v@.subrange(at as int, at + n),
            x == text::number(s.subrange(0, i as int)),
            i == 0 ==> x == 0,
            i == 1 ==> x < 10,
            i == 2 ==> x < 100,
            i == 3 ==> x < 1000,
            i == 4 ==> x < 10000,
            forall|k: int| at <= k < at + i ==> text::is_digit(#[trigger] v@[k]),
        decreases n - i,
    {
        let c: char = v[at + i];
        if !text::digit(c) {
            assert(!text::is_digit(v@[at + i]));
            return None;
        }
        assert(s.subrange(0, i + 1).drop_last() =~= s.subrange(0, i as int));
        assert(s[i as int] == c);
        x = x * 10 + (c as u32 - 48);
        i += 1;
    }
    assert(s.subrange(0, n as int) =~= s);
    Some(x)
}

impl Timestamp {
    /// Parse `YYYY-MM-DD HH:MM:SS`.
    pub fn parse(s: &str) -> (r: Option<Timestamp>)
        ensures
            r is Some <==> is_stamp(s@),
            r matches Some(t) ==> t.micros == stamp_micros(s@),
    {
        let v = text::chars_of(s);
        if v.len() != 19 {
            return None;
        }
        if v[4] != '-' || v[7] != '-' || v[10] != ' ' || v[13] != ':' || v[16] != ':' {
            return None;
        }
        let y = read_field(&v, 0, 4);
        let mo = read_field(&v, 5, 2);
        let d = read_field(&v, 8, 2);
        let h = read_field(&v, 11, 2);
        let mi = read_field(&v, 14, 2);
        let sec = read_field(&v, 17, 2);
        match (y, mo, d, h, mi, sec) {
            (Some(y), Some(mo), Some(d), Some(h), Some(mi), Some(sec)) => {
                if mo < 1 || mo > 12 || d < 1 || d > days_in_month(y as i64, mo) {
                    return None;
                }
                if h >= 24 || mi >= 60 || sec >= 60 {
                    return None;
                }
                let n: i64 = number_of(y as i64, mo, d);
                proof {
                    lemma_in_year(y as int, mo as int, d as int);
                    lemma_year_mono(0, y as int);
                    assert(before_year(0) == -366);
                }
                let day: i64 = n * 86_400_000_000;
                let secs: u32 = (h * 60 + mi) * 60 + sec;
                Some(Timestamp { micros: day + secs as i64 * 1_000_000 })
            },
            _ => {
                assert(!is_stamp(s@));
                None
            },
        }
    }

    /// The day that the timestamp falls on.
    pub fn date(&self) -> (r: Date)
        ensures
            r.days == self.micros as int / day_micros(),
    {
        let (day, _) = self.split();
        Date { days: day as i32 }
    }

    /// The day number, and the microseconds into the day.
    fn split(&self) -> (r: (i64, u64))
        ensures
            r.0 == self.micros as int / day_micros(),
            r.1 == self.micros as int % day_micros(),
            fits(r.0 as int),
            r.1 < day_micros(),
    {
        if self.micros >= 0 {
            let u: u64 = self.micros as u64;
            ((u / 86_400_000_000) as i64, u % 86_400_000_000)
        } else {
            let u: u64 = (-(self.micros + 1)) as u64;
            (-1 - (u / 86_400_000_000) as i64, 86_399_999_999 - u % 86_400_000_000)
        }
    }

    /// Hour, minute, second and microsecond of the day.
    pub fn time_of_day(&self) -> (r: (u32, u32, u32, u32))
        ensures
            r.0 < 24,
            r.1 < 60,
            r.2 < 60,
            r.3 < 1_000_000,
            ((r.0 * 60 + r.1) * 60 + r.2) * 1_000_000 + r.3 == self.micros as int % day_micros(),
    {
        let (_, m) = self.split();
        let s: u64 = m / 1_000_000;
        ((s / 3600) as u32, (s / 60 % 60) as u32, (s % 60) as u32, (m % 1_000_000) as u32)
    }
}

/// The calendar: the lengths of the months, with the twenty-ninth of February in the
/// years that four divides, but of the hundreds only in those that four hundred does.
pub proof fn lemma_month_lengths(y: int)
    ensures
        month_len(y, 1) == 31 && month_len(y, 3) == 31 && month_len(y, 5) == 31 && month_len(y, 7) == 31 && month_len(y, 8) == 31
            && month_len(y, 10) == 31 && month_len(y, 12) == 31,
        month_len(y, 4) == 30 && month_len(y, 6) == 30 && month_len(y, 9) == 30 && month_len(y, 11) == 30,
        y % 4 != 0 ==> month_len(y, 2) == 28,
        y % 4 == 0 && y % 100 != 0 ==> month_len(y, 2) == 29,
        y % 100 == 0 && y % 400 != 0 ==> month_len(y, 2) == 28,
        y % 400 == 0 ==> month_len(y, 2) == 29,
        forall|m: int, d: int| #[trigger] is_day(y, m, d) <==> 1 <= m <= 12 && 1 <= d <= month_len(y, m),
{
}

/// Day numbers count the days: the first of January 1970 is day zero, the day after a
/// day of a month that has one more comes next, so does the first of a month after the
/// last of the one before, and New Year's Day after the last of December.
pub proof fn lemma_next_day(y: int, m: int, d: int)
    ensures
        day_number(1970, 1, 1) == 0,
        day_number(y, m, d + 1) == day_number(y, m, d) + 1,
        1 <= m < 12 ==> day_number(y, m + 1, 1) == day_number(y, m, month_len(y, m)) + 1,
        day_number(y + 1, 1, 1) == day_number(y, 12, 31) + 1,
{
    lemma_year(y);
    lemma_months(y);
    lemma_months(y + 1);
    lemma_months(1970);
    assert(before_month(y, 13) == before_month(y, 12) + month_len(y, 12));
    assert(before_year(1970) == 719162);
}

/// Later months: some months after a day comes the same day of the month that many
/// months on, counted through the years, or the last day of a shorter month.
pub proof fn lemma_months_later(y: int, m: int, d: int, n: int)
    requires
        is_day(y, m, d),
    ensures
        ({
            let (y2, m2, d2) = ymd(months_later(day_number(y, m, d), n));
            &&& 1 <= m2 <= 12
            &&& 12 * y2 + m2 == 12 * y + m + n
            &&& d <= month_len(y2, m2) ==> d2 == d
            &&& d > month_len(y2, m2) ==> d2 == month_len(y2, m2)
        }),
{
    lemma_ymd(y, m, d);
    let (y2, m2) = month_of(months_total(y, m, n));
    let d2 = if d <= month_len(y2, m2) {
        d
    } else {
        month_len(y2, m2)
    };
    assert(is_day(y2, m2, d2));
    lemma_ymd(y2, m2, d2);
}

/// The microseconds of a timestamp text, taken apart: the day is the one that it names,
/// and the rest of the day is its hours, minutes and seconds.
pub proof fn lemma_stamp_parts(s: Seq<char>)
    requires
        is_stamp(s),
    ensures
        stamp_micros(s) / 86_400_000_000 == day_number(
            text::number(s.subrange(0, 4)) as int,
            text::number(s.subrange(5, 7)) as int,
            text::number(s.subrange(8, 10)) as int,
        ),
        stamp_micros(s) % 86_400_000_000 == text::number(s.subrange(11, 13)) * 3_600_000_000 + text::number(
            s.subrange(14, 16),
        ) * 60_000_000 + text::number(s.subrange(17, 19)) * 1_000_000,
{
    let n = day_number(field(s, 0, 4), field(s, 5, 2), field(s, 8, 2));
    let t = ((field(s, 11, 2) * 60 + field(s, 14, 2)) * 60 + field(s, 17, 2)) * 1_000_000;
    assert(0 <= t < 86_400_000_000);
    assert((n * 86_400_000_000 + t) / 86_400_000_000 == n && (n * 86_400_000_000 + t) % 86_400_000_000 == t) by (nonlinear_arith)
        requires
            0 <= t < 86_400_000_000,
    ;
}

} // verus!
