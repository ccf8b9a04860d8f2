//! Proleptic Gregorian calendar arithmetic on day numbers.
//!
//! A day number counts whole days from 0001-01-01, which is day 0 and a
//! Monday. A local second counts wall-clock seconds from midnight of that
//! day. Years run from 1 to 9999, so every quantity here is non-negative.

use vstd::prelude::*;

verus! {

/// Seconds in one civil day.
pub const SECS_PER_DAY: i64 = 86400;

/// First day number past the supported range (0001-01-01 of year 10000).
pub const DAY_LIMIT: i64 = 3652059;

/// Local second of 1970-01-01T00:00:00.
pub const EPOCH_SECS: i64 = 62135596800;

/// Year `y` is a leap year.
pub open spec fn is_leap(y: int) -> bool {
    y % 4 == 0 && (y % 100 != 0 || y % 400 == 0)
}

/// The number of days of year `y`.
pub open spec fn year_len(y: int) -> int {
    if is_leap(y) {
        366
    } else {
        365
    }
}

/// The number of days of month `m` of year `y`.
pub open spec fn month_len(y: int, m: int) -> int {
    if m == 2 {
        if is_leap(y) {
            29
        } else {
            28
        }
    } else if m == 4 || m == 6 || m == 9 || m == 11 {
        30
    } else {
        31
    }
}

/// Days from 0001-01-01 to the first of January of year `y`.
pub open spec fn days_before_year(y: int) -> int {
    365 * (y - 1) + (y - 1) / 4 - (y - 1) / 100 + (y - 1) / 400
}

/// Days from the first of January of year `y` to the first of month `m`.
pub open spec fn days_before_month(y: int, m: int) -> int
    decreases m,
{
    if m <= 1 {
        0
    } else {
        days_before_month(y, m - 1) + month_len(y, m - 1)
    }
}

/// Year `y` is one of the supported years.
pub open spec fn valid_year(y: int) -> bool {
    1 <= y <= 9999
}

/// Day `d` of month `m` of year `y` is a date of a supported year.
pub open spec fn valid_date(y: int, m: int, d: int) -> bool {
    valid_year(y) && 1 <= m <= 12 && 1 <= d <= month_len(y, m)
}

/// The day number of a calendar date.
pub open spec fn day_of(y: int, m: int, d: int) -> int {
    days_before_year(y) + days_before_month(y, m) + d - 1
}

/// The day number stands for a date of a supported year.
pub open spec fn valid_day(day: int) -> bool {
    0 <= day < 3652059
}

/// The local second lies in a supported year.
pub open spec fn valid_secs(secs: int) -> bool {
    0 <= secs < 315537897600
}

/// Weekday index of a day number: 0 is Monday, 6 is Sunday.
pub open spec fn weekday_of(day: int) -> int {
    day % 7
}

/// A calendar date together with the facts about it that rule filters read.
#[derive(Clone, Copy, Debug)]
pub struct Date {
    pub year: i64,
    pub month: i64,
    pub day: i64,
}

impl Date {
    /// The fields name a date of a supported year.
    pub open spec fn wf(self) -> bool {
        valid_date(self.year as int, self.month as int, self.day as int)
    }

    /// The day number this date stands for.
    pub open spec fn number(self) -> int {
        day_of(self.year as int, self.month as int, self.day as int)
    }

    /// Zero-based position of the date within its year.
    pub open spec fn year_day(self) -> int {
        days_before_month(self.year as int, self.month as int) + self.day - 1
    }
}

/// The calendar date that a day number stands for.
pub open spec fn date_of(day: int) -> Date {
    choose|t: Date| t.wf() && t.number() == day
}

/// The start of week 1 of year `y` when weeks start on weekday `wkst`:
/// the first week that has at least four of its days in the year.
pub open spec fn week_one_start(y: int, wkst: int) -> int {
    let jan1 = days_before_year(y);
    let back = (jan1 - wkst) % 7;
    if back <= 3 {
        jan1 - back
    } else {
        jan1 - back + 7
    }
}

/// The week number of day `day` of calendar year `y`, and the number of
/// weeks of the week-year that the day belongs to. Days before week 1 belong
/// to the last week of the year before, days from week 1 of the next year on
/// belong to that week.
pub open spec fn week_of(day: int, y: int, wkst: int) -> (int, int) {
    let s = week_one_start(y, wkst);
    let s_next = week_one_start(y + 1, wkst);
    if day < s {
        let s_prev = week_one_start(y - 1, wkst);
        ((day - s_prev) / 7 + 1, (s - s_prev) / 7)
    } else if day >= s_next {
        (1, (week_one_start(y + 2, wkst) - s_next) / 7)
    } else {
        ((day - s) / 7 + 1, (s_next - s) / 7)
    }
}

/// A year starts as many days after the year before as that year is long.
pub proof fn lemma_year_step(y: int)
    requires
        1 <= y,
    ensures
        days_before_year(y + 1) == days_before_year(y) + year_len(y),
{
}

/// The days before each month of a year, and that the months of a year
/// add up to the year.
pub proof fn lemma_months_of_year(y: int)
    ensures
        days_before_month(y, 13) == year_len(y),
        days_before_month(y, 1) == 0,
        days_before_month(y, 2) == 31,
        days_before_month(y, 3) == 31 + month_len(y, 2),
        days_before_month(y, 4) == 62 + month_len(y, 2),
        days_before_month(y, 5) == 92 + month_len(y, 2),
        days_before_month(y, 6) == 123 + month_len(y, 2),
        days_before_month(y, 7) == 153 + month_len(y, 2),
        days_before_month(y, 8) == 184 + month_len(y, 2),
        days_before_month(y, 9) == 215 + month_len(y, 2),
        days_before_month(y, 10) == 245 + month_len(y, 2),
        days_before_month(y, 11) == 276 + month_len(y, 2),
        days_before_month(y, 12) == 306 + month_len(y, 2),
{
    reveal_with_fuel(days_before_month, 14);
}

/// Day numbers grow with the year: a later year starts on a later day.
pub proof fn lemma_years_ascend(a: int, b: int)
    requires
        1 <= a <= b,
    ensures
        days_before_year(a) + 365 * (b - a) <= days_before_year(b),
        days_before_year(b) <= days_before_year(a) + 366 * (b - a),
    decreases b - a,
{
    if a < b {
        lemma_years_ascend(a, b - 1);
        lemma_year_step(b - 1);
    }
}

/// Two valid dates with the same day number are the same date.
pub proof fn lemma_day_of_injective(y1: int, m1: int, d1: int, y2: int, m2: int, d2: int)
    requires
        valid_date(y1, m1, d1),
        valid_date(y2, m2, d2),
        day_of(y1, m1, d1) == day_of(y2, m2, d2),
    ensures
        y1 == y2,
        m1 == m2,
        d1 == d2,
{
    lemma_months_of_year(y1);
    lemma_months_of_year(y2);
    if y1 < y2 {
        lemma_years_ascend(y1 + 1, y2);
        lemma_year_step(y1);
    } else if y2 < y1 {
        lemma_years_ascend(y2 + 1, y1);
        lemma_year_step(y2);
    }
}

/// Every valid date falls inside the supported range of day numbers.
pub proof fn lemma_day_of_in_range(y: int, m: int, d: int)
    requires
        valid_date(y, m, d),
    ensures
        valid_day(day_of(y, m, d)),
        days_before_year(y) <= day_of(y, m, d) < days_before_year(y) + year_len(y),
{
    lemma_months_of_year(y);
    lemma_years_ascend(1, y);
    lemma_years_ascend(y, 9999);
    lemma_year_step(9999);
}

/// Tests whether a year is a leap year.
pub fn is_leap_year(y: i64) -> (r: bool)
    requires
        valid_year(y as int),
    ensures
        r == is_leap(y as int),
{
    y % 4 == 0 && (y % 100 != 0 || y % 400 == 0)
}

/// The number of days of a year.
pub fn days_in_year(y: i64) -> (r: i64)
    requires
        valid_year(y as int),
    ensures
        r == year_len(y as int),
{
    if is_leap_year(y) {
        366
    } else {
        365
    }
}

/// The number of days of a month.
pub fn days_in_month(y: i64, m: i64) -> (r: i64)
    requires
        valid_year(y as int),
        1 <= m <= 12,
    ensures
        r == month_len(y as int, m as int),
        28 <= r <= 31,
{
    if m == 2 {
        if is_leap_year(y) {
            29
        } else {
            28
        }
    } else if m == 4 || m == 6 || m == 9 || m == 11 {
        30
    } else {
        31
    }
}

/// Days from 0001-01-01 to the first of January of a year.
pub fn year_start(y: i64) -> (r: i64)
    requires
        1 <= y <= 10000,
    ensures
        r == days_before_year(y as int),
        0 <= r <= 3652059,
{
    let p: i64 = y - 1;
    proof {
        lemma_years_ascend(1, y as int);
        lemma_years_ascend(y as int, 10000);
    }
    365 * p + p / 4 - p / 100 + p / 400
}

/// Days from the first of January of a year to the first of a month;
/// month 13 stands for the first of January of the next year.
pub fn month_start(y: i64, m: i64) -> (r: i64)
    requires
        valid_year(y as int),
        1 <= m <= 13,
    ensures
        r == days_before_month(y as int, m as int),
        0 <= r <= 366,
{
    let mut acc: i64 = 0;
    let mut k: i64 = 1;
    proof {
        lemma_months_of_year(y as int);
    }
    while k < m
        invariant
            valid_year(y as int),
            1 <= k <= m <= 13,
            acc == days_before_month(y as int, k as int),
            0 <= acc <= 31 * (k - 1),
        decreases m - k,
    {
        let len: i64 = days_in_month(y, k);
        acc = acc + len;
        k = k + 1;
    }
    acc
}

/// The day number of a calendar date.
pub fn days_from_civil(y: i64, m: i64, d: i64) -> (r: i64)
    requires
        valid_date(y as int, m as int, d as int),
    ensures
        r == day_of(y as int, m as int, d as int),
        valid_day(r as int),
{
    proof {
        lemma_day_of_in_range(y as int, m as int, d as int);
    }
    year_start(y) + month_start(y, m) + d - 1
}

/// The calendar date of a day number.
pub fn civil_from_days(day: i64) -> (r: Date)
    requires
        valid_day(day as int),
    ensures
        r.wf(),
        r.number() == day,
{
    let mut y: i64 = day / 366 + 1;
    let mut start: i64 = year_start(y);
    proof {
        lemma_year_step(9999);
    }
    loop
        invariant
            valid_day(day as int),
            1 <= y <= 9999,
            start == days_before_year(y as int),
            start <= day,
        ensures
            valid_year(y as int),
            start == days_before_year(y as int),
            start <= day < start + year_len(y as int),
        decreases 10000 - y,
    {
        let len: i64 = days_in_year(y);
        proof {
            lemma_year_step(y as int);
            lemma_years_ascend(y as int + 1, 10000);
        }
        if day < start + len {
            break ;
        }
        start = start + len;
        y = y + 1;
    }
    let rem: i64 = day - start;
    let mut m: i64 = 1;
    let mut acc: i64 = 0;
    proof {
        lemma_months_of_year(y as int);
    }
    loop
        invariant
            valid_year(y as int),
            1 <= m <= 12,
            acc == days_before_month(y as int, m as int),
            acc <= rem < year_len(y as int),
            days_before_month(y as int, 13) == year_len(y as int),
        ensures
            1 <= m <= 12,
            acc == days_before_month(y as int, m as int),
            acc <= rem < acc + month_len(y as int, m as int),
        decreases 12 - m,
    {
        let len: i64 = days_in_month(y, m);
        proof {
            lemma_months_of_year(y as int);
        }
        if rem < acc + len {
            break ;
        }
        acc = acc + len;
        m = m + 1;
    }
    Date { year: y, month: m, day: rem - acc + 1 }
}

/// The calendar date of a day number, as the one date that stands for it.
pub fn date_on(day: i64) -> (r: Date)
    requires
        valid_day(day as int),
    ensures
        r == date_of(day as int),
        r.wf(),
        r.number() == day,
{
    let r = civil_from_days(day);
    proof {
        let t = date_of(day as int);
        assert(t.wf() && t.number() == day);
        lemma_day_of_injective(
            r.year as int,
            r.month as int,
            r.day as int,
            t.year as int,
            t.month as int,
            t.day as int,
        );
    }
    r
}

/// Days from 0001-01-01 to the first of January of year `y`, also for the
/// year before the first and the years just past the last supported one.
pub fn year_start_wide(y: i64) -> (r: i64)
    requires
        0 <= y <= 10002,
    ensures
        r == days_before_year(y as int),
        -366 <= r <= 3652059 + 732,
{
    if y == 0 {
        -366
    } else {
        let p: i64 = y - 1;
        proof {
            lemma_years_ascend(1, y as int);
            if y > 10000 {
                lemma_years_ascend(10000, y as int);
            } else {
                lemma_years_ascend(y as int, 10000);
            }
        }
        365 * p + p / 4 - p / 100 + p / 400
    }
}

/// The start of week 1 of year `y` when weeks start on weekday `wkst`.
pub fn first_week_start(y: i64, wkst: i64) -> (r: i64)
    requires
        0 <= y <= 10002,
        0 <= wkst < 7,
    ensures
        r == week_one_start(y as int, wkst as int),
        days_before_year(y as int) - 3 <= r <= days_before_year(y as int) + 3,
{
    let jan1: i64 = year_start_wide(y);
    let back: i64 = (jan1 + 378 - wkst) % 7;
    proof {
        lemma_mod_shift(jan1 - wkst);
    }
    if back <= 3 {
        jan1 - back
    } else {
        jan1 - back + 7
    }
}

/// The week number of a day of calendar year `y` and the number of weeks of
/// the week-year it belongs to.
pub fn week_number(day: i64, y: i64, wkst: i64) -> (r: (i64, i64))
    requires
        valid_day(day as int),
        valid_year(y as int),
        days_before_year(y as int) <= day < days_before_year(y as int) + year_len(y as int),
        0 <= wkst < 7,
    ensures
        r.0 == week_of(day as int, y as int, wkst as int).0,
        r.1 == week_of(day as int, y as int, wkst as int).1,
        1 <= r.0 <= 54,
        50 <= r.1 <= 54,
{
    let s: i64 = first_week_start(y, wkst);
    let s_next: i64 = first_week_start(y + 1, wkst);
    proof {
        lemma_year_step(y as int);
        lemma_year_step(y as int + 1);
        if y > 1 {
            lemma_year_step(y as int - 1);
        }
    }
    if day < s {
        let s_prev: i64 = first_week_start(y - 1, wkst);
        ((day - s_prev) / 7 + 1, (s - s_prev) / 7)
    } else if day >= s_next {
        let s_after: i64 = first_week_start(y + 2, wkst);
        (1, (s_after - s_next) / 7)
    } else {
        ((day - s) / 7 + 1, (s_next - s) / 7)
    }
}

/// Adding a whole number of weeks does not change the weekday.
proof fn lemma_mod_shift(x: int)
    ensures
        (x + 378) % 7 == x % 7,
{
}

} // verus!
