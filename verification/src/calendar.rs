//! Weekdays of the Gregorian calendar.

use vstd::arithmetic::div_mod::lemma_add_mod_noop;
use vstd::prelude::*;

verus! {

/// The year that Zeller's congruence works with: January and February count as
/// months of the year before.
pub open spec fn zeller_year(year: int, month: int) -> int {
    if month < 3 {
        year - 1
    } else {
        year
    }
}

/// The month that Zeller's congruence works with.
pub open spec fn zeller_month(month: int) -> int {
    if month < 3 {
        month + 12
    } else {
        month
    }
}

/// What a year contributes to Zeller's congruence. The year before year 0
/// counts as the last, incomplete year of century 0.
pub open spec fn year_shift(y: int) -> int {
    if y < 0 {
        -1
    } else {
        y % 100 + (y % 100) / 4 + (y / 100) / 4 + 5 * (y / 100)
    }
}

/// What a month contributes to Zeller's congruence.
pub open spec fn month_shift(m: int) -> int {
    (13 * (m + 1)) / 5
}

/// The weekday by Zeller's congruence: 0 = Monday, ... 6 = Sunday.
pub open spec fn weekday(year: int, month: int, day: int) -> int {
    (day + month_shift(zeller_month(month)) + year_shift(zeller_year(year, month)) + 5) % 7
}

/// Whether a year has a 29th of February.
pub open spec fn leap_year(year: int) -> bool {
    year % 4 == 0 && (year % 100 != 0 || year % 400 == 0)
}

/// The number of days of a month.
pub open spec fn month_len(year: int, month: int) -> int {
    if month == 2 {
        if leap_year(year) {
            29
        } else {
            28
        }
    } else if month == 4 || month == 6 || month == 9 || month == 11 {
        30
    } else {
        31
    }
}

/// Whether the calendar has the date.
pub open spec fn valid_date(year: int, month: int, day: int) -> bool {
    1 <= month <= 12 && 1 <= day <= month_len(year, month)
}

/// The date of the following day.
pub open spec fn next_day(year: int, month: int, day: int) -> (int, int, int) {
    if day < month_len(year, month) {
        (year, month, day + 1)
    } else if month < 12 {
        (year, month + 1, 1)
    } else {
        (year + 1, 1, 1)
    }
}

/// From one year to the next the weekday of a date shifts by one, or by two
/// over a leap day.
proof fn lemma_year_shift(year: int)
    requires
        year >= 1,
    ensures
        (year_shift(year) - year_shift(year - 1)) % 7 == if leap_year(year) {
            2int
        } else {
            1
        },
{
    let c = (year - 1) / 100;
    let r = (year - 1) % 100;
    assert(year - 1 == 100 * c + r);
    if r < 99 {
        assert(year / 100 == c && year % 100 == r + 1);
        assert(year % 4 == (r + 1) % 4);
        assert(leap_year(year) <==> (r + 1) % 4 == 0);
    } else {
        assert(year / 100 == c + 1 && year % 100 == 0);
        assert(year == 100 * (c + 1));
        assert(leap_year(year) <==> (c + 1) % 4 == 0);
    }
}

/// Over the end of a month the weekday advances by one, within a year that
/// starts in March.
proof fn lemma_month_shift(year: int, month: int)
    requires
        1 <= month <= 12,
        month != 2,
    ensures
        (1 + month_shift(zeller_month(month) + 1) - month_len(year, month) - month_shift(
            zeller_month(month),
        )) % 7 == 1,
{
}

/// The next day of the same month.
proof fn lemma_same_month(day: int, m: int, y: int)
    ensures
        (day + 1 + m + y + 5) % 7 == ((day + m + y + 5) % 7 + 1) % 7,
{
}

/// The first of a month after the last of the month before.
proof fn lemma_month_end(day: int, m1: int, m2: int, y: int)
    requires
        (1 + m2 - day - m1) % 7 == 1,
    ensures
        (1 + m2 + y + 5) % 7 == ((day + m1 + y + 5) % 7 + 1) % 7,
{
}

/// The first of March after the last of February.
proof fn lemma_february_end(day: int, y1: int, y2: int)
    requires
        day == 28 && (y2 - y1) % 7 == 1 || day == 29 && (y2 - y1) % 7 == 2,
    ensures
        (1 + month_shift(3) + y2 + 5) % 7 == ((day + month_shift(14) + y1 + 5) % 7 + 1) % 7,
{
}

/// From one day to the next the weekday advances by one, over the ends of
/// months, years and leap years.
pub proof fn law_weekday_advances(year: int, month: int, day: int)
    requires
        year >= 1,
        valid_date(year, month, day),
    ensures
        ({
            let (y, m, d) = next_day(year, month, day);
            weekday(y, m, d) == (weekday(year, month, day) + 1) % 7
        }),
{
    let y = zeller_year(year, month);
    let m = zeller_month(month);
    if day < month_len(year, month) {
        lemma_same_month(day, month_shift(m), year_shift(y));
    } else if month == 2 {
        lemma_year_shift(year);
        lemma_february_end(day, year_shift(year - 1), year_shift(year));
    } else {
        lemma_month_shift(year, month);
        lemma_month_end(day, month_shift(m), month_shift(m + 1), year_shift(y));
    }
}

/// The number of leap years from year 1 up to a year.
pub open spec fn leap_years_until(year: int) -> int {
    year / 4 - year / 100 + year / 400
}

/// The number of days before a month in a year without a leap day.
pub open spec fn days_before_month(month: int) -> int {
    if month == 1 {
        0
    } else if month == 2 {
        31
    } else if month == 3 {
        59
    } else if month == 4 {
        90
    } else if month == 5 {
        120
    } else if month == 6 {
        151
    } else if month == 7 {
        181
    } else if month == 8 {
        212
    } else if month == 9 {
        243
    } else if month == 10 {
        273
    } else if month == 11 {
        304
    } else {
        334
    }
}

/// The number of days from the 1st of January of year 1, a Monday, to a date.
pub open spec fn days_since_start(year: int, month: int, day: int) -> int {
    365 * (year - 1) + leap_years_until(year - 1) + days_before_month(month) + (if month > 2
        && leap_year(year) {
        1int
    } else {
        0
    }) + day - 1
}

proof fn lemma_year_days(y: int)
    requires
        y >= 0,
    ensures
        (365 * y + leap_years_until(y) - year_shift(y)) % 7 == 0,
{
    let c = y / 100;
    let r = y % 100;
    assert(y == 100 * c + r);
    assert(y / 4 == 25 * c + r / 4);
    assert(y / 400 == c / 4);
}

pub proof fn lemma_leap_years(year: int)
    requires
        year >= 1,
    ensures
        leap_years_until(year) - leap_years_until(year - 1) == if leap_year(year) {
            1int
        } else {
            0
        },
{
    let q = (year - 1) / 400;
    let r = (year - 1) % 400;
    assert(year - 1 == 400 * q + r);
    assert((year - 1) / 4 == 100 * q + r / 4 && (year - 1) / 100 == 4 * q + r / 100);
    assert(year / 4 == 100 * q + (r + 1) / 4 && year / 100 == 4 * q + (r + 1) / 100 && year / 400
        == q + (r + 1) / 400);
    assert(year % 4 == (r + 1) % 4 && year % 100 == (r + 1) % 100 && year % 400 == (r + 1) % 400);
}

/// Two sums of the same remainder.
proof fn lemma_counts(day: int, year_days: int, y: int, month_days: int, m: int)
    requires
        (year_days - y) % 7 == 0,
        (month_days - m) % 7 == 6,
    ensures
        (day + m + y + 5) % 7 == (year_days + month_days + day - 1) % 7,
{
}

/// The weekday of a date is the number of days since a Monday, modulo seven.
pub proof fn law_weekday_counts_days(year: int, month: int, day: int)
    requires
        year >= 1,
        1 <= month <= 12,
    ensures
        weekday(year, month, day) == days_since_start(year, month, day) % 7,
{
    let y = zeller_year(year, month);
    lemma_year_days(y);
    let year_days = 365 * y + leap_years_until(y);
    if month > 2 {
        lemma_leap_years(year);
        assert((days_before_month(month) - 365 - month_shift(month)) % 7 == 6);
        lemma_counts(
            day,
            year_days,
            year_shift(y),
            days_before_month(month) - 365,
            month_shift(month),
        );
    } else {
        lemma_counts(
            day,
            year_days,
            year_shift(y),
            days_before_month(month),
            month_shift(month + 12),
        );
    }
}

/// A weekday is one of seven.
pub proof fn law_weekday_range(year: int, month: int, day: int)
    ensures
        0 <= weekday(year, month, day) <= 6,
{
}

/// From one day to the next the count of days grows by one.
pub proof fn law_days_advance(year: int, month: int, day: int)
    requires
        year >= 1,
        valid_date(year, month, day),
    ensures
        ({
            let (y, m, d) = next_day(year, month, day);
            days_since_start(y, m, d) == days_since_start(year, month, day) + 1
        }),
{
    if day == month_len(year, month) && month == 12 {
        lemma_leap_years(year);
    }
}

/// Counts the days from the 1st of January of year 1 to a date.
pub fn count_days(year: i32, month: i32, day: i32) -> (r: i64)
    requires
        year >= 1,
        valid_date(year as int, month as int, day as int),
    ensures
        r == days_since_start(year as int, month as int, day as int),
        0 <= r <= 1_000_000_000_000,
{
    let before: i64 = year as i64 - 1;
    let leap: bool = year % 4 == 0 && (year % 100 != 0 || year % 400 == 0);
    let month_days: i64 = match month {
        1 => 0,
        2 => 31,
        3 => 59,
        4 => 90,
        5 => 120,
        6 => 151,
        7 => 181,
        8 => 212,
        9 => 243,
        10 => 273,
        11 => 304,
        _ => 334,
    };
    let leap_day: i64 = if month > 2 && leap {
        1
    } else {
        0
    };
    365 * before + (before / 4 - before / 100 + before / 400) + month_days + leap_day + day as i64
        - 1
}

/// Tests whether the calendar has a date.
pub fn is_date(year: i32, month: i32, day: i32) -> (r: bool)
    requires
        year >= 0,
    ensures
        r == valid_date(year as int, month as int, day as int),
{
    if month < 1 || month > 12 || day < 1 {
        return false;
    }
    let leap: bool = year % 4 == 0 && (year % 100 != 0 || year % 400 == 0);
    let len: i32 = if month == 2 {
        if leap {
            29
        } else {
            28
        }
    } else if month == 4 || month == 6 || month == 9 || month == 11 {
        30
    } else {
        31
    };
    day <= len
}

/// Computes what a year contributes.
fn year_part(y: i32) -> (r: i32)
    requires
        y >= -1,
    ensures
        r == year_shift(y as int),
        -1 <= r <= 200_000_000,
{
    if y < 0 {
        return -1;
    }
    let k: i32 = y % 100;
    let j: i32 = y / 100;
    k + k / 4 + j / 4 + 5 * j
}

/// Computes what a month contributes.
fn month_part(m: i32) -> (r: i32)
    requires
        3 <= m <= 100_000_012,
    ensures
        r == month_shift(m as int),
        10 <= r <= 300_000_000,
{
    (13 * (m + 1)) / 5
}

/// Zeller's congruence, with 0 = Monday, ... 6 = Sunday.
pub fn zeller_weekday(year: i32, month: i32, day: i32) -> (r: i32)
    requires
        0 <= year,
        0 <= month <= 100_000_000,
        0 <= day <= 1_000_000_000,
    ensures
        r == weekday(year as int, month as int, day as int),
        0 <= r <= 6,
{
    let mut y: i32 = year;
    let mut m: i32 = month;
    if m < 3 {
        m = m + 12;
        y = y - 1;
    }
    let sum: i32 = day + month_part(m) + year_part(y);
    proof {
        lemma_add_mod_noop(sum as int, 5, 7);
    }
    (sum % 7 + 5) % 7
}

} // verus!
