//! The Gregorian calendar, before 1582 too: which date a day has.
//!
//! A day is a number of days since the first of January 1970.

use vstd::prelude::*;

verus! {

/// The microseconds of a day.
pub const DAY: i64 = 86_400_000_000;

/// The day of a moment in UTC.
pub open spec fn day_of(t: int) -> int {
    t / (DAY as int)
}

/// Every fourth year is a leap year, but for the full centuries that 400 does not divide.
pub open spec fn is_leap_year(y: int) -> bool {
    y % 4 == 0 && (y % 100 != 0 || y % 400 == 0)
}

/// How many days a year has.
pub open spec fn days_of_year(y: int) -> int {
    if is_leap_year(y) {
        366
    } else {
        365
    }
}

/// How many days a month has.
pub open spec fn days_of_month(y: int, m: int) -> int {
    if m == 2 {
        days_of_year(y) - 337
    } else if m == 4 || m == 6 || m == 9 || m == 11 {
        30
    } else {
        31
    }
}

/// How many days of a year are before a month.
pub open spec fn days_before_month(y: int, m: int) -> int
    decreases m,
{
    if m <= 1 {
        0
    } else {
        days_before_month(y, m - 1) + days_of_month(y, m - 1)
    }
}

/// The first of January of a year.
pub open spec fn new_year(y: int) -> int {
    365 * (y - 1) + (y - 1) / 4 - (y - 1) / 100 + (y - 1) / 400 - 719_162
}

/// The day with that date.
pub open spec fn day_with_date(y: int, m: int, d: int) -> int {
    new_year(y) + days_before_month(y, m) + d - 1
}

/// The day has that date: year, month and day of the month.
pub open spec fn is_date(day: int, y: int, m: int, d: int) -> bool {
    &&& 1 <= m <= 12
    &&& 1 <= d <= days_of_month(y, m)
    &&& day == day_with_date(y, m, d)
}

/// The day is the day `n` of that year.
pub open spec fn is_day_of_year(day: int, y: int, n: int) -> bool {
    1 <= n <= days_of_year(y) && day == new_year(y) + n - 1
}

/// The date of a day.
pub open spec fn date_of(day: int) -> (int, int, int) {
    choose|x: (int, int, int)| is_date(day, x.0, x.1, x.2)
}

/// The day of the month, from 1, on which a moment falls.
pub open spec fn utc_day_of_month(t: int) -> int {
    date_of(day_of(t)).2
}

/// The day of the year, from 1, on which a moment falls.
pub open spec fn utc_day_of_year(t: int) -> int {
    day_of(t) - new_year(date_of(day_of(t)).0) + 1
}

/// The days of a year before each month, in numbers.
pub proof fn lemma_months(y: int)
    ensures
        days_before_month(y, 1) == 0,
        days_before_month(y, 2) == 31,
        days_before_month(y, 3) == days_of_year(y) - 306,
        days_before_month(y, 4) == days_of_year(y) - 275,
        days_before_month(y, 5) == days_of_year(y) - 245,
        days_before_month(y, 6) == days_of_year(y) - 214,
        days_before_month(y, 7) == days_of_year(y) - 184,
        days_before_month(y, 8) == days_of_year(y) - 153,
        days_before_month(y, 9) == days_of_year(y) - 122,
        days_before_month(y, 10) == days_of_year(y) - 92,
        days_before_month(y, 11) == days_of_year(y) - 61,
        days_before_month(y, 12) == days_of_year(y) - 31,
{
    reveal_with_fuel(days_before_month, 13);
}

/// Where a quotient by 4 grows by one.
proof fn lemma_by_4(y: int)
    ensures
        y / 4 == (y - 1) / 4 + (if y % 4 == 0 {
            1int
        } else {
            0
        }),
{
}

/// Where a quotient by 100 grows by one.
proof fn lemma_by_100(y: int)
    ensures
        y / 100 == (y - 1) / 100 + (if y % 100 == 0 {
            1int
        } else {
            0
        }),
{
}

/// Where a quotient by 400 grows by one.
proof fn lemma_by_400(y: int)
    ensures
        y / 400 == (y - 1) / 400 + (if y % 400 == 0 {
            1int
        } else {
            0
        }),
{
}

/// What 400 divides 100 divides, and what 100 divides 4 divides.
proof fn lemma_centuries(y: int)
    ensures
        y % 400 == 0 ==> y % 100 == 0,
        y % 100 == 0 ==> y % 4 == 0,
{
}

/// A year begins where the one before it ends.
proof fn lemma_next_year(y: int)
    ensures
        new_year(y + 1) == new_year(y) + days_of_year(y),
{
    lemma_by_4(y);
    lemma_by_100(y);
    lemma_by_400(y);
    lemma_centuries(y);
    let by_4 = (y - 1) / 4;
    let by_100 = (y - 1) / 100;
    let by_400 = (y - 1) / 400;
    assert(new_year(y) == 365 * (y - 1) + by_4 - by_100 + by_400 - 719_162);
    assert(new_year(y + 1) == 365 * y + y / 4 - y / 100 + y / 400 - 719_162);
}

/// Later years begin later.
proof fn lemma_later_year(a: int, b: int)
    requires
        a < b,
    ensures
        new_year(a) + days_of_year(a) <= new_year(b),
    decreases b - a,
{
    lemma_next_year(a);
    if a + 1 < b {
        lemma_later_year(a + 1, b);
    }
}

/// A date lies in its year.
pub proof fn lemma_in_year(day: int, y: int, m: int, d: int)
    requires
        is_date(day, y, m, d),
    ensures
        is_day_of_year(day, y, days_before_month(y, m) + d),
        1 <= d <= 31,
{
    lemma_months(y);
}

/// A day is of one year.
pub proof fn lemma_one_year(day: int, y: int, n: int, z: int, k: int)
    requires
        is_day_of_year(day, y, n),
        is_day_of_year(day, z, k),
    ensures
        y == z,
        n == k,
{
    if y < z {
        lemma_later_year(y, z);
    }
    if z < y {
        lemma_later_year(z, y);
    }
}

/// A day has one date at most.
pub proof fn law_a_day_has_one_date(
    day: int,
    y: int,
    m: int,
    d: int,
    other_y: int,
    other_m: int,
    other_d: int,
)
    requires
        is_date(day, y, m, d),
        is_date(day, other_y, other_m, other_d),
    ensures
        y == other_y,
        m == other_m,
        d == other_d,
{
    lemma_in_year(day, y, m, d);
    lemma_in_year(day, other_y, other_m, other_d);
    lemma_one_year(
        day,
        y,
        days_before_month(y, m) + d,
        other_y,
        days_before_month(other_y, other_m) + other_d,
    );
    lemma_months(y);
}

/// Every day is of some year.
proof fn lemma_has_year(day: int) -> (y: int)
    ensures
        new_year(y) <= day < new_year(y) + days_of_year(y),
    decreases
            if day >= 0 {
                day
            } else {
                -day
            },
{
    if day == 0 {
        1970
    } else if day > 0 {
        let y = lemma_has_year(day - 1);
        lemma_next_year(y);
        if day < new_year(y + 1) {
            y
        } else {
            y + 1
        }
    } else {
        let y = lemma_has_year(day + 1);
        lemma_next_year(y - 1);
        if new_year(y) <= day {
            y
        } else {
            y - 1
        }
    }
}

/// Every day has a date.
pub proof fn law_every_day_has_a_date(day: int) -> (date: (int, int, int))
    ensures
        is_date(day, date.0, date.1, date.2),
{
    let y = lemma_has_year(day);
    lemma_months(y);
    let n = day - new_year(y);
    let m = if n < days_before_month(y, 2) {
        1
    } else if n < days_before_month(y, 3) {
        2
    } else if n < days_before_month(y, 4) {
        3
    } else if n < days_before_month(y, 5) {
        4
    } else if n < days_before_month(y, 6) {
        5
    } else if n < days_before_month(y, 7) {
        6
    } else if n < days_before_month(y, 8) {
        7
    } else if n < days_before_month(y, 9) {
        8
    } else if n < days_before_month(y, 10) {
        9
    } else if n < days_before_month(y, 11) {
        10
    } else if n < days_before_month(y, 12) {
        11
    } else {
        12
    };
    (y, m, n - days_before_month(y, m) + 1)
}

/// The date of a moment tells its days of the month and of the year.
pub proof fn lemma_date(t: int, y: int, m: int, d: int)
    requires
        is_date(day_of(t), y, m, d),
    ensures
        utc_day_of_month(t) == d,
        utc_day_of_year(t) == days_before_month(y, m) + d,
        1 <= utc_day_of_month(t) <= 31,
        1 <= utc_day_of_year(t) <= 366,
{
    let day = day_of(t);
    let x = (y, m, d);
    assert(is_date(day, x.0, x.1, x.2));
    let other = date_of(day);
    law_a_day_has_one_date(day, y, m, d, other.0, other.1, other.2);
    lemma_in_year(day, y, m, d);
}

/// The day of the year of a moment tells its year.
pub proof fn lemma_day_of_year(t: int, y: int, n: int)
    requires
        is_day_of_year(day_of(t), y, n),
    ensures
        utc_day_of_year(t) == n,
{
    let day = day_of(t);
    let date = law_every_day_has_a_date(day);
    lemma_date(t, date.0, date.1, date.2);
    lemma_in_year(day, date.0, date.1, date.2);
    lemma_one_year(day, y, n, date.0, days_before_month(date.0, date.1) + date.2);
}

/// A day that is not before a year is of that year or a later one, and so are the first days of
/// its month and year.
pub proof fn lemma_not_before(day: int, y: int, m: int, d: int, earliest: int)
    requires
        is_date(day, y, m, d),
        new_year(earliest) <= day,
    ensures
        new_year(earliest) <= new_year(y),
        new_year(y) <= day_with_date(y, m, 1) <= day,
{
    lemma_in_year(day, y, m, d);
    lemma_months(y);
    if y < earliest {
        lemma_later_year(y, earliest);
    }
    if earliest < y {
        lemma_later_year(earliest, y);
    }
}

} // verus!
