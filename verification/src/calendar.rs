//! Calendar dates in the proleptic Gregorian calendar.
//!
//! A [`Date`] is a plain year/month/day record; [`valid_date`] says when it
//! names a real calendar day. Dates are ordered lexicographically, and
//! [`day_number`] maps a date to its serial day count (day 1 is the first of
//! January of year 1), which is how adding days to a date is specified.

use vstd::prelude::*;

verus! {

/// A calendar date: a year, a month and a day of the month.
#[derive(Clone, Copy, Debug, PartialEq, Eq, Structural, Hash)]
pub struct Date {
    pub year: i32,
    pub month: u8,
    pub day: u8,
}

/// Years divisible by 4 are leap years, except century years not divisible by 400.
pub open spec fn is_leap_year(y: int) -> bool {
    (y % 4 == 0 && y % 100 != 0) || y % 400 == 0
}

/// How many days the given month of the given year has.
pub open spec fn days_in_month(y: int, m: int) -> int {
    if m == 2 {
        if is_leap_year(y) {
            29
        } else {
            28
        }
    } else if m == 4 || m == 6 || m == 9 || m == 11 {
        30
    } else {
        31
    }
}

/// Whether the record names a real calendar day.
pub open spec fn valid_date(d: Date) -> bool {
    &&& 1 <= d.month <= 12
    &&& 1 <= d.day <= days_in_month(d.year as int, d.month as int)
}

/// Days in the months of year `y` that come before month `m`.
pub open spec fn days_before_month(y: int, m: int) -> int
    decreases m,
{
    if m <= 1 {
        0
    } else {
        days_before_month(y, m - 1) + days_in_month(y, m - 1)
    }
}

/// Leap years strictly before year `y`, counted from year 1 (negative
/// for years before that, so that `day_number` stays affine across eras).
pub open spec fn leap_days_before(y: int) -> int {
    (y - 1) / 4 - (y - 1) / 100 + (y - 1) / 400
}

/// Serial day count of a date: the first of January of year 1 is day 1,
/// and consecutive calendar days have consecutive numbers.
pub open spec fn day_number(d: Date) -> int {
    365 * (d.year - 1) + leap_days_before(d.year as int) + days_before_month(
        d.year as int,
        d.month as int,
    ) + d.day
}

/// The smallest year the date arithmetic below supports.
pub open spec fn min_year() -> int {
    -262143
}

/// The largest year the date arithmetic below supports.
pub open spec fn max_year() -> int {
    262142
}

/// Whether a date lies in the supported year range.
pub open spec fn in_year_range(d: Date) -> bool {
    min_year() <= d.year <= max_year()
}

/// Day number of the earliest supported date.
pub open spec fn min_day_number() -> int {
    day_number(Date { year: -262143i32, month: 1, day: 1 })
}

/// Day number of the latest supported date.
pub open spec fn max_day_number() -> int {
    day_number(Date { year: 262142, month: 12, day: 31 })
}

/// Strict lexicographic order on year, month, day.
pub open spec fn spec_date_lt(a: Date, b: Date) -> bool {
    ||| a.year < b.year
    ||| (a.year == b.year && a.month < b.month)
    ||| (a.year == b.year && a.month == b.month && a.day < b.day)
}

/// Reflexive closure of [`spec_date_lt`].
pub open spec fn spec_date_le(a: Date, b: Date) -> bool {
    spec_date_lt(a, b) || a == b
}

/// Whether `a` names an earlier calendar day than `b`.
pub fn date_lt(a: &Date, b: &Date) -> (r: bool)
    ensures
        r == spec_date_lt(*a, *b),
{
    if a.year != b.year {
        a.year < b.year
    } else if a.month != b.month {
        a.month < b.month
    } else {
        a.day < b.day
    }
}

/// Whether `a` names the same or an earlier calendar day than `b`.
pub fn date_le(a: &Date, b: &Date) -> (r: bool)
    ensures
        r == spec_date_le(*a, *b),
{
    if a.year != b.year {
        a.year < b.year
    } else if a.month != b.month {
        a.month < b.month
    } else {
        a.day <= b.day
    }
}

/// How many days the given month has; `requires` keeps the year where the
/// executable leap test below is exact.
pub fn days_in_month_exec(y: i32, m: u8) -> (r: u8)
    requires
        0 <= y,
        1 <= m <= 12,
    ensures
        r == days_in_month(y as int, m as int),
{
    if m == 2 {
        if (y % 4 == 0 && y % 100 != 0) || y % 400 == 0 {
            29
        } else {
            28
        }
    } else if m == 4 || m == 6 || m == 9 || m == 11 {
        30
    } else {
        31
    }
}

/// Whether the record names a real calendar day, for non-negative years.
pub fn valid_date_exec(d: &Date) -> (r: bool)
    requires
        0 <= d.year,
    ensures
        r == valid_date(*d),
{
    if d.month < 1 || d.month > 12 {
        false
    } else {
        1 <= d.day && d.day <= days_in_month_exec(d.year, d.month)
    }
}

proof fn lemma_days_before_month_le(y: int, m: int)
    requires
        1 <= m <= 12,
    ensures
        0 <= days_before_month(y, m) <= 31 * (m - 1),
    decreases m,
{
    if m > 1 {
        lemma_days_before_month_le(y, m - 1);
    }
}

/// Every supported date's serial day count stays well inside 96 million
/// days either side of the calendar's origin.
pub proof fn lemma_day_number_range(d: Date)
    requires
        valid_date(d),
        in_year_range(d),
    ensures
        -96_000_000 < day_number(d) < 96_000_000,
{
    lemma_days_before_month_le(d.year as int, d.month as int);
    let x = d.year as int - 1;
    vstd::arithmetic::div_mod::lemma_fundamental_div_mod(x, 4);
    vstd::arithmetic::div_mod::lemma_fundamental_div_mod(x, 100);
    vstd::arithmetic::div_mod::lemma_fundamental_div_mod(x, 400);
}

/// The supported day range itself stays inside those same bounds.
pub proof fn lemma_day_number_span()
    ensures
        -96_000_000 < min_day_number(),
        max_day_number() < 96_000_000,
{
    lemma_day_number_range(Date { year: -262143i32, month: 1, day: 1 });
    lemma_day_number_range(Date { year: 262142i32, month: 12, day: 31 });
}

proof fn lemma_dbm_mono(y: int, m1: int, m2: int)
    requires
        1 <= m1 <= m2 <= 13,
    ensures
        days_before_month(y, m1) <= days_before_month(y, m2),
    decreases m2 - m1,
{
    if m1 < m2 {
        lemma_dbm_mono(y, m1, m2 - 1);
    }
}

proof fn lemma_same_year_lt(a: Date, b: Date)
    requires
        valid_date(a),
        valid_date(b),
        a.year == b.year,
        spec_date_lt(a, b),
    ensures
        day_number(a) < day_number(b),
{
    let y = a.year as int;
    if a.month < b.month {
        lemma_dbm_mono(y, a.month + 1, b.month as int);
        assert(days_before_month(y, a.month + 1) == days_before_month(y, a.month as int)
            + days_in_month(y, a.month as int));
    }
}

proof fn lemma_same_year_le(a: Date, b: Date)
    requires
        valid_date(a),
        valid_date(b),
        a.year == b.year,
        spec_date_le(a, b),
    ensures
        day_number(a) <= day_number(b),
{
    if a != b {
        lemma_same_year_lt(a, b);
    }
}

proof fn lemma_year_succ(y: int)
    requires
        min_year() <= y < max_year(),
    ensures
        day_number(Date { year: (y + 1) as i32, month: 1, day: 1 }) == day_number(
            Date { year: y as i32, month: 12, day: 31 },
        ) + 1,
{
    reveal_with_fuel(days_before_month, 13);
    vstd::arithmetic::div_mod::lemma_fundamental_div_mod(y, 4);
    vstd::arithmetic::div_mod::lemma_fundamental_div_mod(y - 1, 4);
    vstd::arithmetic::div_mod::lemma_fundamental_div_mod(y, 100);
    vstd::arithmetic::div_mod::lemma_fundamental_div_mod(y - 1, 100);
    vstd::arithmetic::div_mod::lemma_fundamental_div_mod(y, 400);
    vstd::arithmetic::div_mod::lemma_fundamental_div_mod(y - 1, 400);
    assert(days_before_month(y, 12) == 334 + if is_leap_year(y) {
        1int
    } else {
        0int
    });
}

proof fn lemma_jan1_mono(y1: int, y2: int)
    requires
        min_year() <= y1 <= y2 <= max_year(),
    ensures
        day_number(Date { year: y1 as i32, month: 1, day: 1 }) <= day_number(
            Date { year: y2 as i32, month: 1, day: 1 },
        ),
    decreases y2 - y1,
{
    if y1 < y2 {
        lemma_jan1_mono(y1, y2 - 1);
        lemma_same_year_le(
            Date { year: (y2 - 1) as i32, month: 1, day: 1 },
            Date { year: (y2 - 1) as i32, month: 12, day: 31 },
        );
        lemma_year_succ(y2 - 1);
    }
}

proof fn lemma_lt_day_number(a: Date, b: Date)
    requires
        valid_date(a),
        valid_date(b),
        in_year_range(a),
        in_year_range(b),
        spec_date_lt(a, b),
    ensures
        day_number(a) < day_number(b),
{
    if a.year == b.year {
        lemma_same_year_lt(a, b);
    } else {
        lemma_same_year_le(a, Date { year: a.year, month: 12, day: 31 });
        lemma_year_succ(a.year as int);
        lemma_jan1_mono(a.year + 1, b.year as int);
        lemma_same_year_le(Date { year: b.year, month: 1, day: 1 }, b);
    }
}

/// The lexicographic order on year, month and day is exactly the order of
/// the serial day counts: one valid date is earlier than another precisely
/// when its day number is smaller.
pub proof fn lemma_date_order_is_day_order(a: Date, b: Date)
    requires
        valid_date(a),
        valid_date(b),
        in_year_range(a),
        in_year_range(b),
    ensures
        spec_date_lt(a, b) <==> day_number(a) < day_number(b),
{
    if spec_date_lt(a, b) {
        lemma_lt_day_number(a, b);
    } else if spec_date_lt(b, a) {
        lemma_lt_day_number(b, a);
    }
}

/// Relies on chrono's `Local::now` and `NaiveDate`: the current local
/// calendar date, reported as its year, month and day. The result depends
/// on the wall clock, so nothing more than validity is promised.
#[verifier::external_body]
pub fn today_date() -> (r: Date)
    ensures
        valid_date(r),
        in_year_range(r),
{
    let now = chrono::Local::now().date_naive();
    Date {
        year: chrono::Datelike::year(&now),
        month: chrono::Datelike::month(&now) as u8,
        day: chrono::Datelike::day(&now) as u8,
    }
}

/// Relies on chrono's `NaiveDate::checked_add_signed`: adding whole days in
/// the proleptic Gregorian calendar moves the serial day count by exactly
/// that amount, and returns `None` exactly when the result would leave
/// chrono's supported range (years -262143 through 262142).
#[verifier::external_body]
pub fn date_plus_days(d: &Date, delta: i64) -> (r: Option<Date>)
    requires
        valid_date(*d),
        in_year_range(*d),
        -2147483648 <= delta <= 2147483647,
    ensures
        r is Some <==> min_day_number() <= day_number(*d) + delta <= max_day_number(),
        r matches Some(x) ==> valid_date(x) && in_year_range(x) && day_number(x) == day_number(*d)
            + delta,
{
    let nd = chrono::NaiveDate::from_ymd_opt(d.year, d.month as u32, d.day as u32)?;
    let x = nd.checked_add_signed(chrono::TimeDelta::try_days(delta)?)?;
    Some(Date {
        year: chrono::Datelike::year(&x),
        month: chrono::Datelike::month(&x) as u8,
        day: chrono::Datelike::day(&x) as u8,
    })
}

} // verus!
