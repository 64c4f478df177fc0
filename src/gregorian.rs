use vstd::prelude::*;
use crate::epoch::EpochDay;
use crate::error::CalError;
use crate::math::{div_floor, mod_floor};
use crate::traits::{year_fits, Calendar};
use vstd::arithmetic::div_mod::lemma_fundamental_div_mod_converse;

verus! {

/// A proleptic Gregorian date; nothing is checked until it is converted.
#[derive(Debug, Clone, Copy, PartialEq, Eq, Structural)]
pub struct Date {
    pub year: i32,
    pub month: u8,
    pub day: u8,
}

/// How Gregorian dates are read.
#[derive(Debug, Clone, Copy, PartialEq, Eq, Structural)]
pub enum Variant {
    Proleptic,
    Cutover,
}

/// The proleptic Gregorian calendar.
pub struct Gregorian;

/// Divisible by 4, except centuries not divisible by 400.
pub open spec fn is_leap_year(y: int) -> bool {
    y % 4 == 0 && (y % 100 != 0 || y % 400 == 0)
}

/// Days in month `m` of a leap or a common year.
pub open spec fn month_days(m: int, leap: bool) -> int {
    if m == 2 {
        if leap { 29 } else { 28 }
    } else if m == 4 || m == 6 || m == 9 || m == 11 {
        30
    } else {
        31
    }
}

/// Days in month `m` of year `y`.
pub open spec fn month_length(y: int, m: int) -> int {
    month_days(m, is_leap_year(y))
}

/// Days of the year that come before month `m` (1 to 12).
pub open spec fn days_before_month(m: int, leap: bool) -> int {
    let base: int = if m <= 1 { 0 } else if m == 2 { 31 } else if m == 3 { 59 } else if m == 4 { 90 }
        else if m == 5 { 120 } else if m == 6 { 151 } else if m == 7 { 181 } else if m == 8 { 212 }
        else if m == 9 { 243 } else if m == 10 { 273 } else if m == 11 { 304 } else { 334 };
    if leap && m > 2 { base + 1 } else { base }
}

/// Days from 0001-01-01 to the first day of year `y`.
pub open spec fn days_before_year(y: int) -> int {
    365 * (y - 1) + (y - 1) / 4 - (y - 1) / 100 + (y - 1) / 400
}

pub open spec fn valid_ymd(y: int, m: int, d: int) -> bool {
    1 <= m <= 12 && 1 <= d <= month_length(y, m)
}

/// Day count of `(y, m, d)`.
pub open spec fn ymd_days(y: int, m: int, d: int) -> int {
    days_before_year(y) + days_before_month(m, is_leap_year(y)) + d - 1
}

/// A day count split into whole 400-year cycles, centuries, 4-year blocks,
/// years and the 0-based day of the year.
pub open spec fn cycle_parts(ed: int) -> (int, int, int, int, int) {
    let q = ed / 146097;
    let z1 = ed % 146097;
    let a = if z1 / 36524 == 4 { 3 } else { z1 / 36524 };
    let z2 = z1 - 36524 * a;
    let b = z2 / 1461;
    let z3 = z2 % 1461;
    let c = if z3 / 365 == 4 { 3 } else { z3 / 365 };
    (q, a, b, c, z3 - 365 * c)
}

/// Year that holds day `ed`.
pub open spec fn year_of_days(ed: int) -> int {
    let p = cycle_parts(ed);
    400 * p.0 + 100 * p.1 + 4 * p.2 + p.3 + 1
}

/// 0-based day of the year of day `ed`.
pub open spec fn day_of_year(ed: int) -> int {
    cycle_parts(ed).4
}

/// The month holding 0-based day `doy`, searching upward from month `m`.
pub open spec fn month_from(doy: int, leap: bool, m: int) -> int
    decreases 12 - m,
{
    if m >= 12 || days_before_month(m + 1, leap) > doy {
        m
    } else {
        month_from(doy, leap, m + 1)
    }
}

/// Month of day `ed`.
pub open spec fn month_of_days(ed: int) -> int {
    month_from(day_of_year(ed), is_leap_year(year_of_days(ed)), 1)
}

/// Day of the month of day `ed`.
pub open spec fn day_of_month(ed: int) -> int {
    day_of_year(ed) - days_before_month(month_of_days(ed), is_leap_year(year_of_days(ed))) + 1
}

impl Gregorian {
    /// Leap rule of the proleptic Gregorian calendar.
    pub fn is_leap(y: i64) -> (r: bool)
        ensures
            r == is_leap_year(y as int),
    {
        (y % 4 == 0) && (y % 100 != 0 || y % 400 == 0)
    }

    /// Days of the year before `month` (1 to 12).
    pub fn doy_prefix(month: i64, leap: bool) -> (r: i64)
        requires
            1 <= month <= 12,
        ensures
            r == days_before_month(month as int, leap),
    {
        let base: i64 = match month {
            1 => 0,
            2 => 31,
            3 => 59,
            4 => 90,
            5 => 120,
            6 => 151,
            7 => 181,
            8 => 212,
            9 => 243,
            10 => 273,
            11 => 304,
            _ => 334,
        };
        if leap && month > 2 {
            base + 1
        } else {
            base
        }
    }

    /// Checks `(y, m, d)` and returns its day count.
    pub fn ymd_to_rd(y: i64, m: i64, d: i64) -> (r: Result<i64, CalError>)
        requires
            i32::MIN <= y <= i32::MAX,
        ensures
            match r {
                Ok(e) => valid_ymd(y as int, m as int, d as int) && e == ymd_days(y as int, m as int, d as int),
                Err(x) => !valid_ymd(y as int, m as int, d as int) && x == CalError::InvalidDate,
            },
    {
        if m < 1 || m > 12 {
            return Err(CalError::InvalidDate);
        }
        if d < 1 || d > 31 {
            return Err(CalError::InvalidDate);
        }
        let leap = Self::is_leap(y);
        let mdays: i64 = match m {
            1 | 3 | 5 | 7 | 8 | 10 | 12 => 31,
            4 | 6 | 9 | 11 => 30,
            _ => if leap { 29 } else { 28 },
        };
        if d > mdays {
            return Err(CalError::InvalidDate);
        }
        let y1 = y - 1;
        let days_before_year = 365 * y1 + div_floor(y1, 4) - div_floor(y1, 100) + div_floor(y1, 400);
        let doy = Self::doy_prefix(m, leap) + d - 1;
        Ok(days_before_year + doy)
    }

    /// Year, month and day of a day count, by 400/100/4/1-year cycles.
    pub fn rd_to_ymd(rd: i64) -> (r: (i64, i64, i64))
        ensures
            r.0 == year_of_days(rd as int),
            r.1 == month_of_days(rd as int),
            r.2 == day_of_month(rd as int),
            1 <= r.1 <= 12,
            1 <= r.2 <= 31,
    {
        let quad400 = div_floor(rd, 146097);
        let mut z = mod_floor(rd, 146097);
        let mut quad100 = z / 36524;
        if quad100 == 4 {
            quad100 = 3;
        }
        z = z - quad100 * 36524;
        let quad4 = z / 1461;
        z = z % 1461;
        let mut year1 = z / 365;
        if year1 == 4 {
            year1 = 3;
        }
        z = z - year1 * 365;
        let year = 400 * quad400 + 100 * quad100 + 4 * quad4 + year1 + 1;
        let leap = Self::is_leap(year);
        proof {
            lemma_cycle_parts(rd as int);
            let p = cycle_parts(rd as int);
            assert(p.0 == quad400 && p.1 == quad100 && p.2 == quad4 && p.3 == year1 && p.4 == z);
            lemma_days_before_year_parts(p.0, p.1, p.2, p.3);
            lemma_month_from_bounds(z as int, leap);
        }
        let mut m: i64 = 1;
        while m < 12 && Self::doy_prefix(m + 1, leap) <= z
            invariant
                1 <= m <= 12,
                month_from(z as int, leap, m as int) == month_from(z as int, leap, 1),
                days_before_month(m as int, leap) <= z,
            decreases 12 - m,
        {
            m = m + 1;
        }
        let day = z - Self::doy_prefix(m, leap) + 1;
        (year, m, day)
    }
}

/// The first day of year `400q + 100a + 4b + c + 1` in closed form, and
/// which such years are leap years.
pub proof fn lemma_days_before_year_parts(q: int, a: int, b: int, c: int)
    requires
        0 <= a <= 3,
        0 <= b <= 24,
        0 <= c <= 3,
    ensures
        days_before_year(400 * q + 100 * a + 4 * b + c + 1) == 146097 * q + 36524 * a + 1461 * b + 365 * c,
        is_leap_year(400 * q + 100 * a + 4 * b + c + 1) <==> (c == 3 && (b != 24 || a == 3)),
{
    let x = 400 * q + 100 * a + 4 * b + c;
    lemma_fundamental_div_mod_converse(x, 4, 100 * q + 25 * a + b, c);
    lemma_fundamental_div_mod_converse(x, 100, 4 * q + a, 4 * b + c);
    lemma_fundamental_div_mod_converse(x, 400, q, 100 * a + 4 * b + c);
    let y = x + 1;
    if c == 3 {
        lemma_fundamental_div_mod_converse(y, 4, 100 * q + 25 * a + b + 1, 0);
        if b == 24 {
            lemma_fundamental_div_mod_converse(y, 100, 4 * q + a + 1, 0);
            if a == 3 {
                lemma_fundamental_div_mod_converse(y, 400, q + 1, 0);
            } else {
                lemma_fundamental_div_mod_converse(y, 400, q, 100 * a + 100);
            }
        } else {
            lemma_fundamental_div_mod_converse(y, 100, 4 * q + a, 4 * b + 4);
        }
    } else {
        lemma_fundamental_div_mod_converse(y, 4, 100 * q + 25 * a + b, c + 1);
    }
}

/// Splitting a 0-based day of a leap or common year into month and day.
proof fn lemma_month_from(doy: int, leap: bool, m: int, d: int)
    requires
        1 <= m <= 12,
        1 <= d,
        d <= month_days(m, leap),
        doy == days_before_month(m, leap) + d - 1,
    ensures
        month_from(doy, leap, 1) == m,
{
    reveal_with_fuel(month_from, 12);
}

/// The month search places every 0-based day of the year in a month, at a
/// day within that month's length.
proof fn lemma_month_from_bounds(doy: int, leap: bool)
    requires
        0 <= doy < if leap { 366int } else { 365int },
    ensures
        1 <= month_from(doy, leap, 1) <= 12,
        1 <= doy - days_before_month(month_from(doy, leap, 1), leap) + 1
            <= month_days(month_from(doy, leap, 1), leap),
{
    reveal_with_fuel(month_from, 12);
}

/// The parts of a day count are in range and add up to it.
proof fn lemma_cycle_parts(ed: int)
    ensures
        ({
            let p = cycle_parts(ed);
            &&& 0 <= p.1 <= 3
            &&& 0 <= p.2 <= 24
            &&& 0 <= p.3 <= 3
            &&& 0 <= p.4 <= 365
            &&& (p.4 == 365 ==> p.3 == 3 && (p.2 != 24 || p.1 == 3))
            &&& ed == 146097 * p.0 + 36524 * p.1 + 1461 * p.2 + 365 * p.3 + p.4
        }),
{
    vstd::arithmetic::div_mod::lemma_fundamental_div_mod(ed, 146097);
    let z1 = ed % 146097;
    let z2 = z1 - 36524 * cycle_parts(ed).1;
    vstd::arithmetic::div_mod::lemma_fundamental_div_mod(z2, 1461);
}

/// A year holds 366 days when it is a leap year and 365 otherwise.
proof fn lemma_year_length(y: int)
    ensures
        days_before_year(y + 1) == days_before_year(y) + if is_leap_year(y) { 366int } else { 365int },
{
    let x = y - 1;
    vstd::arithmetic::div_mod::lemma_fundamental_div_mod(x, 400);
    let q = x / 400;
    vstd::arithmetic::div_mod::lemma_fundamental_div_mod(x % 400, 100);
    let a = (x % 400) / 100;
    vstd::arithmetic::div_mod::lemma_fundamental_div_mod((x % 400) % 100, 4);
    let b = ((x % 400) % 100) / 4;
    let c = ((x % 400) % 100) % 4;
    lemma_days_before_year_parts(q, a, b, c);
    if c < 3 {
        lemma_days_before_year_parts(q, a, b, c + 1);
    } else if b < 24 {
        lemma_days_before_year_parts(q, a, b + 1, 0);
    } else if a < 3 {
        lemma_days_before_year_parts(q, a + 1, 0, 0);
    } else {
        lemma_days_before_year_parts(q + 1, 0, 0, 0);
    }
}

/// Within one month, a later day has a strictly greater day count.
pub proof fn lemma_day_increases(y: int, m: int, d1: int, d2: int)
    requires
        valid_ymd(y, m, d1),
        valid_ymd(y, m, d2),
        d1 < d2,
    ensures
        ymd_days(y, m, d1) < ymd_days(y, m, d2),
{
}

impl Calendar for Gregorian {
    type Date = Date;
    type Variant = Variant;

    open spec fn is_valid(date: Date) -> bool {
        valid_ymd(date.year as int, date.month as int, date.day as int)
    }

    open spec fn day_number(date: Date) -> int {
        ymd_days(date.year as int, date.month as int, date.day as int)
    }

    open spec fn year_of(ed: int) -> int {
        year_of_days(ed)
    }

    open spec fn date_of(ed: int) -> Date {
        Date { year: year_of_days(ed) as i32, month: month_of_days(ed) as u8, day: day_of_month(ed) as u8 }
    }

    open spec fn next_date(date: Date) -> Date {
        if (date.day as int) < month_length(date.year as int, date.month as int) {
            Date { day: (date.day + 1) as u8, ..date }
        } else if date.month < 12 {
            Date { month: (date.month + 1) as u8, day: 1, ..date }
        } else {
            Date { year: (date.year + 1) as i32, month: 1, day: 1 }
        }
    }

    /// Every valid date but the last day of the largest year of the date record.
    open spec fn steps(date: Date) -> bool {
        !(date.year == i32::MAX && date.month == 12 && date.day == 31)
    }

    proof fn lemma_next(date: Date) {
        lemma_year_length(date.year as int);
    }

    /// Every valid Gregorian date comes back from its day count.
    open spec fn recovers(date: Date) -> bool {
        true
    }

    /// Every day count whose year fits the date record.
    open spec fn covers(ed: int) -> bool {
        year_fits(year_of_days(ed))
    }

    proof fn lemma_recovers(date: Date) {
        let y = date.year as int;
        let m = date.month as int;
        let d = date.day as int;
        let leap = is_leap_year(y);
        let x = y - 1;
        vstd::arithmetic::div_mod::lemma_fundamental_div_mod(x, 400);
        let q = x / 400;
        let r400 = x % 400;
        vstd::arithmetic::div_mod::lemma_fundamental_div_mod(r400, 100);
        let a = r400 / 100;
        let r100 = r400 % 100;
        vstd::arithmetic::div_mod::lemma_fundamental_div_mod(r100, 4);
        let b = r100 / 4;
        let c = r100 % 4;
        assert(y == 400 * q + 100 * a + 4 * b + c + 1);
        lemma_days_before_year_parts(q, a, b, c);
        let doy = days_before_month(m, leap) + d - 1;
        let ed = ymd_days(y, m, d);
        assert(0 <= doy <= 365 && (doy == 365 ==> leap));
        let rest = 36524 * a + 1461 * b + 365 * c + doy;
        lemma_fundamental_div_mod_converse(ed, 146097, q, rest);
        if doy == 365 && b == 24 && c == 3 {
            lemma_fundamental_div_mod_converse(rest, 36524, 4, 0);
            lemma_fundamental_div_mod_converse(36524, 1461, 24, 1460);
            lemma_fundamental_div_mod_converse(1460, 365, 4, 0);
        } else {
            lemma_fundamental_div_mod_converse(rest, 36524, a, 1461 * b + 365 * c + doy);
            lemma_fundamental_div_mod_converse(1461 * b + 365 * c + doy, 1461, b, 365 * c + doy);
            if doy == 365 {
                lemma_fundamental_div_mod_converse(365 * c + doy, 365, 4, 0);
            } else {
                lemma_fundamental_div_mod_converse(365 * c + doy, 365, c, doy);
            }
        }
        assert(year_of_days(ed) == y);
        assert(day_of_year(ed) == doy);
        lemma_month_from(doy, leap, m, d);
    }

    proof fn lemma_covers(ed: int) {
        lemma_cycle_parts(ed);
        let p = cycle_parts(ed);
        lemma_days_before_year_parts(p.0, p.1, p.2, p.3);
        let y = year_of_days(ed);
        let leap = is_leap_year(y);
        lemma_month_from_bounds(p.4, leap);
    }

    fn to_epoch_day(date: &Date, var: &Variant) -> (r: Result<EpochDay, CalError>) {
        let rd = Self::ymd_to_rd(date.year as i64, date.month as i64, date.day as i64)?;
        Ok(EpochDay(rd))
    }

    fn from_epoch_day(ed: EpochDay, var: &Variant) -> (r: Result<Date, CalError>) {
        let (y, m, d) = Self::rd_to_ymd(ed.0);
        if y > i32::MAX as i64 {
            Err(CalError::Overflow)
        } else if y < i32::MIN as i64 {
            Err(CalError::Underflow)
        } else {
            Ok(Date { year: y as i32, month: m as u8, day: d as u8 })
        }
    }
}

} // verus!
