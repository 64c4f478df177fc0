use vstd::prelude::*;
use vstd::arithmetic::div_mod::lemma_fundamental_div_mod_converse;
use crate::epoch::EpochDay;
use crate::error::CalError;
use crate::math::{div_floor, mod_floor};
use crate::traits::{year_fits, Calendar};

verus! {

/// A Coptic date; nothing is checked until it is converted.
#[derive(Debug, Clone, Copy, PartialEq, Eq, Structural)]
pub struct Date {
    pub year: i32,
    pub month: u8,
    pub day: u8,
}

/// How Coptic dates are read.
#[derive(Debug, Clone, Copy, PartialEq, Eq, Structural)]
pub enum Variant {
    Proleptic,
}

/// The Coptic calendar: twelve months of 30 days and a short thirteenth month.
pub struct Coptic;

/// Day count of day 1 of month 1 of Coptic year 1.
pub const COPTIC_EPOCH: i64 = 103604;

/// A year is leap when it is 3 modulo 4.
pub open spec fn is_leap_year(y: int) -> bool {
    y % 4 == 3
}

/// Days in month `m` of year `y`: 30, or 5 (6 in a leap year) for month 13.
pub open spec fn month_length(y: int, m: int) -> int {
    if m == 13 {
        if is_leap_year(y) { 6 } else { 5 }
    } else {
        30
    }
}

pub open spec fn valid_ymd(y: int, m: int, d: int) -> bool {
    1 <= m <= 13 && 1 <= d <= month_length(y, m)
}

/// Days from the calendar's epoch to the first day of year `y`.
pub open spec fn days_before_year(y: int) -> int {
    365 * (y - 1) + (y - 1) / 4
}

/// Day count of `(y, m, d)`.
pub open spec fn ymd_days(y: int, m: int, d: int) -> int {
    COPTIC_EPOCH + days_before_year(y) + 30 * (m - 1) + d - 1
}

/// Year that the inverse formula gives for day `ed`.
pub open spec fn year_of_days(ed: int) -> int {
    let days = ed - COPTIC_EPOCH;
    4 * (days / 1461) + (days % 1461) / 365 + 1
}

/// Day of the year, from 0, that the inverse formula gives for day `ed`.
pub open spec fn day_of_year(ed: int) -> int {
    ed - COPTIC_EPOCH - days_before_year(year_of_days(ed))
}

/// Month of day `ed`: 30-day blocks for the first 360 days, then month 13.
pub open spec fn month_of_days(ed: int) -> int {
    let doy = day_of_year(ed);
    if doy < 360 { doy / 30 + 1 } else { 13 }
}

/// Day of the month of day `ed`.
pub open spec fn day_of_month(ed: int) -> int {
    let doy = day_of_year(ed);
    if doy < 360 { doy % 30 + 1 } else { doy - 359 }
}

impl Coptic {
    /// Leap rule of the Coptic calendar.
    pub fn is_leap(y: i64) -> (r: bool)
        ensures
            r == is_leap_year(y as int),
    {
        mod_floor(y, 4) == 3
    }

    /// Checks `(y, m, d)` and returns its day count.
    pub fn ymd_to_rd(y: i64, m: i64, d: i64) -> (r: Result<i64, CalError>)
        requires
            i32::MIN <= y <= i32::MAX,
        ensures
            match r {
                Ok(e) => valid_ymd(y as int, m as int, d as int) && e == ymd_days(y as int, m as int, d as int),
                Err(x) => !valid_ymd(y as int, m as int, d as int) && x == CalError::InvalidDate,
            },
    {
        if m < 1 || m > 13 {
            return Err(CalError::InvalidDate);
        }
        if d < 1 {
            return Err(CalError::InvalidDate);
        }
        let mdays: i64 = if m == 13 {
            if Self::is_leap(y) { 6 } else { 5 }
        } else {
            30
        };
        if d > mdays {
            return Err(CalError::InvalidDate);
        }
        let days_before_year = 365 * (y - 1) + div_floor(y - 1, 4);
        let doy = 30 * (m - 1) + (d - 1);
        Ok(COPTIC_EPOCH + days_before_year + doy)
    }

    /// Year, month and day of a day count, by 4-year cycles.
    pub fn rd_to_ymd(rd: i64) -> (r: (i64, i64, i64))
        requires
            rd >= i64::MIN + COPTIC_EPOCH + 1461,
        ensures
            r.0 == year_of_days(rd as int),
            r.1 == month_of_days(rd as int),
            r.2 == day_of_month(rd as int),
            0 <= r.1 <= 13,
            0 <= r.2 <= 30,
    {
        let days = rd - COPTIC_EPOCH;
        let year = div_floor(days, 1461) * 4 + div_floor(mod_floor(days, 1461), 365) + 1;
        proof {
            lemma_inverse_parts(rd as int);
            let k = (days as int) / 1461;
            assert(k <= 0 ==> 1460 * k >= 1461 * k);
            assert(k >= 0 ==> 1460 * k <= 1461 * k);
        }
        let day_of_year = days - (365 * (year - 1) + div_floor(year - 1, 4));
        let (month, day) = if day_of_year < 30 * 12 {
            (div_floor(day_of_year, 30) + 1, mod_floor(day_of_year, 30) + 1)
        } else {
            (13, day_of_year - 30 * 12 + 1)
        };
        (year, month, day)
    }
}

/// How the inverse formula splits a day count: whole 4-year cycles `k`, the
/// year `j` within the cycle and the day of that year.
proof fn lemma_inverse_parts(ed: int)
    ensures
        ({
            let days = ed - COPTIC_EPOCH;
            let k = days / 1461;
            let r = days % 1461;
            &&& 0 <= r < 1461
            &&& days == 1461 * k + r
            &&& r < 1460 ==> year_of_days(ed) == 4 * k + r / 365 + 1 && r / 365 <= 3
                && days_before_year(year_of_days(ed)) == 1461 * k + 365 * (r / 365)
                && day_of_year(ed) == r % 365 && 0 <= r % 365 < 365
            &&& r == 1460 ==> year_of_days(ed) == 4 * k + 5 && day_of_year(ed) == -1
                && days_before_year(year_of_days(ed)) == 1461 * k + 1461
        }),
{
    let days = ed - COPTIC_EPOCH;
    vstd::arithmetic::div_mod::lemma_fundamental_div_mod(days, 1461);
    let k = days / 1461;
    let r = days % 1461;
    vstd::arithmetic::div_mod::lemma_fundamental_div_mod(r, 365);
    if r < 1460 {
        let j = r / 365;
        lemma_fundamental_div_mod_converse(4 * k + j, 4, k, j);
    } else {
        lemma_fundamental_div_mod_converse(r, 365, 4, 0);
        lemma_fundamental_div_mod_converse(4 * k + 4, 4, k + 1, 0);
    }
}

/// A year is counted with 366 days when it is 0 modulo 4, else with 365.
proof fn lemma_year_length(y: int)
    ensures
        days_before_year(y + 1) == days_before_year(y) + if y % 4 == 0 { 366int } else { 365int },
{
    vstd::arithmetic::div_mod::lemma_fundamental_div_mod(y - 1, 4);
    let k = (y - 1) / 4;
    let j = (y - 1) % 4;
    if j == 3 {
        lemma_fundamental_div_mod_converse(y, 4, k + 1, 0);
    } else {
        lemma_fundamental_div_mod_converse(y, 4, k, j + 1);
    }
}

/// Within one month, a later day has a strictly greater day count.
pub proof fn lemma_day_increases(y: int, m: int, d1: int, d2: int)
    requires
        valid_ymd(y, m, d1),
        valid_ymd(y, m, d2),
        d1 < d2,
    ensures
        ymd_days(y, m, d1) < ymd_days(y, m, d2),
{
}

/// Day 6 of month 13 is a date exactly in the years that are 3 modulo 4.
pub proof fn lemma_leap_day(y: int)
    ensures
        valid_ymd(y, 13, 6) <==> y % 4 == 3,
        valid_ymd(y, 13, 5),
{
}

impl Calendar for Coptic {
    type Date = Date;
    type Variant = Variant;

    open spec fn is_valid(date: Date) -> bool {
        valid_ymd(date.year as int, date.month as int, date.day as int)
    }

    open spec fn day_number(date: Date) -> int {
        ymd_days(date.year as int, date.month as int, date.day as int)
    }

    open spec fn year_of(ed: int) -> int {
        year_of_days(ed)
    }

    open spec fn date_of(ed: int) -> Date {
        Date { year: year_of_days(ed) as i32, month: month_of_days(ed) as u8, day: day_of_month(ed) as u8 }
    }

    open spec fn next_date(date: Date) -> Date {
        if (date.day as int) < month_length(date.year as int, date.month as int) {
            Date { day: (date.day + 1) as u8, ..date }
        } else if date.month < 13 {
            Date { month: (date.month + 1) as u8, day: 1, ..date }
        } else {
            Date { year: (date.year + 1) as i32, month: 1, day: 1 }
        }
    }

    /// Every valid date but day 6 of month 13, day 5 of month 13 in a year
    /// that is 0 modulo 4 (the count leaves a day unnamed after it), and the
    /// last day of the largest year of the date record.
    open spec fn steps(date: Date) -> bool {
        &&& !(date.month == 13 && date.day == 6)
        &&& !(date.month == 13 && date.day == 5 && date.year % 4 == 0)
        &&& !(date.year == i32::MAX && date.month == 13
            && date.day as int == month_length(date.year as int, 13))
    }

    proof fn lemma_next(date: Date) {
        lemma_year_length(date.year as int);
    }

    /// All valid dates but the sixth day of month 13: that day counts the
    /// same as the first day of the next year.
    open spec fn recovers(date: Date) -> bool {
        !(date.month == 13 && date.day == 6)
    }

    /// Day counts whose year fits, apart from the last day of each 4-year
    /// cycle, which no date counts to.
    open spec fn covers(ed: int) -> bool {
        year_fits(year_of_days(ed)) && (ed - COPTIC_EPOCH) % 1461 != 1460
    }

    proof fn lemma_recovers(date: Date) {
        let y = date.year as int;
        let m = date.month as int;
        let d = date.day as int;
        let x = y - 1;
        vstd::arithmetic::div_mod::lemma_fundamental_div_mod(x, 4);
        let k = x / 4;
        let j = x % 4;
        let doy = 30 * (m - 1) + d - 1;
        let ed = ymd_days(y, m, d);
        assert(0 <= doy <= 364);
        lemma_fundamental_div_mod_converse(ed - COPTIC_EPOCH, 1461, k, 365 * j + doy);
        lemma_inverse_parts(ed);
        lemma_fundamental_div_mod_converse(365 * j + doy, 365, j, doy);
        assert(year_of_days(ed) == y);
        assert(day_of_year(ed) == doy);
        if m <= 12 {
            lemma_fundamental_div_mod_converse(doy, 30, m - 1, d - 1);
        }
    }

    proof fn lemma_covers(ed: int) {
        lemma_inverse_parts(ed);
        let doy = day_of_year(ed);
        vstd::arithmetic::div_mod::lemma_fundamental_div_mod(doy, 30);
    }

    fn to_epoch_day(date: &Date, var: &Variant) -> (r: Result<EpochDay, CalError>) {
        let rd = Self::ymd_to_rd(date.year as i64, date.month as i64, date.day as i64)?;
        Ok(EpochDay(rd))
    }

    fn from_epoch_day(ed: EpochDay, var: &Variant) -> (r: Result<Date, CalError>) {
        if ed.0 < i64::MIN + COPTIC_EPOCH + 1461 {
            proof {
                lemma_inverse_parts(ed.0 as int);
            }
            return Err(CalError::Underflow);
        }
        let (y, m, d) = Self::rd_to_ymd(ed.0);
        if y > i32::MAX as i64 {
            Err(CalError::Overflow)
        } else if y < i32::MIN as i64 {
            Err(CalError::Underflow)
        } else {
            Ok(Date { year: y as i32, month: m as u8, day: d as u8 })
        }
    }
}

} // verus!
