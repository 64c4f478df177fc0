use vstd::prelude::*;
use vstd::arithmetic::div_mod::{lemma_fundamental_div_mod, lemma_fundamental_div_mod_converse};
use crate::epoch::EpochDay;
use crate::error::CalError;
use crate::math::div_floor;
use crate::traits::{year_fits, Calendar};

verus! {

/// A tabular Islamic date; nothing is checked until it is converted.
#[derive(Debug, Clone, Copy, PartialEq, Eq, Structural)]
pub struct Date {
    pub year: i32,
    pub month: u8,
    pub day: u8,
}

/// How Islamic dates are read.
#[derive(Debug, Clone, Copy, PartialEq, Eq, Structural)]
pub enum Variant {
    /// The arithmetical (tabular) calendar.
    Civil,
}

/// The tabular Islamic calendar: 11 leap years in each 30-year cycle.
pub struct Islamic;

/// Day count of day 1 of month 1 of Islamic year 1.
pub const ISLAMIC_EPOCH: i64 = 227013;

/// Day counts this far from the epoch lie in years far outside the date record.
pub const ISLAMIC_SPAN: i64 = 1099511627776;

/// A year is leap when `(11y + 14) mod 30 < 11`.
pub open spec fn is_leap_year(y: int) -> bool {
    (11 * y + 14) % 30 < 11
}

/// Days in month `m` of year `y`: odd months 30, even months 29, and
/// month 12 has 30 in a leap year.
pub open spec fn month_length(y: int, m: int) -> int {
    if m == 12 {
        if is_leap_year(y) { 30 } else { 29 }
    } else if m % 2 == 1 && m < 12 {
        30
    } else {
        29
    }
}

/// Days of year `y` before month `m` (1 to 13, where 13 is past the year's end).
pub open spec fn days_before_month(y: int, m: int) -> int {
    if m <= 1 { 0 } else if m == 2 { 30 } else if m == 3 { 59 } else if m == 4 { 89 }
    else if m == 5 { 118 } else if m == 6 { 148 } else if m == 7 { 177 } else if m == 8 { 207 }
    else if m == 9 { 236 } else if m == 10 { 266 } else if m == 11 { 295 } else if m == 12 { 325 }
    else if is_leap_year(y) { 355 } else { 354 }
}

pub open spec fn valid_ymd(y: int, m: int, d: int) -> bool {
    1 <= m <= 12 && 1 <= d <= month_length(y, m)
}

/// Days from the calendar's epoch to the first day of year `y`.
pub open spec fn days_before_year(y: int) -> int {
    354 * (y - 1) + (3 + 11 * (y - 1)) / 30
}

/// Day count of `(y, m, d)`.
pub open spec fn ymd_days(y: int, m: int, d: int) -> int {
    ISLAMIC_EPOCH + days_before_year(y) + days_before_month(y, m) + d - 1
}

/// Year that the inverse formula estimates for day `ed`.
pub open spec fn year_of_days(ed: int) -> int {
    (30 * (ed - ISLAMIC_EPOCH) + 10646) / 10631
}

/// Day of that year, from 0, for day `ed`.
pub open spec fn day_of_year(ed: int) -> int {
    ed - ISLAMIC_EPOCH - days_before_year(year_of_days(ed))
}

/// The month holding 0-based day `doy` of year `y`, scanning upward from
/// month `m`; a day past month 12 falls in month 13.
pub open spec fn month_from(y: int, doy: int, m: int) -> int
    decreases 13 - m,
{
    if m >= 13 || doy < days_before_month(y, m + 1) {
        m
    } else {
        month_from(y, doy, m + 1)
    }
}

/// Month of day `ed`.
pub open spec fn month_of_days(ed: int) -> int {
    month_from(year_of_days(ed), day_of_year(ed), 1)
}

/// Day of the month of day `ed`.
pub open spec fn day_of_month(ed: int) -> int {
    day_of_year(ed) - days_before_month(year_of_days(ed), month_of_days(ed)) + 1
}

/// The day of the year that the inverse formula finds lies in `[0, 354]`.
proof fn lemma_day_of_year_bounds(ed: int)
    ensures
        0 <= day_of_year(ed) <= 354,
{
    let days = ed - ISLAMIC_EPOCH;
    lemma_fundamental_div_mod(30 * days + 10646, 10631);
    let y = year_of_days(ed);
    lemma_fundamental_div_mod(3 + 11 * (y - 1), 30);
}

/// The month scan places every day of the year before month 13's start in a
/// month, at a day within that month's length.
proof fn lemma_month_from_bounds(y: int, doy: int)
    requires
        0 <= doy,
    ensures
        1 <= month_from(y, doy, 1) <= 13,
        days_before_month(y, month_from(y, doy, 1)) <= doy,
        doy < days_before_month(y, 13) ==> month_from(y, doy, 1) <= 12,
        month_from(y, doy, 1) <= 12
            ==> doy - days_before_month(y, month_from(y, doy, 1)) < month_length(y, month_from(y, doy, 1)),
{
    reveal_with_fuel(month_from, 13);
}

/// The month scan finds the month of a valid date.
proof fn lemma_month_from(y: int, m: int, d: int)
    requires
        valid_ymd(y, m, d),
    ensures
        month_from(y, days_before_month(y, m) + d - 1, 1) == m,
{
    reveal_with_fuel(month_from, 13);
}

impl Islamic {
    /// Leap rule of the tabular Islamic calendar.
    pub fn is_leap(y: i64) -> (r: bool)
        requires
            -ISLAMIC_SPAN <= y <= ISLAMIC_SPAN,
        ensures
            r == is_leap_year(y as int),
    {
        crate::math::mod_floor(11 * y + 14, 30) < 11
    }

    /// Days in month `m` (1 to 13) of year `y`.
    fn month_days(y: i64, m: i64) -> (r: i64)
        requires
            -ISLAMIC_SPAN <= y <= ISLAMIC_SPAN,
            1 <= m <= 13,
        ensures
            r == month_length(y as int, m as int),
    {
        if m == 12 {
            if Self::is_leap(y) { 30 } else { 29 }
        } else if m % 2 == 1 && m < 12 {
            30
        } else {
            29
        }
    }

    /// Checks `(y, m, d)` and returns its day count.
    pub fn ymd_to_rd(y: i64, m: i64, d: i64) -> (r: Result<i64, CalError>)
        requires
            i32::MIN <= y <= i32::MAX,
        ensures
            match r {
                Ok(e) => valid_ymd(y as int, m as int, d as int) && e == ymd_days(y as int, m as int, d as int),
                Err(x) => !valid_ymd(y as int, m as int, d as int) && x == CalError::InvalidDate,
            },
    {
        if m < 1 || m > 12 {
            return Err(CalError::InvalidDate);
        }
        if d < 1 {
            return Err(CalError::InvalidDate);
        }
        let mdays = Self::month_days(y, m);
        if d > mdays {
            return Err(CalError::InvalidDate);
        }
        let y1 = y - 1;
        let days_before_year = 354 * y1 + div_floor(3 + 11 * y1, 30);
        let mut doy: i64 = 0;
        let mut mm: i64 = 1;
        while mm < m
            invariant
                1 <= mm <= m <= 12,
                i32::MIN <= y <= i32::MAX,
                doy == days_before_month(y as int, mm as int),
            decreases m - mm,
        {
            doy = doy + Self::month_days(y, mm);
            mm = mm + 1;
        }
        doy = doy + d - 1;
        Ok(ISLAMIC_EPOCH + days_before_year + doy)
    }

    /// Year, month and day of a day count: the year by its estimate, then
    /// the month by a scan of month lengths.
    pub fn rd_to_ymd(rd: i64) -> (r: (i64, i64, i64))
        requires
            -ISLAMIC_SPAN <= rd <= ISLAMIC_SPAN,
        ensures
            r.0 == year_of_days(rd as int),
            r.1 == month_of_days(rd as int),
            r.2 == day_of_month(rd as int),
            1 <= r.1 <= 13,
            1 <= r.2 <= 30,
    {
        let days = rd - ISLAMIC_EPOCH;
        let year = div_floor(30 * days + 10646, 10631);
        proof {
            lemma_fundamental_div_mod(30 * days + 10646, 10631);
            lemma_day_of_year_bounds(rd as int);
            lemma_month_from_bounds(year as int, day_of_year(rd as int));
            assert(-ISLAMIC_SPAN <= year <= ISLAMIC_SPAN);
        }
        let start_of_year = 354 * (year - 1) + div_floor(3 + 11 * (year - 1), 30);
        let doy = days - start_of_year;
        let mut m: i64 = 1;
        let mut days_passed: i64 = 0;
        loop
            invariant
                1 <= m <= 13,
                0 <= doy <= 354,
                days_passed == days_before_month(year as int, m as int),
                days_passed <= doy,
                month_from(year as int, doy as int, m as int) == month_from(year as int, doy as int, 1),
                -ISLAMIC_SPAN <= year <= ISLAMIC_SPAN,
                year == year_of_days(rd as int),
                doy == day_of_year(rd as int),
            decreases doy - days_passed,
        {
            let mdays = Self::month_days(year, m);
            if doy < days_passed + mdays {
                let d = doy - days_passed + 1;
                return (year, m, d);
            }
            days_passed = days_passed + mdays;
            m = m + 1;
        }
    }
}

/// How the leap rule reads off the remainder of `3 + 11(y - 1)` modulo 30.
proof fn lemma_leap_remainder(y: int)
    ensures
        ({
            let r = (3 + 11 * (y - 1)) % 30;
            &&& 0 <= r < 30
            &&& 3 + 11 * (y - 1) == 30 * ((3 + 11 * (y - 1)) / 30) + r
            &&& is_leap_year(y - 1) <==> r >= 19
            &&& is_leap_year(y) <==> 8 <= r <= 18
        }),
{
    let x = 3 + 11 * (y - 1);
    lemma_fundamental_div_mod(x, 30);
    let t = x / 30;
    let r = x % 30;
    if r + 11 < 30 {
        lemma_fundamental_div_mod_converse(11 * (y - 1) + 14, 30, t, r + 11);
    } else {
        lemma_fundamental_div_mod_converse(11 * (y - 1) + 14, 30, t + 1, r + 11 - 30);
    }
    if r + 22 < 30 {
        lemma_fundamental_div_mod_converse(11 * y + 14, 30, t, r + 22);
    } else {
        lemma_fundamental_div_mod_converse(11 * y + 14, 30, t + 1, r + 22 - 30);
    }
}

/// A year is counted with 355 days when the year before it is a leap year,
/// else with 354.
proof fn lemma_year_length(y: int)
    ensures
        days_before_year(y + 1) == days_before_year(y) + if is_leap_year(y - 1) { 355int } else { 354int },
{
    lemma_leap_remainder(y);
    let t = (3 + 11 * (y - 1)) / 30;
    let r = (3 + 11 * (y - 1)) % 30;
    if r + 11 < 30 {
        lemma_fundamental_div_mod_converse(3 + 11 * y, 30, t, r + 11);
    } else {
        lemma_fundamental_div_mod_converse(3 + 11 * y, 30, t + 1, r + 11 - 30);
    }
}

/// Within one month, a later day has a strictly greater day count.
pub proof fn lemma_day_increases(y: int, m: int, d1: int, d2: int)
    requires
        valid_ymd(y, m, d1),
        valid_ymd(y, m, d2),
        d1 < d2,
    ensures
        ymd_days(y, m, d1) < ymd_days(y, m, d2),
{
}

/// Day 30 of month 12 is a date exactly in leap years.
pub proof fn lemma_leap_day(y: int)
    ensures
        valid_ymd(y, 12, 30) <==> is_leap_year(y),
        valid_ymd(y, 12, 29),
{
}

impl Calendar for Islamic {
    type Date = Date;
    type Variant = Variant;

    open spec fn is_valid(date: Date) -> bool {
        valid_ymd(date.year as int, date.month as int, date.day as int)
    }

    open spec fn day_number(date: Date) -> int {
        ymd_days(date.year as int, date.month as int, date.day as int)
    }

    open spec fn year_of(ed: int) -> int {
        year_of_days(ed)
    }

    open spec fn date_of(ed: int) -> Date {
        Date { year: year_of_days(ed) as i32, month: month_of_days(ed) as u8, day: day_of_month(ed) as u8 }
    }

    open spec fn next_date(date: Date) -> Date {
        if (date.day as int) < month_length(date.year as int, date.month as int) {
            Date { day: (date.day + 1) as u8, ..date }
        } else if date.month < 12 {
            Date { month: (date.month + 1) as u8, day: 1, ..date }
        } else {
            Date { year: (date.year + 1) as i32, month: 1, day: 1 }
        }
    }

    /// Every valid date but the last day of a year that is leap while the
    /// year before it is not, or the other way round (the count of the next
    /// year's start follows the year before), and the last day of the
    /// largest year of the date record.
    open spec fn steps(date: Date) -> bool {
        let last = date.month == 12 && date.day as int == month_length(date.year as int, 12);
        &&& !(last && is_leap_year(date.year as int) != is_leap_year(date.year - 1))
        &&& !(last && date.year == i32::MAX)
    }

    proof fn lemma_next(date: Date) {
        lemma_year_length(date.year as int);
    }

    /// All valid dates but the first day of a year that follows a leap year:
    /// the year estimate puts that day at the end of the year before.
    open spec fn recovers(date: Date) -> bool {
        !(date.month == 1 && date.day == 1 && is_leap_year(date.year - 1))
    }

    /// Day counts whose year fits and that the month scan places in months 1 to 12.
    open spec fn covers(ed: int) -> bool {
        year_fits(year_of_days(ed)) && month_of_days(ed) <= 12
    }

    proof fn lemma_recovers(date: Date) {
        let y = date.year as int;
        let m = date.month as int;
        let d = date.day as int;
        let doy = days_before_month(y, m) + d - 1;
        let ed = ymd_days(y, m, d);
        lemma_leap_remainder(y);
        let r = (3 + 11 * (y - 1)) % 30;
        assert(0 <= doy <= 354);
        assert(doy == 354 ==> is_leap_year(y));
        assert(doy == 0 ==> !is_leap_year(y - 1));
        lemma_fundamental_div_mod_converse(
            30 * (ed - ISLAMIC_EPOCH) + 10646,
            10631,
            y,
            18 - r + 30 * doy,
        );
        assert(year_of_days(ed) == y);
        assert(day_of_year(ed) == doy);
        lemma_month_from(y, m, d);
    }

    proof fn lemma_covers(ed: int) {
        lemma_day_of_year_bounds(ed);
        lemma_month_from_bounds(year_of_days(ed), day_of_year(ed));
    }

    fn to_epoch_day(date: &Date, var: &Variant) -> (r: Result<EpochDay, CalError>) {
        let rd = Self::ymd_to_rd(date.year as i64, date.month as i64, date.day as i64)?;
        Ok(EpochDay(rd))
    }

    fn from_epoch_day(ed: EpochDay, var: &Variant) -> (r: Result<Date, CalError>) {
        if ed.0 > ISLAMIC_SPAN || ed.0 < -ISLAMIC_SPAN {
            proof {
                lemma_fundamental_div_mod(30 * (ed.0 - ISLAMIC_EPOCH) + 10646, 10631);
            }
            return if ed.0 > 0 { Err(CalError::Overflow) } else { Err(CalError::Underflow) };
        }
        let (y, m, d) = Self::rd_to_ymd(ed.0);
        if y > i32::MAX as i64 {
            Err(CalError::Overflow)
        } else if y < i32::MIN as i64 {
            Err(CalError::Underflow)
        } else {
            Ok(Date { year: y as i32, month: m as u8, day: d as u8 })
        }
    }
}

} // verus!
