use calz::coptic::{Coptic, Date as CDate, Variant as CVar};
use calz::gregorian::{Date as GDate, Gregorian, Variant as GVar};
use calz::islamic::{Date as IDate, Islamic, Variant as IVar};
use calz::math::{div_floor, mod_floor};
use calz::{convert, CalError, Calendar, EpochDay};

fn g(year: i32, month: u8, day: u8) -> GDate {
    GDate { year, month, day }
}

fn c(year: i32, month: u8, day: u8) -> CDate {
    CDate { year, month, day }
}

fn i(year: i32, month: u8, day: u8) -> IDate {
    IDate { year, month, day }
}

#[test]
fn floor_division_rounds_down() {
    assert_eq!(div_floor(7, 2), 3);
    assert_eq!(div_floor(-7, 2), -4);
    assert_eq!(div_floor(7, -2), -4);
    assert_eq!(div_floor(-7, -2), 3);
    assert_eq!(div_floor(-8, 2), -4);
    assert_eq!(div_floor(i64::MIN, 1), i64::MIN);
    assert_eq!(div_floor(i64::MIN, 3), -3074457345618258603);
}

#[test]
fn floor_modulo_is_nonnegative_for_positive_divisor() {
    assert_eq!(mod_floor(7, 2), 1);
    assert_eq!(mod_floor(-7, 2), 1);
    assert_eq!(mod_floor(-1, 1461), 1460);
    assert_eq!(mod_floor(7, -2), -1);
    assert_eq!(mod_floor(-8, 2), 0);
    assert_eq!(mod_floor(i64::MIN, 3), 1);
}

#[test]
fn epoch_anchor() {
    assert_eq!(Gregorian::to_epoch_day(&g(1, 1, 1), &GVar::Proleptic), Ok(EpochDay(0)));
    assert_eq!(Gregorian::from_epoch_day(EpochDay(0), &GVar::Proleptic), Ok(g(1, 1, 1)));
    assert_eq!(Gregorian::from_epoch_day(EpochDay(-1), &GVar::Proleptic), Ok(g(0, 12, 31)));
    assert_eq!(Coptic::to_epoch_day(&c(1, 1, 1), &CVar::Proleptic), Ok(EpochDay(103604)));
    assert_eq!(Islamic::to_epoch_day(&i(1, 1, 1), &IVar::Civil), Ok(EpochDay(227013)));
    assert_eq!(Coptic::from_epoch_day(EpochDay(0), &CVar::Proleptic), Ok(c(-283, 5, 8)));
    assert_eq!(Islamic::from_epoch_day(EpochDay(0), &IVar::Civil), Ok(i(-640, 5, 19)));
}

#[test]
fn gregorian_leap_years() {
    assert_eq!(Gregorian::to_epoch_day(&g(2000, 2, 29), &GVar::Proleptic), Ok(EpochDay(730178)));
    assert_eq!(Gregorian::to_epoch_day(&g(1900, 2, 29), &GVar::Proleptic), Err(CalError::InvalidDate));
    assert_eq!(Gregorian::to_epoch_day(&g(2024, 2, 29), &GVar::Proleptic).is_ok(), true);
    assert_eq!(Gregorian::to_epoch_day(&g(2023, 2, 29), &GVar::Proleptic), Err(CalError::InvalidDate));
    assert!(Gregorian::is_leap(2000));
    assert!(!Gregorian::is_leap(1900));
    assert!(Gregorian::is_leap(-4));
    assert!(!Gregorian::is_leap(-100));
}

#[test]
fn coptic_leap_day() {
    assert!(Coptic::to_epoch_day(&c(3, 13, 6), &CVar::Proleptic).is_ok());
    assert!(Coptic::to_epoch_day(&c(1739, 13, 6), &CVar::Proleptic).is_ok());
    assert!(Coptic::to_epoch_day(&c(-1, 13, 6), &CVar::Proleptic).is_ok());
    assert_eq!(Coptic::to_epoch_day(&c(4, 13, 6), &CVar::Proleptic), Err(CalError::InvalidDate));
    assert_eq!(Coptic::to_epoch_day(&c(1741, 13, 6), &CVar::Proleptic), Err(CalError::InvalidDate));
    assert!(Coptic::to_epoch_day(&c(1741, 13, 5), &CVar::Proleptic).is_ok());
    assert!(Coptic::is_leap(3));
    assert!(Coptic::is_leap(-1));
    assert!(!Coptic::is_leap(4));
}

#[test]
fn islamic_leap_day() {
    assert!(Islamic::is_leap(1442));
    assert!(!Islamic::is_leap(1443));
    assert!(Islamic::to_epoch_day(&i(1442, 12, 30), &IVar::Civil).is_ok());
    assert_eq!(Islamic::to_epoch_day(&i(1443, 12, 30), &IVar::Civil), Err(CalError::InvalidDate));
    assert!(Islamic::to_epoch_day(&i(1443, 12, 29), &IVar::Civil).is_ok());
}

#[test]
fn boundary_rejection() {
    assert_eq!(Gregorian::to_epoch_day(&g(2025, 0, 1), &GVar::Proleptic), Err(CalError::InvalidDate));
    assert_eq!(Gregorian::to_epoch_day(&g(2025, 13, 1), &GVar::Proleptic), Err(CalError::InvalidDate));
    assert_eq!(Gregorian::to_epoch_day(&g(2025, 1, 0), &GVar::Proleptic), Err(CalError::InvalidDate));
    assert_eq!(Gregorian::to_epoch_day(&g(2025, 4, 31), &GVar::Proleptic), Err(CalError::InvalidDate));
    assert_eq!(Gregorian::to_epoch_day(&g(2025, 1, 32), &GVar::Proleptic), Err(CalError::InvalidDate));
    assert_eq!(Islamic::to_epoch_day(&i(1447, 0, 1), &IVar::Civil), Err(CalError::InvalidDate));
    assert_eq!(Islamic::to_epoch_day(&i(1447, 13, 1), &IVar::Civil), Err(CalError::InvalidDate));
    assert_eq!(Islamic::to_epoch_day(&i(1447, 2, 30), &IVar::Civil), Err(CalError::InvalidDate));
    assert_eq!(Islamic::to_epoch_day(&i(1447, 1, 0), &IVar::Civil), Err(CalError::InvalidDate));
    assert_eq!(Coptic::to_epoch_day(&c(1741, 0, 1), &CVar::Proleptic), Err(CalError::InvalidDate));
    assert_eq!(Coptic::to_epoch_day(&c(1741, 14, 1), &CVar::Proleptic), Err(CalError::InvalidDate));
    assert_eq!(Coptic::to_epoch_day(&c(1741, 5, 31), &CVar::Proleptic), Err(CalError::InvalidDate));
    assert_eq!(Coptic::to_epoch_day(&c(1741, 5, 0), &CVar::Proleptic), Err(CalError::InvalidDate));
}

#[test]
fn later_day_has_greater_count() {
    let a = Gregorian::to_epoch_day(&g(2025, 8, 1), &GVar::Proleptic).unwrap();
    let b = Gregorian::to_epoch_day(&g(2025, 8, 23), &GVar::Proleptic).unwrap();
    assert_eq!(b.0 - a.0, 22);
    let a = Coptic::to_epoch_day(&c(1741, 13, 1), &CVar::Proleptic).unwrap();
    let b = Coptic::to_epoch_day(&c(1741, 13, 5), &CVar::Proleptic).unwrap();
    assert!(a < b);
    let a = Islamic::to_epoch_day(&i(1447, 2, 1), &IVar::Civil).unwrap();
    let b = Islamic::to_epoch_day(&i(1447, 2, 29), &IVar::Civil).unwrap();
    assert_eq!(b.0 - a.0, 28);
}

#[test]
fn next_epoch_day_is_next_date() {
    let e = Gregorian::to_epoch_day(&g(2024, 2, 28), &GVar::Proleptic).unwrap();
    assert_eq!(Gregorian::from_epoch_day(EpochDay(e.0 + 1), &GVar::Proleptic), Ok(g(2024, 2, 29)));
    assert_eq!(Gregorian::from_epoch_day(EpochDay(e.0 + 2), &GVar::Proleptic), Ok(g(2024, 3, 1)));
    let e = Gregorian::to_epoch_day(&g(2023, 12, 31), &GVar::Proleptic).unwrap();
    assert_eq!(Gregorian::from_epoch_day(EpochDay(e.0 + 1), &GVar::Proleptic), Ok(g(2024, 1, 1)));
    let e = Coptic::to_epoch_day(&c(1741, 12, 30), &CVar::Proleptic).unwrap();
    assert_eq!(Coptic::from_epoch_day(EpochDay(e.0 + 1), &CVar::Proleptic), Ok(c(1741, 13, 1)));
    let e = Islamic::to_epoch_day(&i(1447, 1, 30), &IVar::Civil).unwrap();
    assert_eq!(Islamic::from_epoch_day(EpochDay(e.0 + 1), &IVar::Civil), Ok(i(1447, 2, 1)));
}

#[test]
fn gregorian_days_step_through_every_date() {
    let mut prev = Gregorian::from_epoch_day(EpochDay(-800), &GVar::Proleptic).unwrap();
    let mut ed: i64 = -799;
    while ed < 800_000 {
        let d = Gregorian::from_epoch_day(EpochDay(ed), &GVar::Proleptic).unwrap();
        let expected = if Gregorian::to_epoch_day(&g(prev.year, prev.month, prev.day + 1), &GVar::Proleptic).is_ok() {
            g(prev.year, prev.month, prev.day + 1)
        } else if prev.month < 12 {
            g(prev.year, prev.month + 1, 1)
        } else {
            g(prev.year + 1, 1, 1)
        };
        assert_eq!(d, expected);
        prev = d;
        ed += 1;
    }
}

#[test]
fn round_trip_within_each_calendar() {
    for year in [-401, -1, 0, 1, 4, 100, 400, 1582, 1900, 2000, 2024, 2025] {
        for month in 1..=12u8 {
            for day in 1..=31u8 {
                let d = g(year, month, day);
                if let Ok(e) = Gregorian::to_epoch_day(&d, &GVar::Proleptic) {
                    assert_eq!(Gregorian::from_epoch_day(e, &GVar::Proleptic), Ok(d));
                }
            }
        }
    }
    for year in [-5, -1, 0, 1, 2, 3, 4, 5, 1739, 1740, 1741] {
        for month in 1..=13u8 {
            for day in 1..=30u8 {
                let d = c(year, month, day);
                if month == 13 && day == 6 {
                    continue;
                }
                if let Ok(e) = Coptic::to_epoch_day(&d, &CVar::Proleptic) {
                    assert_eq!(Coptic::from_epoch_day(e, &CVar::Proleptic), Ok(d));
                }
            }
        }
    }
    for year in [-30, -1, 0, 1, 2, 3, 1440, 1441, 1442, 1443, 1444, 1447] {
        for month in 1..=12u8 {
            for day in 1..=30u8 {
                let d = i(year, month, day);
                if month == 1 && day == 1 && Islamic::is_leap(year as i64 - 1) {
                    continue;
                }
                if let Ok(e) = Islamic::to_epoch_day(&d, &IVar::Civil) {
                    assert_eq!(Islamic::from_epoch_day(e, &IVar::Civil), Ok(d));
                }
            }
        }
    }
}

#[test]
fn coptic_sixth_epagomenal_day_shares_the_next_new_year() {
    let a = Coptic::to_epoch_day(&c(3, 13, 6), &CVar::Proleptic).unwrap();
    let b = Coptic::to_epoch_day(&c(4, 1, 1), &CVar::Proleptic).unwrap();
    assert_eq!(a, EpochDay(104699));
    assert_eq!(a, b);
    assert_eq!(Coptic::from_epoch_day(a, &CVar::Proleptic), Ok(c(4, 1, 1)));
}

#[test]
fn coptic_unnamed_day_of_the_cycle() {
    assert_eq!(Coptic::from_epoch_day(EpochDay(103604 + 1460), &CVar::Proleptic), Ok(c(5, 0, 30)));
    assert_eq!(Coptic::rd_to_ymd(103604 + 1460), (5, 0, 30));
}

#[test]
fn islamic_new_year_after_leap_year() {
    let e = Islamic::to_epoch_day(&i(1446, 1, 1), &IVar::Civil).unwrap();
    assert_eq!(e, EpochDay(739072));
    assert_eq!(Islamic::to_epoch_day(&i(1445, 12, 30), &IVar::Civil), Ok(e));
    assert_eq!(Islamic::from_epoch_day(e, &IVar::Civil), Ok(i(1445, 12, 30)));
}

#[test]
fn islamic_month_scan_stops_by_month_thirteen() {
    assert_eq!(Islamic::rd_to_ymd(700800), (1337, 13, 1));
    let mut ed: i64 = 600_000;
    while ed < 760_000 {
        let (_, m, d) = Islamic::rd_to_ymd(ed);
        assert!(1 <= m && m <= 13);
        assert!(1 <= d && d <= 30);
        ed += 1;
    }
}

#[test]
fn concrete_scenario_chain() {
    let g_in = g(2025, 8, 23);
    let e = Gregorian::to_epoch_day(&g_in, &GVar::Proleptic).unwrap();
    assert_eq!(e, EpochDay(739485));
    assert_eq!(Gregorian::from_epoch_day(e, &GVar::Proleptic), Ok(g_in));
    let cop = Coptic::from_epoch_day(e, &CVar::Proleptic).unwrap();
    assert_eq!(cop, c(1741, 12, 17));
    let isl = Islamic::from_epoch_day(e, &IVar::Civil).unwrap();
    assert_eq!(isl, i(1447, 2, 29));
    let back_c = convert::<Coptic, Gregorian>(&cop, &CVar::Proleptic, &GVar::Proleptic);
    assert_eq!(back_c, Ok(g_in));
    let back_i = convert::<Islamic, Gregorian>(&isl, &IVar::Civil, &GVar::Proleptic);
    assert_eq!(back_i, Ok(g_in));
}

#[test]
fn round_trip_across_calendars() {
    let g_in = g(2025, 8, 23);
    let cop = convert::<Gregorian, Coptic>(&g_in, &GVar::Proleptic, &CVar::Proleptic).unwrap();
    assert_eq!(cop, c(1741, 12, 17));
    assert_eq!(convert::<Coptic, Gregorian>(&cop, &CVar::Proleptic, &GVar::Cutover), Ok(g_in));
    let isl = convert::<Gregorian, Islamic>(&g_in, &GVar::Cutover, &IVar::Civil).unwrap();
    assert_eq!(convert::<Islamic, Gregorian>(&isl, &IVar::Civil, &GVar::Proleptic), Ok(g_in));
    let c_in = c(1700, 3, 4);
    let isl = convert::<Coptic, Islamic>(&c_in, &CVar::Proleptic, &IVar::Civil).unwrap();
    assert_eq!(convert::<Islamic, Coptic>(&isl, &IVar::Civil, &CVar::Proleptic), Ok(c_in));
}

#[test]
fn convert_passes_on_invalid_date() {
    let r = convert::<Gregorian, Coptic>(&g(2025, 2, 30), &GVar::Proleptic, &CVar::Proleptic);
    assert_eq!(r, Err(CalError::InvalidDate));
    let r = convert::<Coptic, Islamic>(&c(1741, 13, 6), &CVar::Proleptic, &IVar::Civil);
    assert_eq!(r, Err(CalError::InvalidDate));
}

#[test]
fn year_field_limits() {
    let last = Gregorian::to_epoch_day(&g(i32::MAX, 12, 31), &GVar::Proleptic).unwrap();
    assert_eq!(Gregorian::from_epoch_day(last, &GVar::Proleptic), Ok(g(i32::MAX, 12, 31)));
    assert_eq!(Gregorian::from_epoch_day(EpochDay(last.0 + 1), &GVar::Proleptic), Err(CalError::Overflow));
    let first = Gregorian::to_epoch_day(&g(i32::MIN, 1, 1), &GVar::Proleptic).unwrap();
    assert_eq!(Gregorian::from_epoch_day(first, &GVar::Proleptic), Ok(g(i32::MIN, 1, 1)));
    assert_eq!(Gregorian::from_epoch_day(EpochDay(first.0 - 1), &GVar::Proleptic), Err(CalError::Underflow));
    assert_eq!(Gregorian::from_epoch_day(EpochDay(i64::MAX), &GVar::Proleptic), Err(CalError::Overflow));
    assert_eq!(Gregorian::from_epoch_day(EpochDay(i64::MIN), &GVar::Proleptic), Err(CalError::Underflow));
    assert_eq!(Coptic::from_epoch_day(EpochDay(i64::MAX), &CVar::Proleptic), Err(CalError::Overflow));
    assert_eq!(Coptic::from_epoch_day(EpochDay(i64::MIN), &CVar::Proleptic), Err(CalError::Underflow));
    assert_eq!(Islamic::from_epoch_day(EpochDay(i64::MAX), &IVar::Civil), Err(CalError::Overflow));
    assert_eq!(Islamic::from_epoch_day(EpochDay(i64::MIN), &IVar::Civil), Err(CalError::Underflow));
    let r = convert::<Gregorian, Islamic>(&g(i32::MAX, 1, 1), &GVar::Proleptic, &IVar::Civil);
    assert_eq!(r, Err(CalError::Overflow));
}

#[test]
fn low_level_forms() {
    assert_eq!(Gregorian::ymd_to_rd(2025, 8, 23), Ok(739485));
    assert_eq!(Gregorian::rd_to_ymd(739485), (2025, 8, 23));
    assert_eq!(Gregorian::rd_to_ymd(146097), (401, 1, 1));
    assert_eq!(Gregorian::rd_to_ymd(146096), (400, 12, 31));
    assert_eq!(Gregorian::rd_to_ymd(146095), (400, 12, 30));
    assert_eq!(Gregorian::doy_prefix(3, true), 60);
    assert_eq!(Gregorian::doy_prefix(3, false), 59);
    assert_eq!(Coptic::ymd_to_rd(1741, 12, 17), Ok(739485));
    assert_eq!(Coptic::rd_to_ymd(739485), (1741, 12, 17));
    assert_eq!(Islamic::ymd_to_rd(1447, 2, 29), Ok(739485));
    assert_eq!(Islamic::rd_to_ymd(739485), (1447, 2, 29));
}
