use vstd::prelude::*;
use crate::epoch::EpochDay;
use crate::error::CalError;

verus! {

/// Bounds of the year field of every calendar's date record.
pub open spec fn year_fits(y: int) -> bool {
    i32::MIN <= y <= i32::MAX
}

/// The spec-level result of turning a day count into a date of `C`.
pub open spec fn from_days_result<C: Calendar>(ed: int) -> Result<C::Date, CalError> {
    if C::year_of(ed) > i32::MAX {
        Err(CalError::Overflow)
    } else if C::year_of(ed) < i32::MIN {
        Err(CalError::Underflow)
    } else {
        Ok(C::date_of(ed))
    }
}

/// The spec-level result of turning a date of `C` into a day count.
pub open spec fn to_days_result<C: Calendar>(date: C::Date) -> Result<int, CalError> {
    if C::is_valid(date) {
        Ok(C::day_number(date))
    } else {
        Err(CalError::InvalidDate)
    }
}

/// A calendar system that maps its own dates to and from a shared day count.
pub trait Calendar: Sized {
    type Date;
    type Variant;

    /// The date names a real day of this calendar (month and day in range).
    spec fn is_valid(date: Self::Date) -> bool;

    /// The day count of a date, by the calendar's forward formula.
    spec fn day_number(date: Self::Date) -> int;

    /// The year that the inverse formula gives for a day count.
    spec fn year_of(ed: int) -> int;

    /// The date that the inverse formula gives for a day count, once its year fits.
    spec fn date_of(ed: int) -> Self::Date;

    /// Valid dates that the inverse formula maps back to themselves.
    spec fn recovers(date: Self::Date) -> bool;

    /// Day counts whose computed date is valid and counts back to them.
    spec fn covers(ed: int) -> bool;

    /// The date that follows `date` in the calendar's own order.
    spec fn next_date(date: Self::Date) -> Self::Date;

    /// Valid dates whose following date counts exactly one day later.
    spec fn steps(date: Self::Date) -> bool;

    /// A stepping date is followed by a valid date one day later.
    proof fn lemma_next(date: Self::Date)
        requires
            Self::is_valid(date),
            Self::steps(date),
        ensures
            Self::is_valid(Self::next_date(date)),
            Self::day_number(Self::next_date(date)) == Self::day_number(date) + 1,
    ;

    /// A recovered date comes back unchanged from its own day count.
    proof fn lemma_recovers(date: Self::Date)
        requires
            Self::is_valid(date),
            Self::recovers(date),
        ensures
            year_fits(Self::year_of(Self::day_number(date))),
            Self::date_of(Self::day_number(date)) == date,
    ;

    /// A covered day count yields a valid date that counts back to it.
    proof fn lemma_covers(ed: int)
        requires
            Self::covers(ed),
        ensures
            year_fits(Self::year_of(ed)),
            Self::is_valid(Self::date_of(ed)),
            Self::day_number(Self::date_of(ed)) == ed,
    ;

    /// Validates `date` and returns its day count; `InvalidDate` when the
    /// month or the day is out of range.
    fn to_epoch_day(date: &Self::Date, var: &Self::Variant) -> (r: Result<EpochDay, CalError>)
        ensures
            match r {
                Ok(e) => Self::is_valid(*date) && e.0 == Self::day_number(*date),
                Err(x) => !Self::is_valid(*date) && x == CalError::InvalidDate,
            },
    ;

    /// Computes the date of a day count; `Overflow` or `Underflow` when its
    /// year does not fit the date record.
    fn from_epoch_day(ed: EpochDay, var: &Self::Variant) -> (r: Result<Self::Date, CalError>)
        ensures
            match r {
                Ok(d) => year_fits(Self::year_of(ed.0 as int)) && d == Self::date_of(ed.0 as int),
                Err(x) => (Self::year_of(ed.0 as int) > i32::MAX && x == CalError::Overflow)
                    || (Self::year_of(ed.0 as int) < i32::MIN && x == CalError::Underflow),
            },
    ;
}

/// Converts a date of calendar `A` into calendar `B` through its day count.
pub fn convert<A: Calendar, B: Calendar>(
    a_date: &A::Date,
    a_var: &A::Variant,
    b_var: &B::Variant,
) -> (r: Result<B::Date, CalError>)
    ensures
        r == (match to_days_result::<A>(*a_date) {
            Ok(e) => from_days_result::<B>(e),
            Err(x) => Err(x),
        }),
{
    let ed = A::to_epoch_day(a_date, a_var)?;
    B::from_epoch_day(ed, b_var)
}

/// Converting a date to a day count and back gives the date again, for
/// every date that the calendar recovers.
pub proof fn lemma_round_trip<C: Calendar>(d: C::Date)
    requires
        C::is_valid(d),
        C::recovers(d),
    ensures
        (match to_days_result::<C>(d) {
            Ok(e) => from_days_result::<C>(e),
            Err(x) => Err(x),
        }) == Ok::<C::Date, CalError>(d),
{
    C::lemma_recovers(d);
}

/// The day after a covered day count converts to the date that follows its
/// date, where that date steps by one day and is itself recovered.
pub proof fn lemma_next_day<C: Calendar>(ed: int)
    requires
        C::covers(ed),
        C::steps(C::date_of(ed)),
        C::recovers(C::next_date(C::date_of(ed))),
    ensures
        from_days_result::<C>(ed) == Ok::<C::Date, CalError>(C::date_of(ed)),
        from_days_result::<C>(ed + 1) == Ok::<C::Date, CalError>(C::next_date(C::date_of(ed))),
{
    C::lemma_covers(ed);
    let d = C::date_of(ed);
    C::lemma_next(d);
    C::lemma_recovers(C::next_date(d));
}

/// Converting a date to another calendar and back gives the date again,
/// when the source calendar recovers the date and the target calendar
/// covers its day count.
pub proof fn lemma_convert_round_trip<A: Calendar, B: Calendar>(d: A::Date)
    requires
        A::is_valid(d),
        A::recovers(d),
        B::covers(A::day_number(d)),
    ensures
        (match to_days_result::<A>(d) {
            Ok(e) => from_days_result::<B>(e),
            Err(x) => Err(x),
        }) matches Ok(d2) && (match to_days_result::<B>(d2) {
            Ok(e) => from_days_result::<A>(e),
            Err(x) => Err(x),
        }) == Ok::<A::Date, CalError>(d),
{
    let e = A::day_number(d);
    B::lemma_covers(e);
    A::lemma_recovers(d);
}

} // verus!
