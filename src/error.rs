use vstd::prelude::*;

verus! {

/// Why a conversion did not produce a result.
#[derive(Debug, Clone, Copy, PartialEq, Eq, Structural)]
pub enum CalError {
    InvalidDate,
    DayOutOfRange,
    MonthOutOfRange,
    OutOfRange,
    NeedsContext,
    InvalidContext,
    MissingDeltaT,
    TableMissing,
    UnknownEra,
    ConversionFailed,
    Overflow,
    Underflow,
}

} // verus!
