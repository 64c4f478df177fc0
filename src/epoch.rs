use vstd::prelude::*;

verus! {

/// A count of days since proleptic Gregorian 0001-01-01, which is day 0.
/// Later days are positive, earlier days negative.
#[derive(Debug, Clone, Copy, PartialEq, Eq, Structural, PartialOrd, Ord)]
pub struct EpochDay(pub i64);

} // verus!
