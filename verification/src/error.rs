//! Typed failures of construction and of the statistics engine.

use vstd::prelude::*;

verus! {

/// The column of a price row.
#[derive(Clone, Copy, Debug, PartialEq, Eq, Structural)]
pub enum Field {
    Date,
    Open,
    High,
    Low,
    Close,
    CloseAdj,
    Volume,
}

/// Why a price series could not be built. No partly built series is ever
/// handed out.
#[derive(Clone, Copy, Debug, PartialEq, Eq, Structural)]
pub enum StockError {
    /// The field `field` of row `row` (counted from zero) cannot be read.
    MalformedInput { row: usize, field: Field },
    /// The date of row `row` is not later than the date of the row before it.
    UnorderedDates { row: usize },
}

/// Why a sample has no statistics.
#[derive(Clone, Copy, Debug, PartialEq, Eq, Structural)]
pub enum StatError {
    /// The sample is empty: extrema and quartiles are undefined.
    InsufficientData,
    /// The sample holds a single value: the sample deviation divides by
    /// `count - 1`, which is zero.
    DegenerateVariance,
}

} // verus!
