//! Daily price bars.

use vstd::prelude::*;
use crate::date::Date;

verus! {

/// One daily bar. The five quotes are the 64-bit words that encode them;
/// the library carries them and never computes on them.
#[derive(Clone, Copy, Debug, PartialEq, Eq, Structural)]
pub struct Price {
    pub date: Date,
    pub open: u64,
    pub high: u64,
    pub low: u64,
    pub close: u64,
    pub close_adj: u64,
    pub volume: u64,
}

/// A bar as an adapter delivers it: the date still as text, the numbers
/// already read.
#[derive(Clone, Debug, PartialEq, Eq)]
pub struct RawPrice {
    pub date: String,
    pub open: u64,
    pub high: u64,
    pub low: u64,
    pub close: u64,
    pub close_adj: u64,
    pub volume: u64,
}

impl Price {
    /// The bar that `raw` stands for, where its date can be read.
    pub open spec fn spec_from_raw(raw: RawPrice) -> Option<Price> {
        match Date::spec_parse(raw.date@) {
            Some(date) => Some(
                Price {
                    date,
                    open: raw.open,
                    high: raw.high,
                    low: raw.low,
                    close: raw.close,
                    close_adj: raw.close_adj,
                    volume: raw.volume,
                },
            ),
            None => None,
        }
    }

    pub fn new(
        date: Date,
        open: u64,
        high: u64,
        low: u64,
        close: u64,
        close_adj: u64,
        volume: u64,
    ) -> (r: Price)
        ensures
            r == (Price { date, open, high, low, close, close_adj, volume }),
    {
        Price { date, open, high, low, close, close_adj, volume }
    }

    /// Reads the date of `raw` and keeps its numbers. `None` exactly where
    /// the date is not of the form `YYYY-MM-DD`.
    pub fn from_raw(raw: &RawPrice) -> (r: Option<Price>)
        ensures
            r == Price::spec_from_raw(*raw),
    {
        match Date::parse(raw.date.as_str()) {
            Some(date) => Some(
                Price {
                    date,
                    open: raw.open,
                    high: raw.high,
                    low: raw.low,
                    close: raw.close,
                    close_adj: raw.close_adj,
                    volume: raw.volume,
                },
            ),
            None => None,
        }
    }
}

} // verus!
