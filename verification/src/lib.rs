//! Holding-period return statistics for the daily price history of one
//! instrument.
//!
//! A [`stock::Stock`] owns a date-ordered series of price bars. From it the
//! library derives, once, the index of every (buy-day, sell-day) pair and its
//! partition by calendar year, selects the pairs that enter each of the
//! canonical queries, and reduces a sample to its order statistics: count,
//! extrema and the brackets of the three quartiles.
//!
//! The library computes on integers only. A quote is carried as the 64-bit
//! word that encodes it, and a sample value as an integer key whose order is
//! the order of the values (see [`key`]). Arithmetic on the quotes themselves
//! (the value of a return, a mean, a deviation, the interpolation inside a
//! quartile bracket) is left to the caller.

pub mod date;
pub mod error;
pub mod index;
pub mod key;
pub mod listing;
pub mod price;
pub mod sample;
pub mod select;
pub mod sort;
pub mod stats;
pub mod stock;
pub mod years;
