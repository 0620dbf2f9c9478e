//! Converts sparse, independently sourced daily price series into
//! chronologically ordered, currency-converted ledger price records.
//!
//! The core is the date-aligned reconciliation pipeline: an asset's daily
//! price series (decimal text, one point per day) is aligned against a
//! sparse exchange-rate table, falling back to the most recent earlier
//! rate when a day has none, and emitted as `YYYY-MM-DD price TICKER
//! AMOUNT CURRENCY` lines in ascending date order.

use vstd::prelude::*;

pub mod date;
pub mod coincap;
pub mod decimal;
pub mod fiat;
pub mod rates;
pub mod render;
pub mod series;

verus! {

/// Errors of the conversion pipeline itself. Fetching and file I/O are the
/// caller's business; these cover the data: price text that is not a
/// decimal, and values that no fixed-precision decimal can represent.
#[derive(Debug, PartialEq, Eq, Structural, Clone, Copy)]
pub enum PriceError {
    /// The price text of a point is not decimal text.
    ParsePriceError,
    /// A rate of zero, or a value too large for the output precision.
    InvalidPrice,
}

} // verus!
