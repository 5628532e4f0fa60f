//! Quotes as the Sina endpoints send them: every value is kept as the text
//! of its field.

use vstd::prelude::*;

verus! {

/// A real-time quote with every value held as the text of its field.
#[derive(Debug, Clone, Default)]
pub struct Quote {
    pub symbol: String,
    pub price: String,
    pub bid_price: String,
    pub ask_price: String,
    pub open: String,
    pub high: String,
    pub low: String,
    pub prev_settle: String,
    pub settle_price: String,
    pub volume: String,
    pub quote_time: String,
    pub date: String,
    pub name: String,
    pub timestamp: i64,
}

} // verus!
