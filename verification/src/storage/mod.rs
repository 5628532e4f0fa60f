//! Storage bookkeeping: id range sets and the naming and planning rules of
//! the on-disk kline cache.

pub mod cache;
pub mod data_series;
pub mod listing;
pub mod quote_cache;
pub mod rangeset;
pub mod rows;
pub mod segments;
