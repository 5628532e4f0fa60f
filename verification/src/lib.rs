//! Market-data toolkit for Sina Finance quotes: range bookkeeping for the
//! history cache, ring buffers for kline series, and the text formats spoken
//! by the Sina endpoints (JSONP payloads, quote frames and cache file names).

use vstd::prelude::*;

pub mod client;
pub mod data;
pub mod net;
pub mod poll;
pub mod realtime;
pub mod storage;
pub mod symbols;
pub mod text;
pub mod types;

pub use data::buffer::{KlineRingBuffer, RingBuffer};
pub use data::types::Duration;
pub use storage::rangeset::{Range, RangeSet, rangeset_difference, rangeset_union};

verus! {

/// The version string of this crate.
pub const VERSION: &'static str = "0.1.0";

/// Returns the crate version.
pub fn version() -> (r: &'static str)
    ensures
        r@ == VERSION@,
{
    VERSION
}

} // verus!
