//! Core data structures: periods and kline ring buffers.

pub mod buffer;
pub mod series;
pub mod types;
