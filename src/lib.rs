//! Digit-sum aggregation over a whitespace-separated dataset, computed either
//! sequentially or as a fork-join over one unit of work per segment.
pub mod aggregate;
pub mod digits;
pub mod laws;
pub mod segment;
