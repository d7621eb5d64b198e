//! The smallest non-negative integer absent from an unordered list of `u32`
//! values, found by coalescing runs of consecutive values in a hash map, with a
//! sort-based baseline that must agree with it.
pub mod missing;
pub mod coalescer;
pub mod baseline;
pub mod random_gen;
pub mod key_range;
pub mod text;
