//! Per-station aggregation of fixed-point measurements.
//!
//! The library contains the pure core of a chunked, parallel aggregation
//! pipeline over lines of the form `station;measurement`, where a measurement
//! is a signed decimal with exactly one fractional digit.  It provides:
//! line-aligned chunk splitting, line and measurement parsing, per-station
//! aggregates (count/sum/min/max over fixed-point values scaled by ten),
//! an ordered station table with an order-independent merge, and the final
//! report rendering.  File and thread handling live outside the library and
//! feed it plain byte buffers.

pub mod aggregate;
pub mod chunk;
pub mod keys;
pub mod parse;
pub mod render;
pub mod table;
pub mod worker;
