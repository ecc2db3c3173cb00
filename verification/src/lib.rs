//! Per-key minimum, median and maximum over a flat file of `key;value` records.
//!
//! The buffer is cut into record-aligned chunks, each chunk is parsed into a
//! partial aggregate, the partial aggregates are merged in chunk order, and the
//! merged aggregate is summarised under a cap on the number of distinct keys.

pub mod scan;
pub mod planner;
pub mod keys;
pub mod aggregate;
pub mod rounding;
pub mod decimal;
pub mod fixed;
pub mod value;
pub mod record;
pub mod chunk;
pub mod merge;
pub mod stats;
pub mod render;
pub mod pipeline;
pub mod splitting;
