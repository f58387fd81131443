//! Chunked parallel aggregation engine for large `key;value` text files.
//!
//! The input is a text file of semicolon-delimited records, one per line:
//! `KEY;VALUE`, where `VALUE` is a decimal number. The library plans
//! line-aligned byte ranges over the file, aggregates each range into a
//! per-key statistics table (minimum, maximum, sum, count), and merges the
//! per-range tables into one global table. Values are held as fixed-point
//! integers scaled by `SCALE`, so every statistic is exact.

pub mod aggregate;
pub mod chunks;
pub mod lines;
pub mod parse;
pub mod pipeline;
pub mod stats;
pub mod table;

pub use aggregate::process_chunk;
pub use chunks::generate_chunks;
pub use chunks::ChunkRange;
pub use pipeline::process_data;
pub use stats::Stats;
pub use table::Table;
