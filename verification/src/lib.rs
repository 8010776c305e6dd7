//! Streaming per-key aggregation of decimal measurements.
//!
//! The library splits a byte stream of `<key>;<value>\n` records, decodes
//! each value as an exact fixed-point decimal, and folds it into per-key
//! running statistics (minimum, maximum, and arithmetic mean). All record
//! framing, decoding, and folding logic is verified; the surrounding
//! process (argument handling, file reading, output formatting) lives
//! outside the library.
//!
//! - [`decimal`]: exact fixed-point values and the verified text parser.
//! - [`splitter`]: delimiting the stream into key and value segments.
//! - [`stats`]: per-key minimum, maximum, and exact running mean, with the
//!   laws the fold obeys (true extrema, exact mean, fold-order freedom).
//! - [`table`]: the key-to-statistics mapping, with key isolation.
//! - [`aggregate`]: record decoding, the consuming side of the pipeline,
//!   and the whole-stream run with its per-key correctness law.

pub mod aggregate;
pub mod decimal;
pub mod splitter;
pub mod stats;
pub mod table;
