//! Per-key summary statistics over a delimited text corpus.
//!
//! A corpus is one contiguous byte buffer of records `key;value`, one per
//! line. The buffer is cut into line-aligned segments, every segment is
//! scanned into a table of running statistics, and the tables are folded into
//! one. Values are exact fixed-point decimals, so every stage is stated and
//! proved over integers, and the result does not depend on how the buffer was
//! cut.

pub mod accumulator;
pub mod bytes;
pub mod decimal;
pub mod record;
pub mod reduce;
pub mod scan;
pub mod segment;
pub mod table;
pub mod view;
