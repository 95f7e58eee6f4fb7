//! Per-category statistics over newline-delimited JSON records.
//!
//! Each line is read as a JSON object; the string under its `type` key names
//! the line's category. For every category the library keeps how many lines
//! named it and how many bytes those lines held, terminators included.
use vstd::prelude::*;

pub mod extract;
pub mod stats;
pub mod tally;

pub use stats::{LogStats, ObjectStats, Summary, BYTES_PER_MB};

verus! {

} // verus!
