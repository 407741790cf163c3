//! Query engine: the filter clause grammar, its structured form, and the
//! formatting of results.

pub mod types;
pub mod parse;
pub mod clause;
pub mod round_trip;
pub mod format;
pub mod eval;
pub mod engine;
