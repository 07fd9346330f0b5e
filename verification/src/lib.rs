#![verifier::loop_isolation(false)]
//! Coverage aggregation and resolution search for Hi-C contact maps.
//!
//! The crate accumulates paired genomic contact observations into
//! per-chromosome binned counter arrays at a fixed base bin width, and
//! searches for the smallest multiple of that width at which a required
//! proportion of bins holds at least a minimum number of contacts.

pub mod aggregate;
pub mod codec;
pub mod coverage;
pub mod filter;
pub mod header;
pub mod lines;
pub mod parser;
pub mod resolution;
pub mod utils;
