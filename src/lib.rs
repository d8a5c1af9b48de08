//! Feature encoding and a bootstrap-aggregated decision-tree classifier
//! for passenger survival records.

pub mod dataset;
pub mod encode;
pub mod error;
pub mod forest;
pub mod results;
pub mod rng;
pub mod tree;
