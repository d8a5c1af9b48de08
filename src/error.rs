//! The errors of the library.
use vstd::prelude::*;

verus! {

/// Why a stage of the pipeline failed.
#[derive(Debug, Clone, PartialEq, Eq)]
pub enum ForestError {
    /// Invalid hyperparameters, a hand-built forest that is not well formed,
    /// training data without labels, or prediction with an empty forest.
    Configuration,
    /// Training data without rows.
    EmptyDataset,
    /// A field that is missing or does not parse, with the record it is in.
    MalformedInput { field: String, row: usize },
    /// A feature count (or label count) other than the one expected.
    ShapeMismatch { expected: usize, found: usize },
}

} // verus!
