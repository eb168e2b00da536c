//! Error type shared by every operation of the code.

use vstd::prelude::*;

verus! {

/// What can go wrong when building a code, encoding, decoding or repairing.
#[derive(Debug, Clone, PartialEq, Eq)]
pub enum ClayError {
    /// Invalid code parameters, node index, or mismatch between the
    /// available chunks and the declared erasures.
    InvalidParameters(String),
    /// Repair needs `needed` helper nodes, only `provided` could be had.
    InsufficientHelpers { needed: usize, provided: usize },
    /// A chunk size of zero, or one that is no multiple of `expected`
    /// (the number of sub-chunks per chunk).
    InvalidChunkSize { expected: usize, actual: usize },
    /// A helper handed over `actual` bytes where `expected` were due.
    InsufficientHelperData { helper: usize, expected: usize, actual: usize },
    /// The available chunks disagree on their size.
    InconsistentChunkSizes { first_size: usize, mismatched_idx: usize, mismatched_size: usize },
    /// More erasures than the `max` parity chunks can make up for.
    TooManyErasures { max: usize, actual: usize },
    /// The scalar Reed-Solomon codec reported a failure.
    ReconstructionFailed(String),
    /// Repair of `lost_node` lacks a node of its own y-section.
    MissingYSectionHelper { lost_node: usize, missing_helper: usize },
    /// A power of the coupling factor does not fit the machine integer.
    Overflow(String),
}

} // verus!
