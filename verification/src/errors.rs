//! Error taxonomy for indexing operations.

use vstd::prelude::*;

verus! {

/// Why an indexing operation was refused.
///
/// All operations are pure computations: an error is deterministic in the
/// inputs, and no partial result is ever returned alongside one.
#[derive(Debug, Clone, PartialEq, Eq)]
pub enum IndexingError {
    /// A malformed slice was supplied: a zero or oversized step, a stride
    /// other than one where only contiguous slicing is supported, or label
    /// bounds out of order.
    InvalidArgument,
    /// A position at or beyond the number of cells held by the index.
    OutOfRange,
    /// A cell id that no range of the index contains; carries that id.
    KeyNotFound(u64),
    /// Position spans that cannot be joined into a single contiguous slice.
    NotContiguous,
    /// A region kind the query dispatch does not recognize; carries the name
    /// of the offending kind.
    UnsupportedInput(String),
}

impl IndexingError {
    /// A short human-readable description of the error.
    pub fn describe(&self) -> String {
        match self {
            IndexingError::InvalidArgument => "invalid argument".to_string(),
            IndexingError::OutOfRange => "position out of range".to_string(),
            IndexingError::KeyNotFound(_) => "cell id not found".to_string(),
            IndexingError::NotContiguous => "slices are not contiguous".to_string(),
            IndexingError::UnsupportedInput(kind) => kind.clone(),
        }
    }
}

} // verus!
