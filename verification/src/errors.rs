//! The error taxonomy of the library. Every operation returns a typed
//! error; none panics.

use vstd::prelude::*;

verus! {

/// Why an insertion, a query or a distance computation was rejected.
#[derive(Clone, Copy, Debug, PartialEq, Eq, Structural)]
pub enum AutocompleteError {
    /// A phrase or query exceeds the supported maximum length. The caller
    /// may truncate and retry; the index is left unchanged.
    InputTooLong,
    /// An edit-distance operand exceeds the supported maximum length.
    LengthExceeded,
    /// Malformed text input.
    InvalidEncoding,
}

} // verus!
