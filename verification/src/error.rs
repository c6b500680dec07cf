//! The errors that the library reports.

use vstd::prelude::*;

verus! {

/// One of the two structures that every database holds under a well-known key.
#[derive(Debug, Copy, Clone, PartialEq, Eq, Structural)]
pub enum CoreStructure {
    Schema,
    Index,
}

/// Why an operation of the library failed.
#[derive(Debug, Copy, Clone, PartialEq, Eq, Structural)]
pub enum Error {
    /// A declaration repeats a name that the schema holds already.
    DuplicateAttribute,
    /// Every attribute identifier is taken.
    TooManyAttributes,
    /// Stored bytes do not decode to the value asked for.
    Decode,
    /// A value could not be turned into bytes.
    Encode,
    /// The snapshot lacks the schema or the index, or holds a corrupt one.
    MissingCoreStructure(CoreStructure),
}

} // verus!
