//! The errors of the library.

use vstd::prelude::*;

verus! {

/// What can go wrong when a path is applied to a document.
#[derive(Clone, Copy, Debug, PartialEq, Eq)]
pub enum Error {
    /// The document ends before a header, an entry descriptor or a key does.
    InvalidJsonb,
    /// A number has an unknown first byte, or a width that no integer has.
    InvalidJsonbNumber,
    /// A predicate was asked for, and the path is not one.
    InvalidJsonPathPredicate,
    /// Writing to a buffer failed.
    Io,
}

} // verus!
