//! The mathematical result of an evaluation.

use vstd::prelude::*;

use crate::error::Error;

verus! {

/// What an evaluation comes to.
pub enum Outcome<T> {
    /// It gives a value.
    Done(T),
    /// It gives an error.
    Failed(Error),
    /// It has no result: it would read outside the document, leave the range of
    /// an integer type, take bytes that are not UTF-8 for a string, or ask for
    /// something that has no meaning. The executable functions rule this out by
    /// what they require.
    Undefined,
}

} // verus!
