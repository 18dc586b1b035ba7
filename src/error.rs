//! Errors that the library reports to its callers.
use vstd::prelude::*;

verus! {

/// A recoverable failure at a call boundary.
#[derive(Clone, Copy, Debug, PartialEq, Eq, Structural)]
pub enum SumcheckError {
    /// An input of the wrong shape: a table whose length is not a power of
    /// two, a point with the wrong number of coordinates, or sequences of
    /// unequal length.
    InvalidInput,
    /// A field inverse of zero was asked for.
    DivisionByZero,
}

} // verus!
