use vstd::prelude::*;

verus! {

/// Failure of a computation.
#[derive(Debug, PartialEq, Eq)]
pub enum Error {
    /// The arguments are malformed (mismatched lengths, a zero modulus).
    InvalidInput(String),
    /// The operation has no solution on these arguments.
    NoResult,
    /// The arguments are well formed but too large to be handled.
    Unsupported,
}

/// Result of a computation that may fail.
pub type Result<T> = core::result::Result<T, Error>;

} // verus!
