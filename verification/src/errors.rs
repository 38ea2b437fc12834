//! What can go wrong when an indicator is made.
use vstd::prelude::*;

verus! {

/// The errors of the library.
#[derive(Clone, Copy, Debug, PartialEq, Eq, Structural)]
pub enum TaError {
    /// A parameter is outside the range that an indicator accepts.
    InvalidParameter,
}

/// The result of an operation that can fail.
pub type Result<T> = core::result::Result<T, TaError>;

} // verus!
