//! Failures that the arguments report.

use vstd::prelude::*;

verus! {

/// Why an operation of this crate failed.
#[derive(Clone, Copy, Debug, PartialEq, Eq, Structural)]
pub enum Error {
    /// Two vectors that must pair up entry by entry differ in length.
    DotProductLenError,
    /// A recomputed identity does not match what the proof claims.
    VerificationFailure,
}

} // verus!
