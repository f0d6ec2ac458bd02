//! The failures of the engine's operations.
use vstd::prelude::*;

verus! {

/// Why an operation failed.
#[derive(Clone, Copy, Debug, PartialEq, Eq, Structural)]
pub enum Error {
    /// Bytes that do not decode to an envelope.
    MalformedInput,
    /// Recovered content whose digest differs from the placeholder's.
    DigestMismatch,
    /// A requested target that the envelope does not disclose.
    TargetNotFound,
    /// Too few valid shares to recover a secret.
    InsufficientShares,
    /// A signature or proof that does not check.
    VerificationFailed,
}

} // verus!
