//! The ways an operation of this library can fail.

use vstd::prelude::*;

verus! {

/// Why an operation did not produce a result.
#[derive(Clone, Copy, Debug, PartialEq, Eq, Structural)]
pub enum RsaError {
    /// An argument lies outside the domain of the operation.
    InvalidInput,
    /// The number has no inverse for the modulus: the two share a factor.
    NoInverseExists,
    /// The search for primes or for a key gave up after its last attempt.
    KeyGenerationFailed,
    /// A block does not hold a byte.
    DecodingFailed,
}

} // verus!
