//! Error values for configuration faults reported to the caller.

use vstd::prelude::*;

verus! {

/// Error type for the library.
///
/// Configuration faults are reported as values; precondition violations on
/// verified functions are excluded by `requires` clauses instead.
#[derive(Debug, Clone, Copy, PartialEq, Eq, Structural)]
pub enum Error {
    /// The RNS builder was given an invalid combination of inputs, or
    /// vectors of mismatched lengths.
    DcrtElementParamsMismatch,
    /// A cyclotomic order that is not a power of two was supplied.
    NotPowerOfTwo,
    /// A modulus that is not prime was supplied where a prime is required.
    NotPrime,
    /// A modulus outside the supported range, or an even one, was supplied.
    InvalidModulus,
    /// A root of unity outside its modulus range was supplied.
    InvalidRootOfUnity,
    /// A root of unity was requested for an order that does not divide
    /// `modulus - 1`.
    OrderDoesNotDivide,
    /// A bit length over the supported ceiling was requested.
    BitLengthTooLarge,
    /// A randomized search or rejection loop exceeded its retry ceiling.
    RetryLimitExceeded,
    /// An intermediate value no longer fits in the supported word size.
    Overflow,
    /// A modular inverse that the operation needs does not exist.
    NoInverse,
    /// A standard deviation beyond the fixed-point model was requested.
    StdDevTooLarge,
}

/// Results returned by the library.
pub type Result<T> = core::result::Result<T, Error>;

} // verus!
