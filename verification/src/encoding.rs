//! Encoding parameters and plaintext polynomial types.

use vstd::prelude::*;

verus! {

/// Parameters for encoding.
#[derive(Debug, Clone, Copy, PartialEq, Eq, Structural, Hash)]
pub struct Params {
    /// Maximum batch size used by evaluation-sum key generation for packed
    /// encoding.
    pub batch_size: usize,
    /// Plaintext generator used for packed encoding, to find the correct
    /// automorphism index.
    pub plaintext_generator: usize,
    /// Plaintext modulus used by all schemes.
    pub plaintext_modulus: u64,
    /// Root of unity for the plaintext modulus.
    pub plaintext_root_of_unity: u128,
    /// Big plaintext modulus used for arbitrary cyclotomics.
    pub plaintext_big_modulus: u128,
    /// Root of unity for the big plaintext modulus.
    pub plaintext_big_root_of_unity: u128,
}

/// Plaintext polynomial type.
#[derive(Debug, Clone, Copy, PartialEq, Eq, Structural, Hash)]
pub enum PlaintextPolyType {
    /// Single-CRT representation with big-integer coefficients supporting a
    /// large modulus.
    IsPoly,
    /// Double-CRT representation over several smaller moduli.
    IsDcrtPoly,
    /// Single-CRT representation over native integers, limiting the
    /// coefficients and the modulus to 64 bits.
    IsNativePoly,
}

} // verus!
