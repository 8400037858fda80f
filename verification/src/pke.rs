//! Scheme-level identifiers and key-switching digit budgeting.

use vstd::prelude::*;
use crate::encoding::Params as EncodingParams;
use crate::params::ElementParams;

verus! {

/// The supported schemes.
#[derive(Debug, Clone, Copy, PartialEq, Eq, Structural, Hash)]
pub enum Scheme {
    /// Invalid.
    Invalid,
    /// Ckks.
    Ckks,
    /// Bfv.
    Bfv,
    /// Bgv.
    Bgv,
}

impl From<usize> for Scheme {
    /// Decode from the numeric representation; unknown values are invalid.
    fn from(value: usize) -> (r: Self) {
        match value {
            1 => Scheme::Ckks,
            2 => Scheme::Bfv,
            3 => Scheme::Bgv,
            _ => Scheme::Invalid,
        }
    }
}

impl vstd::std_specs::convert::FromSpecImpl<usize> for Scheme {
    open spec fn obeys_from_spec() -> bool {
        true
    }

    open spec fn from_spec(value: usize) -> Self {
        match value {
            1 => Scheme::Ckks,
            2 => Scheme::Bfv,
            3 => Scheme::Bgv,
            _ => Scheme::Invalid,
        }
    }
}

/// Per-context parameters shared with the scheme layer.
#[derive(Debug, Clone, Copy, PartialEq, Eq, Structural)]
pub struct CryptoContext {
    /// The element parameters.
    pub element_params: ElementParams,
    /// The encoding parameters.
    pub encoding_params: EncodingParams,
}

/// Number of large key-switching digits: an explicit choice wins; otherwise
/// three digits above multiplicative depth three, two above zero, else one.
pub fn compute_num_large_digits(num_large_digits: usize, mult_depth: usize) -> (r: usize)
    ensures
        num_large_digits > 0 ==> r == num_large_digits,
        num_large_digits == 0 && mult_depth > 3 ==> r == 3,
        num_large_digits == 0 && 0 < mult_depth <= 3 ==> r == 2,
        num_large_digits == 0 && mult_depth == 0 ==> r == 1,
{
    if num_large_digits > 0 {
        return num_large_digits;
    }
    if mult_depth > 3 {
        return 3;
    }
    if mult_depth > 0 {
        return 2;
    }
    1
}

/// Number of large digits for proxy re-encryption: an explicit choice wins;
/// otherwise three digits above four hops, two above one, else one.
pub fn compute_num_large_digits_pre(num_large_digits: usize, num_hops: usize) -> (r: usize)
    ensures
        num_large_digits > 0 ==> r == num_large_digits,
        num_large_digits == 0 && num_hops > 4 ==> r == 3,
        num_large_digits == 0 && 1 < num_hops <= 4 ==> r == 2,
        num_large_digits == 0 && num_hops <= 1 ==> r == 1,
{
    if num_large_digits > 0 {
        return num_large_digits;
    }
    if num_hops > 4 {
        return 3;
    }
    if num_hops > 1 {
        return 2;
    }
    1
}

} // verus!
