//! Double-CRT ring element: one residue polynomial per RNS limb.

use vstd::prelude::*;
use crate::constants::PolynomialRingFormat;
use crate::params::DcrtElementParams;
use crate::poly::Poly;

verus! {

/// A ring element in RNS form: one polynomial for each limb of the
/// parameter chain, all in the same format.
#[derive(Debug, Clone)]
pub struct DcrtPoly {
    /// The limb parameter chain.
    pub params: DcrtElementParams,
    /// Whether the limb values are coefficients or evaluations.
    pub format: PolynomialRingFormat,
    /// One polynomial per limb, in chain order.
    pub values: Vec<Poly>,
}

impl DcrtPoly {
    /// Well-formedness: a valid chain and one well-formed polynomial per
    /// limb, each under its limb's parameters and in the shared format.
    pub open spec fn wf(self) -> bool {
        &&& self.params.wf()
        &&& self.values@.len() == self.params.params@.len()
        &&& forall|i: int|
            0 <= i < self.values@.len() ==> (#[trigger] self.values@[i]).wf()
                && self.values@[i].params == self.params.params@[i] && self.values@[i].format
                == self.format
    }
}

} // verus!
