//! Context module.

use vstd::prelude::*;

verus! {

/// Entry point handle for library consumers; operations hang off the
/// parameter and element types directly.
#[derive(Debug, Clone, Copy, PartialEq, Eq, Structural)]
pub struct Context {}

} // verus!
