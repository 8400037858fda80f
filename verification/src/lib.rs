//! Polynomial-ring arithmetic for lattice-based homomorphic encryption:
//! modular vectors, number-theoretic transforms, ring elements, RNS
//! parameter chains, number-theory utilities, and discrete Gaussian
//! sampling support.

pub mod arith;
pub mod constants;
pub mod context;
pub mod dcrt_poly;
pub mod encoding;
pub mod error;
pub mod params;
pub mod pke;
pub mod poly;
mod rng;
pub mod sampler;
pub mod transform;
pub mod utils;
pub mod vecmod;
