//! Verified building blocks for zero-knowledge proofs of tensor programs.
//!
//! The proof system works over the Goldilocks field and its quadratic
//! extension. `field` holds the arithmetic and its algebra, on which every
//! other module rests: multilinear polynomials (`poly`), transcripts
//! (`transcript`), sum-check (`sumcheck`), commitments (`commit`), and the
//! graphs of tensor operations with their proofs (`dag`). `plan` holds what
//! a run of a network needs besides its graph.
use vstd::prelude::*;

pub mod commit;
pub mod dag;
pub mod field;
pub mod plan;
pub mod poly;
pub mod sumcheck;
pub mod transcript;
pub mod util;

pub use crate::field::{GoldilocksExt2, GoldilocksField};
pub use crate::poly::{CryptoField, DenseMLPoly, MLPoly};
pub use crate::transcript::Transcript;

verus! {

/// The Goldilocks prime `2^64 - 2^32 + 1`.
pub const GOLDILOCKS_PRIME: u64 = 0xFFFF_FFFF_0000_0001;

/// Number of the bit that carries the sign of a field element read as a signed integer.
pub const SIGN_BIT: usize = 63;

/// Number of bits of a field element.
pub const FIELD_SIZE: usize = 64;

} // verus!
