//! Polynomial commitments.
use vstd::prelude::*;

use crate::field::{GoldilocksExt2, GoldilocksField};
use crate::poly::dense::DenseMLPoly;
use crate::transcript::Digest;

pub mod basefold;
pub mod cpu_basefold;
pub mod cpu_open;
pub mod merkle;
pub mod sparse_basefold;
pub mod store;
pub mod task;

verus! {

/// Commitments that can be combined.
pub trait Commitment: Sized + core::ops::Add<Output = Self> + core::ops::Sub<Output = Self> {
    /// The commitment is the neutral one.
    spec fn neutral(self) -> bool;

    /// `r` is what scaling gives.
    spec fn scaled(self, scalar: GoldilocksField, r: Self) -> bool;

    fn zero() -> (r: Self)
        ensures
            r.neutral(),
    ;

    fn scale(&self, scalar: GoldilocksField) -> (r: Self)
        ensures
            self.scaled(scalar, r),
    ;
}

/// A commitment scheme for multilinear polynomials.
pub trait MLPolyCommit {
    type CommitmentKey;

    type VerifierKey;

    type Committed: Commitment;

    type Proof;

    type BatchProof;

    /// The proof claims the given value.
    spec fn opens_to(proof: Self::Proof, value: GoldilocksExt2) -> bool;

    /// The proofs claim the given values, as far as both lists go.
    spec fn batch_opens_to(proof: Self::BatchProof, values: Seq<GoldilocksExt2>) -> bool;

    fn setup(n: usize, sf_log: usize, offset: i128, size: usize) -> (r: Self::CommitmentKey);

    /// The commitment to a polynomial whose codeword hashes to `root`.
    fn commit(poly: &DenseMLPoly, key: &Self::CommitmentKey, root: Digest) -> (r: Self::Committed);

    fn open(
        commitment: &Self::Committed,
        poly: &DenseMLPoly,
        key: &Self::CommitmentKey,
        point: &[GoldilocksExt2],
    ) -> (r: Self::Proof)
        requires
            poly.valid(),
            poly.n <= point.len(),
    ;

    fn verify(
        commitment: &Self::Committed,
        proof: &Self::Proof,
        key: &Self::VerifierKey,
        point: &[GoldilocksExt2],
        eval: GoldilocksExt2,
    ) -> (r: bool)
        ensures
            r == Self::opens_to(*proof, eval),
    ;

    fn batch_open(
        commitments: &Vec<Self::Committed>,
        polys: &Vec<DenseMLPoly>,
        key: &Self::CommitmentKey,
        point: &[GoldilocksExt2],
    ) -> (r: Self::BatchProof)
        requires
            forall|k: int|
                0 <= k < polys.len() ==> (#[trigger] polys[k]).valid() && polys[k].n
                    <= point.len(),
    ;

    fn batch_verify(
        commitments: &Vec<Self::Committed>,
        proof: &Self::BatchProof,
        key: &Self::VerifierKey,
        point: &[GoldilocksExt2],
        evals: &[GoldilocksExt2],
    ) -> (r: bool)
        ensures
            r == Self::batch_opens_to(*proof, evals@),
    ;
}

} // verus!
