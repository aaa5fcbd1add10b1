//! Commitments to sparse polynomials, through their dense tables.
use vstd::prelude::*;

use crate::commit::basefold::{
    bare_opening, BasefoldCommit, BasefoldCommitKey, BasefoldCommitmentData, BasefoldOpeningProof,
    BasefoldVerifierKey,
};
use crate::commit::MLPolyCommit;
use crate::field::{ext_elems, GoldilocksExt2};
use crate::poly::dense::DenseMLPoly;
use crate::poly::model::mle;
use crate::poly::sparse::{table_of, SparseMLPoly};
use crate::transcript::Digest;

verus! {

/// The Basefold scheme on sparse polynomials.
pub struct SparseBasefoldCommit;

impl SparseBasefoldCommit {
    /// The commitment to a polynomial whose codeword hashes to `root`.
    pub fn commit_sparse(poly: &SparseMLPoly, key: &BasefoldCommitKey, root: Digest) -> (r:
        BasefoldCommitmentData)
        requires
            poly.n < usize::BITS,
        ensures
            r.root == root,
            r.num_vars == poly.n,
    {
        let dense: DenseMLPoly = poly.to_dense();
        BasefoldCommit::commit(&dense, key, root)
    }

    /// Carries the value and no protocol messages.
    pub fn open_sparse(
        commitment: &BasefoldCommitmentData,
        poly: &SparseMLPoly,
        key: &BasefoldCommitKey,
        point: &[GoldilocksExt2],
    ) -> (r: BasefoldOpeningProof)
        requires
            poly.n < usize::BITS,
            poly.n <= point.len(),
        ensures
            bare_opening(r),
            r.eval@ == mle(
                table_of(poly.evaluations@, poly.n as nat),
                ext_elems(point@).take(poly.n as int),
            ),
    {
        let dense: DenseMLPoly = poly.to_dense();
        BasefoldCommit::open(commitment, &dense, key, point)
    }

    /// Compares the value that the proof carries.
    pub fn verify_sparse(
        commitment: &BasefoldCommitmentData,
        proof: &BasefoldOpeningProof,
        key: &BasefoldVerifierKey,
        point: &[GoldilocksExt2],
        eval: GoldilocksExt2,
    ) -> (r: bool)
        ensures
            r == (proof.eval == eval),
    {
        BasefoldCommit::verify(commitment, proof, key, point, eval)
    }
}

} // verus!
