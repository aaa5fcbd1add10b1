//! Basefold keys, commitments and opening proofs.
use vstd::prelude::*;

use crate::commit::{Commitment, MLPolyCommit};
use crate::field::{ext_elems, GoldilocksExt2, GoldilocksField};
use crate::poly::dense::DenseMLPoly;
use crate::poly::model::mle;
use crate::transcript::Digest;

verus! {

/// What the verifier keeps of a committed polynomial.
#[derive(Clone, Copy, Debug, PartialEq, Eq, Structural)]
pub struct BasefoldCommitmentData {
    pub root: Digest,
    pub num_vars: usize,
}

impl Default for BasefoldCommitmentData {
    fn default() -> (r: Self)
        ensures
            r == (BasefoldCommitmentData {
                root: Digest { w0: 0, w1: 0, w2: 0, w3: 0 },
                num_vars: 0,
            }),
    {
        BasefoldCommitmentData { root: Digest { w0: 0, w1: 0, w2: 0, w3: 0 }, num_vars: 0 }
    }
}

impl core::ops::Add for BasefoldCommitmentData {
    type Output = BasefoldCommitmentData;

    fn add(self, _rhs: BasefoldCommitmentData) -> (r: BasefoldCommitmentData) {
        self
    }
}

impl vstd::std_specs::ops::AddSpecImpl for BasefoldCommitmentData {
    open spec fn obeys_add_spec() -> bool {
        true
    }

    open spec fn add_req(self, rhs: BasefoldCommitmentData) -> bool {
        true
    }

    open spec fn add_spec(self, rhs: BasefoldCommitmentData) -> BasefoldCommitmentData {
        self
    }
}

impl core::ops::Sub for BasefoldCommitmentData {
    type Output = BasefoldCommitmentData;

    fn sub(self, _rhs: BasefoldCommitmentData) -> (r: BasefoldCommitmentData) {
        self
    }
}

impl vstd::std_specs::ops::SubSpecImpl for BasefoldCommitmentData {
    open spec fn obeys_sub_spec() -> bool {
        true
    }

    open spec fn sub_req(self, rhs: BasefoldCommitmentData) -> bool {
        true
    }

    open spec fn sub_spec(self, rhs: BasefoldCommitmentData) -> BasefoldCommitmentData {
        self
    }
}

impl Commitment for BasefoldCommitmentData {
    open spec fn neutral(self) -> bool {
        self == (BasefoldCommitmentData {
            root: Digest { w0: 0, w1: 0, w2: 0, w3: 0 },
            num_vars: 0,
        })
    }

    open spec fn scaled(self, scalar: GoldilocksField, r: Self) -> bool {
        r == self
    }

    fn zero() -> (r: Self) {
        BasefoldCommitmentData::default()
    }

    fn scale(&self, _scalar: GoldilocksField) -> (r: Self) {
        *self
    }
}

/// The round polynomial `c0 + c1 x + c2 x^2`.
#[derive(Clone, Copy, Debug, PartialEq, Eq, Structural)]
pub struct SumcheckOracle {
    pub c0: GoldilocksExt2,
    pub c1: GoldilocksExt2,
    pub c2: GoldilocksExt2,
}

/// The answer to one query: a pair of values and its Merkle path in each codeword.
#[derive(Debug)]
pub struct QueryProof {
    pub index: usize,
    pub values: Vec<(GoldilocksExt2, GoldilocksExt2)>,
    pub merkle_paths: Vec<Vec<Digest>>,
}

/// A Basefold opening at a point of the extension.
#[derive(Debug)]
pub struct BasefoldProofExt2 {
    pub eval: GoldilocksExt2,
    pub sumcheck_oracles: Vec<SumcheckOracle>,
    pub folded_roots: Vec<Digest>,
    pub final_codeword: Vec<GoldilocksExt2>,
    pub query_proofs: Vec<QueryProof>,
}

/// An opening proof together with the value that it proves.
#[derive(Debug)]
pub struct BasefoldOpeningProof {
    pub eval: GoldilocksExt2,
    pub gpu_proof: BasefoldProofExt2,
}

/// Openings of several polynomials.
#[derive(Debug)]
pub struct BasefoldBatchProof {
    pub individual_proofs: Vec<BasefoldOpeningProof>,
}

/// The public parameters of the prover.
#[derive(Clone, Copy, Debug, PartialEq, Eq, Structural)]
pub struct BasefoldCommitKey {
    pub log_rate: usize,
    pub num_queries: usize,
    pub seed: u64,
}

impl Default for BasefoldCommitKey {
    fn default() -> (r: Self)
        ensures
            r.log_rate == 3,
            r.num_queries == 34,
            r.seed == 42,
    {
        BasefoldCommitKey { log_rate: 3, num_queries: 34, seed: 42 }
    }
}

/// The public parameters of the verifier.
#[derive(Clone, Copy, Debug, PartialEq, Eq, Structural)]
pub struct BasefoldVerifierKey {
    pub log_rate: usize,
    pub num_queries: usize,
    pub seed: u64,
}

impl From<&BasefoldCommitKey> for BasefoldVerifierKey {
    fn from(ck: &BasefoldCommitKey) -> (r: Self) {
        BasefoldVerifierKey { log_rate: ck.log_rate, num_queries: ck.num_queries, seed: ck.seed }
    }
}

impl vstd::std_specs::convert::FromSpecImpl<&BasefoldCommitKey> for BasefoldVerifierKey {
    open spec fn obeys_from_spec() -> bool {
        true
    }

    open spec fn from_spec(ck: &BasefoldCommitKey) -> BasefoldVerifierKey {
        BasefoldVerifierKey { log_rate: ck.log_rate, num_queries: ck.num_queries, seed: ck.seed }
    }
}

/// The Basefold commitment scheme.
pub struct BasefoldCommit;

/// An opening that carries the value and no protocol messages.
pub open spec fn bare_opening(proof: BasefoldOpeningProof) -> bool {
    &&& proof.gpu_proof.eval == proof.eval
    &&& proof.gpu_proof.sumcheck_oracles.len() == 0
    &&& proof.gpu_proof.folded_roots.len() == 0
    &&& proof.gpu_proof.final_codeword.len() == 0
    &&& proof.gpu_proof.query_proofs.len() == 0
}

impl MLPolyCommit for BasefoldCommit {
    type CommitmentKey = BasefoldCommitKey;

    type VerifierKey = BasefoldVerifierKey;

    type Committed = BasefoldCommitmentData;

    type Proof = BasefoldOpeningProof;

    type BatchProof = BasefoldBatchProof;

    open spec fn opens_to(proof: BasefoldOpeningProof, value: GoldilocksExt2) -> bool {
        proof.eval == value
    }

    open spec fn batch_opens_to(proof: BasefoldBatchProof, values: Seq<GoldilocksExt2>) -> bool {
        forall|i: int|
            0 <= i < proof.individual_proofs.len() && i < values.len() ==> (
            #[trigger] proof.individual_proofs[i]).eval == values[i]
    }

    fn setup(_n: usize, _sf_log: usize, _offset: i128, _size: usize) -> (r: BasefoldCommitKey)
        ensures
            r.log_rate == 3,
            r.num_queries == 34,
            r.seed == 42,
    {
        BasefoldCommitKey::default()
    }

    fn commit(poly: &DenseMLPoly, _key: &BasefoldCommitKey, root: Digest) -> (r:
        BasefoldCommitmentData)
        ensures
            r.root == root,
            r.num_vars == poly.n,
    {
        BasefoldCommitmentData { root, num_vars: poly.n }
    }

    /// Carries the value and no protocol messages.
    fn open(
        _commitment: &BasefoldCommitmentData,
        poly: &DenseMLPoly,
        _key: &BasefoldCommitKey,
        point: &[GoldilocksExt2],
    ) -> (r: BasefoldOpeningProof)
        ensures
            bare_opening(r),
            r.eval@ == mle(poly.values(), ext_elems(point@).take(poly.n as int)),
    {
        let eval: GoldilocksExt2 = poly.evaluate_ext2(point);
        BasefoldOpeningProof {
            eval,
            gpu_proof: BasefoldProofExt2 {
                eval,
                sumcheck_oracles: Vec::new(),
                folded_roots: Vec::new(),
                final_codeword: Vec::new(),
                query_proofs: Vec::new(),
            },
        }
    }

    fn verify(
        _commitment: &BasefoldCommitmentData,
        proof: &BasefoldOpeningProof,
        _key: &BasefoldVerifierKey,
        _point: &[GoldilocksExt2],
        eval: GoldilocksExt2,
    ) -> (r: bool) {
        proof.eval == eval
    }

    fn batch_open(
        commitments: &Vec<BasefoldCommitmentData>,
        polys: &Vec<DenseMLPoly>,
        key: &BasefoldCommitKey,
        point: &[GoldilocksExt2],
    ) -> (r: BasefoldBatchProof)
        ensures
            r.individual_proofs.len() == if commitments.len() < polys.len() {
                commitments.len()
            } else {
                polys.len()
            },
            forall|i: int|
                0 <= i < r.individual_proofs.len() ==> bare_opening(
                    #[trigger] r.individual_proofs[i],
                ) && r.individual_proofs[i].eval@ == mle(
                    polys[i].values(),
                    ext_elems(point@).take(polys[i].n as int),
                ),
    {
        let mut individual_proofs: Vec<BasefoldOpeningProof> = Vec::new();
        let mut i: usize = 0;
        while i < commitments.len() && i < polys.len()
            invariant
                i <= commitments.len(),
                i <= polys.len(),
                forall|k: int|
                    0 <= k < polys.len() ==> (#[trigger] polys[k]).valid() && polys[k].n
                        <= point.len(),
                individual_proofs.len() == i,
                forall|k: int|
                    0 <= k < i ==> bare_opening(#[trigger] individual_proofs[k])
                        && individual_proofs[k].eval@ == mle(
                        polys[k].values(),
                        ext_elems(point@).take(polys[k].n as int),
                    ),
            decreases commitments.len() - i,
        {
            assert(polys[i as int].valid());
            individual_proofs.push(Self::open(&commitments[i], &polys[i], key, point));
            i = i + 1;
        }
        BasefoldBatchProof { individual_proofs }
    }

    fn batch_verify(
        _commitments: &Vec<BasefoldCommitmentData>,
        proof: &BasefoldBatchProof,
        _key: &BasefoldVerifierKey,
        _point: &[GoldilocksExt2],
        evals: &[GoldilocksExt2],
    ) -> (r: bool) {
        let mut i: usize = 0;
        while i < proof.individual_proofs.len() && i < evals.len()
            invariant
                i <= proof.individual_proofs.len(),
                i <= evals.len(),
                forall|k: int|
                    0 <= k < i ==> (#[trigger] proof.individual_proofs[k]).eval == evals[k],
            decreases evals.len() - i,
        {
            if proof.individual_proofs[i].eval != evals[i] {
                assert(proof.individual_proofs[i as int].eval != evals@[i as int]);
                return false;
            }
            i = i + 1;
        }
        true
    }
}

} // verus!
