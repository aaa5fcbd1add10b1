//! The sum-check protocol: provers over the base field and over the
//! extension, and the verifier.
use vstd::prelude::*;

use crate::field::GoldilocksExt2;
use crate::transcript::{Digest, Transcript};

pub mod cpu_ext2_prover;
pub mod fiat_shamir;
pub mod general_model;
pub mod general_prover;
pub mod gpu_prover;
pub mod linear_prover;
pub mod model;
pub mod verify;

pub use crate::sumcheck::cpu_ext2_prover::CpuLinearSumcheckProverExt2;
pub use crate::sumcheck::general_prover::GeneralLinearSumcheckProver;
pub use crate::sumcheck::gpu_prover::GpuLinearSumcheckProver;
pub use crate::sumcheck::linear_prover::LinearSumcheckProver;
pub use crate::sumcheck::verify::SumcheckVerifier;

verus! {

/// What a sum-check prover sends.
#[derive(Debug)]
pub struct SumcheckProof {
    /// The product of the polynomials at the point of all challenges.
    pub final_eval: GoldilocksExt2,
    /// For each round, the values of the round polynomial at `0, 1, ..`.
    pub round_messages: Vec<Vec<GoldilocksExt2>>,
}

/// A prover for one form of sum.
pub trait SumcheckProver: Sized {
    type Instance;

    /// The prover was set up for a statement of this form.
    spec fn provable(&self, instances: &Self::Instance) -> bool;

    /// Announces the size of the statement.
    fn new<F: Fn(Digest, Digest) -> Digest>(
        num_var: usize,
        num_polys: usize,
        transcript: &mut Transcript<F>,
    ) -> (r: Self)
        requires
            old(transcript).wf(),
        ensures
            final(transcript).compress == old(transcript).compress,
    ;

    /// Runs all rounds.
    fn prove<F: Fn(Digest, Digest) -> Digest>(
        &mut self,
        instances: &Self::Instance,
        transcript: &mut Transcript<F>,
    ) -> (proof: SumcheckProof)
        requires
            old(self).provable(instances),
            old(transcript).wf(),
        ensures
            final(transcript).compress == old(transcript).compress,
    ;
}

} // verus!
