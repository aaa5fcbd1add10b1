//! The sum-check verifier.
use vstd::arithmetic::power2::*;
use vstd::prelude::*;

use crate::field::elem::{embed, prime, Elem};
use crate::field::sums::{prod, sum};
use crate::field::upoly::{basis, basis_factor, interpolate};
use crate::field::{
    ext2_add, ext2_inv, ext2_mul, ext2_sub, ext_elems, lemma_ext_canonical_unique, GoldilocksExt2,
    GoldilocksField,
};
use crate::sumcheck::fiat_shamir::{
    accepts, claim_at, honest, honest_proof, lemma_completeness, lemma_rounds_passed,
    lemma_rounds_stop, lemma_same_digests, preamble, round_ok, rounds_passed, verifier_challenge,
    verifier_digest,
};
use crate::sumcheck::model::{tables, total};
use crate::sumcheck::SumcheckProof;
use crate::transcript::{Digest, Label, Transcript};

verus! {

/// Checks sum-check proofs.
pub struct SumcheckVerifier;

/// The value at `x` of the polynomial through `(0, evals[0]), (1, evals[1]), ..`.
pub fn interpolate_and_evaluate_ext2(evals: &[GoldilocksExt2], x: GoldilocksExt2) -> (r:
    GoldilocksExt2)
    ensures
        r@ == interpolate(ext_elems(evals@), x@),
        r.canonical(),
{
    let d: usize = evals.len();
    let mut result: GoldilocksExt2 = GoldilocksExt2::zero();
    let ghost v = ext_elems(evals@);
    let ghost f = |i: int| basis(i, v.len(), x@) * v[i];
    let mut i: usize = 0;
    while i < d
        invariant
            i <= d,
            d == evals.len(),
            v == ext_elems(evals@),
            f == (|i: int| basis(i, v.len(), x@) * v[i]),
            result@ == sum(i as nat, f),
            result.canonical(),
        decreases d - i,
    {
        let mut basis_value: GoldilocksExt2 = GoldilocksExt2::one();
        let xi: GoldilocksExt2 = GoldilocksExt2::from_base(GoldilocksField(i as u64));
        let ghost g = |j: int| basis_factor(i as int, j, x@);
        let mut j: usize = 0;
        while j < d
            invariant
                j <= d,
                i < d,
                xi@ == embed(i as int),
                g == (|j: int| basis_factor(i as int, j, x@)),
                basis_value@ == prod(j as nat, g),
                basis_value.canonical(),
            decreases d - j,
        {
            if j != i {
                let xj: GoldilocksExt2 = GoldilocksExt2::from_base(GoldilocksField(j as u64));
                let num: GoldilocksExt2 = ext2_sub(x, xj);
                let den_inv: GoldilocksExt2 = ext2_inv(ext2_sub(xi, xj));
                basis_value = ext2_mul(basis_value, ext2_mul(num, den_inv));
            } else {
                proof {
                    crate::field::elem::lemma_mul_one(basis_value@);
                }
            }
            assert(g(j as int) == basis_factor(i as int, j as int, x@));
            j = j + 1;
        }
        assert(basis_value@ == basis(i as int, v.len(), x@));
        let term: GoldilocksExt2 = ext2_mul(basis_value, evals[i]);
        assert(term@ == f(i as int));
        result = ext2_add(result, term);
        i = i + 1;
    }
    result
}

/// Checks the rounds of a proof against the challenges drawn along the way.
fn verify_rounds<F: Fn(Digest, Digest) -> Digest>(
    proof: &SumcheckProof,
    claimed_sum: GoldilocksExt2,
    num_var: usize,
    num_poly: usize,
    transcript: &mut Transcript<F>,
) -> (r: (bool, Vec<GoldilocksExt2>))
    requires
        old(transcript).wf(),
        num_var > 0 ==> 1 <= num_poly < usize::MAX,
    ensures
        final(transcript).compress == old(transcript).compress,
        verdict(
            old(transcript).hash(),
            old(transcript).state,
            *proof,
            claimed_sum,
            num_var as nat,
            num_poly as nat,
            r.0,
            r.1@,
            final(transcript).state,
        ),
{
    let ghost h = transcript.hash();
    let ghost s = transcript.state;
    let ghost comp = transcript.compress;
    let ghost msgs = proof.round_messages@;
    let ghost np = num_poly as nat;
    if proof.round_messages.len() != num_var {
        return (false, Vec::new());
    }
    let mut challenges: Vec<GoldilocksExt2> = Vec::new();
    let mut current_sum: GoldilocksExt2 = claimed_sum;
    let mut round: usize = 0;
    while round < num_var
        invariant
            round <= num_var,
            num_var == msgs.len(),
            msgs == proof.round_messages@,
            np == num_poly,
            num_var > 0 ==> 1 <= num_poly < usize::MAX,
            transcript.compress == comp,
            comp == old(transcript).compress,
            s == old(transcript).state,
            h == old(transcript).hash(),
            transcript.wf(),
            h == transcript.hash(),
            transcript.state == verifier_digest(h, s, msgs, round as nat),
            current_sum@ == claim_at(h, s, msgs, claimed_sum@, round as nat),
            round == 0 ==> current_sum == claimed_sum,
            round > 0 ==> current_sum.canonical(),
            rounds_passed(h, s, msgs, claimed_sum, np, round as nat) == round,
            challenges.len() == round,
            forall|k: int|
                0 <= k < round ==> (#[trigger] challenges[k])@ == verifier_challenge(h, s, msgs, k)
                    && challenges[k].canonical(),
        decreases num_var - round,
    {
        let round_msg: &Vec<GoldilocksExt2> = &proof.round_messages[round];
        if round_msg.len() != num_poly + 1 {
            proof {
                assert(!round_ok(h, s, msgs, claimed_sum, np, round as int));
                lemma_rounds_stop(h, s, msgs, claimed_sum, np, round as nat, num_var as nat);
                lemma_rounds_passed(h, s, msgs, claimed_sum, np, num_var as nat);
            }
            return (false, Vec::new());
        }
        let total: GoldilocksExt2 = ext2_add(round_msg[0], round_msg[1]);
        if total != current_sum {
            proof {
                if current_sum.canonical() {
                    lemma_ext_canonical_unique(total, current_sum);
                }
                assert(!round_ok(h, s, msgs, claimed_sum, np, round as int));
                lemma_rounds_stop(h, s, msgs, claimed_sum, np, round as nat, num_var as nat);
                lemma_rounds_passed(h, s, msgs, claimed_sum, np, num_var as nat);
            }
            return (false, Vec::new());
        }
        assert(round_ok(h, s, msgs, claimed_sum, np, round as int));
        transcript.append_all_ext2(Label::RoundMessage, round_msg);
        let challenge: GoldilocksExt2 = transcript.challenge_ext2(Label::Challenge);
        challenges.push(challenge);
        current_sum = interpolate_and_evaluate_ext2(round_msg.as_slice(), challenge);
        round = round + 1;
    }
    let verified: bool = current_sum == proof.final_eval;
    proof {
        lemma_rounds_passed(h, s, msgs, claimed_sum, np, num_var as nat);
        if num_var > 0 && proof.final_eval.canonical() {
            lemma_ext_canonical_unique(current_sum, proof.final_eval);
        }
    }
    (verified, challenges)
}

impl SumcheckVerifier {
    /// Accepts exactly the proofs whose rounds add up; returns the challenges if all rounds pass.
    pub fn verify<F: Fn(Digest, Digest) -> Digest>(
        proof: &SumcheckProof,
        claimed_sum: GoldilocksExt2,
        num_var: usize,
        num_poly: usize,
        transcript: &mut Transcript<F>,
    ) -> (r: (bool, Vec<GoldilocksExt2>))
        requires
            old(transcript).wf(),
            num_var > 0 ==> 1 <= num_poly < usize::MAX,
        ensures
            final(transcript).compress == old(transcript).compress,
            verdict(
                old(transcript).hash(),
                preamble(
                    old(transcript).hash(),
                    old(transcript).state,
                    Label::NumVar,
                    num_var,
                    Label::NumPoly,
                    num_poly,
                ),
                *proof,
                claimed_sum,
                num_var as nat,
                num_poly as nat,
                r.0,
                r.1@,
                final(transcript).state,
            ),
    {
        transcript.append_u64(Label::NumVar, num_var as u64);
        transcript.append_u64(Label::NumPoly, num_poly as u64);
        verify_rounds(proof, claimed_sum, num_var, num_poly, transcript)
    }

    /// The same check for sums weighted by an equality polynomial, which announce other labels.
    pub fn verify_general<F: Fn(Digest, Digest) -> Digest>(
        proof: &SumcheckProof,
        claimed_sum: GoldilocksExt2,
        num_var: usize,
        num_poly: usize,
        transcript: &mut Transcript<F>,
    ) -> (r: (bool, Vec<GoldilocksExt2>))
        requires
            old(transcript).wf(),
            num_var > 0 ==> 1 <= num_poly < usize::MAX,
        ensures
            final(transcript).compress == old(transcript).compress,
            verdict(
                old(transcript).hash(),
                preamble(
                    old(transcript).hash(),
                    old(transcript).state,
                    Label::GenNumVar,
                    num_var,
                    Label::GenNumPoly,
                    num_poly,
                ),
                *proof,
                claimed_sum,
                num_var as nat,
                num_poly as nat,
                r.0,
                r.1@,
                final(transcript).state,
            ),
    {
        transcript.append_u64(Label::GenNumVar, num_var as u64);
        transcript.append_u64(Label::GenNumPoly, num_poly as u64);
        verify_rounds(proof, claimed_sum, num_var, num_poly, transcript)
    }
}

/// What the verifier returns for a proof read from digest `s`: whether it accepts, the challenges
/// of the rounds if all of them pass, and the digest after the last round that passed.
pub open spec fn verdict(
    h: spec_fn(Digest, Digest) -> Digest,
    s: Digest,
    proof: SumcheckProof,
    claimed: GoldilocksExt2,
    n: nat,
    num_poly: nat,
    verified: bool,
    challenges: Seq<GoldilocksExt2>,
    end: Digest,
) -> bool {
    let msgs = proof.round_messages@;
    let passed = rounds_passed(h, s, msgs, claimed, num_poly, n);
    &&& verified <==> accepts(h, s, proof, claimed, n, num_poly)
    &&& if msgs.len() != n {
        challenges.len() == 0 && end == s
    } else {
        &&& end == verifier_digest(h, s, msgs, passed)
        &&& passed < n ==> challenges.len() == 0
        &&& passed == n ==> challenges.len() == n && forall|k: int|
            0 <= k < n ==> (#[trigger] challenges[k])@ == verifier_challenge(h, s, msgs, k)
                && challenges[k].canonical()
    }
}

/// The digest at which the verifier stops.
pub open spec fn sumcheck_end(
    h: spec_fn(Digest, Digest) -> Digest,
    s: Digest,
    proof: SumcheckProof,
    claimed: GoldilocksExt2,
    n: nat,
    num_poly: nat,
) -> Digest {
    let msgs = proof.round_messages@;
    if msgs.len() != n {
        s
    } else {
        verifier_digest(h, s, msgs, rounds_passed(h, s, msgs, claimed, num_poly, n))
    }
}

/// After the proof of an honest prover, prover and verifier hold the same digest.
pub proof fn lemma_honest_end(
    h: spec_fn(Digest, Digest) -> Digest,
    s: Digest,
    polys: Seq<Seq<Elem>>,
    n: nat,
    proof: SumcheckProof,
    claimed: GoldilocksExt2,
)
    requires
        tables(polys, pow2(n)),
        1 <= polys.len() < prime(),
        honest_proof(h, s, polys, n, proof),
        claimed.canonical(),
        claimed@ == total(polys, pow2(n)),
    ensures
        accepts(h, s, proof, claimed, n, polys.len()),
        sumcheck_end(h, s, proof, claimed, n, polys.len()) == honest(h, s, polys, n, n).1,
{
    lemma_completeness(h, s, polys, n, proof, claimed);
    lemma_rounds_passed(h, s, proof.round_messages@, claimed, polys.len(), n);
    lemma_same_digests(h, s, polys, n, proof, n);
}

} // verus!
