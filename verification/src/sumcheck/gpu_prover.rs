//! The sum-check prover whose round messages are computed elsewhere, on a device that holds the
//! polynomials. The prover talks to the transcript and keeps what was said.
use vstd::prelude::*;

use crate::field::elem::Elem;
use crate::field::sums::{lemma_prod_eq, prod};
use crate::field::{ext2_mul, ext_elems, GoldilocksExt2};
use crate::poly::model::mle;
use crate::sumcheck::fiat_shamir::{
    honest, honest_challenges, honest_proof, lemma_honest_prefix, preamble, word_of, words_of,
};
use crate::sumcheck::model::{final_product, message_at};
use crate::sumcheck::SumcheckProof;
use crate::transcript::{absorb_all, digest_elem, draw, Digest, Label, Transcript};

verus! {

/// The messages of rounds.
pub open spec fn message_list(m: Seq<Vec<GoldilocksExt2>>) -> Seq<Seq<GoldilocksExt2>> {
    m.map_values(|v: Vec<GoldilocksExt2>| v@)
}

/// The challenges that follow the first `k` messages, and the digest after them.
pub open spec fn device_run(
    h: spec_fn(Digest, Digest) -> Digest,
    s: Digest,
    messages: Seq<Seq<GoldilocksExt2>>,
    k: nat,
) -> (Seq<Elem>, Digest)
    decreases k,
{
    if k == 0 {
        (Seq::empty(), s)
    } else {
        let (chs, d) = device_run(h, s, messages, (k - 1) as nat);
        let e = draw(h, absorb_all(h, d, Label::RoundMessage, messages[k - 1]), Label::Challenge);
        (chs.push(digest_elem(e)), e)
    }
}

/// Later messages do not change earlier challenges.
proof fn lemma_run_prefix(
    h: spec_fn(Digest, Digest) -> Digest,
    s: Digest,
    a: Seq<Seq<GoldilocksExt2>>,
    b: Seq<Seq<GoldilocksExt2>>,
    k: nat,
)
    requires
        k <= a.len(),
        k <= b.len(),
        forall|i: int| 0 <= i < k ==> #[trigger] a[i] == b[i],
    ensures
        device_run(h, s, a, k) == device_run(h, s, b, k),
        device_run(h, s, a, k).0.len() == k,
    decreases k,
{
    if k > 0 {
        lemma_run_prefix(h, s, a, b, (k - 1) as nat);
        assert(a[k - 1] == b[k - 1]);
    }
}

/// The device keeps to the protocol: it sends the round polynomials of the given polynomials in `n`
/// variables.
pub open spec fn device_honest(
    h: spec_fn(Digest, Digest) -> Digest,
    s: Digest,
    messages: Seq<Seq<GoldilocksExt2>>,
    polys: Seq<Seq<Elem>>,
    n: nat,
) -> bool {
    &&& messages.len() == n
    &&& forall|k: nat|
        k < n ==> #[trigger] messages[k as int] == words_of(
            message_at(polys, n, device_run(h, s, messages, k).0, k as int),
        )
}

/// A run with a device that keeps to the protocol is the run of an honest prover: the same
/// challenges are drawn and the same proof is sent.
pub proof fn lemma_device_honest(
    h: spec_fn(Digest, Digest) -> Digest,
    s: Digest,
    messages: Seq<Seq<GoldilocksExt2>>,
    polys: Seq<Seq<Elem>>,
    n: nat,
    proof: SumcheckProof,
)
    requires
        device_honest(h, s, messages, polys, n),
        message_list(proof.round_messages@) == messages,
        proof.final_eval == word_of(final_product(polys, device_run(h, s, messages, n).0)),
    ensures
        device_run(h, s, messages, n) == honest(h, s, polys, n, n),
        honest_proof(h, s, polys, n, proof),
{
    lemma_runs_agree(h, s, messages, polys, n, n);
    let chs = honest_challenges(h, s, polys, n);
    assert forall|k: int| 0 <= k < n implies (#[trigger] proof.round_messages[k])@ == words_of(
        message_at(polys, n, chs, k),
    ) by {
        assert(messages[k] == proof.round_messages[k]@);
        lemma_runs_agree(h, s, messages, polys, n, k as nat);
        lemma_honest_prefix(h, s, polys, n, k as nat, n);
        let early = honest(h, s, polys, n, k as nat).0;
        assert(messages[k as nat as int] == words_of(message_at(polys, n, early, k)));
        assert(early.take(k) =~= chs.take(k));
        assert(message_at(polys, n, early, k) == message_at(polys, n, chs, k));
    }
}

proof fn lemma_runs_agree(
    h: spec_fn(Digest, Digest) -> Digest,
    s: Digest,
    messages: Seq<Seq<GoldilocksExt2>>,
    polys: Seq<Seq<Elem>>,
    n: nat,
    k: nat,
)
    requires
        device_honest(h, s, messages, polys, n),
        k <= n,
    ensures
        device_run(h, s, messages, k) == honest(h, s, polys, n, k),
    decreases k,
{
    if k > 0 {
        lemma_runs_agree(h, s, messages, polys, n, (k - 1) as nat);
        let j = (k - 1) as nat;
        assert(messages[j as int] == words_of(
            message_at(polys, n, device_run(h, s, messages, j).0, j as int),
        ));
    }
}

/// A prover for products of multilinear polynomials that lie on a device.
#[derive(Debug)]
pub struct GpuLinearSumcheckProver {
    pub num_var: usize,
    pub num_poly: usize,
    pub challenges: Vec<GoldilocksExt2>,
    pub round_messages: Vec<Vec<GoldilocksExt2>>,
    pub final_evals: Vec<GoldilocksExt2>,
}

impl GpuLinearSumcheckProver {
    /// The rounds so far are those that began at digest `s` and ended at digest `d`.
    pub open spec fn ran(&self, h: spec_fn(Digest, Digest) -> Digest, s: Digest, d: Digest) -> bool {
        &&& self.challenges.len() == self.round_messages.len()
        &&& (ext_elems(self.challenges@), d) == device_run(
            h,
            s,
            message_list(self.round_messages@),
            self.round_messages@.len(),
        )
    }

    /// Announces the size of the statement.
    pub fn new<F: Fn(Digest, Digest) -> Digest>(
        num_var: usize,
        num_polys: usize,
        transcript: &mut Transcript<F>,
    ) -> (r: Self)
        requires
            old(transcript).wf(),
        ensures
            final(transcript).compress == old(transcript).compress,
            final(transcript).state == preamble(
                old(transcript).hash(),
                old(transcript).state,
                Label::NumVar,
                num_var,
                Label::NumPoly,
                num_polys,
            ),
            r.num_var == num_var,
            r.num_poly == num_polys,
            r.final_evals.len() == 0,
            r.round_messages.len() == 0,
            r.ran(final(transcript).hash(), final(transcript).state, final(transcript).state),
    {
        transcript.append_u64(Label::NumVar, num_var as u64);
        transcript.append_u64(Label::NumPoly, num_polys as u64);
        let r = GpuLinearSumcheckProver {
            num_var,
            num_poly: num_polys,
            challenges: Vec::new(),
            round_messages: Vec::new(),
            final_evals: Vec::new(),
        };
        assert(ext_elems(r.challenges@) =~= Seq::empty());
        r
    }

    /// Sends the message of a round and draws the challenge by which the device folds its
    /// polynomials.
    pub fn round<F: Fn(Digest, Digest) -> Digest>(
        &mut self,
        message: Vec<GoldilocksExt2>,
        transcript: &mut Transcript<F>,
    ) -> (challenge: GoldilocksExt2)
        requires
            old(transcript).wf(),
        ensures
            final(transcript).compress == old(transcript).compress,
            final(transcript).state == draw(
                old(transcript).hash(),
                absorb_all(
                    old(transcript).hash(),
                    old(transcript).state,
                    Label::RoundMessage,
                    message@,
                ),
                Label::Challenge,
            ),
            challenge@ == digest_elem(final(transcript).state),
            challenge.canonical(),
            final(self).num_var == old(self).num_var,
            final(self).num_poly == old(self).num_poly,
            final(self).final_evals == old(self).final_evals,
            final(self).challenges@ == old(self).challenges@.push(challenge),
            final(self).round_messages@ == old(self).round_messages@.push(message),
            forall|s: Digest|
                old(self).ran(old(transcript).hash(), s, old(transcript).state) ==> (#[trigger]
                final(self).ran(old(transcript).hash(), s, final(transcript).state)),
    {
        let ghost h = transcript.hash();
        let ghost d = transcript.state;
        let ghost before = *self;
        transcript.append_all_ext2(Label::RoundMessage, &message);
        let challenge: GoldilocksExt2 = transcript.challenge_ext2(Label::Challenge);
        self.challenges.push(challenge);
        self.round_messages.push(message);
        proof {
            let k = before.round_messages@.len();
            let now = message_list(self.round_messages@);
            assert forall|s: Digest| before.ran(h, s, d) implies #[trigger] self.ran(
                h,
                s,
                transcript.state,
            ) by {
                let was = message_list(before.round_messages@);
                assert forall|i: int| 0 <= i < k implies #[trigger] was[i] == now[i] by {}
                lemma_run_prefix(h, s, was, now, k);
                assert(now[k as int] == message@);
                assert(ext_elems(self.challenges@) =~= ext_elems(before.challenges@).push(challenge@));
            }
        }
        challenge
    }

    /// Ends the run with the values that the polynomials have folded to.
    pub fn finish(&mut self, final_evals: Vec<GoldilocksExt2>) -> (proof: SumcheckProof)
        ensures
            final(self).num_var == old(self).num_var,
            final(self).num_poly == old(self).num_poly,
            final(self).challenges == old(self).challenges,
            final(self).final_evals == final_evals,
            final(self).round_messages.len() == 0,
            proof.round_messages == old(self).round_messages,
            proof.final_eval == word_of(prod(final_evals@.len(), |i: int| final_evals[i]@)),
    {
        let ghost f = |i: int| final_evals[i]@;
        let mut final_eval: GoldilocksExt2 = GoldilocksExt2::one();
        let mut i: usize = 0;
        while i < final_evals.len()
            invariant
                i <= final_evals.len(),
                f == (|i: int| final_evals[i]@),
                final_eval@ == prod(i as nat, f),
                final_eval.canonical(),
            decreases final_evals.len() - i,
        {
            assert(final_evals[i as int]@ == f(i as int));
            final_eval = ext2_mul(final_eval, final_evals[i]);
            i = i + 1;
        }
        self.final_evals = final_evals;
        let mut round_messages: Vec<Vec<GoldilocksExt2>> = Vec::new();
        core::mem::swap(&mut round_messages, &mut self.round_messages);
        SumcheckProof { final_eval, round_messages }
    }

    /// The value that a polynomial folded to.
    pub fn final_eval(&self, poly_idx: usize) -> (r: GoldilocksExt2)
        requires
            poly_idx < self.final_evals.len(),
        ensures
            r == self.final_evals[poly_idx as int],
    {
        self.final_evals[poly_idx]
    }
}

/// Where the values are those of the polynomials at the challenges, their product is the one that
/// an honest prover sends.
pub proof fn lemma_final_values(polys: Seq<Seq<Elem>>, chs: Seq<Elem>, values: Seq<Elem>)
    requires
        values.len() == polys.len(),
        forall|i: int| 0 <= i < polys.len() ==> #[trigger] values[i] == mle(polys[i], chs),
    ensures
        prod(values.len(), |i: int| values[i]) == final_product(polys, chs),
{
    lemma_prod_eq(values.len(), |i: int| values[i], |i: int| mle(polys[i], chs));
}

} // verus!
