//! The sum-check prover over the extension.
use vstd::arithmetic::power2::*;
use vstd::prelude::*;

use crate::field::elem::{embed, one, zero, Elem};
use crate::field::sums::{prod, sum};
use crate::field::{ext2_add, ext2_mul, ext2_sub, ext_elems, GoldilocksExt2, GoldilocksField};
use crate::poly::dense::{fold_ext, lemma_ext_canon};
use crate::poly::model::{all_canon, fold, line, mle};
use crate::sumcheck::fiat_shamir::{
    honest, honest_challenges, honest_proof, lemma_honest_prefix, lemma_words_of, preamble, word_of,
    words_of,
};
use crate::sumcheck::model::{
    final_product, fold_polys, lemma_fold_polys, message_at, round_message, round_term, round_value,
    tables,
};
use crate::sumcheck::SumcheckProof;
use crate::transcript::{Digest, Label, Transcript};

verus! {

/// The tables behind a list of extension polynomials.
pub open spec fn poly_elems(polys: Seq<Vec<GoldilocksExt2>>) -> Seq<Seq<Elem>> {
    Seq::new(polys.len(), |i: int| ext_elems(polys[i]@))
}

/// Proves sums of products of polynomials over the extension.
#[derive(Debug)]
pub struct CpuLinearSumcheckProverExt2 {
    pub num_var: usize,
    pub num_poly: usize,
    pub challenges: Vec<GoldilocksExt2>,
    pub final_evals: Vec<GoldilocksExt2>,
}

/// The product of all polynomials with the first variable at `c` and the others at corner `j`.
fn term_ext2(polys: &Vec<Vec<GoldilocksExt2>>, c: GoldilocksExt2, j: usize) -> (r: GoldilocksExt2)
    requires
        forall|i: int| 0 <= i < polys.len() ==> 2 * j + 1 < (#[trigger] polys[i]).len(),
    ensures
        r@ == round_term(poly_elems(polys@), c@, j as int),
        r.canonical(),
{
    let mut product: GoldilocksExt2 = GoldilocksExt2::one();
    let ghost ps = poly_elems(polys@);
    let ghost f = |i: int| line(ps[i][2 * j], ps[i][2 * j + 1], c@);
    let mut i: usize = 0;
    while i < polys.len()
        invariant
            i <= polys.len(),
            ps == poly_elems(polys@),
            f == (|i: int| line(ps[i][2 * j], ps[i][2 * j + 1], c@)),
            forall|i: int| 0 <= i < polys.len() ==> 2 * j + 1 < (#[trigger] polys[i]).len(),
            product@ == prod(i as nat, f),
            product.canonical(),
        decreases polys.len() - i,
    {
        assert(2 * j + 1 < polys[i as int].len());
        let a: GoldilocksExt2 = polys[i][2 * j];
        let b: GoldilocksExt2 = polys[i][2 * j + 1];
        let val: GoldilocksExt2 = ext2_add(a, ext2_mul(c, ext2_sub(b, a)));
        assert(val@ == f(i as int));
        product = ext2_mul(product, val);
        i = i + 1;
    }
    product
}

/// The round polynomial at `0, 1, .., k` for `k` polynomials.
pub fn round_message_ext2(polys: &Vec<Vec<GoldilocksExt2>>, half: usize) -> (msg: Vec<
    GoldilocksExt2,
>)
    requires
        polys.len() < usize::MAX,
        forall|i: int| 0 <= i < polys.len() ==> (#[trigger] polys[i]).len() == 2 * half,
    ensures
        ext_elems(msg@) == round_message(poly_elems(polys@), half as nat),
        forall|k: int| 0 <= k < msg.len() ==> (#[trigger] msg[k]).canonical(),
{
    let count: usize = polys.len() + 1;
    let mut msg: Vec<GoldilocksExt2> = Vec::new();
    let ghost ps = poly_elems(polys@);
    let mut k: usize = 0;
    while k < count
        invariant
            k <= count,
            count == polys.len() + 1,
            ps == poly_elems(polys@),
            forall|i: int| 0 <= i < polys.len() ==> (#[trigger] polys[i]).len() == 2 * half,
            msg.len() == k,
            forall|x: int|
                0 <= x < k ==> (#[trigger] msg[x])@ == round_value(ps, half as nat, embed(x))
                    && msg[x].canonical(),
        decreases count - k,
    {
        let c: GoldilocksExt2 = GoldilocksExt2::from_base(GoldilocksField(k as u64));
        let mut acc: GoldilocksExt2 = GoldilocksExt2::zero();
        let ghost f = |j: int| round_term(ps, c@, j);
        let mut j: usize = 0;
        while j < half
            invariant
                j <= half,
                ps == poly_elems(polys@),
                forall|i: int| 0 <= i < polys.len() ==> (#[trigger] polys[i]).len() == 2 * half,
                f == (|j: int| round_term(ps, c@, j)),
                acc@ == sum(j as nat, f),
                acc.canonical(),
            decreases half - j,
        {
            assert forall|i: int| 0 <= i < polys.len() implies 2 * j + 1 < (#[trigger] polys[i]).len() by {}
            let t: GoldilocksExt2 = term_ext2(polys, c, j);
            assert(t@ == f(j as int));
            acc = ext2_add(acc, t);
            j = j + 1;
        }
        msg.push(acc);
        k = k + 1;
    }
    assert(ext_elems(msg@) =~= round_message(ps, half as nat));
    msg
}

/// Fixes the first variable of every polynomial.
pub fn fold_polys_ext2(polys: &mut Vec<Vec<GoldilocksExt2>>, r: GoldilocksExt2)
    ensures
        final(polys).len() == old(polys).len(),
        forall|i: int|
            0 <= i < old(polys).len() ==> ext_elems((#[trigger] final(polys)[i])@) == fold(
                ext_elems(old(polys)[i]@),
                r@,
            ),
        forall|i: int, j: int|
            0 <= i < final(polys).len() && 0 <= j < final(polys)[i].len() ==> (
            #[trigger] final(polys)[i][j]).canonical(),
{
    let mut i: usize = 0;
    let ghost before = polys@;
    while i < polys.len()
        invariant
            i <= polys.len(),
            polys.len() == before.len(),
            forall|k: int|
                0 <= k < i ==> ext_elems((#[trigger] polys[k])@) == fold(
                    ext_elems(before[k]@),
                    r@,
                ),
            forall|k: int, j: int|
                0 <= k < i && 0 <= j < polys[k].len() ==> (#[trigger] polys[k][j]).canonical(),
            forall|k: int| i <= k < polys.len() ==> #[trigger] polys[k] == before[k],
        decreases polys.len() - i,
    {
        let w: Vec<GoldilocksExt2> = fold_ext(&polys[i], r);
        polys.set(i, w);
        i = i + 1;
    }
}

impl CpuLinearSumcheckProverExt2 {
    /// Announces the size of the statement.
    pub fn new<F: Fn(Digest, Digest) -> Digest>(
        num_var: usize,
        num_polys: usize,
        transcript: &mut Transcript<F>,
    ) -> (r: Self)
        requires
            old(transcript).wf(),
        ensures
            final(transcript).compress == old(transcript).compress,
            final(transcript).state == preamble(
                old(transcript).hash(),
                old(transcript).state,
                Label::NumVar,
                num_var,
                Label::NumPoly,
                num_polys,
            ),
            r.num_var == num_var,
            r.num_poly == num_polys,
            r.challenges.len() == 0,
            r.final_evals.len() == 0,
    {
        transcript.append_u64(Label::NumVar, num_var as u64);
        transcript.append_u64(Label::NumPoly, num_polys as u64);
        CpuLinearSumcheckProverExt2 {
            num_var,
            num_poly: num_polys,
            challenges: Vec::new(),
            final_evals: Vec::new(),
        }
    }

    /// Runs all rounds, folding the polynomials down to their values at the challenges.
    pub fn prove<F: Fn(Digest, Digest) -> Digest>(
        &mut self,
        polys: &mut Vec<Vec<GoldilocksExt2>>,
        transcript: &mut Transcript<F>,
    ) -> (proof: SumcheckProof)
        requires
            old(transcript).wf(),
            old(polys).len() == old(self).num_poly,
            1 <= old(polys).len() < usize::MAX,
            old(self).num_var < usize::BITS,
            forall|i: int|
                0 <= i < old(polys).len() ==> (#[trigger] old(polys)[i]).len() == pow2(
                    old(self).num_var as nat,
                ),
        ensures
            final(self).num_var == old(self).num_var,
            final(self).num_poly == old(self).num_poly,
            final(transcript).compress == old(transcript).compress,
            honest_proof(
                old(transcript).hash(),
                old(transcript).state,
                poly_elems(old(polys)@),
                old(self).num_var as nat,
                proof,
            ),
            final(transcript).state == honest(
                old(transcript).hash(),
                old(transcript).state,
                poly_elems(old(polys)@),
                old(self).num_var as nat,
                old(self).num_var as nat,
            ).1,
            final(self).challenges@ == old(self).challenges@ + words_of(
                honest_challenges(
                    old(transcript).hash(),
                    old(transcript).state,
                    poly_elems(old(polys)@),
                    old(self).num_var as nat,
                ),
            ),
            final(self).final_evals.len() == old(polys).len(),
            forall|i: int|
                0 <= i < old(polys).len() ==> (#[trigger] final(self).final_evals[i])@ == mle(
                    ext_elems(old(polys)[i]@),
                    honest_challenges(
                        old(transcript).hash(),
                        old(transcript).state,
                        poly_elems(old(polys)@),
                        old(self).num_var as nat,
                    ),
                ),
            final(polys).len() == old(polys).len(),
            forall|i: int|
                0 <= i < old(polys).len() ==> (#[trigger] final(polys)[i])@ == seq![
                    final(self).final_evals[i],
                ],
            old(self).num_var > 0 ==> forall|i: int|
                0 <= i < old(polys).len() ==> (#[trigger] final(self).final_evals[i]).canonical(),
            old(self).num_var == 0 ==> final(polys)@ == old(polys)@,
    {
        let n: usize = self.num_var;
        let ghost h = transcript.hash();
        let ghost s = transcript.state;
        let ghost comp = transcript.compress;
        let ghost ps = poly_elems(polys@);
        let ghost original = polys@;
        let ghost old_challenges = self.challenges@;
        let mut round_messages: Vec<Vec<GoldilocksExt2>> = Vec::new();
        let mut round: usize = 0;
        proof {
            assert(tables(ps, pow2(n as nat))) by {
                assert forall|i: int| 0 <= i < ps.len() implies (#[trigger] ps[i]).len() == pow2(
                    n as nat,
                ) && all_canon(ps[i]) by {
                    lemma_ext_canon(polys[i]@);
                }
            }
            assert(poly_elems(polys@) =~= fold_polys(ps, Seq::empty()));
            assert(words_of(Seq::<Elem>::empty()) =~= Seq::empty());
            assert(old_challenges + Seq::<GoldilocksExt2>::empty() =~= old_challenges);
        }
        while round < n
            invariant
                round <= n,
                n < usize::BITS,
                self.num_var == n,
                self.num_poly == old(self).num_poly,
                transcript.compress == comp,
                transcript.wf(),
                h == transcript.hash(),
                tables(ps, pow2(n as nat)),
                polys.len() == ps.len(),
                polys.len() == original.len(),
                1 <= polys.len() < usize::MAX,
                transcript.state == honest(h, s, ps, n as nat, round as nat).1,
                self.challenges@ == old_challenges + words_of(
                    honest(h, s, ps, n as nat, round as nat).0,
                ),
                poly_elems(polys@) == fold_polys(ps, honest(h, s, ps, n as nat, round as nat).0),
                round_messages.len() == round,
                forall|k: int|
                    0 <= k < round ==> (#[trigger] round_messages[k])@ == words_of(
                        message_at(ps, n as nat, honest(h, s, ps, n as nat, round as nat).0, k),
                    ),
                round == 0 ==> polys@ == original,
                round > 0 ==> forall|i: int, j: int|
                    0 <= i < polys.len() && 0 <= j < polys[i].len() ==> (
                    #[trigger] polys[i][j]).canonical(),
            decreases n - round,
        {
            let ghost (chs, d) = honest(h, s, ps, n as nat, round as nat);
            let ghost cur = poly_elems(polys@);
            proof {
                lemma_honest_prefix(h, s, ps, n as nat, round as nat, round as nat);
                lemma_fold_polys(ps, n as nat, chs);
                lemma_pow2_unfold((n - round) as nat);
                assert forall|i: int| 0 <= i < polys.len() implies (#[trigger] polys[i]).len()
                    == pow2((n - round) as nat) by {
                    assert(cur[i].len() == pow2((n - round) as nat));
                }
                assert(polys[0].len() == pow2((n - round) as nat));
                assert(chs.take(round as int) =~= chs);
            }
            let half: usize = polys[0].len() / 2;
            let msg: Vec<GoldilocksExt2> = round_message_ext2(&*polys, half);
            proof {
                lemma_words_of(msg@);
                assert(msg@ == words_of(message_at(ps, n as nat, chs, round as int)));
            }
            transcript.append_all_ext2(Label::RoundMessage, &msg);
            let challenge: GoldilocksExt2 = transcript.challenge_ext2(Label::Challenge);
            let ghost chs2 = chs.push(challenge@);
            proof {
                assert(honest(h, s, ps, n as nat, (round + 1) as nat) == (
                    chs2,
                    transcript.state,
                ));
                assert forall|k: int| 0 <= k <= round implies chs2.take(k) == #[trigger] chs.take(
                    k,
                ) by {
                    assert(chs2.take(k) =~= chs.take(k));
                }
            }
            round_messages.push(msg);
            self.challenges.push(challenge);
            proof {
                assert(self.challenges@ =~= old_challenges + words_of(chs2));
                assert forall|k: int| 0 <= k < round + 1 implies (
                #[trigger] round_messages[k])@ == words_of(message_at(ps, n as nat, chs2, k)) by {
                    assert(chs2.take(k) == chs.take(k));
                    assert(message_at(ps, n as nat, chs2, k) == message_at(ps, n as nat, chs, k));
                }
            }
            let ghost before = polys@;
            fold_polys_ext2(polys, challenge);
            proof {
                assert(poly_elems(polys@) =~= fold_polys(ps, chs2)) by {
                    assert forall|i: int| 0 <= i < ps.len() implies poly_elems(polys@)[i]
                        == fold_polys(ps, chs2)[i] by {
                        assert(ext_elems(polys[i]@) == fold(ext_elems(before[i]@), challenge@));
                        assert(cur[i] == fold_polys(ps, chs)[i]);
                        assert(chs2.drop_last() =~= chs);
                    }
                }
            }
            round = round + 1;
        }
        let ghost chs = honest_challenges(h, s, ps, n as nat);
        proof {
            lemma_honest_prefix(h, s, ps, n as nat, n as nat, n as nat);
            lemma_fold_polys(ps, n as nat, chs);
            lemma2_to64();
            assert forall|i: int| 0 <= i < polys.len() implies (#[trigger] polys[i]).len() == 1
                && polys[i][0]@ == mle(ps[i], chs) by {
                assert(poly_elems(polys@)[i] == fold_polys(ps, chs)[i]);
                assert(fold_polys(ps, chs)[i].len() == 1);
                assert(ext_elems(polys[i]@)[0] == polys[i][0]@);
            }
        }
        let mut final_evals: Vec<GoldilocksExt2> = Vec::new();
        let mut final_eval: GoldilocksExt2 = GoldilocksExt2::one();
        let mut i: usize = 0;
        let ghost f = |i: int| mle(ps[i], chs);
        while i < polys.len()
            invariant
                i <= polys.len(),
                polys.len() == ps.len(),
                f == (|i: int| mle(ps[i], chs)),
                forall|k: int|
                    0 <= k < polys.len() ==> (#[trigger] polys[k]).len() == 1 && polys[k][0]@ == mle(
                        ps[k],
                        chs,
                    ),
                n > 0 ==> forall|k: int, j: int|
                    0 <= k < polys.len() && 0 <= j < polys[k].len() ==> (
                    #[trigger] polys[k][j]).canonical(),
                final_evals.len() == i,
                forall|k: int|
                    0 <= k < i ==> (#[trigger] final_evals[k])@ == mle(ps[k], chs) && polys[k]@
                        == seq![final_evals[k]] && (n > 0 ==> final_evals[k].canonical()),
                final_eval@ == prod(i as nat, f),
                final_eval.canonical(),
            decreases polys.len() - i,
        {
            assert(polys[i as int].len() == 1);
            let e: GoldilocksExt2 = polys[i][0];
            assert(polys[i as int]@ =~= seq![e]);
            assert(e@ == f(i as int));
            final_eval = ext2_mul(final_eval, e);
            final_evals.push(e);
            i = i + 1;
        }
        proof {
            assert(final_eval == word_of(final_product(ps, chs)));
        }
        self.final_evals = final_evals;
        SumcheckProof { final_eval, round_messages }
    }

    /// The value of one polynomial at the challenges.
    pub fn final_eval(&self, poly_idx: usize) -> (r: GoldilocksExt2)
        requires
            poly_idx < self.final_evals.len(),
        ensures
            r == self.final_evals[poly_idx as int],
    {
        self.final_evals[poly_idx]
    }
}

} // verus!
