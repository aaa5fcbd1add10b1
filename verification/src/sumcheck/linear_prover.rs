//! The sum-check prover over the base field.
use vstd::arithmetic::power2::*;
use vstd::prelude::*;

use crate::field::elem::{embed, prime, Elem};
use crate::field::sums::{prod, sum};
use crate::field::{base_elems, gl_add, gl_mul, gl_sub, GoldilocksExt2, GoldilocksField};
use crate::poly::dense::{fold_base, lemma_base_canon, lift, DenseMLPoly};
use crate::poly::model::{all_canon, fold, line, mle};
use crate::sumcheck::fiat_shamir::{
    base_proof, base_run, chain_ok, lemma_base_run_prefix, preamble, words_of,
};
use crate::sumcheck::model::{
    final_product, fold_polys, lemma_final, lemma_round, lemma_start, message_at, product_at,
    round_message, round_term, round_value, tables, total,
};
use crate::sumcheck::{SumcheckProof, SumcheckProver};
use crate::transcript::{absorb_all, Digest, Label, Transcript};

verus! {

/// The tables behind a list of dense polynomials.
pub open spec fn dense_elems(polys: Seq<DenseMLPoly>) -> Seq<Seq<Elem>> {
    Seq::new(polys.len(), |i: int| polys[i].values())
}

/// The message of a round as a function of the challenges of the earlier rounds.
pub open spec fn linear_message(polys: Seq<Seq<Elem>>, n: nat) -> spec_fn(Seq<Elem>) -> Seq<Elem> {
    |chs: Seq<Elem>| round_message(fold_polys(polys, chs), pow2((n - chs.len() - 1) as nat))
}

/// All polynomials are in `n` variables.
pub open spec fn all_in_vars(polys: Seq<DenseMLPoly>, n: nat) -> bool {
    forall|i: int| 0 <= i < polys.len() ==> (#[trigger] polys[i]).valid() && polys[i].n == n
}

/// Proves sums of products of base field polynomials.
#[derive(Debug)]
pub struct LinearSumcheckProver {
    pub num_var: usize,
    pub num_poly: usize,
    pub a_arrays: Vec<DenseMLPoly>,
    pub current_round: usize,
    pub challenges: Vec<GoldilocksField>,
}

/// The words of base field elements, in the extension.
pub proof fn lemma_lifted_words(v: Seq<GoldilocksField>, w: Seq<GoldilocksExt2>)
    requires
        w.len() == v.len(),
        forall|i: int| 0 <= i < w.len() ==> (#[trigger] w[i]).c0 == v[i] && w[i].c1.0 == 0,
        forall|i: int| 0 <= i < v.len() ==> (#[trigger] v[i]).canonical(),
    ensures
        w == words_of(base_elems(v)),
{
    assert forall|i: int| 0 <= i < w.len() implies w[i] == words_of(base_elems(v))[i] by {
        assert(v[i].canonical());
        assert(w[i].c0 == v[i]);
    }
    assert(w =~= words_of(base_elems(v)));
}

/// Absorbs base field elements, first to last.
pub fn append_all_scalars<F: Fn(Digest, Digest) -> Digest>(
    transcript: &mut Transcript<F>,
    msgs: &Vec<GoldilocksField>,
)
    requires
        old(transcript).wf(),
        forall|i: int| 0 <= i < msgs.len() ==> (#[trigger] msgs[i]).canonical(),
    ensures
        final(transcript).compress == old(transcript).compress,
        final(transcript).state == absorb_all(
            old(transcript).hash(),
            old(transcript).state,
            Label::RoundMessage,
            words_of(base_elems(msgs@)),
        ),
{
    let ghost h = transcript.hash();
    let ghost s = transcript.state;
    let ghost c = transcript.compress;
    let ghost words = words_of(base_elems(msgs@));
    let mut i: usize = 0;
    assert(words.take(0) =~= Seq::<GoldilocksExt2>::empty());
    while i < msgs.len()
        invariant
            i <= msgs.len(),
            transcript.compress == c,
            transcript.wf(),
            h == transcript.hash(),
            words == words_of(base_elems(msgs@)),
            forall|k: int| 0 <= k < msgs.len() ==> (#[trigger] msgs[k]).canonical(),
            transcript.state == absorb_all(h, s, Label::RoundMessage, words.take(i as int)),
        decreases msgs.len() - i,
    {
        proof {
            assert(words.take(i as int + 1).drop_last() =~= words.take(i as int));
            assert(msgs[i as int].canonical());
            assert(words[i as int].c0 == msgs[i as int]);
            assert(words[i as int].c1.0 == 0);
        }
        transcript.append_scalar(Label::RoundMessage, &msgs[i]);
        i = i + 1;
    }
    assert(words.take(i as int) =~= words);
}

impl LinearSumcheckProver {
    /// The polynomials have one variable per remaining round.
    pub open spec fn ready(&self) -> bool {
        &&& self.current_round <= self.num_var < usize::BITS
        &&& self.a_arrays.len() == self.num_poly
        &&& 1 <= self.num_poly < usize::MAX
        &&& all_in_vars(self.a_arrays@, (self.num_var - self.current_round) as nat)
    }

    /// The product of all polynomials with the first variable at `c` and the others at corner `y`.
    pub fn compute_g_value(&self, c: GoldilocksField, y_bits: usize) -> (r: GoldilocksField)
        requires
            self.ready(),
            self.current_round < self.num_var,
            y_bits < pow2((self.num_var - self.current_round - 1) as nat),
        ensures
            r@ == round_term(dense_elems(self.a_arrays@), c@, y_bits as int),
            r.canonical(),
    {
        let mut product: GoldilocksField = GoldilocksField(1);
        let ghost ps = dense_elems(self.a_arrays@);
        let ghost f = |i: int| line(ps[i][2 * y_bits], ps[i][2 * y_bits + 1], c@);
        proof {
            lemma_pow2_unfold((self.num_var - self.current_round) as nat);
        }
        let mut i: usize = 0;
        while i < self.a_arrays.len()
            invariant
                i <= self.a_arrays.len(),
                ps == dense_elems(self.a_arrays@),
                f == (|i: int| line(ps[i][2 * y_bits], ps[i][2 * y_bits + 1], c@)),
                all_in_vars(self.a_arrays@, (self.num_var - self.current_round) as nat),
                2 * y_bits + 1 < pow2((self.num_var - self.current_round) as nat),
                self.current_round < self.num_var,
                product@ == prod(i as nat, f),
                product.canonical(),
            decreases self.a_arrays.len() - i,
        {
            let poly: &DenseMLPoly = &self.a_arrays[i];
            assert(self.a_arrays[i as int].valid());
            let a: GoldilocksField = poly.evaluations[2 * y_bits];
            let b: GoldilocksField = poly.evaluations[2 * y_bits + 1];
            let val: GoldilocksField = gl_add(a, gl_mul(c, gl_sub(b, a)));
            assert(val@ == f(i as int));
            product = gl_mul(product, val);
            i = i + 1;
        }
        product
    }

    /// The round polynomial at `0, 1, .., num_poly`.
    pub fn compute_round_message(&self) -> (msg: Vec<GoldilocksField>)
        requires
            self.ready(),
            self.current_round < self.num_var,
        ensures
            base_elems(msg@) == round_message(
                dense_elems(self.a_arrays@),
                pow2((self.num_var - self.current_round - 1) as nat),
            ),
            forall|k: int| 0 <= k < msg.len() ==> (#[trigger] msg[k]).canonical(),
    {
        let half: usize = crate::util::arith::pow2_usize(self.num_var - self.current_round - 1);
        let count: usize = self.num_poly + 1;
        let ghost ps = dense_elems(self.a_arrays@);
        let mut msg: Vec<GoldilocksField> = Vec::new();
        let mut k: usize = 0;
        while k < count
            invariant
                k <= count,
                count == self.num_poly + 1,
                self.ready(),
                self.current_round < self.num_var,
                half == pow2((self.num_var - self.current_round - 1) as nat),
                ps == dense_elems(self.a_arrays@),
                msg.len() == k,
                forall|x: int|
                    0 <= x < k ==> (#[trigger] msg[x])@ == round_value(ps, half as nat, embed(x))
                        && msg[x].canonical(),
            decreases count - k,
        {
            let c: GoldilocksField = GoldilocksField(k as u64);
            let mut acc: GoldilocksField = GoldilocksField(0);
            let ghost f = |j: int| round_term(ps, c@, j);
            let mut y: usize = 0;
            while y < half
                invariant
                    y <= half,
                    self.ready(),
                    self.current_round < self.num_var,
                    half == pow2((self.num_var - self.current_round - 1) as nat),
                    ps == dense_elems(self.a_arrays@),
                    f == (|j: int| round_term(ps, c@, j)),
                    acc@ == sum(y as nat, f),
                    acc.canonical(),
                decreases half - y,
            {
                let g: GoldilocksField = self.compute_g_value(c, y);
                assert(g@ == f(y as int));
                acc = gl_add(acc, g);
                y = y + 1;
            }
            msg.push(acc);
            k = k + 1;
        }
        assert(base_elems(msg@) =~= round_message(ps, half as nat));
        msg
    }

    /// Fixes the first variable of every polynomial to the challenge.
    pub fn receive_challenge(&mut self, challenge: GoldilocksField)
        requires
            old(self).ready(),
            old(self).current_round < old(self).num_var,
        ensures
            final(self).ready(),
            final(self).num_var == old(self).num_var,
            final(self).num_poly == old(self).num_poly,
            final(self).current_round == old(self).current_round + 1,
            final(self).challenges@ == old(self).challenges@.push(challenge),
            dense_elems(final(self).a_arrays@) == Seq::new(
                old(self).a_arrays.len() as nat,
                |i: int| fold(old(self).a_arrays[i].values(), challenge@),
            ),
            forall|i: int, j: int|
                0 <= i < final(self).a_arrays.len() && 0 <= j < final(self).a_arrays[i].evaluations.len() ==> (#[trigger] final(self).a_arrays[i].evaluations[j]).canonical(),
    {
        self.challenges.push(challenge);
        let ghost before = self.a_arrays@;
        let vars: usize = self.num_var - self.current_round;
        let mut folded: Vec<DenseMLPoly> = Vec::new();
        let mut i: usize = 0;
        proof {
            lemma_pow2_unfold(vars as nat);
        }
        while i < self.a_arrays.len()
            invariant
                i <= self.a_arrays.len(),
                self.a_arrays@ == before,
                vars == self.num_var - self.current_round,
                0 < vars < usize::BITS,
                pow2(vars as nat) == 2 * pow2((vars - 1) as nat),
                all_in_vars(before, vars as nat),
                folded.len() == i,
                forall|k: int|
                    0 <= k < i ==> (#[trigger] folded[k]).valid() && folded[k].n == vars - 1
                        && folded[k].values() == fold(before[k].values(), challenge@),
                forall|k: int, j: int|
                    0 <= k < i && 0 <= j < folded[k].evaluations.len() ==> (
                    #[trigger] folded[k].evaluations[j]).canonical(),
            decreases self.a_arrays.len() - i,
        {
            assert(before[i as int].valid());
            let w: Vec<GoldilocksField> = fold_base(&self.a_arrays[i].evaluations, challenge);
            proof {
                assert(base_elems(w@).len() == w.len());
            }
            folded.push(DenseMLPoly { n: vars - 1, evaluations: w });
            i = i + 1;
        }
        self.a_arrays = folded;
        self.current_round = self.current_round + 1;
        assert(dense_elems(self.a_arrays@) =~= Seq::new(
            before.len() as nat,
            |i: int| fold(before[i].values(), challenge@),
        ));
    }

    /// The product of the values left after all rounds.
    pub fn final_evaluation(&self) -> (r: GoldilocksField)
        requires
            self.ready(),
            self.current_round == self.num_var,
        ensures
            r@ == product_at(dense_elems(self.a_arrays@), 0),
            r.canonical(),
    {
        let mut product: GoldilocksField = GoldilocksField(1);
        let ghost ps = dense_elems(self.a_arrays@);
        let ghost f = |i: int| ps[i][0];
        let mut i: usize = 0;
        proof {
            lemma2_to64();
        }
        while i < self.a_arrays.len()
            invariant
                i <= self.a_arrays.len(),
                all_in_vars(self.a_arrays@, 0),
                pow2(0) == 1,
                ps == dense_elems(self.a_arrays@),
                f == (|i: int| ps[i][0]),
                product@ == prod(i as nat, f),
                product.canonical(),
            decreases self.a_arrays.len() - i,
        {
            assert(self.a_arrays[i as int].valid());
            let v: GoldilocksField = self.a_arrays[i].evaluations[0];
            assert(v@ == f(i as int));
            product = gl_mul(product, v);
            i = i + 1;
        }
        product
    }
}

/// Copies a list of polynomials.
pub fn clone_polys(polys: &Vec<DenseMLPoly>) -> (r: Vec<DenseMLPoly>)
    ensures
        r.len() == polys.len(),
        forall|i: int|
            0 <= i < r.len() ==> (#[trigger] r[i]).n == polys[i].n && r[i].evaluations@
                == polys[i].evaluations@,
{
    let mut r: Vec<DenseMLPoly> = Vec::new();
    let mut i: usize = 0;
    while i < polys.len()
        invariant
            i <= polys.len(),
            r.len() == i,
            forall|k: int|
                0 <= k < i ==> (#[trigger] r[k]).n == polys[k].n && r[k].evaluations@
                    == polys[k].evaluations@,
        decreases polys.len() - i,
    {
        r.push(polys[i].clone());
        i = i + 1;
    }
    r
}

impl SumcheckProver for LinearSumcheckProver {
    type Instance = Vec<DenseMLPoly>;

    open spec fn provable(&self, instances: &Vec<DenseMLPoly>) -> bool {
        &&& self.num_var < usize::BITS
        &&& self.current_round == 0
        &&& instances.len() == self.num_poly
        &&& 1 <= self.num_poly < usize::MAX
        &&& all_in_vars(instances@, self.num_var as nat)
    }

    fn new<F: Fn(Digest, Digest) -> Digest>(
        num_var: usize,
        num_polys: usize,
        transcript: &mut Transcript<F>,
    ) -> (r: Self)
        ensures
            final(transcript).state == preamble(
                old(transcript).hash(),
                old(transcript).state,
                Label::NumVar,
                num_var,
                Label::NumPoly,
                num_polys,
            ),
            r.num_var == num_var,
            r.num_poly == num_polys,
            r.a_arrays.len() == 0,
            r.current_round == 0,
            r.challenges.len() == 0,
    {
        transcript.append_u64(Label::NumVar, num_var as u64);
        transcript.append_u64(Label::NumPoly, num_polys as u64);
        LinearSumcheckProver {
            num_var,
            num_poly: num_polys,
            a_arrays: Vec::new(),
            current_round: 0,
            challenges: Vec::new(),
        }
    }

    fn prove<F: Fn(Digest, Digest) -> Digest>(
        &mut self,
        instances: &Vec<DenseMLPoly>,
        transcript: &mut Transcript<F>,
    ) -> (proof: SumcheckProof)
        ensures
            ({
                let h = old(transcript).hash();
                let s = old(transcript).state;
                let ps = dense_elems(instances@);
                let n = old(self).num_var as nat;
                let (chs, end) = base_run(h, s, linear_message(ps, n), n);
                &&& final(transcript).state == end
                &&& base_elems(final(self).challenges@) == base_elems(old(self).challenges@) + chs
                &&& base_proof(h, s, linear_message(ps, n), n, final_product(ps, chs), proof)
                &&& final(self).current_round == n
            }),
    {
        let n: usize = self.num_var;
        let ghost h = transcript.hash();
        let ghost s = transcript.state;
        let ghost comp = transcript.compress;
        let ghost ps = dense_elems(instances@);
        let ghost msg_fn = linear_message(ps, n as nat);
        let ghost old_chs = base_elems(self.challenges@);
        self.a_arrays = clone_polys(instances);
        let mut round_messages: Vec<Vec<GoldilocksExt2>> = Vec::new();
        proof {
            assert(dense_elems(self.a_arrays@) =~= ps);
            assert(fold_polys(ps, Seq::empty()) =~= ps);
            assert(base_elems(self.challenges@) =~= old_chs + Seq::<Elem>::empty());
            assert(tables(ps, pow2(n as nat))) by {
                assert forall|i: int| 0 <= i < ps.len() implies (#[trigger] ps[i]).len() == pow2(
                    n as nat,
                ) && all_canon(ps[i]) by {
                    assert(instances[i].valid());
                    lemma_base_canon(instances[i].evaluations@);
                }
            }
            assert(all_in_vars(self.a_arrays@, n as nat)) by {
                assert forall|i: int| 0 <= i < self.a_arrays.len() implies (
                #[trigger] self.a_arrays[i]).valid() && self.a_arrays[i].n == n by {
                    assert(instances[i].valid());
                }
            }
        }
        let mut round: usize = 0;
        while round < n
            invariant
                round <= n,
                n == self.num_var,
                self.ready(),
                self.current_round == round,
                transcript.compress == comp,
                transcript.wf(),
                h == transcript.hash(),
                msg_fn == linear_message(ps, n as nat),
                tables(ps, pow2(n as nat)),
                dense_elems(self.a_arrays@) == fold_polys(ps, base_run(h, s, msg_fn, round as nat).0),
                base_elems(self.challenges@) == old_chs + base_run(h, s, msg_fn, round as nat).0,
                transcript.state == base_run(h, s, msg_fn, round as nat).1,
                round_messages.len() == round,
                forall|k: int|
                    0 <= k < round ==> (#[trigger] round_messages[k])@ == words_of(
                        msg_fn(base_run(h, s, msg_fn, round as nat).0.take(k)),
                    ),
            decreases n - round,
        {
            let ghost chs = base_run(h, s, msg_fn, round as nat).0;
            let ghost cur = self.a_arrays@;
            proof {
                lemma_base_run_prefix(h, s, msg_fn, round as nat, round as nat);
                assert(chs.take(round as int) =~= chs);
            }
            let msg: Vec<GoldilocksField> = self.compute_round_message();
            assert(base_elems(msg@) == msg_fn(chs));
            append_all_scalars(transcript, &msg);
            let challenge: GoldilocksField = transcript.challenge_scalar(Label::Challenge);
            let lifted: Vec<GoldilocksExt2> = lift(&msg);
            let ghost chs2 = chs.push(challenge@);
            proof {
                lemma_lifted_words(msg@, lifted@);
                assert(base_run(h, s, msg_fn, (round + 1) as nat) == (chs2, transcript.state));
                assert forall|k: int| 0 <= k <= round implies chs2.take(k) == #[trigger] chs.take(
                    k,
                ) by {
                    assert(chs2.take(k) =~= chs.take(k));
                }
            }
            round_messages.push(lifted);
            proof {
                assert forall|k: int| 0 <= k < round + 1 implies (
                #[trigger] round_messages[k])@ == words_of(msg_fn(chs2.take(k))) by {
                    assert(chs2.take(k) == chs.take(k));
                }
            }
            let ghost chal_before = self.challenges@;
            self.receive_challenge(challenge);
            proof {
                assert(base_elems(self.challenges@) =~= base_elems(chal_before).push(challenge@));
                assert((old_chs + chs).push(challenge@) =~= old_chs + chs2);
                assert(dense_elems(self.a_arrays@) =~= fold_polys(ps, chs2)) by {
                    assert forall|i: int| 0 <= i < ps.len() implies dense_elems(self.a_arrays@)[i]
                        == fold_polys(ps, chs2)[i] by {
                        assert(dense_elems(cur)[i] == fold_polys(ps, chs)[i]);
                        assert(chs2.drop_last() =~= chs);
                    }
                }
            }
            round = round + 1;
        }
        let final_eval: GoldilocksField = self.final_evaluation();
        proof {
            let chs = base_run(h, s, msg_fn, n as nat).0;
            let a = |i: int| dense_elems(self.a_arrays@)[i][0];
            let b = |i: int| mle(ps[i], chs);
            crate::field::sums::lemma_prod_eq(ps.len(), a, b);
            assert(final_eval@ == final_product(ps, chs));
        }
        SumcheckProof { final_eval: GoldilocksExt2::from_base(final_eval), round_messages }
    }
}

/// The messages of a base field run add up from the true sum to the final evaluation.
pub proof fn lemma_linear_completeness(
    h: spec_fn(Digest, Digest) -> Digest,
    s: Digest,
    polys: Seq<Seq<Elem>>,
    n: nat,
)
    requires
        tables(polys, pow2(n)),
        1 <= polys.len() < prime(),
    ensures
        ({
            let msg = linear_message(polys, n);
            let chs = base_run(h, s, msg, n).0;
            chain_ok(
                Seq::new(n, |k: int| msg(chs.take(k))),
                chs,
                total(polys, pow2(n)),
                final_product(polys, chs),
            )
        }),
{
    let msg = linear_message(polys, n);
    let chs = base_run(h, s, msg, n).0;
    let msgs = Seq::new(n, |k: int| msg(chs.take(k)));
    lemma_base_run_prefix(h, s, msg, n, n);
    lemma_start(polys, n);
    assert forall|k: int| 0 <= k < n implies #[trigger] msgs[k] == message_at(polys, n, chs, k) by {
        assert(chs.take(k).len() == k);
    }
    assert forall|k: int| 0 <= k < n implies (#[trigger] msgs[k])[0] + msgs[k][1] == if k == 0 {
        total(polys, pow2(n))
    } else {
        crate::field::upoly::interpolate(msgs[k - 1], chs[k - 1])
    } by {
        lemma_round(polys, n, chs, k);
        if k == 0 {
            assert(chs.take(0) =~= Seq::<Elem>::empty());
        } else {
            lemma_round(polys, n, chs, k - 1);
            assert(msgs[k - 1] == message_at(polys, n, chs, k - 1));
        }
    }
    lemma_final(polys, n, chs);
    assert(chs.take(n as int) =~= chs);
    if n == 0 {
        assert(chs =~= Seq::<Elem>::empty());
    } else {
        lemma_round(polys, n, chs, n - 1);
        assert(msgs[n - 1] == message_at(polys, n, chs, n - 1));
    }
}

} // verus!
