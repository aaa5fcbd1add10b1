//! The base field prover for sums weighted by an equality polynomial.
use vstd::arithmetic::power2::*;
use vstd::prelude::*;

use crate::field::elem::{embed, lemma_mul_comm, prime, Elem};
use crate::field::sums::{prod, sum};
use crate::field::upoly::interpolate;
use crate::field::{
    base_elems, ext_elems, gl_add, gl_mul, gl_sub, GoldilocksExt2, GoldilocksField,
};
use crate::poly::dense::{fold_base, lift, DenseMLPoly};
use crate::poly::model::{all_canon, fold_all, line};
use crate::sumcheck::fiat_shamir::{
    accepts, base_proof, base_run, chain_ok, digest_base, lemma_base_run_prefix,
    lemma_chain_accepts, lemma_elems_of_words, preamble, verifier_challenge, verifier_digest,
    words_of,
};
use crate::sumcheck::general_model::{
    general_final, general_message, lemma_fix_push, lemma_general_final, lemma_general_round,
    lemma_general_start, WeightedSum,
};
use crate::sumcheck::linear_prover::{
    all_in_vars, clone_polys, dense_elems, lemma_lifted_words,
};
use crate::sumcheck::model::{fold_polys, product_at, round_term};
use crate::sumcheck::{SumcheckProof, SumcheckProver};
use crate::transcript::{Digest, Label, Transcript};

verus! {

/// The sum that scalars, polynomials and an equality polynomial stand for.
pub open spec fn weighted(
    scalars: Seq<GoldilocksField>,
    arrays: Seq<Vec<DenseMLPoly>>,
    eq: DenseMLPoly,
) -> WeightedSum {
    WeightedSum {
        scalars: base_elems(scalars),
        arrays: Seq::new(arrays.len(), |t: int| dense_elems(arrays[t]@)),
        eq: eq.values(),
    }
}

/// Every term has `m` polynomials, and all polynomials are in `n` variables.
pub open spec fn terms_in_vars(arrays: Seq<Vec<DenseMLPoly>>, m: nat, n: nat) -> bool {
    forall|t: int|
        0 <= t < arrays.len() ==> (#[trigger] arrays[t]).len() == m && all_in_vars(arrays[t]@, n)
}

/// Proves sums of the form `eq(x) * (a_0 p_00(x) p_01(x) .. + a_1 p_10(x) p_11(x) .. + ..)`.
#[derive(Debug)]
pub struct GeneralLinearSumcheckProver {
    pub num_var: usize,
    pub num_poly: usize,
    pub eq: DenseMLPoly,
    pub a_scalars: Vec<GoldilocksField>,
    pub a_arrays: Vec<Vec<DenseMLPoly>>,
    pub current_round: usize,
    pub challenges: Vec<GoldilocksField>,
}

impl GeneralLinearSumcheckProver {
    /// The polynomials have one variable per remaining round.
    pub open spec fn ready(&self) -> bool {
        &&& self.current_round <= self.num_var < usize::BITS
        &&& self.a_arrays.len() == self.a_scalars.len()
        &&& 1 <= self.num_poly < usize::MAX
        &&& terms_in_vars(
            self.a_arrays@,
            (self.num_poly - 1) as nat,
            (self.num_var - self.current_round) as nat,
        )
        &&& self.eq.valid()
        &&& self.eq.n == self.num_var - self.current_round
    }

    /// The sum that is left to prove.
    pub open spec fn current(&self) -> WeightedSum {
        weighted(self.a_scalars@, self.a_arrays@, self.eq)
    }

    /// The summand with the first variable at `c` and the others at corner `y`.
    pub fn compute_g_value(&self, c: GoldilocksField, y_bits: usize) -> (r: GoldilocksField)
        requires
            self.ready(),
            self.current_round < self.num_var,
            y_bits < pow2((self.num_var - self.current_round - 1) as nat),
        ensures
            r@ == self.current().term(c@, y_bits as int),
            r.canonical(),
    {
        let ghost g = self.current();
        let ghost vars = (self.num_var - self.current_round) as nat;
        proof {
            lemma_pow2_unfold(vars);
        }
        let eq0: GoldilocksField = self.eq.evaluations[y_bits * 2];
        let eq1: GoldilocksField = self.eq.evaluations[y_bits * 2 + 1];
        let eq_val: GoldilocksField = gl_add(eq0, gl_mul(c, gl_sub(eq1, eq0)));
        let mut acc: GoldilocksField = GoldilocksField(0);
        let ghost f = |t: int| g.scalars[t] * round_term(g.arrays[t], c@, y_bits as int);
        let mut t: usize = 0;
        while t < self.a_arrays.len()
            invariant
                t <= self.a_arrays.len(),
                self.a_arrays.len() == self.a_scalars.len(),
                1 <= self.num_poly,
                terms_in_vars(self.a_arrays@, (self.num_poly - 1) as nat, vars),
                g == self.current(),
                2 * y_bits + 1 < pow2(vars),
                f == (|t: int| g.scalars[t] * round_term(g.arrays[t], c@, y_bits as int)),
                acc@ == sum(t as nat, f),
                acc.canonical(),
            decreases self.a_arrays.len() - t,
        {
            let ghost ps = g.arrays[t as int];
            let ghost e = |i: int| line(ps[i][2 * y_bits], ps[i][2 * y_bits + 1], c@);
            let mut product: GoldilocksField = GoldilocksField(1);
            assert(self.a_arrays[t as int].len() == self.num_poly - 1);
            let mut i: usize = 0;
            while i < self.num_poly - 1
                invariant
                    i <= self.num_poly - 1,
                    t < self.a_arrays.len(),
                    self.a_arrays[t as int].len() == self.num_poly - 1,
                    1 <= self.num_poly,
                    all_in_vars(self.a_arrays[t as int]@, vars),
                    ps == dense_elems(self.a_arrays[t as int]@),
                    2 * y_bits + 1 < pow2(vars),
                    e == (|i: int| line(ps[i][2 * y_bits], ps[i][2 * y_bits + 1], c@)),
                    product@ == prod(i as nat, e),
                    product.canonical(),
                decreases self.num_poly - 1 - i,
            {
                assert(self.a_arrays[t as int][i as int].valid());
                let poly: &DenseMLPoly = &self.a_arrays[t][i];
                let a: GoldilocksField = poly.evaluations[y_bits * 2];
                let b: GoldilocksField = poly.evaluations[y_bits * 2 + 1];
                let val: GoldilocksField = gl_add(a, gl_mul(c, gl_sub(b, a)));
                assert(val@ == e(i as int));
                product = gl_mul(product, val);
                i = i + 1;
            }
            assert(product@ == round_term(ps, c@, y_bits as int));
            assert(self.a_scalars[t as int]@ * product@ == f(t as int));
            acc = gl_add(acc, gl_mul(self.a_scalars[t], product));
            t = t + 1;
        }
        gl_mul(eq_val, acc)
    }

    /// The round polynomial at `0, 1, .., num_poly`.
    pub fn compute_round_message(&self) -> (msg: Vec<GoldilocksField>)
        requires
            self.ready(),
            self.current_round < self.num_var,
        ensures
            base_elems(msg@) == self.current().round_message(
                pow2((self.num_var - self.current_round - 1) as nat),
                (self.num_poly - 1) as nat,
            ),
            forall|k: int| 0 <= k < msg.len() ==> (#[trigger] msg[k]).canonical(),
    {
        let half: usize = crate::util::arith::pow2_usize(self.num_var - self.current_round - 1);
        let count: usize = self.num_poly + 1;
        let ghost g = self.current();
        let mut msg: Vec<GoldilocksField> = Vec::new();
        let mut k: usize = 0;
        while k < count
            invariant
                k <= count,
                count == self.num_poly + 1,
                self.ready(),
                self.current_round < self.num_var,
                half == pow2((self.num_var - self.current_round - 1) as nat),
                g == self.current(),
                msg.len() == k,
                forall|x: int|
                    0 <= x < k ==> (#[trigger] msg[x])@ == g.round_value(half as nat, embed(x))
                        && msg[x].canonical(),
            decreases count - k,
        {
            let c: GoldilocksField = GoldilocksField(k as u64);
            let mut acc: GoldilocksField = GoldilocksField(0);
            let ghost f = |y: int| g.term(c@, y);
            let mut y: usize = 0;
            while y < half
                invariant
                    y <= half,
                    self.ready(),
                    self.current_round < self.num_var,
                    half == pow2((self.num_var - self.current_round - 1) as nat),
                    g == self.current(),
                    f == (|y: int| g.term(c@, y)),
                    acc@ == sum(y as nat, f),
                    acc.canonical(),
                decreases half - y,
            {
                let v: GoldilocksField = self.compute_g_value(c, y);
                assert(v@ == f(y as int));
                acc = gl_add(acc, v);
                y = y + 1;
            }
            msg.push(acc);
            k = k + 1;
        }
        assert(base_elems(msg@) =~= g.round_message(half as nat, (self.num_poly - 1) as nat));
        msg
    }

    /// Fixes the first variable of all polynomials to the challenge.
    pub fn bind_variable_to_challenge(&mut self, r_m: GoldilocksField)
        requires
            old(self).ready(),
            old(self).current_round < old(self).num_var,
        ensures
            final(self).num_var == old(self).num_var,
            final(self).num_poly == old(self).num_poly,
            final(self).current_round == old(self).current_round,
            final(self).challenges@ == old(self).challenges@,
            final(self).a_scalars@ == old(self).a_scalars@,
            final(self).a_arrays.len() == old(self).a_arrays.len(),
            terms_in_vars(
                final(self).a_arrays@,
                (old(self).num_poly - 1) as nat,
                (old(self).num_var - old(self).current_round - 1) as nat,
            ),
            final(self).eq.valid(),
            final(self).eq.n == old(self).num_var - old(self).current_round - 1,
            final(self).current() == old(self).current().fix(seq![r_m@]),
    {
        let vars: usize = self.num_var - self.current_round;
        let ghost before = self.a_arrays@;
        let ghost g = self.current();
        let ghost point = seq![r_m@];
        proof {
            lemma_pow2_unfold(vars as nat);
            assert(point.drop_last() =~= Seq::<Elem>::empty());
        }
        let mut arrays: Vec<Vec<DenseMLPoly>> = Vec::new();
        let mut t: usize = 0;
        while t < self.a_arrays.len()
            invariant
                t <= self.a_arrays.len(),
                self.a_arrays@ == before,
                1 <= self.num_poly,
                terms_in_vars(before, (self.num_poly - 1) as nat, vars as nat),
                0 < vars < usize::BITS,
                pow2(vars as nat) == 2 * pow2((vars - 1) as nat),
                point == seq![r_m@],
                point.drop_last() == Seq::<Elem>::empty(),
                arrays.len() == t,
                terms_in_vars(arrays@, (self.num_poly - 1) as nat, (vars - 1) as nat),
                forall|k: int|
                    0 <= k < t ==> dense_elems((#[trigger] arrays[k])@) == fold_polys(
                        dense_elems(before[k]@),
                        point,
                    ),
            decreases self.a_arrays.len() - t,
        {
            let terms: &Vec<DenseMLPoly> = &self.a_arrays[t];
            let mut folded: Vec<DenseMLPoly> = Vec::new();
            assert(before[t as int].len() == self.num_poly - 1);
            let mut i: usize = 0;
            while i < terms.len()
                invariant
                    i <= terms.len(),
                    *terms == before[t as int],
                    all_in_vars(terms@, vars as nat),
                    0 < vars < usize::BITS,
                    pow2(vars as nat) == 2 * pow2((vars - 1) as nat),
                    point == seq![r_m@],
                    point.drop_last() == Seq::<Elem>::empty(),
                    folded.len() == i,
                    all_in_vars(folded@, (vars - 1) as nat),
                    forall|k: int|
                        0 <= k < i ==> (#[trigger] folded[k]).values() == fold_all(
                            terms[k].values(),
                            point,
                        ),
                decreases terms.len() - i,
            {
                assert(terms[i as int].valid());
                let w: Vec<GoldilocksField> = fold_base(&terms[i].evaluations, r_m);
                proof {
                    assert(base_elems(w@).len() == w.len());
                    assert(fold_all(terms[i as int].values(), point.drop_last())
                        == terms[i as int].values());
                }
                folded.push(DenseMLPoly { n: vars - 1, evaluations: w });
                i = i + 1;
            }
            assert(dense_elems(folded@) =~= fold_polys(dense_elems(before[t as int]@), point));
            arrays.push(folded);
            t = t + 1;
        }
        let new_eq: Vec<GoldilocksField> = fold_base(&self.eq.evaluations, r_m);
        proof {
            assert(base_elems(new_eq@).len() == new_eq.len());
            assert(fold_all(self.eq.values(), point.drop_last()) == self.eq.values());
        }
        self.a_arrays = arrays;
        self.eq = DenseMLPoly { n: vars - 1, evaluations: new_eq };
        proof {
            assert(self.current().arrays =~= g.fix(point).arrays);
            assert(self.current() == g.fix(point));
        }
    }

    /// Records the challenge and fixes the first variable of all polynomials to it.
    pub fn receive_challenge(&mut self, challenge: GoldilocksField)
        requires
            old(self).ready(),
            old(self).current_round < old(self).num_var,
        ensures
            final(self).ready(),
            final(self).num_var == old(self).num_var,
            final(self).num_poly == old(self).num_poly,
            final(self).current_round == old(self).current_round + 1,
            final(self).challenges@ == old(self).challenges@.push(challenge),
            final(self).current() == old(self).current().fix(seq![challenge@]),
    {
        self.challenges.push(challenge);
        self.bind_variable_to_challenge(challenge);
        self.current_round = self.current_round + 1;
    }

    /// The summand left after all rounds.
    pub fn final_evaluation(&self) -> (r: GoldilocksField)
        requires
            self.ready(),
            self.current_round == self.num_var,
        ensures
            r@ == self.current().at(0),
            r.canonical(),
    {
        let ghost g = self.current();
        let ghost f = |t: int| g.scalars[t] * product_at(g.arrays[t], 0);
        let mut acc: GoldilocksField = GoldilocksField(0);
        proof {
            lemma2_to64();
        }
        let mut t: usize = 0;
        while t < self.a_arrays.len()
            invariant
                t <= self.a_arrays.len(),
                self.a_arrays.len() == self.a_scalars.len(),
                1 <= self.num_poly,
                terms_in_vars(self.a_arrays@, (self.num_poly - 1) as nat, 0),
                pow2(0) == 1,
                g == self.current(),
                f == (|t: int| g.scalars[t] * product_at(g.arrays[t], 0)),
                acc@ == sum(t as nat, f),
                acc.canonical(),
            decreases self.a_arrays.len() - t,
        {
            let ghost ps = g.arrays[t as int];
            let ghost e = |i: int| ps[i][0];
            let mut product: GoldilocksField = GoldilocksField(1);
            assert(self.a_arrays[t as int].len() == self.num_poly - 1);
            let mut i: usize = 0;
            while i < self.num_poly - 1
                invariant
                    i <= self.num_poly - 1,
                    t < self.a_arrays.len(),
                    self.a_arrays[t as int].len() == self.num_poly - 1,
                    1 <= self.num_poly,
                    all_in_vars(self.a_arrays[t as int]@, 0),
                    pow2(0) == 1,
                    ps == dense_elems(self.a_arrays[t as int]@),
                    e == (|i: int| ps[i][0]),
                    product@ == prod(i as nat, e),
                    product.canonical(),
                decreases self.num_poly - 1 - i,
            {
                assert(self.a_arrays[t as int][i as int].valid());
                let v: GoldilocksField = self.a_arrays[t][i].evaluations[0];
                assert(v@ == e(i as int));
                product = gl_mul(product, v);
                i = i + 1;
            }
            assert(product@ == product_at(ps, 0));
            assert(self.a_scalars[t as int]@ * product@ == f(t as int));
            acc = gl_add(acc, gl_mul(self.a_scalars[t], product));
            t = t + 1;
        }
        proof {
            lemma_mul_comm(acc@, self.eq.evaluations[0]@);
        }
        gl_mul(acc, self.eq.evaluations[0])
    }
}

/// Copies the terms of a sum.
fn clone_terms(arrays: &Vec<Vec<DenseMLPoly>>) -> (r: Vec<Vec<DenseMLPoly>>)
    ensures
        r.len() == arrays.len(),
        forall|t: int|
            0 <= t < r.len() ==> (#[trigger] r[t]).len() == arrays[t].len() && dense_elems(r[t]@)
                == dense_elems(arrays[t]@) && (forall|i: int|
                0 <= i < r[t].len() ==> (#[trigger] r[t][i]).n == arrays[t][i].n
                    && r[t][i].evaluations@ == arrays[t][i].evaluations@),
{
    let mut r: Vec<Vec<DenseMLPoly>> = Vec::new();
    let mut t: usize = 0;
    while t < arrays.len()
        invariant
            t <= arrays.len(),
            r.len() == t,
            forall|k: int|
                0 <= k < t ==> (#[trigger] r[k]).len() == arrays[k].len() && dense_elems(r[k]@)
                    == dense_elems(arrays[k]@) && (forall|i: int|
                    0 <= i < r[k].len() ==> (#[trigger] r[k][i]).n == arrays[k][i].n
                        && r[k][i].evaluations@ == arrays[k][i].evaluations@),
        decreases arrays.len() - t,
    {
        let c: Vec<DenseMLPoly> = clone_polys(&arrays[t]);
        assert(dense_elems(c@) =~= dense_elems(arrays[t as int]@));
        r.push(c);
        t = t + 1;
    }
    r
}

/// Copies base field words.
pub fn clone_words(v: &Vec<GoldilocksField>) -> (r: Vec<GoldilocksField>)
    ensures
        r@ == v@,
{
    let mut r: Vec<GoldilocksField> = Vec::new();
    let mut i: usize = 0;
    while i < v.len()
        invariant
            i <= v.len(),
            r@ == v@.take(i as int),
        decreases v.len() - i,
    {
        r.push(v[i]);
        i = i + 1;
        assert(r@ =~= v@.take(i as int));
    }
    assert(v@.take(i as int) =~= v@);
    r
}

impl SumcheckProver for GeneralLinearSumcheckProver {
    type Instance = (Vec<GoldilocksField>, Vec<Vec<DenseMLPoly>>, DenseMLPoly);

    open spec fn provable(
        &self,
        instances: &(Vec<GoldilocksField>, Vec<Vec<DenseMLPoly>>, DenseMLPoly),
    ) -> bool {
        &&& self.num_var < usize::BITS
        &&& self.current_round == 0
        &&& 1 <= self.num_poly < usize::MAX
        &&& instances.0.len() == instances.1.len()
        &&& terms_in_vars(instances.1@, (self.num_poly - 1) as nat, self.num_var as nat)
        &&& instances.2.valid()
        &&& instances.2.n == self.num_var
    }

    fn new<F: Fn(Digest, Digest) -> Digest>(
        num_var: usize,
        num_polys: usize,
        transcript: &mut Transcript<F>,
    ) -> (r: Self)
        ensures
            final(transcript).state == preamble(
                old(transcript).hash(),
                old(transcript).state,
                Label::GenNumVar,
                num_var,
                Label::GenNumPoly,
                num_polys,
            ),
            r.num_var == num_var,
            r.num_poly == num_polys,
            r.eq.n == 0,
            r.eq.evaluations@ == seq![GoldilocksField(1)],
            r.a_scalars.len() == 0,
            r.a_arrays.len() == 0,
            r.current_round == 0,
            r.challenges.len() == 0,
    {
        transcript.append_u64(Label::GenNumVar, num_var as u64);
        transcript.append_u64(Label::GenNumPoly, num_polys as u64);
        let mut unit: Vec<GoldilocksField> = Vec::new();
        unit.push(GoldilocksField(1));
        proof {
            lemma2_to64();
            assert(unit@ =~= seq![GoldilocksField(1)]);
        }
        GeneralLinearSumcheckProver {
            num_var,
            num_poly: num_polys,
            eq: DenseMLPoly::new(0, unit),
            a_scalars: Vec::new(),
            a_arrays: Vec::new(),
            current_round: 0,
            challenges: Vec::new(),
        }
    }

    /// Folds with the base field part of each challenge.
    fn prove<F: Fn(Digest, Digest) -> Digest>(
        &mut self,
        instances: &(Vec<GoldilocksField>, Vec<Vec<DenseMLPoly>>, DenseMLPoly),
        transcript: &mut Transcript<F>,
    ) -> (proof: SumcheckProof)
        ensures
            ({
                let h = old(transcript).hash();
                let s = old(transcript).state;
                let g = weighted(instances.0@, instances.1@, instances.2);
                let n = old(self).num_var as nat;
                let m = (old(self).num_poly - 1) as nat;
                let (chs, end) = base_run(h, s, general_message(g, n, m), n);
                &&& final(transcript).state == end
                &&& base_elems(final(self).challenges@) == base_elems(old(self).challenges@) + chs
                &&& base_proof(h, s, general_message(g, n, m), n, general_final(g, chs), proof)
                &&& final(self).current_round == n
            }),
    {
        let n: usize = self.num_var;
        let ghost h = transcript.hash();
        let ghost s = transcript.state;
        let ghost comp = transcript.compress;
        let ghost g = weighted(instances.0@, instances.1@, instances.2);
        let ghost m = (self.num_poly - 1) as nat;
        let ghost msg_fn = general_message(g, n as nat, m);
        let ghost old_chs = base_elems(self.challenges@);
        self.a_scalars = clone_words(&instances.0);
        self.a_arrays = clone_terms(&instances.1);
        self.eq = instances.2.clone();
        let mut round_messages: Vec<Vec<GoldilocksExt2>> = Vec::new();
        proof {
            assert(self.current().arrays =~= g.arrays);
            assert(self.current() == g);
            lemma_general_start(g, n as nat);
            assert(g.fix(Seq::empty()).arrays =~~= g.arrays) by {
                assert forall|t: int| 0 <= t < g.arrays.len() implies g.fix(
                    Seq::empty(),
                ).arrays[t] == g.arrays[t] by {
                    assert(fold_polys(g.arrays[t], Seq::empty()) =~= g.arrays[t]);
                }
            }
            assert(g.fix(Seq::empty()) == g);
            assert(base_elems(self.challenges@) =~= old_chs + Seq::<Elem>::empty());
            assert(terms_in_vars(self.a_arrays@, m, n as nat)) by {
                assert forall|t: int| 0 <= t < self.a_arrays.len() implies (
                #[trigger] self.a_arrays[t]).len() == m && all_in_vars(
                    self.a_arrays[t]@,
                    n as nat,
                ) by {
                    assert(instances.1[t].len() == m);
                    assert forall|i: int| 0 <= i < m implies (#[trigger] self.a_arrays[t][i]).valid()
                        && self.a_arrays[t][i].n == n by {
                        assert(instances.1[t][i].valid());
                    }
                }
            }
        }
        let mut round: usize = 0;
        while round < n
            invariant
                round <= n,
                n == self.num_var,
                self.ready(),
                self.current_round == round,
                m == self.num_poly - 1,
                transcript.compress == comp,
                transcript.wf(),
                h == transcript.hash(),
                msg_fn == general_message(g, n as nat, m),
                self.current() == g.fix(base_run(h, s, msg_fn, round as nat).0),
                base_elems(self.challenges@) == old_chs + base_run(h, s, msg_fn, round as nat).0,
                transcript.state == base_run(h, s, msg_fn, round as nat).1,
                round_messages.len() == round,
                forall|k: int|
                    0 <= k < round ==> (#[trigger] round_messages[k])@ == words_of(
                        msg_fn(base_run(h, s, msg_fn, round as nat).0.take(k)),
                    ),
            decreases n - round,
        {
            let ghost chs = base_run(h, s, msg_fn, round as nat).0;
            proof {
                lemma_base_run_prefix(h, s, msg_fn, round as nat, round as nat);
                assert(chs.take(round as int) =~= chs);
            }
            let msg: Vec<GoldilocksField> = self.compute_round_message();
            assert(base_elems(msg@) == msg_fn(chs));
            let lifted: Vec<GoldilocksExt2> = lift(&msg);
            proof {
                lemma_lifted_words(msg@, lifted@);
            }
            transcript.append_all_ext2(Label::RoundMessage, &lifted);
            let challenge: GoldilocksField = transcript.challenge_ext2(Label::Challenge).c0;
            let ghost chs2 = chs.push(challenge@);
            proof {
                assert(challenge@ == digest_base(transcript.state));
                assert(base_run(h, s, msg_fn, (round + 1) as nat) == (chs2, transcript.state));
                assert forall|k: int| 0 <= k <= round implies chs2.take(k) == #[trigger] chs.take(
                    k,
                ) by {
                    assert(chs2.take(k) =~= chs.take(k));
                }
            }
            round_messages.push(lifted);
            proof {
                assert forall|k: int| 0 <= k < round + 1 implies (
                #[trigger] round_messages[k])@ == words_of(msg_fn(chs2.take(k))) by {
                    assert(chs2.take(k) == chs.take(k));
                }
                lemma_fix_push(g, chs, challenge@);
                assert(g.fix(chs2) == g.fix(chs).fix(seq![challenge@]));
            }
            let ghost chal_before = self.challenges@;
            self.receive_challenge(challenge);
            proof {
                assert(base_elems(self.challenges@) =~= base_elems(chal_before).push(challenge@));
                assert((old_chs + chs).push(challenge@) =~= old_chs + chs2);
            }
            round = round + 1;
        }
        let final_eval: GoldilocksField = self.final_evaluation();
        SumcheckProof { final_eval: GoldilocksExt2::from_base(final_eval), round_messages }
    }
}

/// The messages of a run add up from the true sum to the final evaluation.
pub proof fn lemma_general_chain(
    h: spec_fn(Digest, Digest) -> Digest,
    s: Digest,
    g: WeightedSum,
    n: nat,
    m: nat,
)
    requires
        g.shaped(pow2(n), m),
        m + 2 <= prime(),
    ensures
        ({
            let msg = general_message(g, n, m);
            let chs = base_run(h, s, msg, n).0;
            chain_ok(
                Seq::new(n, |k: int| msg(chs.take(k))),
                chs,
                g.total(pow2(n)),
                general_final(g, chs),
            )
        }),
{
    let msg = general_message(g, n, m);
    let chs = base_run(h, s, msg, n).0;
    let msgs = Seq::new(n, |k: int| msg(chs.take(k)));
    lemma_base_run_prefix(h, s, msg, n, n);
    lemma_general_start(g, n);
    assert forall|k: int| 0 <= k < n implies (#[trigger] msgs[k])[0] + msgs[k][1] == if k == 0 {
        g.total(pow2(n))
    } else {
        interpolate(msgs[k - 1], chs[k - 1])
    } by {
        lemma_general_round(g, n, m, chs.take(k), chs[k]);
        if k == 0 {
            assert(chs.take(0) =~= Seq::<Elem>::empty());
        } else {
            lemma_general_round(g, n, m, chs.take(k - 1), chs[k - 1]);
            assert(chs.take(k - 1).push(chs[k - 1]) =~= chs.take(k));
        }
    }
    lemma_general_final(g, n, chs);
    if n == 0 {
        assert(chs =~= Seq::<Elem>::empty());
    } else {
        lemma_general_round(g, n, m, chs.take(n - 1), chs[n - 1]);
        assert(chs.take(n - 1).push(chs[n - 1]) =~= chs);
    }
}

/// The verifier's digests on the messages of a run are the prover's.
proof fn lemma_general_digests(
    h: spec_fn(Digest, Digest) -> Digest,
    s: Digest,
    msg: spec_fn(Seq<Elem>) -> Seq<Elem>,
    n: nat,
    final_eval: Elem,
    proof: SumcheckProof,
    k: nat,
)
    requires
        base_proof(h, s, msg, n, final_eval, proof),
        k <= n,
    ensures
        verifier_digest(h, s, proof.round_messages@, k) == base_run(h, s, msg, k).1,
    decreases k,
{
    if k > 0 {
        let j = (k - 1) as nat;
        lemma_general_digests(h, s, msg, n, final_eval, proof, j);
        lemma_base_run_prefix(h, s, msg, j, n);
        assert(proof.round_messages[j as int]@ == words_of(
            msg(base_run(h, s, msg, n).0.take(j as int)),
        ));
    }
}

/// The verifier accepts a run whose challenges happen to lie in the base field.
pub proof fn lemma_general_completeness(
    h: spec_fn(Digest, Digest) -> Digest,
    s: Digest,
    g: WeightedSum,
    n: nat,
    m: nat,
    proof: SumcheckProof,
    claimed: GoldilocksExt2,
)
    requires
        g.shaped(pow2(n), m),
        m + 2 <= prime(),
        base_proof(
            h,
            s,
            general_message(g, n, m),
            n,
            general_final(g, base_run(h, s, general_message(g, n, m), n).0),
            proof,
        ),
        claimed.canonical(),
        claimed@ == g.total(pow2(n)),
        forall|k: int|
            0 <= k < n ==> (#[trigger] verifier_challenge(
                h,
                s,
                proof.round_messages@,
                k,
            )).in_base(),
    ensures
        accepts(h, s, proof, claimed, n, m + 1),
{
    let msg = general_message(g, n, m);
    let chs = base_run(h, s, msg, n).0;
    let fin = general_final(g, chs);
    let seqs = Seq::new(n, |k: int| msg(chs.take(k)));
    lemma_base_run_prefix(h, s, msg, n, n);
    lemma_general_chain(h, s, g, n, m);
    assert forall|k: int| 0 <= k < n implies ext_elems((#[trigger] proof.round_messages[k])@)
        == seqs[k] && proof.round_messages[k].len() == m + 2 && verifier_challenge(
        h,
        s,
        proof.round_messages@,
        k,
    ) == chs[k] by {
        assert(verifier_challenge(h, s, proof.round_messages@, k).in_base());
        lemma_general_message_words(h, s, g, n, m, proof, k);
    }
    let cur = g.fix(chs);
    crate::field::elem::lemma_add_canon(
        cur.eq[0],
        sum(cur.scalars.len(), |t: int| cur.scalars[t] * product_at(cur.arrays[t], 0)),
    );
    lemma_chain_accepts(h, s, proof, claimed, m + 1, seqs, chs, fin);
}

/// Round `k` of a run as the verifier reads it.
proof fn lemma_general_message_words(
    h: spec_fn(Digest, Digest) -> Digest,
    s: Digest,
    g: WeightedSum,
    n: nat,
    m: nat,
    proof: SumcheckProof,
    k: int,
)
    requires
        base_proof(
            h,
            s,
            general_message(g, n, m),
            n,
            general_final(g, base_run(h, s, general_message(g, n, m), n).0),
            proof,
        ),
        0 <= k < n,
        verifier_challenge(h, s, proof.round_messages@, k).in_base(),
    ensures
        ({
            let msg = general_message(g, n, m);
            let chs = base_run(h, s, msg, n).0;
            &&& ext_elems(proof.round_messages[k]@) == msg(chs.take(k))
            &&& proof.round_messages[k].len() == m + 2
            &&& verifier_challenge(h, s, proof.round_messages@, k) == chs[k]
        }),
{
    let msg = general_message(g, n, m);
    let chs = base_run(h, s, msg, n).0;
    let fin = general_final(g, chs);
    let cur = g.fix(chs.take(k));
    let half = pow2((n - k - 1) as nat);
    lemma_base_run_prefix(h, s, msg, n, n);
    assert(chs.take(k).len() == k);
    let sent = cur.round_message(half, m);
    assert(sent == msg(chs.take(k)));
    assert(all_canon(sent)) by {
        assert forall|i: int| 0 <= i < sent.len() implies (#[trigger] sent[i]).canon() by {
            crate::field::sums::lemma_sum_canon(half, |y: int| cur.term(embed(i), y));
        }
    }
    assert(proof.round_messages[k]@ == words_of(sent));
    lemma_elems_of_words(sent);
    lemma_general_digests(h, s, msg, n, fin, proof, (k + 1) as nat);
    lemma_base_run_prefix(h, s, msg, (k + 1) as nat, n);
    lemma_base_run_prefix(h, s, msg, (k + 1) as nat, (k + 1) as nat);
    let upto = base_run(h, s, msg, (k + 1) as nat);
    assert(chs[k] == chs.take(k + 1)[k]);
    assert(upto.0.last() == digest_base(upto.1));
}

} // verus!
