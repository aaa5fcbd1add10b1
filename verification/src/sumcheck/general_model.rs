//! Sums of an equality polynomial times a weighted sum of products.
use vstd::arithmetic::power2::*;
use vstd::prelude::*;

use crate::field::elem::{
    embed, lemma_add_canon, lemma_add_zero, lemma_mul_comm, one, prime, zero, Elem,
};
use crate::field::sums::{lemma_prod_eq, lemma_sum_add, lemma_sum_eq, lemma_sum_pairs, sum};
use crate::field::upoly::{
    interpolate, lemma_eval_add, lemma_eval_mul_linear, lemma_eval_scale, lemma_interpolate_exact,
    poly_add, poly_eval, poly_mul_linear, poly_scale,
};
use crate::poly::model::{
    all_canon, fold, fold_all, lemma_fold_all_canon, lemma_fold_all_len, lemma_line_ends, line,
};
use crate::sumcheck::model::{
    fold_polys, lemma_fold_polys, lemma_term_coeffs, lemma_zero_coeffs, product_at, round_term,
    tables, term_coeffs,
};

verus! {

/// `eq(x) * (a_0 p_00(x) p_01(x) .. + a_1 p_10(x) p_11(x) .. + ..)`.
pub struct WeightedSum {
    pub scalars: Seq<Elem>,
    pub arrays: Seq<Seq<Seq<Elem>>>,
    pub eq: Seq<Elem>,
}

impl WeightedSum {
    /// All tables have `size` entries, and every product has `m` factors.
    pub open spec fn shaped(self, size: nat, m: nat) -> bool {
        &&& self.eq.len() == size
        &&& all_canon(self.eq)
        &&& self.arrays.len() == self.scalars.len()
        &&& forall|t: int|
            0 <= t < self.arrays.len() ==> (#[trigger] self.arrays[t]).len() == m && tables(
                self.arrays[t],
                size,
            )
    }

    /// The summand at corner `x`.
    pub open spec fn at(self, x: int) -> Elem {
        self.eq[x] * sum(
            self.scalars.len(),
            |t: int| self.scalars[t] * product_at(self.arrays[t], x),
        )
    }

    /// The sum over the hypercube.
    pub open spec fn total(self, size: nat) -> Elem {
        sum(size, |x: int| self.at(x))
    }

    /// The summand with the first variable at `c` and the others at corner `y`.
    pub open spec fn term(self, c: Elem, y: int) -> Elem {
        line(self.eq[2 * y], self.eq[2 * y + 1], c) * sum(
            self.scalars.len(),
            |t: int| self.scalars[t] * round_term(self.arrays[t], c, y),
        )
    }

    /// The round polynomial at `c`.
    pub open spec fn round_value(self, half: nat, c: Elem) -> Elem {
        sum(half, |y: int| self.term(c, y))
    }

    /// The message of a round: the round polynomial at `0, .., m + 1`.
    pub open spec fn round_message(self, half: nat, m: nat) -> Seq<Elem> {
        Seq::new(m + 2, |k: int| self.round_value(half, embed(k)))
    }

    /// The sum with the leading variables fixed.
    pub open spec fn fix(self, point: Seq<Elem>) -> WeightedSum {
        WeightedSum {
            scalars: self.scalars,
            arrays: Seq::new(self.arrays.len(), |t: int| fold_polys(self.arrays[t], point)),
            eq: fold_all(self.eq, point),
        }
    }
}

pub proof fn lemma_fix_shaped(g: WeightedSum, n: nat, m: nat, point: Seq<Elem>)
    requires
        g.shaped(pow2(n), m),
        point.len() <= n,
    ensures
        g.fix(point).shaped(pow2((n - point.len()) as nat), m),
{
    lemma_fold_all_len(g.eq, n, point);
    lemma_fold_all_canon(g.eq, point);
    let r = g.fix(point);
    assert forall|t: int| 0 <= t < r.arrays.len() implies (#[trigger] r.arrays[t]).len() == m
        && tables(r.arrays[t], pow2((n - point.len()) as nat)) by {
        assert(g.arrays[t].len() == m);
        lemma_fold_polys(g.arrays[t], n, point);
    }
}

/// At zero and one the round terms are the summands of neighbouring corners.
proof fn lemma_term_ends(g: WeightedSum, half: nat, m: nat, y: int)
    requires
        g.shaped(2 * half, m),
        0 <= y < half,
    ensures
        g.term(zero(), y) == g.at(2 * y),
        g.term(one(), y) == g.at(2 * y + 1),
{
    lemma_line_ends(g.eq[2 * y], g.eq[2 * y + 1]);
    let (z0, z1) = (
        |t: int| g.scalars[t] * round_term(g.arrays[t], zero(), y),
        |t: int| g.scalars[t] * product_at(g.arrays[t], 2 * y),
    );
    let (o0, o1) = (
        |t: int| g.scalars[t] * round_term(g.arrays[t], one(), y),
        |t: int| g.scalars[t] * product_at(g.arrays[t], 2 * y + 1),
    );
    assert forall|t: int| 0 <= t < g.scalars.len() implies #[trigger] z0(t) == z1(t) && o0(t)
        == o1(t) by {
        let ps = g.arrays[t];
        assert(ps.len() == m);
        let a0 = |i: int| line(ps[i][2 * y], ps[i][2 * y + 1], zero());
        let a1 = |i: int| ps[i][2 * y];
        let b0 = |i: int| line(ps[i][2 * y], ps[i][2 * y + 1], one());
        let b1 = |i: int| ps[i][2 * y + 1];
        assert forall|i: int| 0 <= i < m implies #[trigger] a0(i) == a1(i) && b0(i) == b1(i) by {
            assert(ps[i].len() == 2 * half);
            lemma_line_ends(ps[i][2 * y], ps[i][2 * y + 1]);
        }
        lemma_prod_eq(m, a0, a1);
        assert forall|i: int| 0 <= i < m implies #[trigger] b0(i) == b1(i) by {
            assert(a0(i) == a1(i));
        }
        lemma_prod_eq(m, b0, b1);
    }
    lemma_sum_eq(g.scalars.len(), z0, z1);
    assert forall|t: int| 0 <= t < g.scalars.len() implies #[trigger] o0(t) == o1(t) by {
        assert(z0(t) == z1(t));
    }
    lemma_sum_eq(g.scalars.len(), o0, o1);
}

/// The round polynomial at zero and at one adds up to the sum.
pub proof fn lemma_general_splits(g: WeightedSum, half: nat, m: nat)
    requires
        g.shaped(2 * half, m),
    ensures
        g.round_value(half, zero()) + g.round_value(half, one()) == g.total(2 * half),
{
    let f = |x: int| g.at(x);
    let a = |y: int| g.term(zero(), y);
    let b = |y: int| g.term(one(), y);
    let pairs = |y: int| f(2 * y) + f(2 * y + 1);
    let ends = |y: int| a(y) + b(y);
    lemma_sum_pairs(half, f);
    assert forall|y: int| 0 <= y < half implies #[trigger] pairs(y) == ends(y) by {
        lemma_term_ends(g, half, m, y);
    }
    lemma_sum_eq(half, pairs, ends);
    lemma_sum_add(half, a, b);
}

/// After fixing the first variable to `c` the sum is the round polynomial at `c`.
pub proof fn lemma_general_folds(g: WeightedSum, half: nat, m: nat, c: Elem)
    requires
        g.shaped(2 * half, m),
    ensures
        g.fix(seq![c]).total(half) == g.round_value(half, c),
{
    let r = g.fix(seq![c]);
    let point = seq![c];
    assert(point.drop_last() =~= Seq::<Elem>::empty());
    assert(fold_all(g.eq, point.drop_last()) == g.eq);
    assert(r.eq == fold(g.eq, c));
    let f = |y: int| r.at(y);
    let h = |y: int| g.term(c, y);
    assert forall|y: int| 0 <= y < half implies #[trigger] f(y) == h(y) by {
        let u = |t: int| r.scalars[t] * product_at(r.arrays[t], y);
        let v = |t: int| g.scalars[t] * round_term(g.arrays[t], c, y);
        assert forall|t: int| 0 <= t < g.scalars.len() implies #[trigger] u(t) == v(t) by {
            let ps = g.arrays[t];
            assert(ps.len() == m);
            let a = |i: int| r.arrays[t][i][y];
            let b = |i: int| line(ps[i][2 * y], ps[i][2 * y + 1], c);
            assert forall|i: int| 0 <= i < m implies #[trigger] a(i) == b(i) by {
                assert(ps[i].len() == 2 * half);
                assert(fold_all(ps[i], point.drop_last()) == ps[i]);
                assert(r.arrays[t][i] == fold(ps[i], c));
            }
            lemma_prod_eq(m, a, b);
        }
        lemma_sum_eq(g.scalars.len(), u, v);
    }
    lemma_sum_eq(half, f, h);
}

/// Coefficients of the first `k` weighted products at corner `y`.
spec fn inner_coeffs(g: WeightedSum, m: nat, y: int, k: nat) -> Seq<Elem>
    decreases k,
{
    if k == 0 {
        Seq::new(m + 1, |i: int| zero())
    } else {
        poly_add(
            inner_coeffs(g, m, y, (k - 1) as nat),
            poly_scale(g.scalars[k - 1], term_coeffs(g.arrays[k - 1], y, m)),
        )
    }
}

proof fn lemma_inner_coeffs(g: WeightedSum, size: nat, m: nat, y: int, k: nat, x: Elem)
    requires
        g.shaped(size, m),
        k <= g.scalars.len(),
    ensures
        inner_coeffs(g, m, y, k).len() == m + 1,
        poly_eval(inner_coeffs(g, m, y, k), x) == sum(
            k,
            |t: int| g.scalars[t] * round_term(g.arrays[t], x, y),
        ),
    decreases k,
{
    let f = |t: int| g.scalars[t] * round_term(g.arrays[t], x, y);
    if k == 0 {
        lemma_zero_coeffs(m + 1, x);
    } else {
        let l = (k - 1) as nat;
        lemma_inner_coeffs(g, size, m, y, l, x);
        assert(g.arrays[k - 1].len() == m);
        let c = term_coeffs(g.arrays[k - 1], y, m);
        lemma_term_coeffs(g.arrays[k - 1], y, m, x);
        lemma_eval_add(inner_coeffs(g, m, y, l), poly_scale(g.scalars[k - 1], c), x);
        lemma_eval_scale(g.scalars[k - 1], c, x);
        assert(sum(k, f) == sum(l, f) + f(k - 1));
    }
}

/// Coefficients of the round polynomial restricted to the first `half` corners.
spec fn general_coeffs(g: WeightedSum, m: nat, half: nat) -> Seq<Elem>
    decreases half,
{
    if half == 0 {
        Seq::new(m + 2, |i: int| zero())
    } else {
        let y = half - 1;
        poly_add(
            general_coeffs(g, m, (half - 1) as nat),
            poly_mul_linear(
                g.eq[2 * y],
                g.eq[2 * y + 1] - g.eq[2 * y],
                inner_coeffs(g, m, y, g.scalars.len()),
            ),
        )
    }
}

proof fn lemma_general_coeffs(g: WeightedSum, size: nat, m: nat, half: nat, x: Elem)
    requires
        g.shaped(size, m),
    ensures
        general_coeffs(g, m, half).len() == m + 2,
        poly_eval(general_coeffs(g, m, half), x) == g.round_value(half, x),
    decreases half,
{
    let f = |y: int| g.term(x, y);
    if half == 0 {
        lemma_zero_coeffs(m + 2, x);
    } else {
        let l = (half - 1) as nat;
        let y = half - 1;
        lemma_general_coeffs(g, size, m, l, x);
        let inner = inner_coeffs(g, m, y, g.scalars.len());
        lemma_inner_coeffs(g, size, m, y, g.scalars.len(), x);
        let a = g.eq[2 * y];
        let d = g.eq[2 * y + 1] - g.eq[2 * y];
        lemma_eval_mul_linear(a, d, inner, x);
        lemma_mul_comm(poly_eval(inner, x), a + x * d);
        lemma_eval_add(general_coeffs(g, m, l), poly_mul_linear(a, d, inner), x);
        assert(sum(half, f) == sum(l, f) + f(y));
    }
}

/// Interpolating a round message gives the round polynomial everywhere.
pub proof fn lemma_general_interpolates(g: WeightedSum, size: nat, m: nat, half: nat, x: Elem)
    requires
        g.shaped(size, m),
        m + 2 <= prime(),
        x.canon(),
    ensures
        interpolate(g.round_message(half, m), x) == g.round_value(half, x),
{
    let c = general_coeffs(g, m, half);
    let v = g.round_message(half, m);
    lemma_general_coeffs(g, size, m, half, x);
    assert forall|k: int| 0 <= k < v.len() implies #[trigger] v[k] == poly_eval(c, embed(k)) by {
        lemma_general_coeffs(g, size, m, half, embed(k));
    }
    lemma_interpolate_exact(c, v, x);
}

/// The sum left to prove once the leading variables are fixed to the challenges.
pub open spec fn general_remaining(g: WeightedSum, n: nat, chs: Seq<Elem>) -> Elem {
    g.fix(chs).total(pow2((n - chs.len()) as nat))
}

/// The message of the round after the given challenges.
pub open spec fn general_message(g: WeightedSum, n: nat, m: nat) -> spec_fn(Seq<Elem>) -> Seq<
    Elem,
> {
    |chs: Seq<Elem>| g.fix(chs).round_message(pow2((n - chs.len() - 1) as nat), m)
}

/// The summand at the point of all challenges.
pub open spec fn general_final(g: WeightedSum, chs: Seq<Elem>) -> Elem {
    g.fix(chs).at(0)
}

/// Fixing one more variable.
pub proof fn lemma_fix_push(g: WeightedSum, chs: Seq<Elem>, c: Elem)
    ensures
        g.fix(chs.push(c)).scalars == g.fix(chs).fix(seq![c]).scalars,
        g.fix(chs.push(c)).arrays =~~= g.fix(chs).fix(seq![c]).arrays,
        g.fix(chs.push(c)).eq == g.fix(chs).fix(seq![c]).eq,
{
    let one_more = seq![c];
    assert(chs.push(c) =~= chs + one_more);
    crate::poly::model::lemma_fold_all_compose(g.eq, chs, one_more);
    let a = g.fix(chs.push(c)).arrays;
    let b = g.fix(chs).fix(one_more).arrays;
    assert forall|t: int| 0 <= t < a.len() implies a[t] == b[t] by {
        assert forall|i: int| 0 <= i < a[t].len() implies a[t][i] == b[t][i] by {
            crate::poly::model::lemma_fold_all_compose(g.arrays[t][i], chs, one_more);
        }
        assert(a[t] =~= b[t]);
    }
    assert(a =~= b);
}

/// One round of an honest run.
pub proof fn lemma_general_round(g: WeightedSum, n: nat, m: nat, chs: Seq<Elem>, c: Elem)
    requires
        g.shaped(pow2(n), m),
        m + 2 <= prime(),
        chs.len() < n,
        c.canon(),
    ensures
        general_message(g, n, m)(chs).len() == m + 2,
        general_message(g, n, m)(chs)[0] + general_message(g, n, m)(chs)[1] == general_remaining(
            g,
            n,
            chs,
        ),
        interpolate(general_message(g, n, m)(chs), c) == general_remaining(g, n, chs.push(c)),
{
    let cur = g.fix(chs);
    let half = pow2((n - chs.len() - 1) as nat);
    lemma_fix_shaped(g, n, m, chs);
    lemma_pow2_unfold((n - chs.len()) as nat);
    lemma_general_splits(cur, half, m);
    assert(embed(0) == zero());
    assert(embed(1) == one());
    lemma_general_interpolates(cur, 2 * half, m, half, c);
    lemma_general_folds(cur, half, m, c);
    lemma_fix_push(g, chs, c);
    assert(g.fix(chs.push(c)) == cur.fix(seq![c]));
}

/// With all variables fixed the sum is the summand.
pub proof fn lemma_general_final(g: WeightedSum, n: nat, chs: Seq<Elem>)
    requires
        chs.len() == n,
    ensures
        general_remaining(g, n, chs) == general_final(g, chs),
{
    let cur = g.fix(chs);
    lemma2_to64();
    let f = |x: int| cur.at(x);
    assert(sum(1, f) == sum(0, f) + f(0)) by {
        reveal_with_fuel(sum, 2);
    }
    lemma_add_canon(
        cur.eq[0],
        sum(cur.scalars.len(), |t: int| cur.scalars[t] * product_at(cur.arrays[t], 0)),
    );
    lemma_add_zero(f(0));
}

/// Before the first round the whole sum is left to prove.
pub proof fn lemma_general_start(g: WeightedSum, n: nat)
    ensures
        general_remaining(g, n, Seq::empty()) == g.total(pow2(n)),
{
    let r = g.fix(Seq::empty());
    assert(r.arrays =~= g.arrays) by {
        assert forall|t: int| 0 <= t < g.arrays.len() implies r.arrays[t] == g.arrays[t] by {
            assert(fold_polys(g.arrays[t], Seq::empty()) =~= g.arrays[t]);
        }
    }
    assert(r == g);
}

} // verus!
