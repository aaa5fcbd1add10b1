//! The sum-check protocol over products of multilinear polynomials.
//!
//! A round sends the values at `0, 1, .., k` of the polynomial obtained by
//! summing the product over all variables but the first. Its values at zero
//! and one add up to the sum, and at the challenge it is the sum that is left
//! to prove after folding.
use vstd::arithmetic::power2::*;
use vstd::prelude::*;

use crate::field::elem::{embed, lemma_add_zero, lemma_mul_zero, one, prime, zero, Elem};
use crate::field::sums::{
    lemma_prod_eq, lemma_sum_add, lemma_sum_canon, lemma_sum_eq, lemma_sum_pairs, prod, sum,
};
use crate::field::upoly::{
    interpolate, lemma_eval_add, lemma_eval_mul_linear, lemma_interpolate_exact, poly_add,
    poly_eval, poly_mul_linear,
};
use crate::poly::model::{
    all_canon, fold, fold_all, lemma_fold_all_canon, lemma_fold_all_len, lemma_line_ends, line, mle,
};

verus! {

/// Tables of the same number of variables.
pub open spec fn tables(polys: Seq<Seq<Elem>>, size: nat) -> bool {
    forall|i: int|
        0 <= i < polys.len() ==> (#[trigger] polys[i]).len() == size && all_canon(polys[i])
}

/// The product of all polynomials at corner `j`.
pub open spec fn product_at(polys: Seq<Seq<Elem>>, j: int) -> Elem {
    prod(polys.len(), |i: int| polys[i][j])
}

/// The sum of the product over the hypercube.
pub open spec fn total(polys: Seq<Seq<Elem>>, size: nat) -> Elem {
    sum(size, |j: int| product_at(polys, j))
}

/// The product of the polynomials with the first variable at `c` and the others at corner `j`.
pub open spec fn round_term(polys: Seq<Seq<Elem>>, c: Elem, j: int) -> Elem {
    prod(polys.len(), |i: int| line(polys[i][2 * j], polys[i][2 * j + 1], c))
}

/// The round polynomial at `c`.
pub open spec fn round_value(polys: Seq<Seq<Elem>>, half: nat, c: Elem) -> Elem {
    sum(half, |j: int| round_term(polys, c, j))
}

/// The message of a round: the round polynomial at `0, .., k` for `k` polynomials.
pub open spec fn round_message(polys: Seq<Seq<Elem>>, half: nat) -> Seq<Elem> {
    Seq::new(polys.len() + 1, |k: int| round_value(polys, half, embed(k)))
}

/// All polynomials with the leading variables fixed.
pub open spec fn fold_polys(polys: Seq<Seq<Elem>>, point: Seq<Elem>) -> Seq<Seq<Elem>> {
    Seq::new(polys.len(), |i: int| fold_all(polys[i], point))
}

/// The message of round `k` once the challenges of the earlier rounds are fixed.
pub open spec fn message_at(
    polys: Seq<Seq<Elem>>,
    n: nat,
    challenges: Seq<Elem>,
    k: int,
) -> Seq<Elem> {
    round_message(fold_polys(polys, challenges.take(k)), pow2((n - k - 1) as nat))
}

/// The product of the polynomials at the point of all challenges.
pub open spec fn final_product(polys: Seq<Seq<Elem>>, challenges: Seq<Elem>) -> Elem {
    prod(polys.len(), |i: int| mle(polys[i], challenges))
}

/// The round polynomial at zero and at one adds up to the sum.
pub proof fn lemma_round_splits_total(polys: Seq<Seq<Elem>>, half: nat)
    requires
        tables(polys, 2 * half),
    ensures
        round_value(polys, half, zero()) + round_value(polys, half, one()) == total(
            polys,
            2 * half,
        ),
{
    let k = polys.len();
    let f = |j: int| product_at(polys, j);
    let a = |j: int| round_term(polys, zero(), j);
    let b = |j: int| round_term(polys, one(), j);
    lemma_sum_pairs(half, f);
    let pairs = |j: int| f(2 * j) + f(2 * j + 1);
    let ends = |j: int| a(j) + b(j);
    assert forall|j: int| 0 <= j < half implies #[trigger] pairs(j) == ends(j) by {
        let a0 = |i: int| line(polys[i][2 * j], polys[i][2 * j + 1], zero());
        let b0 = |i: int| line(polys[i][2 * j], polys[i][2 * j + 1], one());
        let p0 = |i: int| polys[i][2 * j];
        let p1 = |i: int| polys[i][2 * j + 1];
        assert forall|i: int| 0 <= i < k implies #[trigger] a0(i) == p0(i) && b0(i) == p1(i) by {
            assert(polys[i].len() == 2 * half);
            lemma_line_ends(polys[i][2 * j], polys[i][2 * j + 1]);
        }
        lemma_prod_eq(k, a0, p0);
        assert forall|i: int| 0 <= i < k implies #[trigger] b0(i) == p1(i) by {
            assert(a0(i) == p0(i));
        }
        lemma_prod_eq(k, b0, p1);
    }
    lemma_sum_eq(half, pairs, ends);
    lemma_sum_add(half, a, b);
}

/// After folding at `c` the sum is the round polynomial at `c`.
pub proof fn lemma_round_folds(polys: Seq<Seq<Elem>>, half: nat, c: Elem)
    requires
        tables(polys, 2 * half),
    ensures
        total(Seq::new(polys.len(), |i: int| fold(polys[i], c)), half) == round_value(
            polys,
            half,
            c,
        ),
{
    let folded = Seq::new(polys.len(), |i: int| fold(polys[i], c));
    let f = |j: int| product_at(folded, j);
    let g = |j: int| round_term(polys, c, j);
    assert forall|j: int| 0 <= j < half implies #[trigger] f(j) == g(j) by {
        let a = |i: int| folded[i][j];
        let b = |i: int| line(polys[i][2 * j], polys[i][2 * j + 1], c);
        assert forall|i: int| 0 <= i < polys.len() implies #[trigger] a(i) == b(i) by {
            assert(polys[i].len() == 2 * half);
        }
        lemma_prod_eq(polys.len(), a, b);
    }
    lemma_sum_eq(half, f, g);
}

/// Coefficients of the product of the first `k` lines at corner `j`.
pub open spec fn term_coeffs(polys: Seq<Seq<Elem>>, j: int, k: nat) -> Seq<Elem>
    decreases k,
{
    if k == 0 {
        seq![one()]
    } else {
        let p = polys[k - 1];
        poly_mul_linear(
            p[2 * j],
            p[2 * j + 1] - p[2 * j],
            term_coeffs(polys, j, (k - 1) as nat),
        )
    }
}

pub proof fn lemma_term_coeffs(polys: Seq<Seq<Elem>>, j: int, k: nat, x: Elem)
    requires
        k <= polys.len(),
    ensures
        term_coeffs(polys, j, k).len() == k + 1,
        poly_eval(term_coeffs(polys, j, k), x) == prod(
            k,
            |i: int| line(polys[i][2 * j], polys[i][2 * j + 1], x),
        ),
    decreases k,
{
    let f = |i: int| line(polys[i][2 * j], polys[i][2 * j + 1], x);
    if k == 0 {
        assert(seq![one()].drop_first() =~= Seq::<Elem>::empty());
        assert(poly_eval(Seq::<Elem>::empty(), x) == zero());
        lemma_mul_zero(x);
        lemma_add_zero(one());
    } else {
        let m = (k - 1) as nat;
        lemma_term_coeffs(polys, j, m, x);
        let p = polys[k - 1];
        lemma_eval_mul_linear(
            p[2 * j],
            p[2 * j + 1] - p[2 * j],
            term_coeffs(polys, j, m),
            x,
        );
        assert(prod(k, f) == prod(m, f) * f(k - 1));
    }
}

/// Coefficients of the round polynomial restricted to the first `half` corners.
spec fn round_coeffs(polys: Seq<Seq<Elem>>, half: nat) -> Seq<Elem>
    decreases half,
{
    if half == 0 {
        Seq::new(polys.len() + 1, |i: int| zero())
    } else {
        poly_add(
            round_coeffs(polys, (half - 1) as nat),
            term_coeffs(polys, half - 1, polys.len()),
        )
    }
}

pub proof fn lemma_zero_coeffs(n: nat, x: Elem)
    ensures
        poly_eval(Seq::new(n, |i: int| zero()), x) == zero(),
    decreases n,
{
    let c = Seq::new(n, |i: int| zero());
    if n > 0 {
        lemma_zero_coeffs((n - 1) as nat, x);
        assert(c.drop_first() =~= Seq::new((n - 1) as nat, |i: int| zero()));
        lemma_mul_zero(x);
        lemma_add_zero(zero());
    }
}

proof fn lemma_round_coeffs(polys: Seq<Seq<Elem>>, half: nat, x: Elem)
    ensures
        round_coeffs(polys, half).len() == polys.len() + 1,
        poly_eval(round_coeffs(polys, half), x) == round_value(polys, half, x),
    decreases half,
{
    let f = |j: int| round_term(polys, x, j);
    if half == 0 {
        lemma_zero_coeffs(polys.len() + 1, x);
    } else {
        let m = (half - 1) as nat;
        lemma_round_coeffs(polys, m, x);
        lemma_term_coeffs(polys, half - 1, polys.len(), x);
        lemma_eval_add(
            round_coeffs(polys, m),
            term_coeffs(polys, half - 1, polys.len()),
            x,
        );
        assert(sum(half, f) == sum(m, f) + f(half - 1));
    }
}

/// Interpolating a round message gives the round polynomial everywhere.
pub proof fn lemma_message_interpolates(polys: Seq<Seq<Elem>>, half: nat, x: Elem)
    requires
        polys.len() + 1 <= prime(),
        x.canon(),
    ensures
        interpolate(round_message(polys, half), x) == round_value(polys, half, x),
{
    let c = round_coeffs(polys, half);
    let v = round_message(polys, half);
    lemma_round_coeffs(polys, half, x);
    assert forall|k: int| 0 <= k < v.len() implies #[trigger] v[k] == poly_eval(c, embed(k)) by {
        lemma_round_coeffs(polys, half, embed(k));
    }
    lemma_interpolate_exact(c, v, x);
}

/// Folding keeps the tables in shape.
pub proof fn lemma_fold_polys(polys: Seq<Seq<Elem>>, n: nat, point: Seq<Elem>)
    requires
        tables(polys, pow2(n)),
        point.len() <= n,
    ensures
        tables(fold_polys(polys, point), pow2((n - point.len()) as nat)),
{
    assert forall|i: int| 0 <= i < polys.len() implies (#[trigger] fold_polys(
        polys,
        point,
    )[i]).len() == pow2((n - point.len()) as nat) && all_canon(fold_polys(polys, point)[i]) by {
        assert(polys[i].len() == pow2(n));
        lemma_fold_all_len(polys[i], n, point);
        lemma_fold_all_canon(polys[i], point);
    }
}

/// The sum left to prove once the leading variables are fixed to the challenges.
pub open spec fn remaining(polys: Seq<Seq<Elem>>, n: nat, challenges: Seq<Elem>) -> Elem {
    total(fold_polys(polys, challenges), pow2((n - challenges.len()) as nat))
}

/// One round of an honest run: the message adds up to the claim, and interpolated at the
/// challenge it is the next claim.
pub proof fn lemma_round(polys: Seq<Seq<Elem>>, n: nat, challenges: Seq<Elem>, k: int)
    requires
        tables(polys, pow2(n)),
        challenges.len() == n,
        all_canon(challenges),
        0 <= k < n,
        polys.len() + 1 <= prime(),
        polys.len() >= 1,
    ensures
        message_at(polys, n, challenges, k).len() == polys.len() + 1,
        message_at(polys, n, challenges, k)[0] + message_at(polys, n, challenges, k)[1]
            == remaining(polys, n, challenges.take(k)),
        interpolate(message_at(polys, n, challenges, k), challenges[k]) == remaining(
            polys,
            n,
            challenges.take(k + 1),
        ),
{
    let before = challenges.take(k);
    let cur = fold_polys(polys, before);
    let half = pow2((n - k - 1) as nat);
    lemma_fold_polys(polys, n, before);
    lemma_pow2_unfold((n - k) as nat);
    lemma_round_splits_total(cur, half);
    assert(embed(0) == zero());
    assert(embed(1) == one());
    lemma_message_interpolates(cur, half, challenges[k]);
    lemma_round_folds(cur, half, challenges[k]);
    let next = Seq::new(cur.len(), |i: int| fold(cur[i], challenges[k]));
    assert(challenges.take(k + 1).drop_last() =~= before);
    assert(next =~= fold_polys(polys, challenges.take(k + 1)));
}

/// With all variables fixed the sum is the product of the evaluations.
pub proof fn lemma_final(polys: Seq<Seq<Elem>>, n: nat, challenges: Seq<Elem>)
    requires
        tables(polys, pow2(n)),
        challenges.len() == n,
    ensures
        remaining(polys, n, challenges) == final_product(polys, challenges),
{
    let cur = fold_polys(polys, challenges);
    lemma2_to64();
    let f = |j: int| product_at(cur, j);
    assert(sum(1, f) == sum(0, f) + f(0)) by {
        reveal_with_fuel(sum, 2);
    }
    let a = |i: int| cur[i][0];
    let b = |i: int| mle(polys[i], challenges);
    lemma_sum_canon(polys.len(), a);
    lemma_add_zero(f(0));
    lemma_prod_eq(polys.len(), a, b);
}

/// Before the first round the whole sum is left to prove.
pub proof fn lemma_start(polys: Seq<Seq<Elem>>, n: nat)
    ensures
        remaining(polys, n, Seq::empty()) == total(polys, pow2(n)),
{
    assert(fold_polys(polys, Seq::empty()) =~= polys);
}

} // verus!
