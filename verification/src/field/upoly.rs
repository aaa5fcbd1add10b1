//! Polynomials in one variable over the extension, given by coefficients:
//! a polynomial with as many roots as coefficients vanishes, and hence is
//! recovered by Lagrange interpolation.
use vstd::prelude::*;

use crate::field::elem::{
    embed, lemma_add_assoc, lemma_add_canon, lemma_add_comm, lemma_add_zero, lemma_distrib,
    lemma_distrib_sub, lemma_mul_assoc, lemma_mul_comm, lemma_mul_one, lemma_mul_zero,
    lemma_sub_add, one, prime, zero, Elem,
};
use crate::field::inverse::{inv, lemma_cancel, lemma_embed_distinct, lemma_inv};
use crate::field::sums::{
    lemma_add_swap, lemma_mul_swap, lemma_sum_canon, lemma_sum_single, prod, sum,
};

verus! {

/// `c[0] + c[1] x + .. + c[n-1] x^(n-1)`.
pub open spec fn poly_eval(c: Seq<Elem>, x: Elem) -> Elem
    decreases c.len(),
{
    if c.len() == 0 {
        zero()
    } else {
        c[0] + x * poly_eval(c.drop_first(), x)
    }
}

pub proof fn lemma_eval_canon(c: Seq<Elem>, x: Elem)
    ensures
        poly_eval(c, x).canon(),
{
    if c.len() > 0 {
        lemma_add_canon(c[0], x * poly_eval(c.drop_first(), x));
    }
}

/// Coefficientwise sum of two polynomials with equally many coefficients.
pub open spec fn poly_add(c: Seq<Elem>, d: Seq<Elem>) -> Seq<Elem> {
    Seq::new(c.len(), |i: int| c[i] + d[i])
}

/// Coefficientwise product with a constant.
pub open spec fn poly_scale(s: Elem, c: Seq<Elem>) -> Seq<Elem> {
    Seq::new(c.len(), |i: int| s * c[i])
}

pub proof fn lemma_eval_add(c: Seq<Elem>, d: Seq<Elem>, x: Elem)
    requires
        c.len() == d.len(),
    ensures
        poly_eval(poly_add(c, d), x) == poly_eval(c, x) + poly_eval(d, x),
    decreases c.len(),
{
    if c.len() == 0 {
        lemma_add_zero(zero());
    } else {
        let (cr, dr) = (c.drop_first(), d.drop_first());
        lemma_eval_add(cr, dr, x);
        assert(poly_add(c, d).drop_first() =~= poly_add(cr, dr));
        lemma_distrib(x, poly_eval(cr, x), poly_eval(dr, x));
        lemma_add_swap(c[0], d[0], x * poly_eval(cr, x), x * poly_eval(dr, x));
    }
}

pub proof fn lemma_eval_scale(s: Elem, c: Seq<Elem>, x: Elem)
    ensures
        poly_eval(poly_scale(s, c), x) == s * poly_eval(c, x),
    decreases c.len(),
{
    if c.len() == 0 {
        lemma_mul_zero(s);
    } else {
        let cr = c.drop_first();
        lemma_eval_scale(s, cr, x);
        assert(poly_scale(s, c).drop_first() =~= poly_scale(s, cr));
        lemma_distrib(s, c[0], x * poly_eval(cr, x));
        lemma_mul_swap(x, s, poly_eval(cr, x));
    }
}

/// A leading zero coefficient changes nothing.
pub proof fn lemma_eval_push_zero(c: Seq<Elem>, x: Elem)
    ensures
        poly_eval(c.push(zero()), x) == poly_eval(c, x),
    decreases c.len(),
{
    if c.len() == 0 {
        assert(c.push(zero()).drop_first() =~= Seq::<Elem>::empty());
        assert(poly_eval(Seq::<Elem>::empty(), x) == zero());
        lemma_mul_zero(x);
        lemma_add_zero(zero());
    } else {
        lemma_eval_push_zero(c.drop_first(), x);
        assert(c.push(zero()).drop_first() =~= c.drop_first().push(zero()));
    }
}

/// Coefficients of `x * c(x)`.
pub open spec fn poly_shift(c: Seq<Elem>) -> Seq<Elem> {
    seq![zero()] + c
}

pub proof fn lemma_eval_shift(c: Seq<Elem>, x: Elem)
    ensures
        poly_eval(poly_shift(c), x) == x * poly_eval(c, x),
{
    assert(poly_shift(c).drop_first() =~= c);
    lemma_add_canon(x, poly_eval(c, x));
    lemma_add_zero(x * poly_eval(c, x));
}

/// Coefficients of `(a + x m) * c(x)`.
pub open spec fn poly_mul_linear(a: Elem, m: Elem, c: Seq<Elem>) -> Seq<Elem> {
    poly_add(poly_scale(a, c).push(zero()), poly_shift(poly_scale(m, c)))
}

pub proof fn lemma_eval_mul_linear(a: Elem, m: Elem, c: Seq<Elem>, x: Elem)
    ensures
        poly_mul_linear(a, m, c).len() == c.len() + 1,
        poly_eval(poly_mul_linear(a, m, c), x) == poly_eval(c, x) * (a + x * m),
{
    let e = poly_eval(c, x);
    lemma_eval_add(poly_scale(a, c).push(zero()), poly_shift(poly_scale(m, c)), x);
    lemma_eval_push_zero(poly_scale(a, c), x);
    lemma_eval_shift(poly_scale(m, c), x);
    lemma_eval_scale(a, c, x);
    lemma_eval_scale(m, c, x);
    lemma_distrib(e, a, x * m);
    lemma_mul_comm(e, a);
    lemma_mul_assoc(x, m, e);
    lemma_mul_comm(x * m, e);
}

/// Coefficients of `(c(x) - c(a)) / (x - a)`.
pub open spec fn quotient(c: Seq<Elem>, a: Elem) -> Seq<Elem>
    decreases c.len(),
{
    if c.len() <= 1 {
        Seq::empty()
    } else {
        let t = c.drop_first();
        poly_add(t, poly_scale(a, quotient(t, a)).push(zero()))
    }
}

proof fn lemma_quotient_len(c: Seq<Elem>, a: Elem)
    requires
        c.len() >= 1,
    ensures
        quotient(c, a).len() == c.len() - 1,
{
}

/// `(p + q) - (p + r) == q - r`.
proof fn lemma_sub_shift(p: Elem, q: Elem, r: Elem)
    requires
        q.canon(),
        r.canon(),
    ensures
        (p + q) - (p + r) == q - r,
{
    lemma_add_canon(q, r);
    lemma_add_canon(p, r);
    let d = q - r;
    lemma_sub_add(q, r);
    lemma_add_comm(r, d);
    lemma_add_assoc(p, r, d);
    lemma_add_comm(p + r, d);
    lemma_sub_add(d, p + r);
}

/// The difference of two values of a polynomial has the difference of the arguments as a factor.
proof fn lemma_quotient(c: Seq<Elem>, a: Elem, x: Elem)
    requires
        c.len() >= 1,
    ensures
        poly_eval(c, x) - poly_eval(c, a) == (x - a) * poly_eval(quotient(c, a), x),
    decreases c.len(),
{
    let t = c.drop_first();
    if c.len() == 1 {
        assert(poly_eval(t, x) == zero());
        assert(poly_eval(t, a) == zero());
        lemma_mul_zero(x);
        lemma_mul_zero(a);
        lemma_mul_zero(x - a);
        lemma_add_canon(c[0], zero());
        lemma_add_zero(c[0] + zero());
    } else {
        lemma_quotient(t, a, x);
        lemma_quotient_len(t, a);
        let (tx, ta) = (poly_eval(t, x), poly_eval(t, a));
        let q = quotient(t, a);
        let qx = poly_eval(q, x);
        lemma_eval_canon(t, x);
        lemma_eval_canon(t, a);
        lemma_eval_canon(q, x);
        lemma_add_canon(x, tx);
        lemma_add_canon(a, ta);
        lemma_add_canon(a, tx);
        lemma_add_canon(x, a);
        lemma_sub_shift(c[0], x * tx, a * ta);
        // x tx - a ta == (x - a) tx + a (tx - ta)
        lemma_distrib_sub(tx, x, a);
        lemma_distrib_sub(a, tx, ta);
        let u = (x - a) * tx;
        let v = a * (tx - ta);
        assert(u + v == x * tx - a * ta) by {
            lemma_mul_comm(tx, x);
            lemma_mul_comm(tx, a);
            lemma_add_canon(x - a, tx);
            lemma_add_canon(a, tx - ta);
            lemma_sub_add(x * tx, a * tx);
            lemma_sub_add(a * tx, a * ta);
            // (x tx - a tx) + (a tx - a ta), then add and remove a ta
            lemma_add_assoc(u, v, a * ta);
            lemma_add_canon(u, v);
            lemma_sub_add(u + v, a * ta);
            assert(u == x * tx - a * tx);
            assert(v == a * tx - a * ta);
            assert(v + a * ta == a * tx);
            assert(u + a * tx == x * tx);
        }
        lemma_mul_swap(a, x - a, qx);
        lemma_distrib(x - a, tx, a * qx);
        lemma_eval_add(t, poly_scale(a, q).push(zero()), x);
        lemma_eval_push_zero(poly_scale(a, q), x);
        lemma_eval_scale(a, q, x);
    }
}

/// A polynomial with roots at `0, 1, .., n-1` and at most `n` coefficients vanishes everywhere.
pub proof fn lemma_roots(c: Seq<Elem>, x: Elem)
    requires
        c.len() <= prime(),
        forall|k: int| 0 <= k < c.len() ==> poly_eval(c, #[trigger] embed(k)) == zero(),
    ensures
        poly_eval(c, x) == zero(),
    decreases c.len(),
{
    let n = c.len();
    if n > 0 {
        let a = embed(n - 1);
        let q = quotient(c, a);
        lemma_quotient_len(c, a);
        assert forall|k: int| 0 <= k < q.len() implies poly_eval(q, #[trigger] embed(k))
            == zero() by {
            lemma_quotient(c, a, embed(k));
            lemma_add_zero(zero());
            lemma_embed_distinct(k, n - 1);
            lemma_eval_canon(q, embed(k));
            assert(poly_eval(c, embed(k)) == zero());
            lemma_cancel(embed(k) - a, poly_eval(q, embed(k)));
        }
        lemma_roots(q, x);
        lemma_quotient(c, a, x);
        lemma_mul_zero(x - a);
        lemma_eval_canon(c, x);
        lemma_add_zero(poly_eval(c, x));
    }
}

/// The factor of the `i`-th Lagrange basis polynomial that vanishes at `j`.
pub open spec fn basis_factor(i: int, j: int, x: Elem) -> Elem {
    if j == i {
        one()
    } else {
        (x - embed(j)) * inv(embed(i) - embed(j))
    }
}

/// The `i`-th Lagrange basis polynomial on the nodes `0, .., d-1`.
pub open spec fn basis(i: int, d: nat, x: Elem) -> Elem {
    prod(d, |j: int| basis_factor(i, j, x))
}

/// The polynomial through `(0, v[0]), (1, v[1]), ..`, at `x`.
pub open spec fn interpolate(v: Seq<Elem>, x: Elem) -> Elem {
    sum(v.len(), |i: int| basis(i, v.len(), x) * v[i])
}

/// Coefficients of a partial product of basis factors.
spec fn basis_coeffs(i: int, d: nat) -> Seq<Elem>
    decreases d,
{
    if d == 0 {
        seq![one()]
    } else {
        let c = basis_coeffs(i, (d - 1) as nat);
        let j = d - 1;
        if j == i {
            c
        } else {
            let w = inv(embed(i) - embed(j));
            poly_mul_linear((zero() - embed(j)) * w, w, c)
        }
    }
}

/// `(x - j) w == (0 - j) w + x w`.
proof fn lemma_linear_form(x: Elem, j: Elem, w: Elem)
    requires
        x.canon(),
    ensures
        (x - j) * w == (zero() - j) * w + x * w,
{
    let m = zero() - j;
    lemma_add_canon(zero(), j);
    lemma_add_canon(x, m);
    lemma_add_canon(x, j);
    lemma_sub_add(zero(), j);
    lemma_add_assoc(x, m, j);
    lemma_add_zero(x);
    lemma_sub_add(x + m, j);
    assert(x + m == x - j);
    lemma_distrib(w, x, m);
    lemma_add_comm(x * w, m * w);
}

proof fn lemma_basis_coeffs(i: int, d: nat, x: Elem)
    requires
        x.canon(),
        0 <= i,
    ensures
        basis_coeffs(i, d).len() == if i < d { d } else { d + 1 },
        poly_eval(basis_coeffs(i, d), x) == basis(i, d, x),
    decreases d,
{
    let f = |j: int| basis_factor(i, j, x);
    lemma_sum_canon(d, f);
    if d == 0 {
        lemma_mul_zero(x);
        lemma_add_zero(one());
        assert(seq![one()].drop_first() =~= Seq::<Elem>::empty());
        assert(poly_eval(Seq::<Elem>::empty(), x) == zero());
    } else {
        let e = (d - 1) as nat;
        lemma_basis_coeffs(i, e, x);
        let c = basis_coeffs(i, e);
        let j = d - 1;
        lemma_sum_canon(e, f);
        assert(basis(i, d, x) == basis(i, e, x) * f(j));
        if j == i {
            lemma_mul_one(basis(i, e, x));
        } else {
            let w = inv(embed(i) - embed(j));
            lemma_eval_mul_linear((zero() - embed(j)) * w, w, c, x);
            lemma_linear_form(x, embed(j), w);
        }
    }
}

/// A basis polynomial is one at its own node and zero at the others.
proof fn lemma_basis_at_node(i: int, k: int, d: nat)
    requires
        0 <= i < prime(),
        0 <= k < prime(),
        d <= prime(),
    ensures
        i == k ==> basis(i, d, embed(k)) == one(),
        i != k && k < d ==> basis(i, d, embed(k)) == zero(),
    decreases d,
{
    let f = |j: int| basis_factor(i, j, embed(k));
    if d > 0 {
        let e = (d - 1) as nat;
        let j = d - 1;
        lemma_basis_at_node(i, k, e);
        assert(basis(i, d, embed(k)) == basis(i, e, embed(k)) * f(j));
        if i == k {
            if j != i {
                lemma_embed_distinct(i, j);
                lemma_inv(embed(i) - embed(j));
            }
            lemma_mul_one(one());
        } else if k < d {
            if k == j {
                lemma_add_canon(embed(k), embed(k));
                lemma_add_zero(embed(k));
                lemma_mul_zero(inv(embed(i) - embed(j)));
                lemma_mul_zero(basis(i, e, embed(k)));
            } else {
                lemma_mul_zero(f(j));
            }
        }
    }
}

/// Coefficients of the sum of the first `n` weighted basis polynomials.
spec fn interpolant(v: Seq<Elem>, n: nat) -> Seq<Elem>
    decreases n,
{
    if n == 0 {
        Seq::new(v.len(), |i: int| zero())
    } else {
        poly_add(
            interpolant(v, (n - 1) as nat),
            poly_scale(v[n - 1], basis_coeffs(n - 1, v.len())),
        )
    }
}

proof fn lemma_eval_zeros(n: nat, x: Elem)
    ensures
        poly_eval(Seq::new(n, |i: int| zero()), x) == zero(),
    decreases n,
{
    let c = Seq::new(n, |i: int| zero());
    if n > 0 {
        lemma_eval_zeros((n - 1) as nat, x);
        assert(c.drop_first() =~= Seq::new((n - 1) as nat, |i: int| zero()));
        lemma_mul_zero(x);
        lemma_add_zero(zero());
    }
}

proof fn lemma_interpolant(v: Seq<Elem>, n: nat, x: Elem)
    requires
        x.canon(),
        n <= v.len(),
    ensures
        interpolant(v, n).len() == v.len(),
        poly_eval(interpolant(v, n), x) == sum(n, |i: int| basis(i, v.len(), x) * v[i]),
    decreases n,
{
    let f = |i: int| basis(i, v.len(), x) * v[i];
    if n == 0 {
        lemma_eval_zeros(v.len(), x);
    } else {
        let m = (n - 1) as nat;
        lemma_interpolant(v, m, x);
        let c = basis_coeffs(n - 1, v.len());
        lemma_basis_coeffs(n - 1, v.len(), x);
        lemma_eval_add(interpolant(v, m), poly_scale(v[n - 1], c), x);
        lemma_eval_scale(v[n - 1], c, x);
        lemma_mul_comm(v[n - 1], basis(n - 1, v.len(), x));
        assert(sum(n, f) == sum(m, f) + f(n - 1));
    }
}

/// The interpolated polynomial passes through the given values.
pub proof fn lemma_interpolate_at_node(v: Seq<Elem>, k: int)
    requires
        v.len() <= prime(),
        0 <= k < v.len(),
        v[k].canon(),
    ensures
        interpolate(v, embed(k)) == v[k],
{
    let f = |i: int| basis(i, v.len(), embed(k)) * v[i];
    lemma_basis_at_node(k, k, v.len());
    lemma_mul_one(v[k]);
    assert forall|i: int| 0 <= i < v.len() && i != k implies #[trigger] f(i) == zero() by {
        lemma_basis_at_node(i, k, v.len());
        lemma_mul_zero(v[i]);
    }
    lemma_sum_single(v.len(), k, f);
}

/// Interpolation recovers a polynomial from as many values as it has coefficients.
pub proof fn lemma_interpolate_exact(c: Seq<Elem>, v: Seq<Elem>, x: Elem)
    requires
        c.len() == v.len(),
        v.len() <= prime(),
        x.canon(),
        forall|k: int| 0 <= k < v.len() ==> #[trigger] v[k] == poly_eval(c, embed(k)),
    ensures
        interpolate(v, x) == poly_eval(c, x),
{
    let p = interpolant(v, v.len());
    let minus = zero() - one();
    let neg = poly_scale(minus, c);
    lemma_interpolant(v, v.len(), x);
    let diff = poly_add(p, neg);
    assert forall|k: int| 0 <= k < diff.len() implies poly_eval(diff, #[trigger] embed(k))
        == zero() by {
        lemma_interpolant(v, v.len(), embed(k));
        assert(v[k] == poly_eval(c, embed(k)));
        lemma_eval_canon(c, embed(k));
        lemma_interpolate_at_node(v, k);
        lemma_eval_add(p, neg, embed(k));
        lemma_eval_scale(minus, c, embed(k));
        lemma_plus_minus(v[k]);
    }
    lemma_roots(diff, x);
    lemma_eval_add(p, neg, x);
    lemma_eval_scale(minus, c, x);
    lemma_eval_canon(c, x);
    lemma_eval_canon(p, x);
    let (a, b) = (poly_eval(p, x), poly_eval(c, x));
    lemma_plus_minus(b);
    // a + minus * b == 0, and b + minus * b == 0
    lemma_add_canon(minus, b);
    lemma_sub_add(a, minus * b);
    lemma_sub_add(b, minus * b);
}

/// `a + (-1) a == 0`.
proof fn lemma_plus_minus(a: Elem)
    requires
        a.canon(),
    ensures
        a + (zero() - one()) * a == zero(),
{
    lemma_distrib_sub(a, zero(), one());
    lemma_mul_one(a);
    lemma_mul_zero(a);
    lemma_sub_add(zero(), a);
    lemma_add_comm(a, zero() - a);
}

} // verus!
