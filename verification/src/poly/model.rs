//! Multilinear polynomials as tables of values on the Boolean hypercube.
//!
//! Variable `i` is bit `i` of a table index. Fixing the first variable folds
//! neighbouring entries; evaluating fixes all of them.
use vstd::arithmetic::div_mod::*;
use vstd::arithmetic::mul::*;
use vstd::arithmetic::power2::*;
use vstd::prelude::*;

use crate::field::elem::{
    lemma_add_assoc, lemma_add_canon, lemma_add_comm, lemma_add_zero, lemma_distrib,
    lemma_distrib_sub, lemma_mul_assoc, lemma_mul_comm, lemma_mul_one, lemma_mul_zero,
    lemma_sub_add, one, zero, Elem,
};
use crate::field::sums::{
    lemma_add_swap, lemma_mul_swap, lemma_prod_eq, lemma_sum_canon, lemma_sum_eq, lemma_sum_pairs, prod,
    sum,
};

verus! {

/// All entries are canonical.
pub open spec fn all_canon(v: Seq<Elem>) -> bool {
    forall|i: int| 0 <= i < v.len() ==> (#[trigger] v[i]).canon()
}

/// The line through `(0, a)` and `(1, b)`, at `c`.
pub open spec fn line(a: Elem, b: Elem, c: Elem) -> Elem {
    a + c * (b - a)
}

/// Fixes the first variable of a table to `r`.
pub open spec fn fold(v: Seq<Elem>, r: Elem) -> Seq<Elem> {
    Seq::new(v.len() / 2, |j: int| line(v[2 * j], v[2 * j + 1], r))
}

/// Fixes the leading variables of a table, one after the other.
pub open spec fn fold_all(v: Seq<Elem>, point: Seq<Elem>) -> Seq<Elem>
    decreases point.len(),
{
    if point.len() == 0 {
        v
    } else {
        fold(fold_all(v, point.drop_last()), point.last())
    }
}

/// The multilinear extension of a table at a point with one coordinate per variable.
pub open spec fn mle(v: Seq<Elem>, point: Seq<Elem>) -> Elem {
    fold_all(v, point)[0]
}

/// Bit `i` of `x`.
pub open spec fn bit(x: int, i: int) -> int {
    (x / pow2(i as nat) as int) % 2
}

/// The value at `r` of the line that is one at `b` and zero at the other bit.
pub open spec fn bit_factor(b: int, r: Elem) -> Elem {
    if b == 1 {
        r
    } else {
        one() - r
    }
}

/// `eq(x, point)`: the multilinear polynomial that is one at the corner `x` and zero at the others.
pub open spec fn eq_weight(x: int, point: Seq<Elem>) -> Elem {
    prod(point.len(), |i: int| bit_factor(bit(x, i), point[i]))
}

pub proof fn lemma_line_canon(a: Elem, b: Elem, c: Elem)
    ensures
        line(a, b, c).canon(),
{
    lemma_add_canon(a, c * (b - a));
}

pub proof fn lemma_line_ends(a: Elem, b: Elem)
    requires
        a.canon(),
        b.canon(),
    ensures
        line(a, b, zero()) == a,
        line(a, b, one()) == b,
{
    lemma_mul_zero(b - a);
    lemma_add_zero(a);
    lemma_add_canon(b, a);
    lemma_mul_one(b - a);
    lemma_sub_add(b, a);
}

/// A line as a combination of its ends: `(1 - c) a + c b`.
pub proof fn lemma_line_weights(a: Elem, b: Elem, c: Elem)
    requires
        a.canon(),
        b.canon(),
    ensures
        line(a, b, c) == (one() - c) * a + c * b,
{
    let (ca, cb) = (c * a, c * b);
    lemma_distrib_sub(c, b, a);
    lemma_distrib_sub(a, one(), c);
    lemma_mul_one(a);
    lemma_mul_comm(a, c);
    lemma_add_canon(c, a);
    lemma_add_canon(c, b);
    lemma_add_canon(a, ca);
    lemma_add_canon(cb, ca);
    // a + (cb - ca) == (a - ca) + cb: both give a + cb after adding ca
    let l = a + (cb - ca);
    let r = (a - ca) + cb;
    lemma_add_canon(a, cb - ca);
    lemma_add_canon(a - ca, cb);
    lemma_sub_add(cb, ca);
    lemma_add_assoc(a, cb - ca, ca);
    assert(l + ca == a + cb);
    lemma_add_assoc(a - ca, cb, ca);
    lemma_add_comm(cb, ca);
    lemma_add_assoc(a - ca, ca, cb);
    lemma_sub_add(a, ca);
    assert(r + ca == a + cb);
    lemma_sub_add(l, ca);
    lemma_sub_add(r, ca);
}

pub proof fn lemma_fold_canon(v: Seq<Elem>, r: Elem)
    ensures
        all_canon(fold(v, r)),
        fold(v, r).len() == v.len() / 2,
{
    assert forall|i: int| 0 <= i < fold(v, r).len() implies (#[trigger] fold(v, r)[i]).canon() by {
        lemma_line_canon(v[2 * i], v[2 * i + 1], r);
    }
}

pub proof fn lemma_fold_all_canon(v: Seq<Elem>, point: Seq<Elem>)
    requires
        all_canon(v),
    ensures
        all_canon(fold_all(v, point)),
    decreases point.len(),
{
    if point.len() > 0 {
        lemma_fold_all_canon(v, point.drop_last());
        lemma_fold_canon(fold_all(v, point.drop_last()), point.last());
    }
}

/// Fixing `m` of `n` variables leaves a table of `n - m` variables.
pub proof fn lemma_fold_all_len(v: Seq<Elem>, n: nat, point: Seq<Elem>)
    requires
        v.len() == pow2(n),
        point.len() <= n,
    ensures
        fold_all(v, point).len() == pow2((n - point.len()) as nat),
    decreases point.len(),
{
    if point.len() > 0 {
        lemma_fold_all_len(v, n, point.drop_last());
        lemma_pow2_unfold((n - point.len() + 1) as nat);
    }
}

/// Fixing variables in two batches is fixing them all.
pub proof fn lemma_fold_all_compose(v: Seq<Elem>, a: Seq<Elem>, b: Seq<Elem>)
    ensures
        fold_all(fold_all(v, a), b) == fold_all(v, a + b),
    decreases b.len(),
{
    if b.len() == 0 {
        assert(a + b =~= a);
    } else {
        lemma_fold_all_compose(v, a, b.drop_last());
        assert((a + b).drop_last() =~= a + b.drop_last());
        assert((a + b).last() == b.last());
    }
}

/// Evaluation can start by folding the first variable.
pub proof fn lemma_mle_first(v: Seq<Elem>, point: Seq<Elem>)
    requires
        point.len() > 0,
    ensures
        mle(v, point) == mle(fold(v, point[0]), point.drop_first()),
{
    let head = seq![point[0]];
    assert(head.drop_last() =~= Seq::<Elem>::empty());
    assert(fold_all(v, head.drop_last()) == v);
    assert(fold_all(v, head) == fold(v, point[0]));
    lemma_fold_all_compose(v, head, point.drop_first());
    assert(head + point.drop_first() =~= point);
}

/// The lowest bit, and the bits above it.
pub proof fn lemma_bit_shift(x: int, i: int)
    requires
        0 <= x,
        0 <= i,
    ensures
        bit(x, 0) == x % 2,
        bit(x, i + 1) == bit(x / 2, i),
{
    lemma2_to64();
    lemma_pow2_unfold((i + 1) as nat);
    lemma_pow2_pos(i as nat);
    lemma_div_denominator(x, 2, pow2(i as nat) as int);
    lemma_div_basics(x);
}

/// The weight of a corner splits off the factor of the first variable.
pub proof fn lemma_eq_weight_first(x: int, point: Seq<Elem>)
    requires
        0 <= x,
        point.len() > 0,
    ensures
        eq_weight(x, point) == bit_factor(x % 2, point[0]) * eq_weight(x / 2, point.drop_first()),
    decreases point.len(),
{
    let n = point.len();
    let f = |i: int| bit_factor(bit(x, i), point[i]);
    let rest = point.drop_first();
    let g = |i: int| bit_factor(bit(x / 2, i), rest[i]);
    lemma_bit_shift(x, 0);
    if n == 1 {
        lemma2_to64();
        assert(prod(1, f) == prod(0, f) * f(0)) by {
            reveal_with_fuel(prod, 2);
        }
        assert(prod(0, g) == one());
        lemma_mul_comm(one(), f(0));
    } else {
        let short = point.drop_last();
        lemma_eq_weight_first(x, short);
        let fs = |i: int| bit_factor(bit(x, i), short[i]);
        let gs = |i: int| bit_factor(bit(x / 2, i), short.drop_first()[i]);
        let m = (n - 1) as nat;
        assert(prod(n, f) == prod(m, f) * f(n - 1));
        lemma_prod_eq(m, f, fs);
        let k = (n - 2) as nat;
        assert(prod(m, g) == prod(k, g) * g(n - 2));
        lemma_prod_eq(k, g, gs);
        lemma_bit_shift(x, n - 2);
        assert(f(n - 1) == g(n - 2));
        lemma_mul_assoc(bit_factor(x % 2, point[0]), prod(k, g), g(n - 2));
    }
}

/// Evaluation is the sum of the entries weighted by their corners.
pub proof fn lemma_mle_sum(v: Seq<Elem>, point: Seq<Elem>)
    requires
        v.len() == pow2(point.len()),
        all_canon(v),
    ensures
        mle(v, point) == sum(v.len(), |x: int| eq_weight(x, point) * v[x]),
    decreases point.len(),
{
    let n = point.len();
    let f = |x: int| eq_weight(x, point) * v[x];
    if n == 0 {
        lemma2_to64();
        assert(v.len() == 1);
        assert(sum(1, f) == sum(0, f) + f(0)) by {
            reveal_with_fuel(sum, 2);
        }
        lemma_mul_one(v[0]);
        lemma_add_zero(v[0]);
        assert(eq_weight(0, point) == one());
        assert(fold_all(v, point) == v);
    } else {
        let r = point[0];
        let rest = point.drop_first();
        let w = fold(v, r);
        lemma_fold_canon(v, r);
        lemma_pow2_unfold(n);
        lemma_mle_first(v, point);
        lemma_mle_sum(w, rest);
        let m = w.len();
        lemma_sum_pairs(m, f);
        let g = |j: int| f(2 * j) + f(2 * j + 1);
        let h = |j: int| eq_weight(j, rest) * w[j];
        assert forall|j: int| 0 <= j < m implies #[trigger] g(j) == h(j) by {
            let (a, b) = (v[2 * j], v[2 * j + 1]);
            let e = eq_weight(j, rest);
            lemma_eq_weight_first(2 * j, point);
            lemma_eq_weight_first(2 * j + 1, point);
            assert((2 * j) % 2 == 0 && (2 * j) / 2 == j);
            assert((2 * j + 1) % 2 == 1 && (2 * j + 1) / 2 == j);
            lemma_line_weights(a, b, r);
            lemma_distrib(e, (one() - r) * a, r * b);
            lemma_mul_assoc(e, one() - r, a);
            lemma_mul_comm(e, one() - r);
            lemma_mul_assoc(e, r, b);
            lemma_mul_comm(e, r);
        }
        lemma_sum_eq(m, g, h);
        assert(v.len() == 2 * m);
    }
}

/// The corner of the hypercube with index `x`, as a point.
pub open spec fn corner(x: int, n: nat) -> Seq<Elem> {
    Seq::new(n, |i: int| if bit(x, i) == 1 { one() } else { zero() })
}

/// At a corner the extension takes the value of the table.
pub proof fn lemma_mle_corner(v: Seq<Elem>, n: nat, x: int)
    requires
        v.len() == pow2(n),
        all_canon(v),
        0 <= x < v.len(),
    ensures
        mle(v, corner(x, n)) == v[x],
    decreases n,
{
    let point = corner(x, n);
    lemma2_to64();
    if n == 0 {
        assert(fold_all(v, point) == v);
    } else {
        lemma_pow2_unfold(n);
        lemma_mle_first(v, point);
        lemma_bit_shift(x, 0);
        let w = fold(v, point[0]);
        lemma_fold_canon(v, point[0]);
        let y = x / 2;
        lemma_mle_corner(w, (n - 1) as nat, y);
        assert(point.drop_first() =~= corner(y, (n - 1) as nat)) by {
            assert forall|i: int| 0 <= i < n - 1 implies point.drop_first()[i] == corner(
                y,
                (n - 1) as nat,
            )[i] by {
                lemma_bit_shift(x, i);
            }
        }
        lemma_line_ends(v[2 * y], v[2 * y + 1]);
        assert(w[y] == v[x]);
    }
}

/// `line` is additive in its ends.
pub proof fn lemma_line_add(a: Elem, b: Elem, c: Elem, d: Elem, r: Elem)
    requires
        a.canon(),
        b.canon(),
        c.canon(),
        d.canon(),
    ensures
        line(a + c, b + d, r) == line(a, b, r) + line(c, d, r),
{
    lemma_add_canon(a, c);
    lemma_add_canon(b, d);
    lemma_line_weights(a, b, r);
    lemma_line_weights(c, d, r);
    lemma_line_weights(a + c, b + d, r);
    let s = one() - r;
    lemma_distrib(s, a, c);
    lemma_distrib(r, b, d);
    lemma_add_swap(s * a, s * c, r * b, r * d);
}

/// `line` is homogeneous in its ends.
pub proof fn lemma_line_scale(k: Elem, a: Elem, b: Elem, r: Elem)
    requires
        a.canon(),
        b.canon(),
    ensures
        line(k * a, k * b, r) == k * line(a, b, r),
{
    lemma_add_canon(k, a);
    lemma_add_canon(k, b);
    lemma_line_weights(a, b, r);
    lemma_line_weights(k * a, k * b, r);
    let s = one() - r;
    lemma_mul_swap(s, k, a);
    lemma_mul_swap(r, k, b);
    lemma_distrib(k, s * a, r * b);
}

/// Entrywise sum of two tables.
pub open spec fn table_add(u: Seq<Elem>, v: Seq<Elem>) -> Seq<Elem> {
    Seq::new(u.len(), |i: int| u[i] + v[i])
}

/// Entrywise product of a table with a constant.
pub open spec fn table_scale(k: Elem, v: Seq<Elem>) -> Seq<Elem> {
    Seq::new(v.len(), |i: int| k * v[i])
}

/// Evaluation is additive.
pub proof fn lemma_mle_add(u: Seq<Elem>, v: Seq<Elem>, point: Seq<Elem>)
    requires
        u.len() == pow2(point.len()),
        v.len() == u.len(),
        all_canon(u),
        all_canon(v),
    ensures
        mle(table_add(u, v), point) == mle(u, point) + mle(v, point),
    decreases point.len(),
{
    let s = table_add(u, v);
    lemma2_to64();
    if point.len() == 0 {
        assert(fold_all(u, point) == u);
        assert(fold_all(v, point) == v);
        assert(fold_all(s, point) == s);
    } else {
        let r = point[0];
        lemma_pow2_unfold(point.len());
        lemma_mle_first(u, point);
        lemma_mle_first(v, point);
        lemma_mle_first(s, point);
        lemma_fold_canon(u, r);
        lemma_fold_canon(v, r);
        lemma_mle_add(fold(u, r), fold(v, r), point.drop_first());
        assert(fold(s, r) =~= table_add(fold(u, r), fold(v, r))) by {
            assert forall|j: int| 0 <= j < fold(s, r).len() implies fold(s, r)[j] == table_add(
                fold(u, r),
                fold(v, r),
            )[j] by {
                lemma_line_add(u[2 * j], u[2 * j + 1], v[2 * j], v[2 * j + 1], r);
            }
        }
    }
}

/// Evaluation is homogeneous.
pub proof fn lemma_mle_scale(k: Elem, v: Seq<Elem>, point: Seq<Elem>)
    requires
        v.len() == pow2(point.len()),
        all_canon(v),
    ensures
        mle(table_scale(k, v), point) == k * mle(v, point),
    decreases point.len(),
{
    let s = table_scale(k, v);
    lemma2_to64();
    if point.len() == 0 {
        assert(fold_all(v, point) == v);
        assert(fold_all(s, point) == s);
    } else {
        let r = point[0];
        lemma_pow2_unfold(point.len());
        lemma_mle_first(v, point);
        lemma_mle_first(s, point);
        lemma_fold_canon(v, r);
        lemma_mle_scale(k, fold(v, r), point.drop_first());
        assert(fold(s, r) =~= table_scale(k, fold(v, r))) by {
            assert forall|j: int| 0 <= j < fold(s, r).len() implies fold(s, r)[j] == table_scale(
                k,
                fold(v, r),
            )[j] by {
                lemma_line_scale(k, v[2 * j], v[2 * j + 1], r);
            }
        }
    }
}

/// The weights of all corners add up to one.
pub proof fn lemma_eq_weights_sum_to_one(point: Seq<Elem>)
    requires
        all_canon(point),
    ensures
        sum(pow2(point.len()), |x: int| eq_weight(x, point)) == one(),
    decreases point.len(),
{
    let n = point.len();
    let f = |x: int| eq_weight(x, point);
    lemma2_to64();
    if n == 0 {
        assert(sum(1, f) == sum(0, f) + f(0)) by {
            reveal_with_fuel(sum, 2);
        }
        lemma_add_zero(one());
        assert(f(0) == one());
    } else {
        let r = point[0];
        let rest = point.drop_first();
        lemma_eq_weights_sum_to_one(rest);
        lemma_pow2_unfold(n);
        let m = pow2((n - 1) as nat);
        lemma_sum_pairs(m, f);
        let g = |j: int| f(2 * j) + f(2 * j + 1);
        let h = |j: int| eq_weight(j, rest);
        assert forall|j: int| 0 <= j < m implies #[trigger] g(j) == h(j) by {
            let e = eq_weight(j, rest);
            lemma_eq_weight_first(2 * j, point);
            lemma_eq_weight_first(2 * j + 1, point);
            assert((2 * j) % 2 == 0 && (2 * j) / 2 == j);
            assert((2 * j + 1) % 2 == 1 && (2 * j + 1) / 2 == j);
            lemma_distrib(e, one() - r, r);
            lemma_sub_add(one(), r);
            let ghost k = |i: int| bit_factor(bit(j, i), rest[i]);
            lemma_sum_canon(rest.len(), k);
            lemma_mul_one(e);
        }
        lemma_sum_eq(m, g, h);
    }
}

} // verus!
