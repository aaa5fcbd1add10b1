//! Finite sums and products of field elements.
use vstd::prelude::*;

use crate::field::elem::{
    lemma_add_assoc, lemma_add_canon, lemma_add_comm, lemma_add_zero, lemma_distrib,
    lemma_mul_assoc, lemma_mul_comm, lemma_mul_zero, one, zero, Elem,
};

verus! {

/// `f(0) + .. + f(n - 1)`.
pub open spec fn sum(n: nat, f: spec_fn(int) -> Elem) -> Elem
    decreases n,
{
    if n == 0 {
        zero()
    } else {
        sum((n - 1) as nat, f) + f(n - 1)
    }
}

/// `f(0) * .. * f(n - 1)`.
pub open spec fn prod(n: nat, f: spec_fn(int) -> Elem) -> Elem
    decreases n,
{
    if n == 0 {
        one()
    } else {
        prod((n - 1) as nat, f) * f(n - 1)
    }
}

/// `x` to the power `n`.
pub open spec fn power(x: Elem, n: nat) -> Elem
    decreases n,
{
    if n == 0 {
        one()
    } else {
        power(x, (n - 1) as nat) * x
    }
}

pub proof fn lemma_sum_canon(n: nat, f: spec_fn(int) -> Elem)
    ensures
        sum(n, f).canon(),
        prod(n, f).canon(),
{
    if n > 0 {
        lemma_add_canon(sum((n - 1) as nat, f), f(n - 1));
        lemma_add_canon(prod((n - 1) as nat, f), f(n - 1));
    }
}

pub proof fn lemma_sum_eq(n: nat, f: spec_fn(int) -> Elem, g: spec_fn(int) -> Elem)
    requires
        forall|i: int| 0 <= i < n ==> #[trigger] f(i) == g(i),
    ensures
        sum(n, f) == sum(n, g),
    decreases n,
{
    if n > 0 {
        lemma_sum_eq((n - 1) as nat, f, g);
        assert(f(n - 1) == g(n - 1));
    }
}

pub proof fn lemma_prod_eq(n: nat, f: spec_fn(int) -> Elem, g: spec_fn(int) -> Elem)
    requires
        forall|i: int| 0 <= i < n ==> #[trigger] f(i) == g(i),
    ensures
        prod(n, f) == prod(n, g),
    decreases n,
{
    if n > 0 {
        lemma_prod_eq((n - 1) as nat, f, g);
        assert(f(n - 1) == g(n - 1));
    }
}

/// `(a + b) + (c + d) == (a + c) + (b + d)`.
pub proof fn lemma_add_swap(a: Elem, b: Elem, c: Elem, d: Elem)
    ensures
        (a + b) + (c + d) == (a + c) + (b + d),
{
    lemma_add_assoc(a, b, c + d);
    lemma_add_assoc(b, c, d);
    lemma_add_comm(b, c);
    lemma_add_assoc(c, b, d);
    lemma_add_assoc(a, c, b + d);
}

/// The sum of two sums is the sum of the sums.
pub proof fn lemma_sum_add(n: nat, f: spec_fn(int) -> Elem, g: spec_fn(int) -> Elem)
    ensures
        sum(n, |i: int| f(i) + g(i)) == sum(n, f) + sum(n, g),
    decreases n,
{
    let h = |i: int| f(i) + g(i);
    if n == 0 {
        lemma_add_zero(zero());
    } else {
        let m = (n - 1) as nat;
        lemma_sum_add(m, f, g);
        lemma_add_swap(sum(m, f), sum(m, g), f(n - 1), g(n - 1));
        assert(sum(n, h) == sum(m, h) + h(n - 1));
    }
}

/// A common factor moves out of a sum.
pub proof fn lemma_sum_scale(n: nat, c: Elem, f: spec_fn(int) -> Elem)
    ensures
        sum(n, |i: int| c * f(i)) == c * sum(n, f),
    decreases n,
{
    let h = |i: int| c * f(i);
    if n == 0 {
        lemma_mul_zero(c);
    } else {
        let m = (n - 1) as nat;
        lemma_sum_scale(m, c, f);
        lemma_distrib(c, sum(m, f), f(n - 1));
        assert(sum(n, h) == sum(m, h) + h(n - 1));
    }
}

/// A sum of zeros is zero.
pub proof fn lemma_sum_zero(n: nat, f: spec_fn(int) -> Elem)
    requires
        forall|i: int| 0 <= i < n ==> #[trigger] f(i) == zero(),
    ensures
        sum(n, f) == zero(),
    decreases n,
{
    if n > 0 {
        lemma_sum_zero((n - 1) as nat, f);
        assert(f(n - 1) == zero());
        lemma_add_zero(zero());
    }
}

/// A sum with a single nonzero term is that term.
pub proof fn lemma_sum_single(n: nat, k: int, f: spec_fn(int) -> Elem)
    requires
        0 <= k < n,
        f(k).canon(),
        forall|i: int| 0 <= i < n && i != k ==> #[trigger] f(i) == zero(),
    ensures
        sum(n, f) == f(k),
    decreases n,
{
    let m = (n - 1) as nat;
    if k == n - 1 {
        lemma_sum_zero(m, f);
        lemma_add_zero(f(k));
    } else {
        lemma_sum_single(m, k, f);
        assert(f(n - 1) == zero());
        lemma_add_zero(f(k));
    }
}

/// A sum over twice as many terms adds neighbours first.
pub proof fn lemma_sum_pairs(n: nat, f: spec_fn(int) -> Elem)
    ensures
        sum(2 * n, f) == sum(n, |j: int| f(2 * j) + f(2 * j + 1)),
    decreases n,
{
    let h = |j: int| f(2 * j) + f(2 * j + 1);
    if n > 0 {
        let m = (n - 1) as nat;
        lemma_sum_pairs(m, f);
        assert(sum(n, h) == sum(m, h) + h(n - 1));
        let k = (2 * n - 1) as nat;
        assert(sum(2 * n, f) == sum(k, f) + f(2 * n - 1));
        assert(sum(k, f) == sum((2 * m) as nat, f) + f(2 * n - 2));
        lemma_add_assoc(sum((2 * m) as nat, f), f(2 * n - 2), f(2 * n - 1));
        assert(2 * (n - 1) + 1 == 2 * n - 1);
    }
}

/// The order of two nested sums can be exchanged.
pub proof fn lemma_sum_swap(m: nat, n: nat, f: spec_fn(int, int) -> Elem)
    ensures
        sum(m, |i: int| sum(n, |j: int| f(i, j))) == sum(n, |j: int| sum(m, |i: int| f(i, j))),
    decreases m,
{
    let inner = |i: int| sum(n, |j: int| f(i, j));
    let outer = |j: int| sum(m, |i: int| f(i, j));
    if m == 0 {
        assert forall|j: int| 0 <= j < n implies #[trigger] outer(j) == zero() by {}
        lemma_sum_zero(n, outer);
    } else {
        let k = (m - 1) as nat;
        lemma_sum_swap(k, n, f);
        let low = |j: int| sum(k, |i: int| f(i, j));
        let last = |j: int| f(m - 1, j);
        let both = |j: int| low(j) + last(j);
        assert forall|j: int| 0 <= j < n implies #[trigger] outer(j) == both(j) by {
            let g = |i: int| f(i, j);
            assert(sum(m, g) == sum(k, g) + g(m - 1));
        }
        lemma_sum_eq(n, outer, both);
        lemma_sum_add(n, low, last);
        assert(inner(m - 1) == sum(n, last)) by {
            lemma_sum_eq(n, |j: int| f(m - 1, j), last);
        }
        let inner_k = |i: int| sum(n, |j: int| f(i, j));
        lemma_sum_eq(k, inner, inner_k);
        lemma_sum_eq(n, |j: int| sum(k, |i: int| f(i, j)), low);
    }
}

/// `a * (b * c) == b * (a * c)`.
pub proof fn lemma_mul_swap(a: Elem, b: Elem, c: Elem)
    ensures
        a * (b * c) == b * (a * c),
{
    lemma_mul_assoc(a, b, c);
    lemma_mul_comm(a, b);
    lemma_mul_assoc(b, a, c);
}

} // verus!
