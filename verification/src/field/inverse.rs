//! Inverses of nonzero elements.
use vstd::arithmetic::div_mod::*;
use vstd::prelude::*;

use crate::field::elem::{
    embed, lemma_add_canon, lemma_mul_assoc, lemma_mul_comm, lemma_mul_one, lemma_mul_zero,
    lemma_reduce_right, one, prime, reduce, zero, Elem,
};
use crate::field::fermat::{lemma_inverse, lemma_norm_zero};

verus! {

/// The inverse of a nonzero element; zero is taken to zero.
pub open spec fn inv(a: Elem) -> Elem {
    if a == zero() {
        zero()
    } else {
        choose|b: Elem| b.canon() && #[trigger] (a * b) == one()
    }
}

/// The product of an element with its conjugate, read before reduction.
pub open spec fn norm(a: Elem) -> int {
    a.re * a.re - 7 * (a.im * a.im)
}

/// The conjugate divided by the norm is an inverse.
proof fn lemma_conjugate(a: Elem, w: int)
    requires
        (norm(a) * w) % prime() == 1,
    ensures
        a * reduce(a.re * w, (0 - a.im) * w) == one(),
{
    let (x, y) = (a.re, a.im);
    let n = norm(a);
    lemma_reduce_right(a, x * w, (0 - y) * w);
    assert(x * (x * w) + 7 * (y * ((0 - y) * w)) == n * w) by (nonlinear_arith)
        requires
            n == x * x - 7 * (y * y),
    ;
    assert(x * ((0 - y) * w) + y * (x * w) == 0) by (nonlinear_arith);
    reveal(Elem::spec_mul);
}

/// The extension is a field: every nonzero element has an inverse.
pub proof fn lemma_inv(a: Elem)
    requires
        a.canon(),
        a != zero(),
    ensures
        inv(a).canon(),
        a * inv(a) == one(),
        inv(a) * a == one(),
{
    lemma_norm_nonzero(a);
    let w = lemma_inverse(norm(a));
    let b = reduce(a.re * w, (0 - a.im) * w);
    lemma_conjugate(a, w);
    assert(b.canon() && a * b == one());
    lemma_mul_comm(a, inv(a));
}

/// The norm of a nonzero element is not divisible by the prime.
pub proof fn lemma_norm_nonzero(a: Elem)
    requires
        a.canon(),
        a != zero(),
    ensures
        norm(a) % prime() != 0,
{
    if norm(a) % prime() == 0 {
        lemma_norm_zero(a.re, a.im);
        lemma_small_mod(a.re as nat, prime() as nat);
        lemma_small_mod(a.im as nat, prime() as nat);
    }
}

/// The inverse in terms of the conjugate and an inverse of the norm.
pub proof fn lemma_inv_formula(a: Elem, w: int)
    requires
        a.canon(),
        (norm(a) * w) % prime() == 1,
    ensures
        reduce(a.re * w, (0 - a.im) * w) == inv(a),
{
    lemma_conjugate(a, w);
    lemma_inv_unique(a, reduce(a.re * w, (0 - a.im) * w));
}

/// An element has at most one inverse.
pub proof fn lemma_inv_unique(a: Elem, b: Elem)
    requires
        a.canon(),
        b.canon(),
        a * b == one(),
    ensures
        a != zero(),
        b == inv(a),
{
    if a == zero() {
        lemma_mul_zero(b);
    }
    lemma_inv(a);
    lemma_mul_assoc(b, a, inv(a));
    lemma_mul_comm(a, b);
    lemma_mul_one(b);
    lemma_mul_one(inv(a));
}

/// There are no zero divisors.
pub proof fn lemma_cancel(a: Elem, b: Elem)
    requires
        a.canon(),
        b.canon(),
        a != zero(),
        a * b == zero(),
    ensures
        b == zero(),
{
    lemma_inv(a);
    lemma_mul_assoc(inv(a), a, b);
    lemma_mul_one(b);
    lemma_mul_zero(inv(a));
}

/// Small integers embed as distinct elements.
pub proof fn lemma_embed_distinct(i: int, j: int)
    requires
        0 <= i < prime(),
        0 <= j < prime(),
        i != j,
    ensures
        embed(i) - embed(j) != zero(),
        (embed(i) - embed(j)).canon(),
{
    lemma_add_canon(embed(i), embed(j));
    lemma_small_mod(i as nat, prime() as nat);
    lemma_small_mod(j as nat, prime() as nat);
    reveal(Elem::spec_sub);
    if (i - j) % prime() == 0 {
        if i > j {
            lemma_small_mod((i - j) as nat, prime() as nat);
        } else {
            lemma_mod_add_multiples_vanish(i - j, prime());
            lemma_small_mod((prime() + i - j) as nat, prime() as nat);
        }
    }
}

} // verus!
