//! The mathematical model of the field: pairs of residues modulo the
//! Goldilocks prime, multiplied as `a + b X` with `X^2 = 7`.
use vstd::arithmetic::div_mod::*;
use vstd::prelude::*;

verus! {

/// The Goldilocks prime as a mathematical integer.
pub open spec fn prime() -> int {
    0xFFFF_FFFF_0000_0001
}

/// An element `re + im * X` of the quadratic extension, with `X * X = 7`.
/// Base field elements are those with `im == 0`.
pub struct Elem {
    pub re: int,
    pub im: int,
}

/// Remainder of both coordinates modulo the prime.
pub open spec fn reduce(re: int, im: int) -> Elem {
    Elem { re: re % prime(), im: im % prime() }
}

impl Elem {
    /// Both coordinates are residues.
    pub open spec fn canon(self) -> bool {
        0 <= self.re < prime() && 0 <= self.im < prime()
    }

    /// Lies in the base field.
    pub open spec fn in_base(self) -> bool {
        self.im == 0
    }

    #[verifier::opaque]
    pub open spec fn spec_add(self, o: Elem) -> Elem {
        reduce(self.re + o.re, self.im + o.im)
    }

    #[verifier::opaque]
    pub open spec fn spec_sub(self, o: Elem) -> Elem {
        reduce(self.re - o.re, self.im - o.im)
    }

    #[verifier::opaque]
    pub open spec fn spec_mul(self, o: Elem) -> Elem {
        reduce(self.re * o.re + 7 * (self.im * o.im), self.re * o.im + self.im * o.re)
    }
}

/// The neutral element of addition.
pub open spec fn zero() -> Elem {
    Elem { re: 0, im: 0 }
}

/// The neutral element of multiplication.
pub open spec fn one() -> Elem {
    Elem { re: 1, im: 0 }
}

/// The image of an integer in the base field.
pub open spec fn embed(k: int) -> Elem {
    Elem { re: k % prime(), im: 0 }
}

pub proof fn lemma_add_canon(a: Elem, b: Elem)
    ensures
        (a + b).canon(),
        (a - b).canon(),
        (a * b).canon(),
{
    reveal(Elem::spec_add);
    reveal(Elem::spec_sub);
    reveal(Elem::spec_mul);
}

proof fn mod_same(x: int, y: int, k: int)
    requires
        x == y + prime() * k,
    ensures
        x % prime() == y % prime(),
{
    lemma_mod_multiples_vanish(k, y, prime());
    assert(prime() * k + y == x);
}

/// A residue differs from its integer by a multiple of the prime.
proof fn mod_split(x: int) -> (k: int)
    ensures
        x == x % prime() + prime() * k,
{
    lemma_fundamental_div_mod(x, prime());
    x / prime()
}

pub proof fn lemma_add_comm(a: Elem, b: Elem)
    ensures
        a + b == b + a,
{
    reveal(Elem::spec_add);
}

pub proof fn lemma_add_assoc(a: Elem, b: Elem, c: Elem)
    ensures
        (a + b) + c == a + (b + c),
{
    reveal(Elem::spec_add);
    let k1 = mod_split(a.re + b.re);
    let k2 = mod_split(a.im + b.im);
    let k3 = mod_split(b.re + c.re);
    let k4 = mod_split(b.im + c.im);
    mod_same(a.re + b.re + c.re, (a.re + b.re) % prime() + c.re, k1);
    mod_same(a.im + b.im + c.im, (a.im + b.im) % prime() + c.im, k2);
    mod_same(a.re + b.re + c.re, a.re + (b.re + c.re) % prime(), k3);
    mod_same(a.im + b.im + c.im, a.im + (b.im + c.im) % prime(), k4);
}

pub proof fn lemma_add_zero(a: Elem)
    requires
        a.canon(),
    ensures
        a + zero() == a,
        zero() + a == a,
        a - zero() == a,
        a - a == zero(),
{
    reveal(Elem::spec_add);
    reveal(Elem::spec_sub);
}

/// Subtraction undoes addition.
pub proof fn lemma_sub_add(a: Elem, b: Elem)
    requires
        a.canon(),
    ensures
        (a - b) + b == a,
        b + (a - b) == a,
        (a + b) - b == a,
{
    reveal(Elem::spec_add);
    reveal(Elem::spec_sub);
    let k1 = mod_split(a.re - b.re);
    let k2 = mod_split(a.im - b.im);
    mod_same(a.re, (a.re - b.re) % prime() + b.re, k1);
    mod_same(a.im, (a.im - b.im) % prime() + b.im, k2);
    let k3 = mod_split(a.re + b.re);
    let k4 = mod_split(a.im + b.im);
    mod_same(a.re, (a.re + b.re) % prime() - b.re, k3);
    mod_same(a.im, (a.im + b.im) % prime() - b.im, k4);
    lemma_add_comm(a - b, b);
}

pub proof fn lemma_mul_comm(a: Elem, b: Elem)
    ensures
        a * b == b * a,
{
    reveal(Elem::spec_mul);
    assert(a.re * b.re == b.re * a.re) by (nonlinear_arith);
    assert(a.im * b.im == b.im * a.im) by (nonlinear_arith);
    assert(a.re * b.im + a.im * b.re == b.re * a.im + b.im * a.re) by (nonlinear_arith);
}

/// Reducing the left factor first does not change the product.
proof fn lemma_mul_reduce_left(x: int, y: int, b: Elem)
    ensures
        reduce(x, y) * b == (Elem { re: x, im: y }) * b,
{
    reveal(Elem::spec_mul);
    let k = mod_split(x);
    let l = mod_split(y);
    let p = prime();
    let xr = x % p;
    let yr = y % p;
    assert(x * b.re + 7 * (y * b.im) == xr * b.re + 7 * (yr * b.im) + p * (k * b.re + 7 * (l
        * b.im))) by (nonlinear_arith)
        requires
            x == xr + p * k,
            y == yr + p * l,
    ;
    mod_same(
        x * b.re + 7 * (y * b.im),
        xr * b.re + 7 * (yr * b.im),
        k * b.re + 7 * (l * b.im),
    );
    assert(x * b.im + y * b.re == xr * b.im + yr * b.re + p * (k * b.im + l * b.re))
        by (nonlinear_arith)
        requires
            x == xr + p * k,
            y == yr + p * l,
    ;
    mod_same(x * b.im + y * b.re, xr * b.im + yr * b.re, k * b.im + l * b.re);
}

/// Reducing the right factor first does not change the product.
pub proof fn lemma_reduce_right(a: Elem, x: int, y: int)
    ensures
        a * reduce(x, y) == a * (Elem { re: x, im: y }),
{
    lemma_mul_reduce_left(x, y, a);
    lemma_mul_comm(a, reduce(x, y));
    lemma_mul_comm(a, Elem { re: x, im: y });
}

/// Associativity of the product before reduction.
proof fn raw_assoc(a0: int, a1: int, b0: int, b1: int, c0: int, c1: int)
    ensures
        (a0 * b0 + 7 * (a1 * b1)) * c0 + 7 * ((a0 * b1 + a1 * b0) * c1) == a0 * (b0 * c0 + 7 * (b1
            * c1)) + 7 * (a1 * (b0 * c1 + b1 * c0)),
        (a0 * b0 + 7 * (a1 * b1)) * c1 + (a0 * b1 + a1 * b0) * c0 == a0 * (b0 * c1 + b1 * c0) + a1
            * (b0 * c0 + 7 * (b1 * c1)),
{
    assert((a0 * b0 + 7 * (a1 * b1)) * c0 == a0 * (b0 * c0) + 7 * (a1 * (b1 * c0)))
        by (nonlinear_arith);
    assert((a0 * b1 + a1 * b0) * c1 == a0 * (b1 * c1) + a1 * (b0 * c1)) by (nonlinear_arith);
    assert(a0 * (b0 * c0 + 7 * (b1 * c1)) == a0 * (b0 * c0) + 7 * (a0 * (b1 * c1)))
        by (nonlinear_arith);
    assert(a1 * (b0 * c1 + b1 * c0) == a1 * (b0 * c1) + a1 * (b1 * c0)) by (nonlinear_arith);
    assert((a0 * b0 + 7 * (a1 * b1)) * c1 == a0 * (b0 * c1) + 7 * (a1 * (b1 * c1)))
        by (nonlinear_arith);
    assert((a0 * b1 + a1 * b0) * c0 == a0 * (b1 * c0) + a1 * (b0 * c0)) by (nonlinear_arith);
    assert(a0 * (b0 * c1 + b1 * c0) == a0 * (b0 * c1) + a0 * (b1 * c0)) by (nonlinear_arith);
    assert(a1 * (b0 * c0 + 7 * (b1 * c1)) == a1 * (b0 * c0) + 7 * (a1 * (b1 * c1)))
        by (nonlinear_arith);
}

pub proof fn lemma_mul_assoc(a: Elem, b: Elem, c: Elem)
    ensures
        (a * b) * c == a * (b * c),
{
    let ab = Elem {
        re: a.re * b.re + 7 * (a.im * b.im),
        im: a.re * b.im + a.im * b.re,
    };
    let bc = Elem {
        re: b.re * c.re + 7 * (b.im * c.im),
        im: b.re * c.im + b.im * c.re,
    };
    assert((a * b) * c == ab * c) by {
        lemma_mul_reduce_left(ab.re, ab.im, c);
        reveal(Elem::spec_mul);
    }
    assert(a * (b * c) == a * bc) by {
        lemma_mul_reduce_left(bc.re, bc.im, a);
        lemma_mul_comm(a, b * c);
        lemma_mul_comm(a, bc);
        reveal(Elem::spec_mul);
    }
    raw_assoc(a.re, a.im, b.re, b.im, c.re, c.im);
    reveal(Elem::spec_mul);
}

pub proof fn lemma_mul_one(a: Elem)
    requires
        a.canon(),
    ensures
        a * one() == a,
        one() * a == a,
{
    reveal(Elem::spec_mul);
}

pub proof fn lemma_mul_zero(a: Elem)
    ensures
        a * zero() == zero(),
        zero() * a == zero(),
{
    reveal(Elem::spec_mul);
}

/// Multiplication distributes over addition.
pub proof fn lemma_distrib(a: Elem, b: Elem, c: Elem)
    ensures
        a * (b + c) == a * b + a * c,
        (b + c) * a == b * a + c * a,
{
    let s = Elem { re: b.re + c.re, im: b.im + c.im };
    assert(a * (b + c) == a * s) by {
        lemma_mul_reduce_left(s.re, s.im, a);
        lemma_mul_comm(a, b + c);
        lemma_mul_comm(a, s);
        reveal(Elem::spec_add);
    }
    let x1 = a.re * b.re + 7 * (a.im * b.im);
    let x2 = a.re * c.re + 7 * (a.im * c.im);
    let y1 = a.re * b.im + a.im * b.re;
    let y2 = a.re * c.im + a.im * c.re;
    assert(a.re * s.re + 7 * (a.im * s.im) == x1 + x2) by (nonlinear_arith)
        requires
            s.re == b.re + c.re,
            s.im == b.im + c.im,
            x1 == a.re * b.re + 7 * (a.im * b.im),
            x2 == a.re * c.re + 7 * (a.im * c.im),
    ;
    assert(a.re * s.im + a.im * s.re == y1 + y2) by (nonlinear_arith)
        requires
            s.re == b.re + c.re,
            s.im == b.im + c.im,
            y1 == a.re * b.im + a.im * b.re,
            y2 == a.re * c.im + a.im * c.re,
    ;
    lemma_add_mod_noop(x1, x2, prime());
    lemma_add_mod_noop(y1, y2, prime());
    assert(a * s == a * b + a * c) by {
        reveal(Elem::spec_mul);
        reveal(Elem::spec_add);
    }
    lemma_mul_comm(a, b + c);
    lemma_mul_comm(a, b);
    lemma_mul_comm(a, c);
}

/// Multiplication distributes over subtraction.
pub proof fn lemma_distrib_sub(a: Elem, b: Elem, c: Elem)
    ensures
        a * (b - c) == a * b - a * c,
        (b - c) * a == b * a - c * a,
{
    let d = reduce(b.re, b.im) - c;
    lemma_mul_reduce_left(b.re, b.im, a);
    lemma_mul_comm(a, b);
    assert(b - c == d) by {
        reveal(Elem::spec_sub);
        let k = mod_split(b.re);
        let l = mod_split(b.im);
        mod_same(b.re - c.re, b.re % prime() - c.re, k);
        mod_same(b.im - c.im, b.im % prime() - c.im, l);
    }
    lemma_sub_add(reduce(b.re, b.im), c);
    lemma_distrib(a, d, c);
    assert(b * a == d * a + c * a);
    lemma_add_canon(d, a);
    lemma_sub_add(d * a, c * a);
    lemma_mul_comm(a, b - c);
    lemma_mul_comm(a, c);
}

/// Embedding is a ring homomorphism.
pub proof fn lemma_embed(x: int, y: int)
    ensures
        embed(x) + embed(y) == embed(x + y),
        embed(x) - embed(y) == embed(x - y),
        embed(x) * embed(y) == embed(x * y),
{
    lemma_add_mod_noop(x, y, prime());
    lemma_sub_mod_noop(x, y, prime());
    lemma_mul_mod_noop(x, y, prime());
    reveal(Elem::spec_add);
    reveal(Elem::spec_sub);
    reveal(Elem::spec_mul);
}

} // verus!
