//! Goldilocks field arithmetic: the prime field, its quadratic extension with
//! `X^2 = 7`, and conversions to and from machine integers.
//!
//! Operands may be any machine words; results are always canonical residues.
use vstd::arithmetic::div_mod::*;
use vstd::arithmetic::mul::*;
use vstd::prelude::*;

use crate::field::elem::{embed, lemma_embed, one, prime, reduce, zero, Elem};
use crate::field::inverse::{
    inv, lemma_inv, lemma_inv_formula, lemma_inv_unique, lemma_norm_nonzero, norm,
};
use crate::field::prime::lemma_prime;
use crate::GOLDILOCKS_PRIME;

pub mod elem;
pub mod fermat;
pub mod inverse;
pub mod ops;
pub mod prime;
pub mod sums;
pub mod upoly;

verus! {

/// A word that stands for its residue modulo the Goldilocks prime.
#[derive(Clone, Copy, Debug, PartialEq, Eq, Structural)]
pub struct GoldilocksField(pub u64);

/// The element `c0 + c1 * X` of the quadratic extension.
#[derive(Clone, Copy, Debug, PartialEq, Eq, Structural)]
pub struct GoldilocksExt2 {
    pub c0: GoldilocksField,
    pub c1: GoldilocksField,
}

impl View for GoldilocksField {
    type V = Elem;

    open spec fn view(&self) -> Elem {
        embed(self.0 as int)
    }
}

impl View for GoldilocksExt2 {
    type V = Elem;

    open spec fn view(&self) -> Elem {
        Elem { re: self.c0.0 as int % prime(), im: self.c1.0 as int % prime() }
    }
}

/// The elements that a sequence of base field words stands for.
pub open spec fn base_elems(s: Seq<GoldilocksField>) -> Seq<Elem> {
    s.map_values(|x: GoldilocksField| x@)
}

/// The elements that a sequence of extension words stands for.
pub open spec fn ext_elems(s: Seq<GoldilocksExt2>) -> Seq<Elem> {
    s.map_values(|x: GoldilocksExt2| x@)
}

impl GoldilocksField {
    /// The word is the residue itself.
    pub open spec fn canonical(self) -> bool {
        self.0 < GOLDILOCKS_PRIME
    }
}

impl GoldilocksExt2 {
    /// Both words are the residues themselves.
    pub open spec fn canonical(self) -> bool {
        self.c0.canonical() && self.c1.canonical()
    }

    pub fn new(c0: GoldilocksField, c1: GoldilocksField) -> (r: Self)
        ensures
            r.c0 == c0,
            r.c1 == c1,
    {
        GoldilocksExt2 { c0, c1 }
    }

    /// The base field element `x` seen in the extension.
    pub fn from_base(x: GoldilocksField) -> (r: Self)
        ensures
            r.c0 == x,
            r.c1.0 == 0,
            r@ == x@,
    {
        GoldilocksExt2 { c0: x, c1: GoldilocksField(0) }
    }

    pub fn zero() -> (r: Self)
        ensures
            r.c0.0 == 0,
            r.c1.0 == 0,
            r@ == zero(),
    {
        GoldilocksExt2 { c0: GoldilocksField(0), c1: GoldilocksField(0) }
    }

    pub fn one() -> (r: Self)
        ensures
            r.c0.0 == 1,
            r.c1.0 == 0,
            r@ == one(),
    {
        GoldilocksExt2 { c0: GoldilocksField(1), c1: GoldilocksField(0) }
    }
}

/// Words of canonical elements are determined by the element.
pub proof fn lemma_ext_canonical_unique(a: GoldilocksExt2, b: GoldilocksExt2)
    requires
        a.canonical(),
        b.canonical(),
    ensures
        a@ == b@ <==> a == b,
{
}

/// Words of canonical base field elements are determined by the element.
pub proof fn lemma_base_canonical_unique(a: GoldilocksField, b: GoldilocksField)
    requires
        a.canonical(),
        b.canonical(),
    ensures
        a@ == b@ <==> a == b,
{
}

/// Sum modulo the prime.
pub fn gl_add(a: GoldilocksField, b: GoldilocksField) -> (r: GoldilocksField)
    ensures
        r@ == a@ + b@,
        r.0 == (a.0 + b.0) % prime(),
        r.canonical(),
{
    proof {
        lemma_add_mod_noop(a.0 as int, b.0 as int, prime());
        reveal(Elem::spec_add);
    }
    let s: u128 = (a.0 as u128 + b.0 as u128) % (GOLDILOCKS_PRIME as u128);
    GoldilocksField(s as u64)
}

/// Difference modulo the prime.
pub fn gl_sub(a: GoldilocksField, b: GoldilocksField) -> (r: GoldilocksField)
    ensures
        r@ == a@ - b@,
        r.0 == (a.0 - b.0) % prime(),
        r.canonical(),
{
    proof {
        lemma_sub_mod_noop(a.0 as int, b.0 as int, prime());
        reveal(Elem::spec_sub);
        lemma_mod_multiples_vanish(2, a.0 - b.0, prime());
    }
    let s: u128 = (a.0 as u128 + 2 * (GOLDILOCKS_PRIME as u128) - b.0 as u128) % (
    GOLDILOCKS_PRIME as u128);
    GoldilocksField(s as u64)
}

/// Product modulo the prime.
pub fn gl_mul(a: GoldilocksField, b: GoldilocksField) -> (r: GoldilocksField)
    ensures
        r@ == a@ * b@,
        r.0 == (a.0 * b.0) % prime(),
        r.canonical(),
{
    proof {
        lemma_mul_mod_noop(a.0 as int, b.0 as int, prime());
        reveal(Elem::spec_mul);
        assert(a.0 * b.0 <= u128::MAX) by (nonlinear_arith)
            requires
                a.0 <= u64::MAX,
                b.0 <= u64::MAX,
        ;
        assert(0 <= a.0 * b.0) by (nonlinear_arith);
    }
    let s: u128 = (a.0 as u128 * b.0 as u128) % (GOLDILOCKS_PRIME as u128);
    GoldilocksField(s as u64)
}

/// Common divisors of a pair divide every combination of it.
proof fn lemma_divides_combination(d: int, q: int, r0: int, r1: int)
    requires
        d > 0,
        r1 % d == 0,
        (r0 - q * r1) % d == 0,
    ensures
        r0 % d == 0,
{
    lemma_fundamental_div_mod(r1, d);
    lemma_fundamental_div_mod(r0 - q * r1, d);
    let x = r1 / d;
    let y = (r0 - q * r1) / d;
    assert(r0 == (y + q * x) * d) by (nonlinear_arith)
        requires
            r1 == d * x,
            r0 - q * r1 == d * y,
    ;
    lemma_mod_multiples_basic(y + q * x, d);
}

/// A step of the Euclidean algorithm keeps remainders congruent to multiples of `a`.
proof fn lemma_euclid_step(a: int, q: int, r0: int, r1: int, t0: int, t1: int, t2: int)
    requires
        (t0 * a) % prime() == r0 % prime(),
        (t1 * a) % prime() == r1 % prime(),
        t2 == (t0 - q * t1) % prime(),
    ensures
        (t2 * a) % prime() == (r0 - q * r1) % prime(),
{
    let p = prime();
    lemma_mul_mod_noop_left(t0 - q * t1, a, p);
    assert((t0 - q * t1) * a == t0 * a - q * (t1 * a)) by (nonlinear_arith);
    lemma_sub_mod_noop(t0 * a, q * (t1 * a), p);
    lemma_mul_mod_noop_right(q, t1 * a, p);
    lemma_mul_mod_noop_right(q, r1, p);
    lemma_sub_mod_noop(r0, q * r1, p);
}

/// Inverse modulo the prime; zero is taken to zero.
pub fn gl_inv(a: GoldilocksField) -> (r: GoldilocksField)
    ensures
        r.canonical(),
        r@ == inv(a@),
{
    let x: u64 = a.0 % GOLDILOCKS_PRIME;
    if x == 0 {
        return GoldilocksField(0);
    }
    let mut r0: u64 = GOLDILOCKS_PRIME;
    let mut r1: u64 = x;
    let mut t0: u64 = 0;
    let mut t1: u64 = 1;
    proof {
        lemma_small_mod(x as nat, prime() as nat);
    }
    while r1 != 0
        invariant
            0 < x < prime(),
            x == a.0 as int % prime(),
            r0 > 0,
            t0 < GOLDILOCKS_PRIME,
            t1 < GOLDILOCKS_PRIME,
            (t0 * x) % prime() == r0 as int % prime(),
            (t1 * x) % prime() == r1 as int % prime(),
            forall|d: int|
                d > 0 && #[trigger] (r0 as int % d) == 0 && #[trigger] (r1 as int % d) == 0
                    ==> prime() % d == 0 && x as int % d == 0,
        decreases r1,
    {
        let q: u64 = r0 / r1;
        proof {
            lemma_fundamental_div_mod(r0 as int, r1 as int);
            lemma_mul_is_commutative(r1 as int, q as int);
            assert(q * t1 <= u128::MAX) by (nonlinear_arith)
                requires
                    q <= u64::MAX,
                    t1 <= u64::MAX,
            ;
        }
        let m: u64 = ((q as u128 * t1 as u128) % (GOLDILOCKS_PRIME as u128)) as u64;
        let t2: u64 = gl_sub(GoldilocksField(t0), GoldilocksField(m)).0;
        proof {
            lemma_sub_mod_noop(t0 as int, q * t1, prime());
            lemma_sub_mod_noop(t0 as int, m as int, prime());
            lemma_mod_twice(q * t1, prime());
            lemma_euclid_step(x as int, q as int, r0 as int, r1 as int, t0 as int, t1 as int, t2 as int);
            assert forall|d: int|
                d > 0 && #[trigger] (r1 as int % d) == 0 && #[trigger] ((r0 - q * r1) % d)
                    == 0 implies prime() % d == 0 && x as int % d == 0 by {
                lemma_divides_combination(d, q as int, r0 as int, r1 as int);
                assert(r0 as int % d == 0 && r1 as int % d == 0);
            }
        }
        let r2: u64 = r0 % r1;
        assert(r2 == r0 - q * r1);
        r0 = r1;
        r1 = r2;
        t0 = t1;
        t1 = t2;
    }
    proof {
        let d = r0 as int;
        lemma_mod_self_0(d);
        lemma_small_mod(0, d as nat);
        assert(r0 as int % d == 0 && r1 as int % d == 0);
        if d > 1 {
            if d < prime() {
                lemma_prime(d);
            } else {
                lemma_small_mod(x as nat, d as nat);
            }
        }
        assert(r0 == 1);
        lemma_mul_mod_noop(a.0 as int, t0 as int, prime());
        lemma_mul_mod_noop(x as int, t0 as int, prime());
        lemma_mod_twice(a.0 as int, prime());
        lemma_mul_is_commutative(x as int, t0 as int);
        lemma_small_mod(t0 as nat, prime() as nat);
        reveal(Elem::spec_mul);
        assert(a@ * GoldilocksField(t0)@ == one()) by {
            lemma_mul_basics(a@.re);
            lemma_mul_basics(t0 as int);
        }
        lemma_inv_unique(a@, GoldilocksField(t0)@);
    }
    GoldilocksField(t0)
}

/// Sum in the extension.
pub fn ext2_add(a: GoldilocksExt2, b: GoldilocksExt2) -> (r: GoldilocksExt2)
    ensures
        r@ == a@ + b@,
        r.canonical(),
{
    proof {
        reveal(Elem::spec_add);
    }
    GoldilocksExt2 { c0: gl_add(a.c0, b.c0), c1: gl_add(a.c1, b.c1) }
}

/// Difference in the extension.
pub fn ext2_sub(a: GoldilocksExt2, b: GoldilocksExt2) -> (r: GoldilocksExt2)
    ensures
        r@ == a@ - b@,
        r.canonical(),
{
    proof {
        reveal(Elem::spec_sub);
    }
    GoldilocksExt2 { c0: gl_sub(a.c0, b.c0), c1: gl_sub(a.c1, b.c1) }
}

/// Product in the extension.
pub fn ext2_mul(a: GoldilocksExt2, b: GoldilocksExt2) -> (r: GoldilocksExt2)
    ensures
        r@ == a@ * b@,
        r.canonical(),
{
    let re: GoldilocksField = gl_mul(a.c0, b.c0);
    let im: GoldilocksField = gl_mul(a.c1, b.c1);
    let seven: GoldilocksField = gl_mul(GoldilocksField(7), im);
    let x: GoldilocksField = gl_mul(a.c0, b.c1);
    let y: GoldilocksField = gl_mul(a.c1, b.c0);
    proof {
        let p = prime();
        let (a0, a1) = (a@.re, a@.im);
        let (b0, b1) = (b@.re, b@.im);
        lemma_mul_mod_noop(a.c0.0 as int, b.c0.0 as int, p);
        lemma_mul_mod_noop(a.c1.0 as int, b.c1.0 as int, p);
        lemma_mul_mod_noop(a.c0.0 as int, b.c1.0 as int, p);
        lemma_mul_mod_noop(a.c1.0 as int, b.c0.0 as int, p);
        lemma_mul_mod_noop_right(7, a1 * b1, p);
        lemma_add_mod_noop(a0 * b0, 7 * (a1 * b1), p);
        lemma_add_mod_noop(a0 * b1, a1 * b0, p);
        reveal(Elem::spec_mul);
    }
    GoldilocksExt2 { c0: gl_add(re, seven), c1: gl_add(x, y) }
}

/// Residues computed from words equal those computed from elements.
proof fn lemma_norm_words(a0: int, a1: int)
    ensures
        ((a0 * a0) % prime() - (7 * ((a1 * a1) % prime())) % prime()) % prime() == norm(
            reduce(a0, a1),
        ) % prime(),
{
    let p = prime();
    let (x, y) = (a0 % p, a1 % p);
    lemma_mul_mod_noop(a0, a0, p);
    lemma_mul_mod_noop(a1, a1, p);
    lemma_mul_mod_noop_right(7, y * y, p);
    lemma_mul_mod_noop_right(7, a1 * a1, p);
    lemma_sub_mod_noop(x * x, 7 * (y * y), p);
}

/// The words computed by `ext2_inv` stand for the inverse.
proof fn lemma_inv_words(a: Elem, n: int, w: int, m: int, c0: int, c1: int)
    requires
        a.canon(),
        a != zero(),
        0 <= n < prime(),
        n == norm(a) % prime(),
        embed(w) == inv(embed(n)),
        m == (0 - a.im) % prime(),
        c0 == (a.re * w) % prime(),
        c1 == (m * w) % prime(),
    ensures
        (Elem { re: c0, im: c1 }) == inv(a),
{
    lemma_norm_nonzero(a);
    lemma_small_mod(n as nat, prime() as nat);
    lemma_inv(embed(n));
    lemma_embed(n, w);
    lemma_mul_mod_noop_left(norm(a), w, prime());
    lemma_mul_mod_noop_left(0 - a.im, w, prime());
    lemma_inv_formula(a, w);
}

/// Inverse in the extension; zero is taken to zero.
pub fn ext2_inv(a: GoldilocksExt2) -> (r: GoldilocksExt2)
    ensures
        r.canonical(),
        r@ == inv(a@),
{
    let x: GoldilocksField = GoldilocksField(a.c0.0 % GOLDILOCKS_PRIME);
    let y: GoldilocksField = GoldilocksField(a.c1.0 % GOLDILOCKS_PRIME);
    if x.0 == 0 && y.0 == 0 {
        return GoldilocksExt2::zero();
    }
    let s0: GoldilocksField = gl_mul(x, x);
    let s1: GoldilocksField = gl_mul(GoldilocksField(7), gl_mul(y, y));
    let n: GoldilocksField = gl_sub(s0, s1);
    let i: GoldilocksField = gl_inv(n);
    let c0: GoldilocksField = gl_mul(x, i);
    let m: GoldilocksField = gl_sub(GoldilocksField(0), y);
    let c1: GoldilocksField = gl_mul(m, i);
    proof {
        lemma_norm_words(x.0 as int, y.0 as int);
        lemma_inv_words(a@, n.0 as int, i.0 as int, m.0 as int, c0.0 as int, c1.0 as int);
    }
    GoldilocksExt2 { c0, c1 }
}

/// Equality of the elements, whatever words stand for them.
pub fn ext2_field_eq(a: GoldilocksExt2, b: GoldilocksExt2) -> (r: bool)
    ensures
        r == (a@ == b@),
{
    a.c0.0 % GOLDILOCKS_PRIME == b.c0.0 % GOLDILOCKS_PRIME && a.c1.0 % GOLDILOCKS_PRIME == b.c1.0
        % GOLDILOCKS_PRIME
}

} // verus!
