//! The interface that proof system code needs of a field.
use vstd::arithmetic::div_mod::*;
use vstd::arithmetic::mul::*;
use vstd::prelude::*;

use crate::field::elem::{embed, one, prime, zero, Elem};
use crate::field::inverse::inv;
use crate::field::{gl_inv, GoldilocksField};
use crate::GOLDILOCKS_PRIME;

verus! {

/// The integer with the given base 256 digits, lowest first.
pub open spec fn le_value(bytes: Seq<u8>) -> nat
    decreases bytes.len(),
{
    if bytes.len() == 0 {
        0
    } else {
        bytes[0] as nat + 256 * le_value(bytes.drop_first())
    }
}

/// A field that can be read from and written to machine integers and bytes.
pub trait CryptoField: Sized {
    /// The element that a value stands for.
    spec fn elem(&self) -> Elem;

    fn zero() -> (r: Self)
        ensures
            r.elem() == zero(),
    ;

    fn one() -> (r: Self)
        ensures
            r.elem() == one(),
    ;

    fn from_u32(n: u32) -> (r: Self)
        ensures
            r.elem() == embed(n as int),
    ;

    fn from_u64(n: u64) -> (r: Self)
        ensures
            r.elem() == embed(n as int),
    ;

    fn to_u64(&self) -> (r: u64)
        ensures
            embed(r as int) == self.elem(),
    ;

    fn invert(&self) -> (r: Self)
        ensures
            r.elem() == inv(self.elem()),
    ;

    fn to_bytes_le(&self) -> (r: Vec<u8>)
        ensures
            r.len() == 8,
            embed(le_value(r@) as int) == self.elem(),
    ;

    /// Reads at most eight bytes.
    fn from_bytes_le(bytes: &[u8]) -> (r: Self)
        ensures
            r.elem() == embed(
                le_value(bytes@.take(if bytes.len() < 8 { bytes.len() as int } else { 8 })) as int,
            ),
    ;
}

/// The value of eight digits, as a sum that the solver can add up.
proof fn lemma_le_value_push(bytes: Seq<u8>, b: u8)
    ensures
        le_value(bytes.push(b)) == le_value(bytes) + b * pow256(bytes.len()),
    decreases bytes.len(),
{
    if bytes.len() == 0 {
        assert(bytes.push(b).drop_first() =~= Seq::<u8>::empty());
        assert(le_value(Seq::<u8>::empty()) == 0);
        assert(pow256(0) == 1);
        lemma_mul_basics(b as int);
    } else {
        let rest = bytes.drop_first();
        lemma_le_value_push(rest, b);
        assert(bytes.push(b).drop_first() =~= rest.push(b));
        assert(256 * (b * pow256(rest.len())) == b * pow256(bytes.len())) by (nonlinear_arith)
            requires
                pow256(bytes.len()) == 256 * pow256(rest.len()),
        ;
    }
}

/// `256^n`.
spec fn pow256(n: nat) -> nat
    decreases n,
{
    if n == 0 {
        1
    } else {
        256 * pow256((n - 1) as nat)
    }
}

proof fn lemma_le_bound(bytes: Seq<u8>)
    ensures
        le_value(bytes) < pow256(bytes.len()),
    decreases bytes.len(),
{
    if bytes.len() > 0 {
        lemma_le_bound(bytes.drop_first());
    }
}

proof fn lemma_pow256_8()
    ensures
        pow256(8) == 0x1_0000_0000_0000_0000,
{
    reveal_with_fuel(pow256, 9);
}

/// The base 256 digits of a word.
fn word_to_bytes(x: u64) -> (r: Vec<u8>)
    ensures
        r.len() == 8,
        le_value(r@) == x,
{
    let mut r: Vec<u8> = Vec::new();
    let mut rest: u64 = x;
    let mut i: usize = 0;
    proof {
        lemma_pow256_8();
        assert(le_value(r@) == 0);
        assert(pow256(0) == 1);
        lemma_mul_basics(rest as int);
    }
    while i < 8
        invariant
            i <= 8,
            r.len() == i,
            x == le_value(r@) + rest * pow256(i as nat),
            pow256(8) == 0x1_0000_0000_0000_0000,
        decreases 8 - i,
    {
        let b: u8 = (rest % 256) as u8;
        proof {
            lemma_le_value_push(r@, b);
            let q = rest / 256;
            assert(rest * pow256(i as nat) == b * pow256(i as nat) + q * pow256((i + 1) as nat))
                by (nonlinear_arith)
                requires
                    rest == 256 * q + b,
                    pow256((i + 1) as nat) == 256 * pow256(i as nat),
            ;
        }
        r.push(b);
        rest = rest / 256;
        i = i + 1;
    }
    proof {
        if rest >= 1 {
            assert(rest * pow256(8) >= pow256(8)) by (nonlinear_arith)
                requires
                    rest >= 1,
            ;
        }
        lemma_mul_basics(pow256(8) as int);
    }
    r
}

/// The word with the given base 256 digits; at most eight are read.
fn word_from_bytes(bytes: &[u8]) -> (r: u64)
    ensures
        r == le_value(bytes@.take(if bytes.len() < 8 { bytes.len() as int } else { 8 })),
{
    let len: usize = if bytes.len() < 8 { bytes.len() } else { 8 };
    let ghost head = bytes@.take(len as int);
    let mut r: u64 = 0;
    let mut i: usize = len;
    assert(head.skip(len as int) =~= Seq::<u8>::empty());
    assert(le_value(Seq::<u8>::empty()) == 0);
    while i > 0
        invariant
            i <= len <= 8,
            len <= bytes.len(),
            head == bytes@.take(len as int),
            r == le_value(head.skip(i as int)),
        decreases i,
    {
        i = i - 1;
        proof {
            let s = head.skip(i as int);
            assert(s.drop_first() =~= head.skip(i as int + 1));
            assert(s[0] == bytes[i as int]);
            lemma_le_bound(s);
            lemma_pow256_8();
            lemma_pow256_mono(s.len(), 8);
        }
        r = bytes[i] as u64 + 256 * r;
    }
    assert(head.skip(0) =~= head);
    r
}

proof fn lemma_pow256_mono(m: nat, n: nat)
    requires
        m <= n,
    ensures
        pow256(m) <= pow256(n),
    decreases n,
{
    if m < n {
        lemma_pow256_mono(m, (n - 1) as nat);
    }
}

impl CryptoField for GoldilocksField {
    open spec fn elem(&self) -> Elem {
        self@
    }

    fn zero() -> (r: Self)
        ensures
            r.0 == 0,
    {
        GoldilocksField(0)
    }

    fn one() -> (r: Self)
        ensures
            r.0 == 1,
    {
        GoldilocksField(1)
    }

    fn from_u32(n: u32) -> (r: Self)
        ensures
            r.0 == n,
    {
        GoldilocksField(n as u64)
    }

    fn from_u64(n: u64) -> (r: Self)
        ensures
            r.0 == n as int % prime(),
    {
        GoldilocksField(n % GOLDILOCKS_PRIME)
    }

    fn to_u64(&self) -> (r: u64)
        ensures
            r == self.0,
    {
        self.0
    }

    fn invert(&self) -> (r: Self)
        ensures
            r.canonical(),
    {
        gl_inv(*self)
    }

    fn to_bytes_le(&self) -> (r: Vec<u8>)
        ensures
            le_value(r@) == self.0,
    {
        word_to_bytes(self.0)
    }

    fn from_bytes_le(bytes: &[u8]) -> (r: Self)
        ensures
            r.canonical(),
    {
        GoldilocksField(word_from_bytes(bytes) % GOLDILOCKS_PRIME)
    }
}

/// Writing an element and reading it back gives the same element.
pub proof fn lemma_bytes_roundtrip(x: GoldilocksField, bytes: Seq<u8>, y: GoldilocksField)
    requires
        bytes.len() == 8,
        le_value(bytes) == x.0,
        y@ == embed(le_value(bytes.take(8)) as int),
    ensures
        y@ == x@,
{
    assert(bytes.take(8) =~= bytes);
}

} // verus!
