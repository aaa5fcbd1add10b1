//! Powers of two, logarithms, and conversions between integers and field elements.
use vstd::arithmetic::div_mod::*;
use vstd::arithmetic::power2::*;
use vstd::bits::*;
use vstd::prelude::*;

use crate::field::elem::{embed, prime};
use crate::field::sums::power;
use crate::field::{ext2_mul, gl_sub, GoldilocksExt2, GoldilocksField};
use crate::GOLDILOCKS_PRIME;

verus! {

/// `1 << n`.
pub fn pow2_usize(n: usize) -> (r: usize)
    requires
        n < usize::BITS,
    ensures
        r == pow2(n as nat),
        r > 0,
{
    proof {
        lemma_usize_pow2_no_overflow(n as nat);
        lemma_usize_shl_is_mul(1, n);
        lemma_pow2_pos(n as nat);
    }
    1usize << n
}

/// Machine words hold `usize::BITS` bits.
pub proof fn lemma_usize_max()
    ensures
        usize::MAX + 1 == pow2(usize::BITS as nat),
        usize::BITS == 32 || usize::BITS == 64,
{
    lemma2_to64();
    assert(usize::BITS == 32 || usize::BITS == 64);
}

/// The least `k` with `s <= 2^k`.
pub open spec fn clog2(s: nat) -> nat
    decreases s,
{
    if s <= 1 {
        0
    } else {
        1 + clog2(((s + 1) / 2) as nat)
    }
}

/// `clog2` is the rounded up binary logarithm.
pub proof fn lemma_clog2(s: nat)
    ensures
        s <= pow2(clog2(s)),
        clog2(s) > 0 ==> pow2((clog2(s) - 1) as nat) < s,
    decreases s,
{
    lemma2_to64();
    if s > 1 {
        let h = ((s + 1) / 2) as nat;
        lemma_clog2(h);
        lemma_pow2_unfold(clog2(s));
        if clog2(h) > 0 {
            lemma_pow2_unfold(clog2(h));
        }
    }
}

/// A logarithm is determined by its two bounds.
pub proof fn lemma_clog2_unique(s: nat, k: nat)
    requires
        s <= pow2(k),
        k > 0 ==> pow2((k - 1) as nat) < s,
    ensures
        clog2(s) == k,
{
    lemma_clog2(s);
    let c = clog2(s);
    if c < k {
        if c < k - 1 {
            lemma_pow2_strictly_increases(c, (k - 1) as nat);
        }
    } else if k < c {
        if k < c - 1 {
            lemma_pow2_strictly_increases(k, (c - 1) as nat);
        }
    }
}

/// The least power of two that is at least `s`.
pub open spec fn padded(s: nat) -> nat {
    pow2(clog2(s))
}

/// The rounded up binary logarithm.
pub fn log2c(x: usize) -> (k: usize)
    ensures
        k == clog2(x as nat),
        k <= usize::BITS,
{
    let mut k: usize = 0;
    let mut y: usize = x;
    proof {
        lemma_usize_max();
        lemma_clog2(x as nat);
        if clog2(x as nat) > usize::BITS {
            let c = (clog2(x as nat) - 1) as nat;
            if c > usize::BITS {
                lemma_pow2_strictly_increases(usize::BITS as nat, c);
            }
        }
    }
    while y > 1
        invariant
            k + clog2(y as nat) == clog2(x as nat),
            clog2(x as nat) <= usize::BITS,
            k <= usize::BITS,
        decreases y,
    {
        y = y / 2 + y % 2;
        k = k + 1;
    }
    k
}

/// The least power of two that is at least `x`.
pub fn next_pow(x: usize) -> (r: usize)
    requires
        x <= usize::MAX / 2 + 1,
    ensures
        r == padded(x as nat),
        r >= x,
        r > 0,
{
    let k: usize = log2c(x);
    proof {
        lemma_clog2(x as nat);
        lemma_usize_max();
        if k == usize::BITS {
            lemma_pow2_unfold(usize::BITS as nat);
        }
    }
    pow2_usize(k)
}

/// Number of variables of a tensor whose dimensions are padded to powers of two.
pub open spec fn num_vars(shape: Seq<usize>) -> nat
    decreases shape.len(),
{
    if shape.len() == 0 {
        0
    } else {
        num_vars(shape.drop_last()) + clog2(shape.last() as nat)
    }
}

/// Number of variables of the polynomial that holds a tensor of the given shape.
pub fn get_n(shape: &[usize]) -> (n: usize)
    requires
        num_vars(shape@) <= usize::MAX,
    ensures
        n == num_vars(shape@),
{
    let mut n: usize = 0;
    let mut i: usize = 0;
    while i < shape.len()
        invariant
            i <= shape.len(),
            n == num_vars(shape@.take(i as int)),
            num_vars(shape@) <= usize::MAX,
        decreases shape.len() - i,
    {
        proof {
            lemma_num_vars_prefix(shape@, i as int + 1);
            assert(shape@.take(i as int + 1).drop_last() =~= shape@.take(i as int));
        }
        n = n + log2c(shape[i]);
        i = i + 1;
    }
    assert(shape@.take(i as int) =~= shape@);
    n
}

/// A prefix of a shape needs no more variables than the shape.
pub proof fn lemma_num_vars_prefix(shape: Seq<usize>, k: int)
    requires
        0 <= k <= shape.len(),
    ensures
        num_vars(shape.take(k)) <= num_vars(shape),
    decreases shape.len() - k,
{
    if k < shape.len() {
        lemma_num_vars_prefix(shape, k + 1);
        assert(shape.take(k + 1).drop_last() =~= shape.take(k));
    } else {
        assert(shape.take(k) =~= shape);
    }
}

/// The powers `1, x, .., x^(n-1)`.
pub fn calc_pow_vec_ext2(x: GoldilocksExt2, n: usize) -> (r: Vec<GoldilocksExt2>)
    ensures
        r.len() == n,
        forall|i: int| 0 <= i < n ==> (#[trigger] r[i])@ == power(x@, i as nat) && r[i].canonical(),
{
    let mut r: Vec<GoldilocksExt2> = Vec::new();
    let mut cur: GoldilocksExt2 = GoldilocksExt2::one();
    let mut i: usize = 0;
    while i < n
        invariant
            i <= n,
            r.len() == i,
            cur@ == power(x@, i as nat),
            cur.canonical(),
            forall|k: int| 0 <= k < i ==> (#[trigger] r[k])@ == power(x@, k as nat) && r[k].canonical(),
        decreases n - i,
    {
        r.push(cur);
        cur = ext2_mul(cur, x);
        i = i + 1;
    }
    r
}

/// The signed integer that an element stands for: words from `2^63` on are negative.
pub open spec fn signed_value(x: GoldilocksField) -> int {
    let v = x.0 as int % prime();
    if v < 0x8000_0000_0000_0000 {
        v
    } else {
        v - prime()
    }
}

/// Reads an element as a signed integer.
pub fn f_to_int(x: GoldilocksField) -> (r: i128)
    ensures
        r == signed_value(x),
{
    let v: u64 = x.0 % GOLDILOCKS_PRIME;
    if v < 0x8000_0000_0000_0000 {
        v as i128
    } else {
        v as i128 - GOLDILOCKS_PRIME as i128
    }
}

/// The element that stands for a signed integer.
pub fn field_from_i64(v: i64) -> (r: GoldilocksField)
    requires
        v > i64::MIN,
    ensures
        r@ == embed(v as int),
        v >= 0 ==> r.0 == v,
        v < 0 ==> r.0 == prime() + v,
{
    if v >= 0 {
        GoldilocksField(v as u64)
    } else {
        proof {
            lemma_mod_add_multiples_vanish(v as int, prime());
            lemma_small_mod((prime() + v) as nat, prime() as nat);
        }
        gl_sub(GoldilocksField(0), GoldilocksField((0 - v) as u64))
    }
}

/// Small signed integers survive the way into the field and back.
pub proof fn lemma_signed_roundtrip(v: i64, x: GoldilocksField)
    requires
        x@ == embed(v as int),
    ensures
        -0x8000_0000_0000_0000 + 0xFFFF_FFFF <= v ==> signed_value(x) == v,
{
    if v < 0 {
        lemma_mod_add_multiples_vanish(v as int, prime());
        lemma_small_mod((prime() + v) as nat, prime() as nat);
    } else {
        lemma_small_mod(v as nat, prime() as nat);
    }
}

} // verus!
