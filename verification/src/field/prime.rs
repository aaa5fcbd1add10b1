//! Primality of the Goldilocks modulus and inverses modulo it.
//!
//! The root below has order `2^32` modulo the modulus. Modulo any divisor
//! greater than one its powers stay distinct, so such a divisor exceeds
//! `2^32`, and two of them multiply to more than the modulus.
use vstd::arithmetic::div_mod::*;
use vstd::arithmetic::mul::*;
use vstd::arithmetic::power::*;
use vstd::arithmetic::power2::*;
use vstd::prelude::*;
use vstd::relations::injective_on;
use vstd::set_lib::*;

use crate::field::elem::prime;

verus! {

/// An element of order `2^32`.
spec fn root() -> int {
    7277203076849721926
}

spec fn order() -> nat {
    0x1_0000_0000
}

proof fn squaring_step(k: nat, x: int, y: int)
    requires
        pow(root(), k) % prime() == x,
        (x * x) % prime() == y,
    ensures
        pow(root(), 2 * k) % prime() == y,
{
    lemma_pow_adds(root(), k, k);
    lemma_mul_mod_noop(pow(root(), k), pow(root(), k), prime());
    assert(k + k == 2 * k);
}

/// Half of the order takes the root to minus one.
proof fn lemma_root_half()
    ensures
        pow(root(), 0x8000_0000) % prime() == prime() - 1,
{
    lemma_pow1(root());
    squaring_step(1, 7277203076849721926, 3524815499551269279);
    squaring_step(2, 3524815499551269279, 1905180297017055339);
    squaring_step(4, 1905180297017055339, 2530564950562219707);
    squaring_step(8, 2530564950562219707, 2147253751702802259);
    squaring_step(16, 2147253751702802259, 4969973714567017225);
    squaring_step(32, 4969973714567017225, 3757607247483852735);
    squaring_step(64, 3757607247483852735, 8877499657461974390);
    squaring_step(128, 8877499657461974390, 2709866199236980323);
    squaring_step(256, 2709866199236980323, 5936499541590631774);
    squaring_step(512, 5936499541590631774, 8124823329697072476);
    squaring_step(1024, 8124823329697072476, 6553637399136210105);
    squaring_step(2048, 6553637399136210105, 1971462654193939361);
    squaring_step(4096, 1971462654193939361, 8982441859486529725);
    squaring_step(8192, 8982441859486529725, 3411401055030829696);
    squaring_step(16384, 3411401055030829696, 5718075921287398682);
    squaring_step(32768, 5718075921287398682, 8167150655112846419);
    squaring_step(65536, 8167150655112846419, 1873558160482552414);
    squaring_step(131072, 1873558160482552414, 7126024226993609386);
    squaring_step(262144, 7126024226993609386, 4308460244895131701);
    squaring_step(524288, 4308460244895131701, 4355325209153869931);
    squaring_step(1048576, 4355325209153869931, 9113133275150391358);
    squaring_step(2097152, 9113133275150391358, 4255134452441852017);
    squaring_step(4194304, 4255134452441852017, 6434636298004421797);
    squaring_step(8388608, 6434636298004421797, 4404853092538523347);
    squaring_step(16777216, 4404853092538523347, 2198989700608);
    squaring_step(33554432, 2198989700608, 8);
    squaring_step(67108864, 8, 64);
    squaring_step(134217728, 64, 4096);
    squaring_step(268435456, 4096, 16777216);
    squaring_step(536870912, 16777216, 281474976710656);
    squaring_step(1073741824, 281474976710656, 18446744069414584320);
}

/// `x` and `y` leave the same remainder modulo `d`.
spec fn same(x: int, y: int, d: int) -> bool {
    (x - y) % d == 0
}

proof fn lemma_same(x: int, y: int, d: int)
    requires
        d > 0,
    ensures
        same(x, y, d) <==> x % d == y % d,
{
    lemma_mod_equivalence(x, y, d);
}

/// A congruence modulo a multiple of `d` holds modulo `d`.
proof fn lemma_same_divisor(x: int, y: int, d: int)
    requires
        d > 0,
        prime() % d == 0,
        x % prime() == y % prime(),
    ensures
        x % d == y % d,
{
    lemma_same(x, y, prime());
    lemma_same(x, y, d);
    lemma_fundamental_div_mod(x - y, prime());
    lemma_fundamental_div_mod(prime(), d);
    let k = (x - y) / prime();
    let l = prime() / d;
    assert(x - y == d * (l * k)) by (nonlinear_arith)
        requires
            x - y == prime() * k,
            prime() == d * l,
    ;
    lemma_mod_multiples_basic(l * k, d);
    lemma_mul_is_commutative(l * k, d);
}

/// Every positive integer is a power of two times an odd one.
proof fn lemma_odd_part(m: nat) -> (r: (nat, nat))
    requires
        m > 0,
    ensures
        r.1 % 2 == 1,
        m == pow(2, r.0) * r.1,
    decreases m,
{
    if m % 2 == 1 {
        lemma_pow0(2);
        (0, m)
    } else {
        let h = m / 2;
        let (s, o) = lemma_odd_part(h);
        lemma_pow_adds(2, 1, s);
        lemma_pow1(2);
        assert(m == pow(2, s + 1) * o) by (nonlinear_arith)
            requires
                m == 2 * h,
                h == pow(2, s) * o,
                pow(2, s + 1) == 2 * pow(2, s),
        ;
        (s + 1, o)
    }
}

/// Odd powers of minus one are minus one.
proof fn lemma_odd_power(x: int, o: nat, d: int)
    requires
        d > 1,
        x % d == d - 1,
        o % 2 == 1,
    ensures
        pow(x, o) % d == d - 1,
{
    let q = o / 2;
    lemma_pow_adds(x, 2 * q, 1);
    lemma_pow_multiplies(x, 2, q);
    lemma_pow1(x);
    lemma_pow_adds(x, 1, 1);
    lemma_mul_mod_noop(x, x, d);
    assert(((d - 1) * (d - 1)) % d == 1) by {
        assert((d - 1) * (d - 1) == d * (d - 2) + 1) by (nonlinear_arith);
        lemma_mod_multiples_vanish(d - 2, 1, d);
        lemma_small_mod(1, d as nat);
    }
    let y = pow(x, 2);
    assert(y % d == 1);
    lemma_pow_mod_noop(y, q, d);
    lemma1_pow(q);
    lemma_small_mod(1, d as nat);
    assert(pow(y, q) % d == 1);
    lemma_mul_mod_noop(pow(y, q), x, d);
    assert(o == 2 * q + 1);
    assert(pow(x, o) == pow(y, q) * x);
    assert((1 * (d - 1)) % d == d - 1) by {
        lemma_small_mod((d - 1) as nat, d as nat);
    }
}

/// No positive exponent below the order gives one modulo a proper divisor.
proof fn lemma_not_one(m: nat, d: int)
    requires
        d > 1,
        prime() % d == 0,
        0 < m < order(),
    ensures
        pow(root(), m) % d != 1,
{
    if pow(root(), m) % d == 1 {
        assert(d != 2);
        let half: nat = 0x8000_0000;
        lemma_root_half();
        assert((prime() - 1) % prime() == prime() - 1);
        lemma_same_divisor(pow(root(), half), prime() - 1, d);
        assert((prime() - 1) % d == d - 1) by {
            lemma_fundamental_div_mod(prime(), d);
            let k = prime() / d;
            assert(prime() - 1 == d * (k - 1) + (d - 1)) by (nonlinear_arith)
                requires
                    prime() == d * k,
            ;
            lemma_mod_multiples_vanish(k - 1, d - 1, d);
            lemma_small_mod((d - 1) as nat, d as nat);
        }
        let (s, o) = lemma_odd_part(m);
        assert(s <= 31) by {
            if s >= 32 {
                lemma_pow_increases(2, 32, s);
                lemma_pow2(32);
                lemma2_to64();
                assert(m >= order()) by (nonlinear_arith)
                    requires
                        m == pow(2, s) * o,
                        pow(2, s) >= 0x1_0000_0000,
                        o >= 1,
                        order() == 0x1_0000_0000,
                ;
            }
        }
        let c = pow(2, (31 - s) as nat);
        lemma_pow_positive(2, (31 - s) as nat);
        lemma_pow_adds(2, s, (31 - s) as nat);
        assert(pow(2, 31) == half) by {
            lemma_pow2(31);
            lemma2_to64();
        }
        assert(m * c == half * o) by (nonlinear_arith)
            requires
                m == pow(2, s) * o,
                half == pow(2, s) * c,
        ;
        lemma_pow_multiplies(root(), m, c as nat);
        lemma_pow_multiplies(root(), half, o);
        lemma_pow_mod_noop(pow(root(), m), c as nat, d);
        lemma1_pow(c as nat);
        lemma_small_mod(1, d as nat);
        lemma_odd_power(pow(root(), half), o, d);
    }
}

/// The full order takes the root to one.
proof fn lemma_root_order(d: int)
    requires
        d > 1,
        prime() % d == 0,
    ensures
        pow(root(), order()) % d == 1,
{
    lemma_root_half();
    squaring_step(0x8000_0000, 18446744069414584320, 1);
    lemma_same_divisor(pow(root(), order()), 1, d);
    lemma_small_mod(1, d as nat);
}

proof fn lemma_powers_distinct(i: nat, j: nat, d: int)
    requires
        d > 1,
        prime() % d == 0,
        i < j < order(),
    ensures
        pow(root(), i) % d != pow(root(), j) % d,
{
    if pow(root(), i) % d == pow(root(), j) % d {
        let r = (order() - i) as nat;
        let e = (j - i) as nat;
        lemma_root_order(d);
        lemma_pow_adds(root(), r, i);
        lemma_pow_adds(root(), i, e);
        let x = pow(root(), r);
        let y = pow(root(), i);
        let z = pow(root(), e);
        lemma_mul_mod_noop(x, y, d);
        lemma_mul_mod_noop(x, y * z, d);
        lemma_mul_is_associative(x, y, z);
        lemma_mul_mod_noop(x * y, z, d);
        lemma_mod_twice(z, d);
        lemma_mul_basics(z % d);
        assert(z % d == 1);
        lemma_not_one(e, d);
    }
}

/// A divisor greater than one exceeds the order of the root.
proof fn lemma_divisor_large(d: int)
    requires
        d > 1,
        prime() % d == 0,
    ensures
        d > order(),
{
    let f = |i: int| pow(root(), i as nat) % d;
    let xs = set_int_range(0, order() as int);
    let ys = xs.map(f);
    lemma_int_range(0, order() as int);
    assert(injective_on(f, xs)) by {
        assert forall|a: int, b: int|
            xs.contains(a) && xs.contains(b) && #[trigger] f(a) == #[trigger] f(b) implies a
            == b by {
            if a < b {
                lemma_powers_distinct(a as nat, b as nat, d);
            } else if b < a {
                lemma_powers_distinct(b as nat, a as nat, d);
            }
        }
    }
    lemma_map_size(xs, ys, f);
    let zs = set_int_range(1, d);
    assert(ys.subset_of(zs)) by {
        assert forall|y: int| ys.contains(y) implies zs.contains(y) by {
            let i = choose|i: int| xs.contains(i) && f(i) == y;
            let r = (order() - i) as nat;
            lemma_root_order(d);
            lemma_pow_adds(root(), r, i as nat);
            lemma_mul_mod_noop(pow(root(), r), pow(root(), i as nat), d);
            lemma_mod_bound(pow(root(), i as nat), d);
            if y == 0 {
                lemma_mul_basics(pow(root(), r) % d);
                lemma_small_mod(0, d as nat);
            }
        }
    }
    lemma_int_range(1, d);
    lemma_len_subset(ys, zs);
}

/// The modulus has no divisor other than one and itself.
pub proof fn lemma_prime(d: int)
    requires
        1 < d < prime(),
    ensures
        prime() % d != 0,
{
    if prime() % d == 0 {
        lemma_divisor_large(d);
        lemma_fundamental_div_mod(prime(), d);
        let e = prime() / d;
        assert(e > 1) by (nonlinear_arith)
            requires
                prime() == d * e,
                1 < d < prime(),
                prime() > 0,
        ;
        assert(prime() % e == 0) by {
            lemma_mod_multiples_basic(d, e);
        }
        lemma_divisor_large(e);
        assert(d * e >= 0x1_0000_0001 * 0x1_0000_0001) by (nonlinear_arith)
            requires
                d >= 0x1_0000_0001,
                e >= 0x1_0000_0001,
        ;
    }
}

} // verus!
