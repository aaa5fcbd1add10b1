//! Multiplicative structure modulo the prime: inverses, Fermat's little
//! theorem, and that seven has no square root.
use vstd::arithmetic::div_mod::*;
use vstd::arithmetic::mul::*;
use vstd::arithmetic::power::*;
use vstd::prelude::*;
use vstd::set_lib::*;

use crate::field::elem::prime;
use crate::field::prime::lemma_prime;

verus! {

/// A combination of `a` and `b` that divides both.
proof fn lemma_bezout(a: nat, b: nat) -> (r: (int, int, int))
    requires
        a > 0 || b > 0,
    ensures
        r.0 > 0,
        a * r.1 + b * r.2 == r.0,
        (a as int) % r.0 == 0,
        (b as int) % r.0 == 0,
    decreases b,
{
    if b == 0 {
        lemma_mod_self_0(a as int);
        (a as int, 1, 0)
    } else {
        let q = a / b;
        let m = a % b;
        lemma_fundamental_div_mod(a as int, b as int);
        let (g, s, t) = lemma_bezout(b, m);
        assert(a * t + b * (s - q * t) == g) by (nonlinear_arith)
            requires
                a == b * q + m,
                b * s + m * t == g,
        ;
        lemma_fundamental_div_mod(b as int, g);
        lemma_fundamental_div_mod(m as int, g);
        let x = (b as int) / g;
        let y = (m as int) / g;
        assert(a == (x * q + y) * g) by (nonlinear_arith)
            requires
                a == b * q + m,
                b == g * x,
                m == g * y,
        ;
        lemma_mod_multiples_basic(x * q + y, g);
        (g, t, s - q * t)
    }
}

/// Every nonzero residue has an inverse.
pub proof fn lemma_inverse(a: int) -> (b: int)
    requires
        a % prime() != 0,
    ensures
        (a * b) % prime() == 1,
        0 <= b < prime(),
{
    let r = a % prime();
    let (g, s, t) = lemma_bezout(r as nat, prime() as nat);
    if g > 1 {
        if g < prime() {
            lemma_prime(g);
        } else {
            lemma_small_mod(r as nat, g as nat);
        }
    }
    assert(g == 1);
    let b = s % prime();
    assert((r * s) % prime() == 1) by {
        lemma_mod_multiples_vanish(-t, 1, prime());
        assert(prime() * (-t) + 1 == r * s) by (nonlinear_arith)
            requires
                r * s + prime() * t == 1,
        ;
    }
    lemma_mul_mod_noop(a, s, prime());
    lemma_mul_mod_noop(a, b, prime());
    lemma_mul_mod_noop(r, s, prime());
    lemma_mod_twice(a, prime());
    lemma_mod_twice(s, prime());
    b
}

/// A product is divisible by the prime only if a factor is.
pub proof fn lemma_no_zero_divisors(a: int, b: int)
    requires
        (a * b) % prime() == 0,
    ensures
        a % prime() == 0 || b % prime() == 0,
{
    if a % prime() != 0 {
        let c = lemma_inverse(a);
        lemma_mul_mod_noop(c, a * b, prime());
        assert(c * (a * b) == (a * c) * b) by (nonlinear_arith);
        lemma_mul_mod_noop(a * c, b, prime());
        lemma_mul_basics(c % prime());
        lemma_mul_basics(b % prime());
        lemma_mod_twice(b, prime());
        lemma_small_mod(0, prime() as nat);
    }
}

/// Product of the elements of a finite set.
spec fn set_prod(s: Set<int>) -> int
    decreases s.len(),
{
    if s.finite() && s.len() > 0 {
        let a = s.choose();
        a * set_prod(s.remove(a))
    } else {
        1
    }
}

proof fn lemma_set_prod_remove(s: Set<int>, a: int)
    requires
        s.finite(),
        s.contains(a),
    ensures
        set_prod(s) == a * set_prod(s.remove(a)),
    decreases s.len(),
{
    let c = s.choose();
    assert(s.len() > 0);
    if c != a {
        lemma_set_prod_remove(s.remove(c), a);
        lemma_set_prod_remove(s.remove(a), c);
        assert(s.remove(c).remove(a) =~= s.remove(a).remove(c));
        let rest = set_prod(s.remove(a).remove(c));
        assert(c * (a * rest) == a * (c * rest)) by (nonlinear_arith);
    }
}

/// The residues of `x, 2x, .., nx`.
spec fn multiples(x: int, n: nat) -> Set<int> {
    Set::new(|y: int| exists|i: int| 1 <= i <= n && y == #[trigger] (i * x) % prime())
}

spec fn factorial(n: nat) -> int
    decreases n,
{
    if n == 0 {
        1
    } else {
        n * factorial((n - 1) as nat)
    }
}

proof fn lemma_multiples(x: int, n: nat)
    requires
        x % prime() != 0,
        n < prime(),
    ensures
        multiples(x, n).finite(),
        multiples(x, n).len() == n,
        set_prod(multiples(x, n)) % prime() == (pow(x, n) * factorial(n)) % prime(),
    decreases n,
{
    if n == 0 {
        assert(multiples(x, n) =~= Set::empty());
        lemma_pow0(x);
    } else {
        let m = (n - 1) as nat;
        lemma_multiples(x, m);
        let y = (n * x) % prime();
        let small = multiples(x, m);
        let big = multiples(x, n);
        assert(!small.contains(y)) by {
            if small.contains(y) {
                let i = choose|i: int| 1 <= i <= m && y == #[trigger] (i * x) % prime();
                lemma_mod_equivalence(n * x, i * x, prime());
                assert(n * x - i * x == (n - i) * x) by (nonlinear_arith);
                lemma_no_zero_divisors(n - i, x);
                lemma_small_mod((n - i) as nat, prime() as nat);
            }
        }
        assert(big =~= small.insert(y)) by {
            assert forall|z: int| big.contains(z) implies small.insert(y).contains(z) by {
                let i = choose|i: int| 1 <= i <= n && z == #[trigger] (i * x) % prime();
                if i != n {
                    assert(1 <= i <= m && z == (i * x) % prime());
                }
            }
            assert forall|z: int| small.insert(y).contains(z) implies big.contains(z) by {
                if z == y {
                    assert(1 <= n <= n && z == (n * x) % prime());
                } else {
                    let i = choose|i: int| 1 <= i <= m && z == #[trigger] (i * x) % prime();
                    assert(1 <= i <= n && z == (i * x) % prime());
                }
            }
        }
        assert(big.remove(y) =~= small);
        lemma_set_prod_remove(big, y);
        let a = set_prod(small);
        let b = pow(x, m) * factorial(m);
        lemma_mul_mod_noop(n * x, a, prime());
        lemma_mul_mod_noop(y, a, prime());
        lemma_mod_twice(n * x, prime());
        lemma_mul_mod_noop(n * x, b, prime());
        lemma_pow_adds(x, 1, m);
        lemma_pow1(x);
        assert((n * x) * b == pow(x, n) * factorial(n)) by (nonlinear_arith)
            requires
                pow(x, n) == x * pow(x, m),
                factorial(n) == n * factorial(m),
                b == pow(x, m) * factorial(m),
        ;
    }
}

proof fn lemma_factorial_nonzero(n: nat)
    requires
        n < prime(),
    ensures
        factorial(n) % prime() != 0,
    decreases n,
{
    if n > 0 {
        lemma_factorial_nonzero((n - 1) as nat);
        if factorial(n) % prime() == 0 {
            lemma_no_zero_divisors(n as int, factorial((n - 1) as nat));
            lemma_small_mod(n, prime() as nat);
        }
    }
}

/// Fermat's little theorem.
pub proof fn lemma_fermat(x: int)
    requires
        x % prime() != 0,
    ensures
        pow(x, (prime() - 1) as nat) % prime() == 1,
{
    let n = (prime() - 1) as nat;
    lemma_multiples(x, n);
    lemma_multiples(1, n);
    let all = multiples(1, n);
    let some = multiples(x, n);
    assert(some.subset_of(all)) by {
        assert forall|z: int| some.contains(z) implies all.contains(z) by {
            let i = choose|i: int| 1 <= i <= n && z == #[trigger] (i * x) % prime();
            lemma_mod_bound(i * x, prime());
            if z == 0 {
                lemma_no_zero_divisors(i, x);
                lemma_small_mod(i as nat, prime() as nat);
            }
            lemma_small_mod(z as nat, prime() as nat);
            assert(1 <= z <= n && z == (z * 1) % prime());
        }
    }
    lemma_subset_equality(some, all);
    let f = factorial(n);
    lemma1_pow(n);
    let w = pow(x, n);
    assert((w * f) % prime() == (1 * f) % prime());
    lemma_mod_equivalence(w * f, f, prime());
    assert(w * f - f == (w - 1) * f) by (nonlinear_arith);
    lemma_no_zero_divisors(w - 1, f);
    lemma_factorial_nonzero(n);
    lemma_mod_equivalence(w, 1, prime());
}

proof fn square(k: nat, x: int, y: int)
    requires
        pow(7, k) % prime() == x,
        (x * x) % prime() == y,
    ensures
        pow(7, 2 * k) % prime() == y,
{
    lemma_pow_adds(7, k, k);
    lemma_mul_mod_noop(pow(7, k), pow(7, k), prime());
    assert(k + k == 2 * k);
}

proof fn square_times_seven(k: nat, x: int, y: int, z: int)
    requires
        pow(7, k) % prime() == x,
        (x * x) % prime() == y,
        (y * 7) % prime() == z,
    ensures
        pow(7, 2 * k + 1) % prime() == z,
{
    square(k, x, y);
    lemma_pow_adds(7, 2 * k, 1);
    lemma_pow1(7);
    lemma_mul_mod_noop(pow(7, 2 * k), 7, prime());
}

/// Euler's criterion evaluated at seven.
proof fn lemma_euler_seven()
    ensures
        pow(7, 0x7FFF_FFFF_8000_0000) % prime() == prime() - 1,
{
    lemma_pow1(7);
    square_times_seven(1, 7, 49, 343);
    square_times_seven(3, 343, 117649, 823543);
    square_times_seven(7, 823543, 678223072849, 4747561509943);
    square_times_seven(15, 4747561509943, 1582037354089406189, 11074261478625843323);
    square_times_seven(31, 11074261478625843323, 14911712358349047125, 12148266161370408270);
    square_times_seven(63, 12148266161370408270, 14177331716484271384, 7007601668316978083);
    square_times_seven(127, 7007601668316978083, 1160753142525841411, 8125271997680889877);
    square_times_seven(255, 8125271997680889877, 10915923311382173605, 2624486902016877951);
    square_times_seven(511, 2624486902016877951, 1179017105118043277, 8253119735826302939);
    square_times_seven(1023, 8253119735826302939, 13682469552810377440, 3543566522599720475);
    square_times_seven(2047, 3543566522599720475, 12252646851770615269, 11981551684735969599);
    square_times_seven(4095, 11981551684735969599, 9343193256669382154, 10062120588441922115);
    square_times_seven(8191, 10062120588441922115, 4133221502128927102, 10485806445487905393);
    square_times_seven(16383, 10485806445487905393, 5861853314594190514, 4139485063330164956);
    square_times_seven(32767, 4139485063330164956, 7004045467739516513, 12134830135347446949);
    square_times_seven(65535, 12134830135347446949, 618113109518621269, 4326791766630348883);
    square_times_seven(131071, 4326791766630348883, 13205783127219969319, 206761543466863628);
    square_times_seven(262143, 206761543466863628, 14617186517222294718, 10086585273483141421);
    square_times_seven(524287, 10086585273483141421, 5535602650859329748, 1855730417186139594);
    square_times_seven(1048575, 1855730417186139594, 3724741596018185032, 7626447102712710903);
    square_times_seven(2097151, 7626447102712710903, 11653985196031332500, 7790920094560990216);
    square_times_seven(4194303, 7790920094560990216, 16654626667483233145, 5901922255895126089);
    square_times_seven(8388607, 5901922255895126089, 9182212999444825067, 8935258787870022506);
    square_times_seven(16777215, 8935258787870022506, 17682034324931514088, 13093775858033092690);
    square_times_seven(33554431, 13093775858033092690, 9511995656157268947, 11243737384857129666);
    square_times_seven(67108863, 11243737384857129666, 16106297366990222687, 2063617152444052883);
    square_times_seven(134217727, 2063617152444052883, 4501656151559876649, 13064848991504552222);
    square_times_seven(268435455, 13064848991504552222, 2370486178716065012, 16593403251012455084);
    square_times_seven(536870911, 16593403251012455084, 14013264900002007546, 5859133952941131217);
    square_times_seven(1073741823, 5859133952941131217, 10142762553374040318, 15659105665374529263);
    square_times_seven(2147483647, 15659105665374529263, 16062014221418238814, 1753635133440165772);
    square(4294967295, 1753635133440165772, 4614640910117430873);
    square(8589934590, 4614640910117430873, 9123114210336311365);
    square(17179869180, 9123114210336311365, 16116352524544190054);
    square(34359738360, 16116352524544190054, 6414415596519834757);
    square(68719476720, 6414415596519834757, 1213594585890690845);
    square(137438953440, 1213594585890690845, 17096174751763063430);
    square(274877906880, 17096174751763063430, 5456943929260765144);
    square(549755813760, 5456943929260765144, 9713644485405565297);
    square(1099511627520, 9713644485405565297, 16905767614792059275);
    square(2199023255040, 16905767614792059275, 5416168637041100469);
    square(4398046510080, 5416168637041100469, 17654865857378133588);
    square(8796093020160, 17654865857378133588, 3511170319078647661);
    square(17592186040320, 3511170319078647661, 18146160046829613826);
    square(35184372080640, 18146160046829613826, 9306717745644682924);
    square(70368744161280, 9306717745644682924, 12380578893860276750);
    square(140737488322560, 12380578893860276750, 6115771955107415310);
    square(281474976645120, 6115771955107415310, 17776499369601055404);
    square(562949953290240, 17776499369601055404, 16207902636198568418);
    square(1125899906580480, 16207902636198568418, 1532612707718625687);
    square(2251799813160960, 1532612707718625687, 17492915097719143606);
    square(4503599626321920, 17492915097719143606, 455906449640507599);
    square(9007199252643840, 455906449640507599, 11353340290879379826);
    square(18014398505287680, 11353340290879379826, 1803076106186727246);
    square(36028797010575360, 1803076106186727246, 13797081185216407910);
    square(72057594021150720, 13797081185216407910, 17870292113338400769);
    square(144115188042301440, 17870292113338400769, 549755813888);
    square(288230376084602880, 549755813888, 70368744161280);
    square(576460752169205760, 70368744161280, 17293822564807737345);
    square(1152921504338411520, 17293822564807737345, 18446744069397807105);
    square(2305843008676823040, 18446744069397807105, 281474976710656);
    square(4611686017353646080, 281474976710656, 18446744069414584320);
}

/// Seven is not a square.
pub proof fn lemma_seven_no_root(x: int)
    ensures
        (x * x) % prime() != 7,
{
    if (x * x) % prime() == 7 {
        if x % prime() == 0 {
            lemma_mul_mod_noop(x, x, prime());
        }
        lemma_fermat(x);
        let h: nat = 0x7FFF_FFFF_8000_0000;
        lemma_pow_multiplies(x, 2, h);
        lemma_pow_adds(x, 1, 1);
        lemma_pow1(x);
        lemma_pow_mod_noop(x * x, h, prime());
        lemma_euler_seven();
    }
}

/// The norm `a^2 - 7 b^2` vanishes only at zero.
pub proof fn lemma_norm_zero(a: int, b: int)
    requires
        (a * a - 7 * (b * b)) % prime() == 0,
    ensures
        a % prime() == 0,
        b % prime() == 0,
{
    if b % prime() != 0 {
        let c = lemma_inverse(b);
        let p = prime();
        lemma_fundamental_div_mod(a * a - 7 * (b * b), p);
        let k = (a * a - 7 * (b * b)) / p;
        lemma_fundamental_div_mod(b * c, p);
        let l = (b * c) / p;
        let ac = a * c;
        assert(ac * ac == 7 * ((b * c) * (b * c)) + p * (k * (c * c))) by (nonlinear_arith)
            requires
                ac == a * c,
                a * a - 7 * (b * b) == p * k,
        ;
        let bc = b * c;
        assert(bc * bc == p * (l * bc + l) + 1) by (nonlinear_arith)
            requires
                bc == p * l + 1,
        ;
        let m = 7 * (l * bc + l) + k * (c * c);
        assert(ac * ac == p * m + 7) by (nonlinear_arith)
            requires
                ac * ac == 7 * (bc * bc) + p * (k * (c * c)),
                bc * bc == p * (l * bc + l) + 1,
                m == 7 * (l * bc + l) + k * (c * c),
        ;
        lemma_mod_multiples_vanish(m, 7, p);
        lemma_small_mod(7, p as nat);
        lemma_seven_no_root(ac);
    }
    lemma_mul_mod_noop(b, b, prime());
    lemma_mul_mod_noop(7, b * b, prime());
    lemma_sub_mod_noop(a * a, 7 * (b * b), prime());
    lemma_mod_twice(a * a, prime());
    lemma_no_zero_divisors(a, a);
}

} // verus!
