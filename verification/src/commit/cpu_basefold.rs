//! The Basefold opening protocol on the CPU: sum-check oracles, codeword
//! folding, Merkle trees and queries.
use vstd::arithmetic::div_mod::*;
use vstd::arithmetic::mul::*;
use vstd::arithmetic::power2::*;
use vstd::prelude::*;

use crate::commit::basefold::SumcheckOracle;
use crate::field::elem::{
    embed, lemma_add_assoc, lemma_add_canon, lemma_add_comm, lemma_add_zero, lemma_distrib,
    lemma_distrib_sub, lemma_embed, lemma_mul_assoc, lemma_mul_comm, lemma_mul_one, lemma_mul_zero,
    lemma_sub_add, one, prime, zero, Elem,
};
use crate::field::sums::{lemma_sum_canon, prod, sum};
use crate::field::upoly::{lemma_interpolate_exact, poly_eval};
use crate::field::{
    ext2_add, ext2_mul, ext2_sub, ext_elems, GoldilocksExt2, GoldilocksField,
};
use crate::poly::model::{lemma_line_ends, line};
use crate::sumcheck::model::{lemma_message_interpolates, round_message, round_term, round_value};
use crate::GOLDILOCKS_PRIME;

verus! {

/// The node and the weight with which a pair of codeword entries is folded.
#[derive(Clone, Copy, Debug, PartialEq, Eq, Structural)]
pub struct FoldingEntry {
    pub point: GoldilocksField,
    pub weight: GoldilocksField,
}

/// The folding entries of all levels, one level after the other.
#[derive(Debug)]
pub struct BasefoldTable {
    pub entries: Vec<FoldingEntry>,
    pub level_offsets: Vec<usize>,
    pub level_sizes: Vec<usize>,
}

/// The value at `ch` of the line through a pair of codeword entries.
pub open spec fn fold_pair(v0: Elem, v1: Elem, e: FoldingEntry, ch: Elem) -> Elem {
    v0 + (ch - e.point@) * ((v1 - v0) * e.weight@)
}

/// A codeword folded at `ch`.
pub open spec fn fold_code(cw: Seq<Elem>, entries: Seq<FoldingEntry>, ch: Elem) -> Seq<Elem> {
    Seq::new(cw.len() / 2, |i: int| fold_pair(cw[2 * i], cw[2 * i + 1], entries[i], ch))
}

/// The elements behind a sequence of words.
pub open spec fn word_elems(s: Seq<u64>) -> Seq<Elem> {
    s.map_values(|x: u64| embed(x as int))
}

fn fold_pair_ext2(
    val0: GoldilocksExt2,
    val1: GoldilocksExt2,
    e: FoldingEntry,
    challenge: GoldilocksExt2,
) -> (r: GoldilocksExt2)
    ensures
        r@ == fold_pair(val0@, val1@, e, challenge@),
        r.canonical(),
{
    let x0: GoldilocksExt2 = GoldilocksExt2::from_base(e.point);
    let w: GoldilocksExt2 = GoldilocksExt2::from_base(e.weight);
    let diff_w: GoldilocksExt2 = ext2_mul(ext2_sub(val1, val0), w);
    ext2_add(val0, ext2_mul(ext2_sub(challenge, x0), diff_w))
}

/// Folds a base field codeword with a challenge of the extension.
pub fn cpu_fold_mixed(
    cw: &Vec<u64>,
    entries: &[FoldingEntry],
    challenge: GoldilocksExt2,
) -> (r: Vec<GoldilocksExt2>)
    requires
        entries.len() >= cw.len() / 2,
    ensures
        ext_elems(r@) == fold_code(word_elems(cw@), entries@, challenge@),
        forall|i: int| 0 <= i < r.len() ==> (#[trigger] r[i]).canonical(),
{
    let pair_count: usize = cw.len() / 2;
    let mut r: Vec<GoldilocksExt2> = Vec::new();
    let ghost target = fold_code(word_elems(cw@), entries@, challenge@);
    let mut i: usize = 0;
    while i < pair_count
        invariant
            i <= pair_count,
            pair_count == cw.len() / 2,
            entries.len() >= pair_count,
            target == fold_code(word_elems(cw@), entries@, challenge@),
            r.len() == i,
            forall|k: int| 0 <= k < i ==> (#[trigger] r[k])@ == target[k] && r[k].canonical(),
        decreases pair_count - i,
    {
        let val0: GoldilocksExt2 = GoldilocksExt2::from_base(
            GoldilocksField(cw[2 * i] % GOLDILOCKS_PRIME),
        );
        let val1: GoldilocksExt2 = GoldilocksExt2::from_base(
            GoldilocksField(cw[2 * i + 1] % GOLDILOCKS_PRIME),
        );
        r.push(fold_pair_ext2(val0, val1, entries[i], challenge));
        i = i + 1;
    }
    assert(ext_elems(r@) =~= target);
    r
}

/// Folds a codeword over the extension.
pub fn cpu_fold_ext2(
    cw: &Vec<GoldilocksExt2>,
    entries: &[FoldingEntry],
    challenge: GoldilocksExt2,
) -> (r: Vec<GoldilocksExt2>)
    requires
        entries.len() >= cw.len() / 2,
    ensures
        ext_elems(r@) == fold_code(ext_elems(cw@), entries@, challenge@),
        forall|i: int| 0 <= i < r.len() ==> (#[trigger] r[i]).canonical(),
{
    let pair_count: usize = cw.len() / 2;
    let mut r: Vec<GoldilocksExt2> = Vec::new();
    let ghost target = fold_code(ext_elems(cw@), entries@, challenge@);
    let mut i: usize = 0;
    while i < pair_count
        invariant
            i <= pair_count,
            pair_count == cw.len() / 2,
            entries.len() >= pair_count,
            target == fold_code(ext_elems(cw@), entries@, challenge@),
            r.len() == i,
            forall|k: int| 0 <= k < i ==> (#[trigger] r[k])@ == target[k] && r[k].canonical(),
        decreases pair_count - i,
    {
        r.push(fold_pair_ext2(cw[2 * i], cw[2 * i + 1], entries[i], challenge));
        i = i + 1;
    }
    assert(ext_elems(r@) =~= target);
    r
}

/// `x` with its lowest `bits` bits in reverse order.
pub open spec fn reversed(x: int, bits: nat) -> int
    decreases bits,
{
    if bits == 0 {
        0
    } else {
        (x % 2) * pow2((bits - 1) as nat) + reversed(x / 2, (bits - 1) as nat)
    }
}

pub proof fn lemma_reversed_bound(x: int, bits: nat)
    requires
        0 <= x,
    ensures
        0 <= reversed(x, bits) < pow2(bits),
    decreases bits,
{
    lemma2_to64();
    if bits > 0 {
        lemma_reversed_bound(x / 2, (bits - 1) as nat);
        lemma_pow2_unfold(bits);
        let b = x % 2;
        let p = pow2((bits - 1) as nat);
        assert(0 <= b * p <= p) by (nonlinear_arith)
            requires
                0 <= b <= 1,
                p >= 0,
        ;
    }
}

/// The last digit of the reversal is the highest reversed bit.
proof fn lemma_reversed_last(x: int, bits: nat)
    requires
        0 <= x,
    ensures
        reversed(x, bits + 1) == 2 * reversed(x, bits) + (x / pow2(bits) as int) % 2,
    decreases bits,
{
    lemma2_to64();
    if bits == 0 {
        lemma_div_basics(x);
        assert(reversed(x / 2, 0) == 0);
        assert(reversed(x, 1) == (x % 2) * pow2(0) + reversed(x / 2, 0));
        lemma_mul_basics(x % 2);
    } else {
        let m = (bits - 1) as nat;
        lemma_reversed_last(x / 2, m);
        lemma_pow2_unfold(bits);
        lemma_pow2_pos(m);
        lemma_div_denominator(x, 2, pow2(m) as int);
        let b = x % 2;
        assert(b * pow2(bits) == 2 * (b * pow2(m))) by (nonlinear_arith)
            requires
                pow2(bits) == 2 * pow2(m),
        ;
    }
}

/// Reversing twice gives back the lowest bits.
pub proof fn lemma_reversed_involution(x: int, bits: nat)
    requires
        0 <= x < pow2(bits),
    ensures
        reversed(reversed(x, bits), bits) == x,
    decreases bits,
{
    lemma2_to64();
    if bits > 0 {
        let m = (bits - 1) as nat;
        lemma_pow2_unfold(bits);
        let y = reversed(x, bits);
        lemma_reversed_bound(x, bits);
        // the reversal of y starts from its lowest bit, which is the highest bit of x
        lemma_reversed_last(x, m);
        let top = (x / pow2(m) as int) % 2;
        let low = x % (pow2(m) as int);
        lemma_pow2_pos(m);
        lemma_fundamental_div_mod(x, pow2(m) as int);
        lemma_mod_bound(x, pow2(m) as int);
        assert(0 <= x / pow2(m) as int <= 1) by (nonlinear_arith)
            requires
                x == pow2(m) * (x / pow2(m) as int) + x % (pow2(m) as int),
                0 <= x % (pow2(m) as int) < pow2(m),
                0 <= x < 2 * pow2(m),
                pow2(m) > 0,
        ;
        lemma_reversed_low(x, m);
        lemma_reversed_involution(low, m);
        assert(y == 2 * reversed(low, m) + top);
        assert(y % 2 == top && y / 2 == reversed(low, m));
        assert(top == x / pow2(m) as int);
        lemma_mul_is_commutative(top, pow2(m) as int);
    }
}

/// Only the lowest bits matter.
proof fn lemma_reversed_low(x: int, bits: nat)
    requires
        0 <= x,
    ensures
        reversed(x, bits) == reversed(x % (pow2(bits) as int), bits),
    decreases bits,
{
    lemma2_to64();
    if bits > 0 {
        let m = (bits - 1) as nat;
        let d = pow2(bits) as int;
        let e = pow2(m) as int;
        lemma_pow2_unfold(bits);
        lemma_pow2_pos(m);
        let y = x % d;
        lemma_reversed_low(x / 2, m);
        lemma_mod_bound(x, d);
        lemma_reversed_low(y / 2, m);
        lemma_fundamental_div_mod(x, d);
        let q = x / d;
        assert(x == 2 * (e * q) + y) by (nonlinear_arith)
            requires
                x == d * q + y,
                d == 2 * e,
        ;
        assert(x % 2 == y % 2);
        assert(x / 2 == e * q + y / 2);
        lemma_mod_multiples_vanish(q, y / 2, e);
    }
}

/// `x` with its lowest `bits` bits in reverse order.
pub fn bit_reverse(x: usize, bits: usize) -> (y: usize)
    requires
        bits <= usize::BITS,
    ensures
        y == reversed(x as int, bits as nat),
{
    let mut y: usize = 0;
    let mut rest: usize = x;
    let mut i: usize = 0;
    proof {
        lemma2_to64();
        lemma_div_basics(x as int);
    }
    while i < bits
        invariant
            i <= bits <= usize::BITS,
            y == reversed(x as int, i as nat),
            rest == x as int / pow2(i as nat) as int,
        decreases bits - i,
    {
        proof {
            lemma_reversed_last(x as int, i as nat);
            lemma_reversed_bound(x as int, (i + 1) as nat);
            lemma_pow2_unfold((i + 1) as nat);
            lemma_pow2_pos(i as nat);
            lemma_div_denominator(x as int, pow2(i as nat) as int, 2);
            crate::util::arith::lemma_usize_max();
            if i + 1 < usize::BITS {
                lemma_pow2_strictly_increases((i + 1) as nat, usize::BITS as nat);
            }
        }
        y = 2 * y + rest % 2;
        rest = rest / 2;
        i = i + 1;
    }
    y
}

/// The entries of a table, each moved to the index with the bits reversed.
pub fn bit_reverse_vec(v: &Vec<u64>, bits: usize) -> (out: Vec<u64>)
    requires
        bits < usize::BITS,
        v.len() == pow2(bits as nat),
    ensures
        out.len() == v.len(),
        forall|i: int| 0 <= i < v.len() ==> out[reversed(i, bits as nat)] == #[trigger] v[i],
        forall|i: int| 0 <= i < v.len() ==> #[trigger] out[i] == v[reversed(i, bits as nat)],
{
    let mut out: Vec<u64> = Vec::new();
    let mut i: usize = 0;
    while i < v.len()
        invariant
            i <= v.len(),
            bits < usize::BITS,
            v.len() == pow2(bits as nat),
            out.len() == i,
            forall|k: int| 0 <= k < i ==> #[trigger] out[k] == v[reversed(k, bits as nat)],
        decreases v.len() - i,
    {
        let j: usize = bit_reverse(i, bits);
        proof {
            lemma_reversed_bound(i as int, bits as nat);
        }
        out.push(v[j]);
        i = i + 1;
    }
    assert forall|i: int| 0 <= i < v.len() implies out[reversed(i, bits as nat)]
        == #[trigger] v[i] by {
        lemma_reversed_bound(i, bits as nat);
        lemma_reversed_involution(i, bits as nat);
    }
    out
}

/// One half modulo the prime.
pub const INV2: u64 = 9223372034707292161;

/// `2 b - a` is the line through `(0, a)` and `(1, b)` at two.
proof fn lemma_line_at_two(a: Elem, b: Elem)
    requires
        a.canon(),
        b.canon(),
    ensures
        line(a, b, embed(2)) == embed(2) * b - a,
{
    let two = embed(2);
    let (ta, tb) = (two * a, two * b);
    lemma_distrib_sub(two, b, a);
    lemma_add_canon(two, a);
    lemma_add_canon(two, b);
    lemma_add_canon(tb, ta);
    assert(ta == a + a) by {
        lemma_embed(1, 1);
        assert(embed(1) == one());
        lemma_distrib(a, one(), one());
        lemma_mul_one(a);
    }
    let l = a + (tb - ta);
    lemma_add_canon(a, tb - ta);
    // l + a == 2 b
    lemma_add_comm(a, tb - ta);
    lemma_add_assoc(tb - ta, a, a);
    lemma_sub_add(tb, ta);
    assert(l + a == tb);
    lemma_sub_add(l, a);
}

/// A round term of two polynomials is the product of the two lines.
proof fn lemma_term_of_two(e: Seq<Elem>, b: Seq<Elem>, c: Elem, j: int)
    ensures
        round_term(seq![e, b], c, j) == line(e[2 * j], e[2 * j + 1], c) * line(
            b[2 * j],
            b[2 * j + 1],
            c,
        ),
{
    let ps = seq![e, b];
    let f = |i: int| line(ps[i][2 * j], ps[i][2 * j + 1], c);
    reveal_with_fuel(prod, 3);
    assert(prod(2, f) == (one() * f(0)) * f(1));
    crate::poly::model::lemma_line_canon(e[2 * j], e[2 * j + 1], c);
    lemma_mul_one(f(0));
}

/// The coefficients of the round polynomial of `eq * bh`, from its values at zero, one and two.
pub open spec fn oracle_elems(eq: Seq<Elem>, bh: Seq<Elem>, half: nat) -> (Elem, Elem, Elem) {
    let ps = seq![eq, bh];
    let p0 = round_value(ps, half, embed(0));
    let p1 = round_value(ps, half, embed(1));
    let p2 = round_value(ps, half, embed(2));
    let c2 = ((p0 - embed(2) * p1) + p2) * embed(INV2 as int);
    (p0, (p1 - p0) - c2, c2)
}

/// `a + (b - a) == b`, with the difference split off in two steps.
proof fn lemma_oracle_values(p0: Elem, p1: Elem, p2: Elem, c1: Elem, c2: Elem)
    requires
        p0.canon(),
        p1.canon(),
        p2.canon(),
        c2 == ((p0 - embed(2) * p1) + p2) * embed(INV2 as int),
        c1 == (p1 - p0) - c2,
    ensures
        poly_eval(seq![p0, c1, c2], embed(0)) == p0,
        poly_eval(seq![p0, c1, c2], embed(1)) == p1,
        poly_eval(seq![p0, c1, c2], embed(2)) == p2,
{
    let c = seq![p0, c1, c2];
    let two = embed(2);
    let t1 = c.drop_first();
    let t2 = t1.drop_first();
    let t3 = t2.drop_first();
    assert(t3 =~= Seq::<Elem>::empty());
    lemma_add_canon(p0, p1);
    lemma_add_canon(p1 - p0, c2);
    lemma_add_canon((p0 - two * p1) + p2, embed(INV2 as int));
    lemma_add_canon(p1, p0);
    assert(c1.canon() && c2.canon());
    assert forall|x: Elem| x.canon() implies #[trigger] poly_eval(c, x) == p0 + x * (c1 + x * c2) by {
        assert(poly_eval(t3, x) == zero());
        lemma_mul_zero(x);
        lemma_add_zero(c2);
        assert(poly_eval(t2, x) == c2 + x * zero());
        assert(poly_eval(t1, x) == c1 + x * poly_eval(t2, x));
    }
    // at zero
    assert(embed(0) == zero());
    lemma_mul_zero(c1 + zero() * c2);
    lemma_add_zero(p0);
    // at one: c1 + c2 == p1 - p0
    assert(embed(1) == one());
    lemma_mul_one(c2);
    lemma_sub_add(p1 - p0, c2);
    lemma_add_canon(c1, c2);
    lemma_mul_one(c1 + c2);
    lemma_sub_add(p1, p0);
    // at two: two (c1 + two c2) == two (c1 + c2) + two c2
    let u = (p0 - two * p1) + p2;
    lemma_embed(2, INV2 as int);
    assert(2 * (INV2 as int) == prime() + 1);
    lemma_mod_add_multiples_vanish(1, prime());
    assert(embed(2 * (INV2 as int)) == one());
    lemma_mul_comm(u, embed(INV2 as int));
    lemma_mul_assoc(two, embed(INV2 as int), u);
    lemma_add_canon(p0 - two * p1, p2);
    lemma_mul_one(u);
    assert(two * c2 == u);
    lemma_add_canon(two, c2);
    assert(two * c2 == c2 + c2) by {
        lemma_embed(1, 1);
        lemma_distrib(c2, one(), one());
    }
    let d = p1 - p0;
    lemma_add_assoc(c1, c2, c2);
    assert(c1 + two * c2 == d + c2);
    lemma_distrib(two, d, c2);
    assert(two * (d + c2) == two * d + u);
    lemma_distrib_sub(two, p1, p0);
    let (a, b) = (two * p0, two * p1);
    lemma_add_canon(two, p0);
    lemma_add_canon(two, p1);
    assert(a == p0 + p0) by {
        lemma_embed(1, 1);
        lemma_distrib(p0, one(), one());
        lemma_mul_one(p0);
    }
    // p0 + ((b - a) + ((p0 - b) + p2)) == p2
    let v = p0 - b;
    lemma_add_canon(b, a);
    lemma_add_canon(p0, b);
    lemma_add_assoc(b - a, v, p2);
    lemma_add_assoc(p0, (b - a) + v, p2);
    assert(p0 + ((b - a) + v) == zero()) by {
        // add b - b and a - a
        lemma_add_comm(b - a, v);
        lemma_add_assoc(p0, v, b - a);
        let w = p0 + v;
        lemma_add_canon(p0, v);
        // w + b == a
        lemma_add_assoc(p0, v, b);
        lemma_sub_add(p0, b);
        assert(w + b == a);
        lemma_sub_add(w, b);
        assert(w == a - b);
        lemma_add_canon(a, b);
        lemma_add_canon(w, b - a);
        lemma_add_assoc(w, b - a, a);
        lemma_sub_add(b, a);
        lemma_sub_add(a, b);
        assert((w + (b - a)) + a == a);
        lemma_sub_add(w + (b - a), a);
        lemma_add_zero(a);
    }
    lemma_add_zero(p2);
}

/// The oracle is the round polynomial: it has its value everywhere.
pub proof fn lemma_oracle_is_round_polynomial(eq: Seq<Elem>, bh: Seq<Elem>, half: nat, x: Elem)
    requires
        x.canon(),
    ensures
        ({
            let (c0, c1, c2) = oracle_elems(eq, bh, half);
            poly_eval(seq![c0, c1, c2], x) == round_value(seq![eq, bh], half, x)
        }),
{
    let ps = seq![eq, bh];
    let (c0, c1, c2) = oracle_elems(eq, bh, half);
    let c = seq![c0, c1, c2];
    let v = round_message(ps, half);
    lemma_sum_canon(half, |j: int| round_term(ps, embed(0), j));
    lemma_sum_canon(half, |j: int| round_term(ps, embed(1), j));
    lemma_sum_canon(half, |j: int| round_term(ps, embed(2), j));
    lemma_oracle_values(
        round_value(ps, half, embed(0)),
        round_value(ps, half, embed(1)),
        round_value(ps, half, embed(2)),
        c1,
        c2,
    );
    assert forall|k: int| 0 <= k < v.len() implies #[trigger] v[k] == poly_eval(c, embed(k)) by {
        assert(k == 0 || k == 1 || k == 2);
    }
    lemma_interpolate_exact(c, v, x);
    lemma_message_interpolates(ps, half, x);
}

/// The oracle of a round over the extension.
pub fn compute_oracle_ext2(
    bh: &Vec<GoldilocksExt2>,
    eq: &Vec<GoldilocksExt2>,
    size: usize,
) -> (r: SumcheckOracle)
    requires
        size <= bh.len(),
        size <= eq.len(),
    ensures
        (r.c0@, r.c1@, r.c2@) == oracle_elems(ext_elems(eq@), ext_elems(bh@), (size / 2) as nat),
        r.c0.canonical(),
        r.c1.canonical(),
        r.c2.canonical(),
{
    let two: GoldilocksExt2 = GoldilocksExt2::from_base(GoldilocksField(2));
    let inv2: GoldilocksExt2 = GoldilocksExt2::from_base(GoldilocksField(INV2));
    let half: usize = size / 2;
    let mut p0: GoldilocksExt2 = GoldilocksExt2::zero();
    let mut p1: GoldilocksExt2 = GoldilocksExt2::zero();
    let mut p2: GoldilocksExt2 = GoldilocksExt2::zero();
    let ghost ps = seq![ext_elems(eq@), ext_elems(bh@)];
    let ghost f0 = |j: int| round_term(ps, embed(0), j);
    let ghost f1 = |j: int| round_term(ps, embed(1), j);
    let ghost f2 = |j: int| round_term(ps, embed(2), j);
    let mut j: usize = 0;
    while j < half
        invariant
            j <= half,
            half == size / 2,
            size <= bh.len(),
            size <= eq.len(),
            two@ == embed(2),
            ps == seq![ext_elems(eq@), ext_elems(bh@)],
            f0 == (|j: int| round_term(ps, embed(0), j)),
            f1 == (|j: int| round_term(ps, embed(1), j)),
            f2 == (|j: int| round_term(ps, embed(2), j)),
            p0@ == sum(j as nat, f0),
            p1@ == sum(j as nat, f1),
            p2@ == sum(j as nat, f2),
            p0.canonical(),
            p1.canonical(),
            p2.canonical(),
        decreases half - j,
    {
        let e0: GoldilocksExt2 = eq[2 * j];
        let e1: GoldilocksExt2 = eq[2 * j + 1];
        let b0: GoldilocksExt2 = bh[2 * j];
        let b1: GoldilocksExt2 = bh[2 * j + 1];
        proof {
            assert(embed(0) == zero());
            assert(embed(1) == one());
            lemma_term_of_two(ext_elems(eq@), ext_elems(bh@), embed(0), j as int);
            lemma_term_of_two(ext_elems(eq@), ext_elems(bh@), embed(1), j as int);
            lemma_term_of_two(ext_elems(eq@), ext_elems(bh@), embed(2), j as int);
            lemma_line_ends(e0@, e1@);
            lemma_line_ends(b0@, b1@);
            lemma_line_at_two(e0@, e1@);
            lemma_line_at_two(b0@, b1@);
        }
        p0 = ext2_add(p0, ext2_mul(e0, b0));
        p1 = ext2_add(p1, ext2_mul(e1, b1));
        let eq_interp: GoldilocksExt2 = ext2_sub(ext2_mul(two, e1), e0);
        let bh_interp: GoldilocksExt2 = ext2_sub(ext2_mul(two, b1), b0);
        p2 = ext2_add(p2, ext2_mul(eq_interp, bh_interp));
        j = j + 1;
    }
    let c2: GoldilocksExt2 = ext2_mul(
        ext2_add(ext2_sub(p0, ext2_mul(two, p1)), p2),
        inv2,
    );
    let c1: GoldilocksExt2 = ext2_sub(ext2_sub(p1, p0), c2);
    SumcheckOracle { c0: p0, c1, c2 }
}

/// Words lifted to the extension.
pub fn lift_words(v: &Vec<u64>) -> (w: Vec<GoldilocksExt2>)
    ensures
        w.len() == v.len(),
        ext_elems(w@) == word_elems(v@),
        forall|i: int| 0 <= i < w.len() ==> (#[trigger] w[i]).c0.0 == v[i] && w[i].c1.0 == 0,
{
    let mut w: Vec<GoldilocksExt2> = Vec::new();
    let mut i: usize = 0;
    while i < v.len()
        invariant
            i <= v.len(),
            w.len() == i,
            forall|k: int| 0 <= k < i ==> (#[trigger] w[k]).c0.0 == v[k] && w[k].c1.0 == 0,
        decreases v.len() - i,
    {
        w.push(GoldilocksExt2::from_base(GoldilocksField(v[i])));
        i = i + 1;
    }
    assert(ext_elems(w@) =~= word_elems(v@));
    w
}

/// The oracle of the first round, in which one polynomial has base field values.
pub fn compute_oracle_mixed(
    bh: &Vec<u64>,
    eq: &Vec<GoldilocksExt2>,
    size: usize,
) -> (r: SumcheckOracle)
    requires
        size <= bh.len(),
        size <= eq.len(),
    ensures
        (r.c0@, r.c1@, r.c2@) == oracle_elems(ext_elems(eq@), word_elems(bh@), (size / 2) as nat),
        r.c0.canonical(),
        r.c1.canonical(),
        r.c2.canonical(),
{
    let lifted: Vec<GoldilocksExt2> = lift_words(bh);
    compute_oracle_ext2(&lifted, eq, size)
}

} // verus!
