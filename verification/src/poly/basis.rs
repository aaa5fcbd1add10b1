//! Lagrange bases of the hypercube, the fixed lookup tables, and evaluation
//! of polynomials in one variable.
use vstd::arithmetic::div_mod::*;
use vstd::arithmetic::mul::*;
use vstd::arithmetic::power2::*;
use vstd::prelude::*;

use crate::field::elem::{lemma_add_comm, lemma_mul_comm, one, Elem};
use crate::field::sums::{lemma_prod_eq, prod};
use crate::field::upoly::poly_eval;
use crate::field::{
    base_elems, ext2_mul, ext2_sub, ext_elems, gl_add, gl_mul, gl_sub, GoldilocksExt2,
    GoldilocksField,
};
use crate::poly::dense::DenseMLPoly;
use crate::poly::model::{bit, bit_factor, eq_weight};
use crate::util::arith::pow2_usize;

verus! {

/// Indices below `2^i` keep their low bits when bit `i` is set.
proof fn lemma_bit_of_sum(j: int, i: nat, k: int)
    requires
        0 <= j < pow2(i),
        0 <= k < i,
    ensures
        bit(j + pow2(i), k) == bit(j, k),
{
    lemma_pow2_pos(k as nat);
    let d = pow2(k as nat) as int;
    let m = (i - k) as nat;
    lemma_pow2_adds(k as nat, m);
    lemma_pow2_unfold(m);
    let q = pow2((m - 1) as nat) as int;
    assert(pow2(i) == (2 * q) * d) by (nonlinear_arith)
        requires
            pow2(i) == d * pow2(m),
            pow2(m) == 2 * q,
    ;
    lemma_hoist_over_denominator(j, 2 * q, d as nat);
    assert(j / d + 2 * q == (j + (2 * q) * d) / d);
    lemma_mod_multiples_vanish(q, j / d, 2);
}

/// The bit above all bits of a small index.
proof fn lemma_top_bit(j: int, i: nat)
    requires
        0 <= j < pow2(i),
    ensures
        bit(j, i as int) == 0,
        bit(j + pow2(i), i as int) == 1,
{
    lemma_pow2_pos(i);
    let d = pow2(i) as int;
    lemma_basic_div(j, d);
    lemma_hoist_over_denominator(j, 1, d as nat);
    lemma_mul_basics(d);
}

/// The weight of an index splits off the factor of the last variable.
proof fn lemma_eq_weight_last(j: int, point: Seq<Elem>)
    requires
        point.len() > 0,
        0 <= j < pow2((point.len() - 1) as nat),
    ensures
        eq_weight(j, point) == eq_weight(j, point.drop_last()) * (one() - point.last()),
        eq_weight(j + pow2((point.len() - 1) as nat), point) == eq_weight(j, point.drop_last())
            * point.last(),
{
    let i = (point.len() - 1) as nat;
    let short = point.drop_last();
    let h = j + pow2(i);
    let f = |k: int| bit_factor(bit(j, k), point[k]);
    let fh = |k: int| bit_factor(bit(h, k), point[k]);
    let g = |k: int| bit_factor(bit(j, k), short[k]);
    lemma_top_bit(j, i);
    assert(prod(point.len(), f) == prod(i, f) * f(i as int));
    assert(prod(point.len(), fh) == prod(i, fh) * fh(i as int));
    lemma_prod_eq(i, f, g);
    assert forall|k: int| 0 <= k < i implies #[trigger] fh(k) == g(k) by {
        lemma_bit_of_sum(j, i, k);
    }
    lemma_prod_eq(i, fh, g);
}

/// The weights `eq(r, x)` of all corners `x`, in order.
pub fn evaluate_lagrange_basis(r: &[GoldilocksField]) -> (evals: Vec<GoldilocksField>)
    requires
        r.len() < usize::BITS,
    ensures
        evals.len() == pow2(r.len() as nat),
        forall|x: int|
            0 <= x < evals.len() ==> (#[trigger] evals[x])@ == eq_weight(x, base_elems(r@))
                && evals[x].canonical(),
{
    let n: usize = r.len();
    let mut evals: Vec<GoldilocksField> = Vec::new();
    evals.push(GoldilocksField(1));
    let ghost point = base_elems(r@);
    proof {
        lemma2_to64();
        assert(eq_weight(0, point.take(0)) == one());
    }
    let mut i: usize = 0;
    while i < n
        invariant
            i <= n,
            n == r.len(),
            n < usize::BITS,
            point == base_elems(r@),
            evals.len() == pow2(i as nat),
            forall|x: int|
                0 <= x < evals.len() ==> (#[trigger] evals[x])@ == eq_weight(x, point.take(i as int))
                    && evals[x].canonical(),
        decreases n - i,
    {
        let ri: GoldilocksField = r[i];
        let one_minus_ri: GoldilocksField = gl_sub(GoldilocksField(1), ri);
        let half: usize = pow2_usize(i);
        let ghost before = evals@;
        let ghost next = point.take(i as int + 1);
        proof {
            assert(next.drop_last() =~= point.take(i as int));
            assert(next.last() == ri@);
            lemma_pow2_unfold((i + 1) as nat);
        }
        let mut lo: Vec<GoldilocksField> = Vec::new();
        let mut hi: Vec<GoldilocksField> = Vec::new();
        let mut j: usize = 0;
        while j < half
            invariant
                j <= half,
                half == pow2(i as nat),
                half == evals.len(),
                evals@ == before,
                one_minus_ri@ == one() - ri@,
                next.len() == i + 1,
                next.drop_last() == point.take(i as int),
                next.last() == ri@,
                lo.len() == j,
                hi.len() == j,
                forall|x: int|
                    0 <= x < before.len() ==> (#[trigger] before[x])@ == eq_weight(
                        x,
                        point.take(i as int),
                    ) && before[x].canonical(),
                forall|x: int|
                    0 <= x < j ==> (#[trigger] lo[x])@ == eq_weight(x, next) && lo[x].canonical(),
                forall|x: int|
                    0 <= x < j ==> (#[trigger] hi[x])@ == eq_weight(x + half, next)
                        && hi[x].canonical(),
            decreases half - j,
        {
            proof {
                lemma_eq_weight_last(j as int, next);
                assert(before[j as int]@ == eq_weight(j as int, point.take(i as int)));
            }
            lo.push(gl_mul(evals[j], one_minus_ri));
            hi.push(gl_mul(evals[j], ri));
            j = j + 1;
        }
        let ghost (low, high) = (lo@, hi@);
        lo.append(&mut hi);
        evals = lo;
        i = i + 1;
        assert forall|x: int| 0 <= x < evals.len() implies (#[trigger] evals[x])@ == eq_weight(
            x,
            next,
        ) && evals[x].canonical() by {
            if x < half {
                assert(evals[x] == low[x]);
            } else {
                assert(evals[x] == high[x - half]);
            }
        }
    }
    assert(point.take(n as int) =~= point);
    evals
}

/// The weights `eq(r, x)` of all corners `x` for a point of the extension, in order.
pub fn evaluate_lagrange_basis_ext2(r: &[GoldilocksExt2]) -> (evals: Vec<GoldilocksExt2>)
    requires
        r.len() < usize::BITS,
    ensures
        evals.len() == pow2(r.len() as nat),
        forall|x: int|
            0 <= x < evals.len() ==> (#[trigger] evals[x])@ == eq_weight(x, ext_elems(r@))
                && evals[x].canonical(),
{
    let n: usize = r.len();
    let mut evals: Vec<GoldilocksExt2> = Vec::new();
    evals.push(GoldilocksExt2::one());
    let ghost point = ext_elems(r@);
    proof {
        lemma2_to64();
        assert(eq_weight(0, point.take(0)) == one());
    }
    let mut i: usize = 0;
    while i < n
        invariant
            i <= n,
            n == r.len(),
            n < usize::BITS,
            point == ext_elems(r@),
            evals.len() == pow2(i as nat),
            forall|x: int|
                0 <= x < evals.len() ==> (#[trigger] evals[x])@ == eq_weight(x, point.take(i as int))
                    && evals[x].canonical(),
        decreases n - i,
    {
        let ri: GoldilocksExt2 = r[i];
        let one_minus_ri: GoldilocksExt2 = ext2_sub(GoldilocksExt2::one(), ri);
        let half: usize = pow2_usize(i);
        let ghost before = evals@;
        let ghost next = point.take(i as int + 1);
        proof {
            assert(next.drop_last() =~= point.take(i as int));
            assert(next.last() == ri@);
            lemma_pow2_unfold((i + 1) as nat);
        }
        let mut lo: Vec<GoldilocksExt2> = Vec::new();
        let mut hi: Vec<GoldilocksExt2> = Vec::new();
        let mut j: usize = 0;
        while j < half
            invariant
                j <= half,
                half == pow2(i as nat),
                half == evals.len(),
                evals@ == before,
                one_minus_ri@ == one() - ri@,
                next.len() == i + 1,
                next.drop_last() == point.take(i as int),
                next.last() == ri@,
                lo.len() == j,
                hi.len() == j,
                forall|x: int|
                    0 <= x < before.len() ==> (#[trigger] before[x])@ == eq_weight(
                        x,
                        point.take(i as int),
                    ) && before[x].canonical(),
                forall|x: int|
                    0 <= x < j ==> (#[trigger] lo[x])@ == eq_weight(x, next) && lo[x].canonical(),
                forall|x: int|
                    0 <= x < j ==> (#[trigger] hi[x])@ == eq_weight(x + half, next)
                        && hi[x].canonical(),
            decreases half - j,
        {
            proof {
                lemma_eq_weight_last(j as int, next);
                assert(before[j as int]@ == eq_weight(j as int, point.take(i as int)));
            }
            lo.push(ext2_mul(evals[j], one_minus_ri));
            hi.push(ext2_mul(evals[j], ri));
            j = j + 1;
        }
        let ghost (low, high) = (lo@, hi@);
        lo.append(&mut hi);
        evals = lo;
        i = i + 1;
        assert forall|x: int| 0 <= x < evals.len() implies (#[trigger] evals[x])@ == eq_weight(
            x,
            next,
        ) && evals[x].canonical() by {
            if x < half {
                assert(evals[x] == low[x]);
            } else {
                assert(evals[x] == high[x - half]);
            }
        }
    }
    assert(point.take(n as int) =~= point);
    evals
}

/// The table of all integers below `2^num_vars`.
pub fn range_dense(num_vars: usize) -> (r: DenseMLPoly)
    requires
        num_vars < usize::BITS,
    ensures
        r.valid(),
        r.n == num_vars,
        forall|i: int| 0 <= i < r.evaluations.len() ==> (#[trigger] r.evaluations[i]).0 == i,
{
    let size: usize = pow2_usize(num_vars);
    let mut evaluations: Vec<GoldilocksField> = Vec::new();
    let mut i: usize = 0;
    while i < size
        invariant
            i <= size,
            evaluations.len() == i,
            forall|k: int| 0 <= k < i ==> (#[trigger] evaluations[k]).0 == k,
        decreases size - i,
    {
        evaluations.push(GoldilocksField(i as u64));
        i = i + 1;
    }
    DenseMLPoly::new(num_vars, evaluations)
}

/// `1 << k` as a word.
pub fn pow2_u64(k: u64) -> (r: u64)
    requires
        k < 64,
    ensures
        r == pow2(k as nat),
{
    proof {
        vstd::bits::lemma_u64_pow2_no_overflow(k as nat);
        vstd::bits::lemma_u64_shl_is_mul(1, k);
    }
    1u64 << k
}

/// The table of the powers `2^15, 2^14, .., 1`.
pub fn two_pow_dense() -> (r: DenseMLPoly)
    ensures
        r.valid(),
        r.n == 4,
        forall|i: int|
            0 <= i < 16 ==> (#[trigger] r.evaluations[i]).0 == pow2((15 - i) as nat),
{
    let mut evaluations: Vec<GoldilocksField> = Vec::new();
    let mut i: usize = 0;
    while i < 16
        invariant
            i <= 16,
            evaluations.len() == i,
            forall|k: int| 0 <= k < i ==> (#[trigger] evaluations[k]).0 == pow2((15 - k) as nat),
        decreases 16 - i,
    {
        evaluations.push(GoldilocksField(pow2_u64(15 - i as u64)));
        i = i + 1;
    }
    proof {
        lemma2_to64();
    }
    DenseMLPoly::new(4, evaluations)
}

/// Value at `x` of the polynomial with the given coefficients, lowest first.
pub fn evaluate_univariate(coeffs: &[GoldilocksField], x: GoldilocksField) -> (r: GoldilocksField)
    ensures
        r@ == poly_eval(base_elems(coeffs@), x@),
        r.canonical(),
{
    let mut result: GoldilocksField = GoldilocksField(0);
    let mut i: usize = coeffs.len();
    let ghost c = base_elems(coeffs@);
    assert(c.skip(c.len() as int) =~= Seq::<Elem>::empty());
    while i > 0
        invariant
            i <= coeffs.len(),
            c == base_elems(coeffs@),
            result@ == poly_eval(c.skip(i as int), x@),
            result.canonical(),
        decreases i,
    {
        i = i - 1;
        proof {
            let s = c.skip(i as int);
            assert(s.drop_first() =~= c.skip(i as int + 1));
            assert(s[0] == coeffs[i as int]@);
            lemma_mul_comm(result@, x@);
            lemma_add_comm(result@ * x@, coeffs[i as int]@);
        }
        result = gl_add(gl_mul(result, x), coeffs[i]);
    }
    assert(c.skip(0) =~= c);
    result
}

} // verus!
