//! The algebra behind lookups: tables of partial evaluations, their random
//! combination, and what their sums come to.
use vstd::arithmetic::power2::*;
use vstd::prelude::*;

use crate::field::elem::{
    embed, lemma_add_canon, lemma_add_zero, lemma_distrib, lemma_mul_assoc, lemma_mul_comm,
    lemma_mul_one, lemma_mul_zero, one, zero, Elem,
};
use crate::field::sums::{
    lemma_sum_add, lemma_sum_canon, lemma_sum_eq, lemma_sum_scale, lemma_sum_single, lemma_sum_swap,
    lemma_sum_zero, power, prod, sum,
};
use crate::field::{base_elems, GoldilocksField};
use crate::poly::model::{
    all_canon, eq_weight, fold, fold_all, lemma_fold_all_canon, lemma_fold_all_compose,
    lemma_fold_all_len, lemma_mle_sum, line, mle,
};
use crate::sumcheck::model::{product_at, total};

verus! {

/// Number of variables of the table of bit weights.
pub const BIT_TABLE_VARS: usize = 5;

/// Number of variables of the table of powers of two.
pub const TWO_POW_VARS: usize = 4;

/// `sum_y part[y] * table[y]`.
pub open spec fn inner(part: Seq<Elem>, table: Seq<Elem>) -> Elem {
    sum(part.len(), |y: int| part[y] * table[y])
}

/// `sum_y part[y]`.
pub open spec fn mass(part: Seq<Elem>) -> Elem {
    sum(part.len(), |y: int| part[y])
}

/// The combination `sum_i beta^i * parts[i]` of tables of one size.
pub open spec fn combined(parts: Seq<Seq<Elem>>, beta: Elem, size: nat) -> Seq<Elem> {
    Seq::new(size, |y: int| sum(parts.len(), |i: int| power(beta, i as nat) * parts[i][y]))
}

/// The combination `sum_i beta^i * values[i]`.
pub open spec fn weighted(values: Seq<Elem>, beta: Elem) -> Elem {
    sum(values.len(), |i: int| power(beta, i as nat) * values[i])
}

/// The weights `1, 2, 4, ..` of the bits of a number.
pub open spec fn bit_table() -> Seq<Elem> {
    Seq::new(32, |y: int| embed(pow2(y as nat) as int))
}

/// The powers `2^15, .., 2, 1`.
pub open spec fn two_pow_table() -> Seq<Elem> {
    Seq::new(16, |j: int| embed(pow2((15 - j) as nat) as int))
}

/// Every entry plus `alpha`.
pub open spec fn shifted(table: Seq<Elem>, alpha: Elem) -> Seq<Elem> {
    Seq::new(table.len(), |y: int| table[y] + alpha)
}

/// The weight of the input `x` in bit plane `y` of a table of bits with `2^n` inputs per plane.
pub open spec fn bit_weight(words: Seq<GoldilocksField>, n: nat, point: Seq<Elem>, y: int, x: int) -> Elem {
    if words[y * pow2(n) + x].0 != 0 {
        eq_weight(x, point)
    } else {
        zero()
    }
}

/// The bit planes evaluated at a point of the input variables.
pub open spec fn bit_planes(words: Seq<GoldilocksField>, n: nat, point: Seq<Elem>) -> Seq<Elem> {
    Seq::new(32, |y: int| sum(pow2(n), |x: int| bit_weight(words, n, point, y, x)))
}

/// The total weight at `point` of the inputs that select table entry `t`.
pub open spec fn selected(
    selection: Seq<(usize, usize)>,
    n: nat,
    point: Seq<Elem>,
    t: int,
) -> Elem
    decreases selection.len(),
{
    if selection.len() == 0 {
        zero()
    } else {
        let rest = selected(selection.drop_last(), n, point, t);
        let (i, j) = selection.last();
        if j == t && i < pow2(n) {
            rest + eq_weight(i as int, point)
        } else {
            rest
        }
    }
}

/// The selections of all entries of the table of powers of two.
pub open spec fn selections(selection: Seq<(usize, usize)>, n: nat, point: Seq<Elem>) -> Seq<
    Elem,
> {
    Seq::new(16, |t: int| selected(selection, n, point, t))
}

/// `b * (b - 1)` for every word: zero exactly where the word is a bit.
pub open spec fn bit_defect(words: Seq<GoldilocksField>) -> Seq<Elem> {
    Seq::new(words.len(), |x: int| words[x]@ * (words[x]@ - one()))
}

/// The combination of the bit defects of the tables listed in `group`, each with its own power.
pub open spec fn group_defect(
    words: Seq<Seq<GoldilocksField>>,
    group: Seq<int>,
    beta: Elem,
    size: nat,
) -> Seq<Elem> {
    Seq::new(
        size,
        |x: int|
            sum(
                group.len(),
                |k: int| bit_defect(words[group[k]])[x] * power(beta, group[k] as nat),
            ),
    )
}

/// The table of `eq(x, point)` over all corners `x`.
pub open spec fn eq_table(point: Seq<Elem>) -> Seq<Elem> {
    Seq::new(pow2(point.len()), |x: int| eq_weight(x, point))
}

/// The sum of the product of two polynomials.
pub proof fn lemma_total_two(a: Seq<Elem>, b: Seq<Elem>, size: nat)
    requires
        a.len() == size,
        b.len() == size,
        all_canon(a),
    ensures
        total(seq![a, b], size) == inner(a, b),
{
    let polys = seq![a, b];
    let f = |j: int| product_at(polys, j);
    let g = |y: int| a[y] * b[y];
    assert forall|j: int| 0 <= j < size implies #[trigger] f(j) == g(j) by {
        let q = |i: int| polys[i][j];
        assert(a[j].canon());
        assert(prod(2, q) == prod(1, q) * q(1));
        assert(prod(1, q) == prod(0, q) * q(0)) by {
            reveal_with_fuel(prod, 2);
        }
        lemma_mul_one(a[j]);
    }
    lemma_sum_eq(size, f, g);
}

/// The sum of a combination of tables against a table is the combination of their sums.
pub proof fn lemma_combined_inner(parts: Seq<Seq<Elem>>, beta: Elem, table: Seq<Elem>, sums: Seq<Elem>)
    requires
        forall|i: int| 0 <= i < parts.len() ==> (#[trigger] parts[i]).len() == table.len(),
        sums.len() == parts.len(),
        forall|i: int| 0 <= i < parts.len() ==> #[trigger] sums[i] == inner(parts[i], table),
    ensures
        inner(combined(parts, beta, table.len()), table) == weighted(sums, beta),
{
    let size = table.len();
    let k = parts.len();
    let c = combined(parts, beta, size);
    let f = |i: int, y: int| (power(beta, i as nat) * parts[i][y]) * table[y];
    // sum_y c[y] * table[y] == sum_y sum_i f(i, y)
    let lhs = |y: int| c[y] * table[y];
    let rows = |y: int| sum(k, |i: int| f(i, y));
    assert forall|y: int| 0 <= y < size implies #[trigger] lhs(y) == rows(y) by {
        let g = |i: int| power(beta, i as nat) * parts[i][y];
        lemma_sum_scale(k, table[y], g);
        lemma_mul_comm(c[y], table[y]);
        let h = |i: int| table[y] * g(i);
        let fy = |i: int| f(i, y);
        assert forall|i: int| 0 <= i < k implies #[trigger] h(i) == fy(i) by {
            lemma_mul_comm(table[y], g(i));
        }
        lemma_sum_eq(k, h, fy);
    }
    lemma_sum_eq(size, lhs, rows);
    let swapped = |y: int, i: int| f(i, y);
    lemma_sum_swap(k, size, f);
    let cols = |i: int| sum(size, |y: int| f(i, y));
    let w = |i: int| power(beta, i as nat) * sums[i];
    assert forall|i: int| 0 <= i < k implies #[trigger] cols(i) == w(i) by {
        let p = power(beta, i as nat);
        assert(parts[i].len() == size);
        let g = |y: int| parts[i][y] * table[y];
        lemma_sum_scale(size, p, g);
        let h = |y: int| p * g(y);
        let fi = |y: int| f(i, y);
        assert forall|y: int| 0 <= y < size implies #[trigger] h(y) == fi(y) by {
            lemma_mul_assoc(p, parts[i][y], table[y]);
        }
        lemma_sum_eq(size, h, fi);
        assert(sums[i] == inner(parts[i], table));
    }
    lemma_sum_eq(k, cols, w);
}

/// Shifting the table adds the shift times the mass.
pub proof fn lemma_shifted_inner(part: Seq<Elem>, table: Seq<Elem>, alpha: Elem)
    requires
        part.len() == table.len(),
    ensures
        inner(part, shifted(table, alpha)) == inner(part, table) + alpha * mass(part),
{
    let n = part.len();
    let t = shifted(table, alpha);
    let f = |y: int| part[y] * table[y];
    let m = |y: int| part[y];
    let g = |y: int| alpha * m(y);
    let lhs = |y: int| part[y] * t[y];
    let rhs = |y: int| f(y) + g(y);
    assert forall|y: int| 0 <= y < n implies #[trigger] lhs(y) == rhs(y) by {
        lemma_distrib(part[y], table[y], alpha);
        lemma_mul_comm(part[y], alpha);
    }
    lemma_sum_eq(n, lhs, rhs);
    lemma_sum_add(n, f, g);
    lemma_sum_scale(n, alpha, m);
}

/// The words of a table are bits.
pub open spec fn all_bits(words: Seq<GoldilocksField>) -> bool {
    forall|x: int| 0 <= x < words.len() ==> (#[trigger] words[x]).0 == 0 || words[x].0 == 1
}

/// The number whose bits stand at input `x` of a table of bits with `2^n` inputs per plane.
pub open spec fn recomposed(words: Seq<GoldilocksField>, n: nat, x: int) -> Elem {
    sum(32, |y: int| words[y * pow2(n) + x]@ * embed(pow2(y as nat) as int))
}

proof fn lemma_plane_index(n: nat, y: int, x: int)
    requires
        0 <= y < 32,
        0 <= x < pow2(n),
    ensures
        0 <= y * pow2(n) + x < 32 * pow2(n),
{
    let p = pow2(n) as int;
    assert(0 <= y * p && y * p + p <= 32 * p) by (nonlinear_arith)
        requires
            0 <= y < 32,
            0 <= p,
    ;
}

proof fn lemma_bit_weight(words: Seq<GoldilocksField>, n: nat, point: Seq<Elem>, y: int, x: int)
    requires
        all_bits(words),
        words.len() == 32 * pow2(n),
        0 <= y < 32,
        0 <= x < pow2(n),
    ensures
        bit_weight(words, n, point, y, x) == eq_weight(x, point) * words[y * pow2(n) + x]@,
{
    lemma_plane_index(n, y, x);
    let w = words[y * pow2(n) + x];
    assert(w.0 == 0 || w.0 == 1);
    lemma_sum_canon(
        point.len(),
        |i: int| crate::poly::model::bit_factor(crate::poly::model::bit(x, i), point[i]),
    );
    if w.0 == 0 {
        assert(w@ == zero());
        lemma_mul_zero(eq_weight(x, point));
    } else {
        assert(w@ == one());
        lemma_mul_one(eq_weight(x, point));
    }
}

/// The weighted sum of the bit planes at a point is the value there of the numbers that the bits
/// spell.
pub proof fn lemma_bits_recompose(
    words: Seq<GoldilocksField>,
    n: nat,
    point: Seq<Elem>,
    values: Seq<Elem>,
)
    requires
        all_bits(words),
        words.len() == 32 * pow2(n),
        point.len() == n,
        values.len() == pow2(n),
        forall|x: int| 0 <= x < values.len() ==> #[trigger] values[x] == recomposed(words, n, x),
    ensures
        inner(bit_planes(words, n, point), bit_table()) == mle(values, point),
{
    let p = pow2(n);
    let planes = bit_planes(words, n, point);
    let f = |y: int, x: int| bit_weight(words, n, point, y, x) * bit_table()[y];
    let lhs = |y: int| planes[y] * bit_table()[y];
    let rows = |y: int| sum(p, |x: int| f(y, x));
    assert forall|y: int| 0 <= y < 32 implies #[trigger] lhs(y) == rows(y) by {
        let g = |x: int| bit_weight(words, n, point, y, x);
        let t = bit_table()[y];
        lemma_sum_scale(p, t, g);
        lemma_mul_comm(planes[y], t);
        let h = |x: int| t * g(x);
        let fy = |x: int| f(y, x);
        assert forall|x: int| 0 <= x < p implies #[trigger] h(x) == fy(x) by {
            lemma_mul_comm(t, g(x));
        }
        lemma_sum_eq(p, h, fy);
    }
    lemma_sum_eq(32, lhs, rows);
    lemma_sum_swap(32, p, f);
    let cols = |x: int| sum(32, |y: int| f(y, x));
    let e = |x: int| eq_weight(x, point) * values[x];
    assert forall|x: int| 0 <= x < p implies #[trigger] cols(x) == e(x) by {
        let w = eq_weight(x, point);
        let g = |y: int| words[y * pow2(n) + x]@ * embed(pow2(y as nat) as int);
        lemma_sum_scale(32, w, g);
        let h = |y: int| w * g(y);
        let fx = |y: int| f(y, x);
        assert forall|y: int| 0 <= y < 32 implies #[trigger] h(y) == fx(y) by {
            lemma_bit_weight(words, n, point, y, x);
            lemma_mul_assoc(w, words[y * pow2(n) + x]@, bit_table()[y]);
        }
        lemma_sum_eq(32, h, fx);
        assert(values[x] == recomposed(words, n, x));
    }
    lemma_sum_eq(p, cols, e);
    assert forall|x: int| 0 <= x < values.len() implies (#[trigger] values[x]).canon() by {
        assert(values[x] == recomposed(words, n, x));
        lemma_sum_canon(32, |y: int| words[y * pow2(n) + x]@ * embed(pow2(y as nat) as int));
    }
    lemma_mle_sum(values, point);
}

/// Entry `y` of a table whose first variables are fixed is its `y`-th block, evaluated.
pub proof fn lemma_fold_all_block(v: Seq<Elem>, a: Seq<Elem>, y: int)
    requires
        0 <= y,
        (y + 1) * pow2(a.len()) <= v.len(),
    ensures
        y < fold_all(v, a).len(),
        fold_all(v, a)[y] == mle(v.subrange(y * pow2(a.len()), (y + 1) * pow2(a.len())), a),
    decreases a.len(),
{
    lemma2_to64();
    let m = a.len();
    let p = pow2(m) as int;
    assert(0 <= y * p) by (nonlinear_arith)
        requires
            0 <= y,
            0 <= p,
    ;
    assert((y + 1) * p == y * p + p) by (nonlinear_arith);
    let block = v.subrange(y * p, (y + 1) * p);
    if m == 0 {
        assert(y * p == y && (y + 1) * p == y + 1) by (nonlinear_arith)
            requires
                p == 1,
        ;
        assert(fold_all(v, a) == v);
        assert(fold_all(block, a) == block);
    } else {
        let s = a.drop_last();
        let q = pow2((m - 1) as nat) as int;
        lemma_pow2_unfold(m);
        assert((2 * y) * q == y * p && (2 * y + 1) * q == y * p + q && (2 * y + 2) * q == y * p + p)
            by (nonlinear_arith)
            requires
                p == 2 * q,
        ;
        lemma_fold_all_block(v, s, 2 * y);
        lemma_fold_all_block(v, s, 2 * y + 1);
        lemma_pow2_pos((m - 1) as nat);
        assert(0int * q == 0 && 1int * q == q && 2int * q == p);
        lemma_fold_all_block(block, s, 0);
        lemma_fold_all_block(block, s, 1);
        assert(block.subrange(0, q) =~= v.subrange(y * p, y * p + q));
        assert(block.subrange(q, p) =~= v.subrange(y * p + q, y * p + p));
        let f = fold_all(v, s);
        let g = fold_all(block, s);
        assert(fold_all(v, a) == fold(f, a.last()));
        assert(fold_all(block, a) == fold(g, a.last()));
        assert(fold_all(block, a)[0] == line(g[0], g[1], a.last()));
        assert(fold_all(v, a)[y] == line(f[2 * y], f[2 * y + 1], a.last()));
    }
}

/// The value of a table of bits at a point of all its variables, from its bit planes at the
/// input variables.
pub proof fn lemma_planes_eval(
    words: Seq<GoldilocksField>,
    n: nat,
    point: Seq<Elem>,
    chs: Seq<Elem>,
)
    requires
        all_bits(words),
        words.len() == 32 * pow2(n),
        point.len() == n,
        chs.len() == 5,
    ensures
        inner(eq_table(chs), bit_planes(words, n, point)) == mle(base_elems(words), point + chs),
{
    lemma2_to64();
    let p = pow2(n) as int;
    let v = base_elems(words);
    let planes = bit_planes(words, n, point);
    let folded = fold_all(v, point);
    lemma_pow2_adds(5, n);
    crate::poly::dense::lemma_base_canon(words);
    lemma_fold_all_len(v, 5 + n, point);
    assert(folded.len() == 32);
    assert forall|y: int| 0 <= y < 32 implies folded[y] == planes[y] by {
        assert((y + 1) * p <= 32 * p && 0 <= y * p && (y + 1) * p == y * p + p) by (nonlinear_arith)
            requires
                0 <= y < 32,
                0 <= p,
        ;
        lemma_fold_all_block(v, point, y);
        let block = v.subrange(y * p, (y + 1) * p);
        assert forall|i: int| 0 <= i < block.len() implies (#[trigger] block[i]).canon() by {
            assert(v[y * p + i].canon());
        }
        lemma_mle_sum(block, point);
        let f = |x: int| eq_weight(x, point) * block[x];
        let g = |x: int| bit_weight(words, n, point, y, x);
        assert forall|x: int| 0 <= x < p implies #[trigger] f(x) == g(x) by {
            lemma_bit_weight(words, n, point, y, x);
        }
        lemma_sum_eq(p as nat, f, g);
    }
    assert(folded =~= planes);
    lemma_fold_all_compose(v, point, chs);
    lemma_fold_all_canon(v, point);
    lemma_mle_sum(folded, chs);
    let f = |y: int| eq_weight(y, chs) * folded[y];
    let g = |y: int| eq_table(chs)[y] * planes[y];
    assert forall|y: int| 0 <= y < 32 implies #[trigger] f(y) == g(y) by {}
    lemma_sum_eq(32, f, g);
}

/// If every listed table consists of bits, nothing is left of their combined defect.
pub proof fn lemma_bits_no_defect(
    words: Seq<Seq<GoldilocksField>>,
    group: Seq<int>,
    beta: Elem,
    point: Seq<Elem>,
)
    requires
        forall|k: int|
            0 <= k < group.len() ==> 0 <= #[trigger] group[k] < words.len() && all_bits(
                words[group[k]],
            ) && words[group[k]].len() == pow2(point.len()),
    ensures
        total(
            seq![eq_table(point), group_defect(words, group, beta, pow2(point.len()))],
            pow2(point.len()),
        ) == zero(),
{
    let size = pow2(point.len());
    let d = group_defect(words, group, beta, size);
    assert forall|x: int| 0 <= x < size implies d[x] == zero() by {
        let f = |k: int| bit_defect(words[group[k]])[x] * power(beta, group[k] as nat);
        assert forall|k: int| 0 <= k < group.len() implies #[trigger] f(k) == zero() by {
            assert(all_bits(words[group[k]]));
            let w = words[group[k]][x];
            if w.0 == 0 {
                assert(w@ == zero());
                lemma_mul_zero(w@ - one());
            } else {
                assert(w@ == one());
                lemma_add_zero(one());
                lemma_mul_zero(w@);
            }
            lemma_mul_zero(power(beta, group[k] as nat));
        }
        lemma_sum_zero(group.len(), f);
    }
    let e = eq_table(point);
    assert forall|x: int| 0 <= x < e.len() implies (#[trigger] e[x]).canon() by {
        lemma_sum_canon(
            point.len(),
            |i: int| crate::poly::model::bit_factor(crate::poly::model::bit(x, i), point[i]),
        );
    }
    lemma_total_two(e, d, size);
    let f = |y: int| e[y] * d[y];
    assert forall|y: int| 0 <= y < size implies #[trigger] f(y) == zero() by {
        assert(d[y] == zero());
        lemma_mul_zero(e[y]);
    }
    lemma_sum_zero(size, f);
}

proof fn lemma_selected_prefix(
    selection: Seq<(usize, usize)>,
    n: nat,
    point: Seq<Elem>,
    table: Seq<Elem>,
    k: nat,
)
    requires
        point.len() == n,
        table.len() == 16,
        k <= selection.len() == pow2(n),
        forall|i: int|
            0 <= i < selection.len() ==> (#[trigger] selection[i]).0 == i && selection[i].1 < 16,
    ensures
        sum(16, |t: int| selected(selection.take(k as int), n, point, t) * table[t]) == sum(
            k,
            |i: int| eq_weight(i, point) * table[selection[i].1 as int],
        ),
    decreases k,
{
    let lhs = |t: int| selected(selection.take(k as int), n, point, t) * table[t];
    let rhs = |i: int| eq_weight(i, point) * table[selection[i].1 as int];
    if k == 0 {
        assert forall|t: int| 0 <= t < 16 implies #[trigger] lhs(t) == zero() by {
            assert(selection.take(0) =~= Seq::<(usize, usize)>::empty());
            assert(selected(selection.take(0), n, point, t) == zero());
            lemma_mul_zero(table[t]);
        }
        lemma_sum_zero(16, lhs);
    } else {
        let m = (k - 1) as nat;
        lemma_selected_prefix(selection, n, point, table, m);
        let low = |t: int| selected(selection.take(m as int), n, point, t) * table[t];
        let j = selection[m as int].1 as int;
        let w = eq_weight(m as int, point);
        let single = |t: int| if t == j { w * table[t] } else { zero() };
        let both = |t: int| low(t) + single(t);
        assert(selection.take(k as int).drop_last() =~= selection.take(m as int));
        assert(selection.take(k as int).last() == selection[m as int]);
        assert forall|t: int| 0 <= t < 16 implies #[trigger] lhs(t) == both(t) by {
            let rest = selected(selection.take(m as int), n, point, t);
            if t == j {
                lemma_distrib(table[t], rest, w);
                lemma_mul_comm(table[t], rest);
                lemma_mul_comm(table[t], w);
            } else {
                lemma_add_canon(rest, table[t]);
                lemma_add_zero(rest * table[t]);
            }
        }
        lemma_sum_eq(16, lhs, both);
        lemma_sum_add(16, low, single);
        lemma_add_canon(w, table[j]);
        lemma_sum_single(16, j, single);
        assert(sum(k, rhs) == sum(m, rhs) + rhs(m as int));
    }
}

/// Where every input selects one entry of the table of powers, the weighted sum of the selections
/// is the value of the selected powers at the point.
pub proof fn lemma_selections_recompose(selection: Seq<(usize, usize)>, n: nat, point: Seq<Elem>)
    requires
        point.len() == n,
        selection.len() == pow2(n),
        forall|i: int|
            0 <= i < selection.len() ==> (#[trigger] selection[i]).0 == i && selection[i].1 < 16,
    ensures
        inner(selections(selection, n, point), two_pow_table()) == mle(
            Seq::new(pow2(n), |i: int| two_pow_table()[selection[i].1 as int]),
            point,
        ),
{
    let table = two_pow_table();
    let values = Seq::new(pow2(n), |i: int| table[selection[i].1 as int]);
    assert(selection.take(selection.len() as int) =~= selection);
    lemma_selected_prefix(selection, n, point, table, selection.len());
    let part = selections(selection, n, point);
    let f = |t: int| selected(selection, n, point, t) * table[t];
    let g = |y: int| part[y] * table[y];
    assert forall|y: int| 0 <= y < 16 implies #[trigger] f(y) == g(y) by {}
    lemma_sum_eq(16, f, g);
    assert forall|i: int| 0 <= i < values.len() implies (#[trigger] values[i]).canon() by {
        assert(selection[i].1 < 16);
    }
    lemma_mle_sum(values, point);
    let h = |i: int| eq_weight(i, point) * table[selection[i].1 as int];
    let e = |x: int| eq_weight(x, point) * values[x];
    assert forall|i: int| 0 <= i < pow2(n) implies #[trigger] h(i) == e(i) by {}
    lemma_sum_eq(pow2(n), h, e);
}

} // verus!
