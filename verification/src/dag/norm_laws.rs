//! What normalizations compute.
use vstd::arithmetic::div_mod::*;
use vstd::arithmetic::power2::*;
use vstd::prelude::*;

use crate::dag::equation::{output_shape, right_side};
use crate::dag::graph::Graph;
use crate::dag::growth::{
    contracted, group_grown, grown, lemma_kept, lemma_step_add, lemma_step_change_shape, lemma_step_einsum,
    lemma_step_nonneg, lemma_step_sub, rounded, seen,
};
use crate::dag::meaning::{
    aligned, at3, constant_held, inside, lemma_aligned_same, position, same_words, sized, Numbers,
};
use crate::dag::reading::{
    lemma_columns_scaled, lemma_rows_scaled_shape, lemma_spells_two,
};
use crate::dag::spelling::{among, lemma_spelled_shape};
use crate::dag::text_laws::lemma_matrix_position;
use crate::dag::transformer_laws::group_parts;
use crate::dag::types::EdgeId;
use crate::field::elem::prime;
use crate::field::GoldilocksField;
use crate::util::arith::{lemma_clog2, num_vars, signed_value};
use crate::util::shape::joint_shape;

verus! {

/// A single entry can be broadcast to any shape.
proof fn lemma_joint_one(shape: Seq<usize>)
    requires
        shape.len() >= 1,
    ensures
        joint_shape(shape, seq![1usize]) == shape,
        joint_shape(seq![1usize], shape) == shape,
{
    assert(joint_shape(shape, seq![1usize]) =~= shape);
    assert(joint_shape(seq![1usize], shape) =~= shape);
}

/// The number of a constant with one entry.
proof fn lemma_constant_number(s: Graph, g: Graph, v: u64, sf: usize, h: Graph, vals: Numbers, idx: Seq<int>)
    requires
        seen(s, g, h, vals),
        grown(g.constant(v, sf).0, h),
        v < 0x8000_0000_0000_0000,
    ensures
        vals(g.constant(v, sf).1)(seq![0int]) == v,
        h.shape(g.constant(v, sf).1) == seq![1usize],
        aligned(seq![1usize], idx) == seq![0int],
{
    broadcast use group_parts;

    let e = g.constant(v, sf).1;
    assert(constant_held(h, vals, e)) by {
        reveal(Graph::constant);
        reveal(Graph::param);
        reveal(grown);
        assert(e == g.values.len());
    }
    let one = seq![1usize];
    let at = seq![0int];
    assert(inside(one, at));
    reveal_with_fuel(num_vars, 2);
    lemma_matrix_position(1, 1, 0, 0);
    assert(position(one, at) == 0);
    assert(one.drop_last() =~= Seq::<usize>::empty());
    lemma_clog2(1);
    lemma2_to64();
    lemma_small_mod(v as nat, prime() as nat);
    assert(aligned(one, idx) =~= at);
    assert(num_vars(one) == 0) by {
        if num_vars(one) > 0 {
            lemma_pow2_strictly_increases(0, num_vars(one));
        }
    }
    let t = h.values[e as int];
    assert((t.data->0).word(0) == GoldilocksField(v));
    assert(t.shape == one);
    assert(vals(e)(at) == signed_value((t.data->0).word(position(t.shape, at))));
    assert(signed_value(GoldilocksField(v)) == v);
}

/// All entries are within `t` of one at the scale `2^sf`.
pub open spec fn close_to_one(h: Graph, vals: Numbers, z: EdgeId, sf: nat, t: int) -> bool {
    forall|idx: Seq<int>| #[trigger]
        inside(h.shape(z), idx) ==> pow2(sf) - t <= vals(z)(idx) <= pow2(sf) + t
}

pub broadcast proof fn grown_near_one(g: Graph, z: EdgeId, one: EdgeId, tolerance: EdgeId, h: Graph)
    ensures
        #[trigger] grown(g.near_one(z, one, tolerance).0, h) ==> grown(g, h) && g.near_one(
            z,
            one,
            tolerance,
        ).0.nodes.len() >= g.nodes.len() && g.near_one(z, one, tolerance).0.values.len() >= g.values.len() && z
            < h.values.len(),
{
    reveal(Graph::near_one);
    broadcast use group_grown;

    if grown(g.near_one(z, one, tolerance).0, h) {
        assert(grown(g, h));
        lemma_kept(g, h, z);
    }
}

/// The check holds only where all entries are one to within the tolerance.
pub proof fn lemma_near_one(
    s: Graph,
    g: Graph,
    z: EdgeId,
    one: EdgeId,
    tolerance: EdgeId,
    h: Graph,
    vals: Numbers,
    u: int,
    t: int,
)
    requires
        seen(s, g, h, vals),
        grown(g.near_one(z, one, tolerance).0, h),
        h.rank(z) >= 1,
        h.shape(one) == seq![1usize],
        h.shape(tolerance) == seq![1usize],
        vals(one)(seq![0int]) == u,
        vals(tolerance)(seq![0int]) == t,
    ensures
        forall|idx: Seq<int>| #[trigger] inside(h.shape(z), idx) ==> u - t <= vals(z)(idx) <= u + t,
{
    reveal(Graph::near_one);
    broadcast use group_grown;

    let (g1, diff) = g.sub(z, one);
    let (g2, above) = g1.add(diff, tolerance);
    let (g3, beneath) = g2.sub(tolerance, diff);
    let g4 = g3.nonneg(above);
    let g5 = g4.nonneg(beneath);
    assert(grown(g5, h) && grown(g4, h) && grown(g3, h) && grown(g2, h) && grown(g1, h));
    lemma_step_sub(s, g, z, one, h, vals);
    lemma_step_add(s, g1, diff, tolerance, h, vals);
    lemma_step_sub(s, g2, tolerance, diff, h, vals);
    lemma_step_nonneg(s, g3, above, h, vals);
    lemma_step_nonneg(s, g4, beneath, h, vals);
    let shape = h.shape(z);
    lemma_joint_one(shape);
    assert(h.shape(diff) == shape && h.shape(above) == shape && h.shape(beneath) == shape);
    assert forall|idx: Seq<int>| #[trigger] inside(shape, idx) implies u - t <= vals(z)(idx) <= u + t by {
        lemma_aligned_same(shape, idx);
        assert(aligned(seq![1usize], idx) =~= seq![0int]);
        assert(inside(h.shape(diff), idx) && inside(h.shape(above), idx) && inside(h.shape(beneath), idx));
        assert(vals(above)(idx) >= 0 && vals(beneath)(idx) >= 0);
    }
}

/// `n` times the mean is within half of `n` of the sum, at all entries of their broadcast.
pub open spec fn averaged(h: Graph, vals: Numbers, sum: EdgeId, n: int, mean: EdgeId) -> bool {
    forall|idx: Seq<int>| #[trigger]
        inside(joint_shape(h.shape(sum), h.shape(mean)), idx) ==> within(
            vals(sum)(aligned(h.shape(sum), idx)),
            n * vals(mean)(aligned(h.shape(mean), idx)),
            n / 2,
        )
}

/// The two numbers are no more than `t` apart.
pub open spec fn within(a: int, b: int, t: int) -> bool {
    -t <= a - b <= t
}

pub broadcast proof fn grown_mean_of(g: Graph, x_sum: EdgeId, seq: usize, n: usize, h: Graph)
    ensures
        #[trigger] grown(g.mean_of(x_sum, seq, n).0, h) ==> grown(g, h) && g.mean_of(x_sum, seq, n).0.nodes.len()
            >= g.nodes.len() && g.mean_of(x_sum, seq, n).0.values.len() >= g.values.len() && g.mean_of(
            x_sum,
            seq,
            n,
        ).1 < h.values.len() && h.shape(g.mean_of(x_sum, seq, n).1) == seq![1, seq, 1] && h.sf(
            g.mean_of(x_sum, seq, n).1,
        ) == h.sf(x_sum),
{
    reveal(Graph::mean_of);
    broadcast use {group_grown, group_parts};

}

/// A mean is checked against its sum.
#[verifier::rlimit(40)]
pub proof fn lemma_mean_of(s: Graph, g: Graph, x_sum: EdgeId, seq: usize, n: usize, h: Graph, vals: Numbers)
    requires
        seen(s, g, h, vals),
        grown(g.mean_of(x_sum, seq, n).0, h),
        n < 0x8000_0000_0000_0000,
    ensures
        averaged(h, vals, x_sum, n as int, g.mean_of(x_sum, seq, n).1),
{
    reveal(Graph::mean_of);
    broadcast use {group_grown, group_parts};

    let eq = "bsi,i->bsi"@;
    let (g1, mean0) = g.div_const(x_sum, n);
    let (g2, mean) = g1.change_shape(mean0, seq![1, seq, 1]);
    let (g3, count) = g2.constant(n as u64, 0);
    let (g4, half) = g3.constant((n / 2) as u64, g.sf_log);
    let (g5, back) = g4.einsum(eq, seq![mean, count], false);
    let (g6, diff) = g5.sub(x_sum, back);
    let (g7, above) = g6.add(diff, half);
    let (g8, beneath) = g7.sub(half, diff);
    let g9 = g8.nonneg(above);
    let g10 = g9.nonneg(beneath);
    assert(grown(g10, h) && grown(g9, h) && grown(g8, h) && grown(g7, h) && grown(g6, h) && grown(g5, h));
    assert(grown(g4, h) && grown(g3, h) && grown(g2, h) && grown(g1, h) && grown(g, h));
    lemma_constant_number(s, g2, n as u64, 0, h, vals, Seq::empty());
    lemma_constant_number(s, g3, (n / 2) as u64, g.sf_log, h, vals, Seq::empty());
    lemma_step_einsum(s, g4, eq, seq![mean, count], false, h, vals);
    lemma_columns_scaled(h, vals, mean, count, 0, back);
    lemma_step_sub(s, g5, x_sum, back, h, vals);
    lemma_step_add(s, g6, diff, half, h, vals);
    lemma_step_sub(s, g7, half, diff, h, vals);
    lemma_step_nonneg(s, g8, above, h, vals);
    lemma_step_nonneg(s, g9, beneath, h, vals);
    let m = seq![1usize, seq, 1];
    assert(h.shape(mean) == m && h.shape(back) == m);
    let shape = joint_shape(h.shape(x_sum), m);
    lemma_joint_one(shape);
    assert(h.shape(diff) == shape && h.shape(above) == shape && h.shape(beneath) == shape);
    assert forall|idx: Seq<int>| #[trigger] inside(shape, idx) implies within(
        vals(x_sum)(aligned(h.shape(x_sum), idx)),
        n * vals(mean)(aligned(m, idx)),
        n as int / 2,
    ) by {
        lemma_aligned_same(shape, idx);
        assert(aligned(seq![1usize], idx) =~= seq![0int]);
        assert(inside(h.shape(diff), idx) && inside(h.shape(above), idx) && inside(h.shape(beneath), idx));
        assert(vals(above)(idx) >= 0 && vals(beneath)(idx) >= 0);
        let j = aligned(m, idx);
        let at = at3(j[0], j[1], j[2]);
        assert(j =~= at);
        assert(inside(m, j)) by {
            assert forall|k: int| 0 <= k < j.len() implies 0 <= #[trigger] j[k] < m[k] by {
                if k == 1 && seq != 1 {
                    let z = idx.len() - 3 + 1;
                    assert(0 <= idx[z] < shape[z]);
                    assert(j[1] == idx[z]);
                    lemma_joint_middle(h.shape(x_sum), seq);
                }
            }
        }
        assert(j[2] == 0);
        lemma2_to64();
        assert(rounded(vals(mean)(at) * vals(count)(seq![0int]), 0, vals(back)(at)));
        let (a, b) = (vals(mean)(at), n as int);
        assert(a * b == b * a) by (nonlinear_arith);
        assert(vals(back)(j) == n * vals(mean)(j));
    }
}

/// Reads a normalization by the root mean square: `r` is the reciprocal of the root mean square of the rows
/// of `x`, as the square of `r` times the mean of the squares is one to within two units; and `o` is `x`
/// times `r`, row by row, times the weights `w`, column by column. `es` are the tensors in between.
pub open spec fn normalized(
    h: Graph,
    vals: Numbers,
    w: EdgeId,
    x: EdgeId,
    es: Seq<EdgeId>,
    o: EdgeId,
) -> bool {
    let (r, square, sum, mean, r_square, z, rows, y) = (
        es[0],
        es[1],
        es[2],
        es[3],
        es[4],
        es[5],
        es[6],
        es[7],
    );
    let mul = "bsi,bsi->bsi"@;
    &&& es.len() == 8
    &&& contracted(h, vals, mul, seq![x, x], h.sf(x) as nat, square)
    &&& contracted(h, vals, "bsi->bs"@, seq![square], 0, sum)
    &&& averaged(h, vals, sum, h.shape(x).last() as int, mean)
    &&& contracted(h, vals, mul, seq![r, r], h.sf(r) as nat, r_square)
    &&& contracted(h, vals, mul, seq![mean, r_square], h.sf(r) as nat, z)
    &&& close_to_one(h, vals, z, h.sf_log as nat, 2)
    &&& h.shape(r) == h.shape(x).update(h.rank(x) - 1, 1)
    &&& h.sf(r) == h.sf(x)
    &&& same_words(h, vals, r, rows)
    &&& contracted(h, vals, "bsi,bs->bsi"@, seq![x, rows], h.sf(r) as nat, y)
    &&& contracted(h, vals, "bsi,i->bsi"@, seq![y, w], h.sf(w) as nat, o)
}

pub broadcast proof fn grown_rms_norm(g: Graph, w: EdgeId, seq: usize, x: EdgeId, h: Graph)
    ensures
        #[trigger] grown(g.rms_norm(w, seq, x).0, h) ==> grown(g, h) && g.rms_norm(w, seq, x).0.nodes.len()
            >= g.nodes.len() && g.rms_norm(w, seq, x).0.values.len() >= g.values.len() && x < g.values.len()
            && g.rms_norm(w, seq, x).1 < h.values.len(),
{
    reveal(Graph::rms_norm);
    broadcast use {group_grown, group_parts, grown_mean_of, grown_near_one};

}

/// A normalization by the root mean square does what it says. The tensors in between are returned.
#[verifier::rlimit(60)]
pub proof fn lemma_rms_norm(
    s: Graph,
    g: Graph,
    w: EdgeId,
    seq: usize,
    x: EdgeId,
    h: Graph,
    vals: Numbers,
) -> (es: Seq<EdgeId>)
    requires
        seen(s, g, h, vals),
        grown(g.rms_norm(w, seq, x).0, h),
        h.shape(x).last() < 0x8000_0000_0000_0000,
        h.sf_log < 63,
        h.rank(x) == 3,
    ensures
        normalized(h, vals, w, x, es, g.rms_norm(w, seq, x).1),
        h.shape(x)[0] == 1 && h.shape(x)[1] == seq && h.shape(w) == seq![h.shape(x)[2]] ==> h.shape(
            g.rms_norm(w, seq, x).1,
        ) == h.shape(x),
        h.sf(g.rms_norm(w, seq, x).1) == h.sf(x),
{
    reveal(Graph::rms_norm);
    broadcast use {group_grown, group_parts, grown_mean_of, grown_near_one};

    let mul = "bsi,bsi->bsi"@;
    let n = g.shape(x).last();
    let g0 = g.require(g.has(x) && g.rank(x) > 0 && g.sf_log < 64);
    let (g1, r) = g0.rms_reciprocal(x);
    let (g2, one) = g1.constant(pow2(g.sf_log as nat) as u64, g.sf_log);
    let (g3, tolerance) = g2.constant(2, g.sf_log);
    let (g4, square) = g3.einsum(mul, seq![x, x], true);
    let (g5, sum) = g4.einsum("bsi->bs"@, seq![square], false);
    let (g6, mean) = g5.mean_of(sum, seq, n);
    let (g7, r_square) = g6.einsum(mul, seq![r, r], true);
    let (g8, z) = g7.einsum(mul, seq![mean, r_square], true);
    let g9 = g8.near_one(z, one, tolerance).0;
    let (g10, rows) = g9.change_shape(r, seq![1, seq]);
    let (g11, y) = g10.einsum("bsi,bs->bsi"@, seq![x, rows], true);
    let (g12, o) = g11.einsum("bsi,i->bsi"@, seq![y, w], true);
    assert(grown(g12, h) && grown(g11, h) && grown(g10, h) && grown(g9, h) && grown(g8, h) && grown(g7, h));
    assert(grown(g6, h) && grown(g5, h) && grown(g4, h) && grown(g3, h) && grown(g2, h) && grown(g1, h));
    assert(grown(g0, h) && grown(g, h));
    lemma_kept(g, h, x);
    assert(pow2(g.sf_log as nat) < 0x8000_0000_0000_0000) by {
        lemma2_to64();
        lemma2_to64_rest();
        lemma_pow2_strictly_increases(g.sf_log as nat, 63);
    }
    lemma_constant_number(s, g1, pow2(g.sf_log as nat) as u64, g.sf_log, h, vals, Seq::empty());
    lemma_constant_number(s, g2, 2, g.sf_log, h, vals, Seq::empty());
    lemma_step_einsum(s, g3, mul, seq![x, x], true, h, vals);
    lemma_step_einsum(s, g4, "bsi->bs"@, seq![square], false, h, vals);
    lemma_mean_of(s, g5, sum, seq, n, h, vals);
    lemma_step_einsum(s, g6, mul, seq![r, r], true, h, vals);
    lemma_step_einsum(s, g7, mul, seq![mean, r_square], true, h, vals);
    assert(h.rank(z) == 3) by {
        reveal_strlit("bsi,bsi->bsi");
        lemma_rank(h, seq![mean, r_square]);
    }
    lemma_near_one(s, g8, z, one, tolerance, h, vals, pow2(g.sf_log as nat) as int, 2);
    lemma_step_change_shape(s, g9, r, seq![1, seq], h, vals);
    lemma_step_einsum(s, g10, "bsi,bs->bsi"@, seq![x, rows], true, h, vals);
    lemma_step_einsum(s, g11, "bsi,i->bsi"@, seq![y, w], true, h, vals);
    if h.shape(x)[0] == 1 && h.shape(x)[1] == seq && h.shape(w) == seq![h.shape(x)[2]] {
        lemma_rows_scaled_shape(h, x, rows);
        lemma_columns_scaled(h, vals, y, w, h.sf(w) as nat, o);
    }
    let es = seq![r, square, sum, mean, r_square, z, rows, y];
    assert(close_to_one(h, vals, z, h.sf_log as nat, 2)) by {
        assert(h.sf_log == g.sf_log);
    }
    es
}

/// The equation `bsi,bsi->bsi` has three symbols on its right side.
proof fn lemma_rank(h: Graph, inputs: Seq<EdgeId>)
    ensures
        output_shape("bsi,bsi->bsi"@, h.shapes(inputs)).len() == 3,
{
    reveal_strlit("bsi,bsi->bsi");
    let eq = "bsi,bsi->bsi"@;
    let t = seq!['b', 's', 'i'];
    let dims = Map::<char, nat>::empty().insert('b', 1).insert('s', 1).insert('i', 1);
    let ins = seq![t, t];
    let shapes = seq![seq![1usize, 1, 1], seq![1usize, 1, 1]];
    assert(eq =~= t + seq![','] + t + seq!['-', '>'] + t);
    lemma_spells_two(eq, t, t, t);
    assert(sized(ins, shapes, dims)) by {
        assert forall|u: int, j: int| 0 <= u < ins.len() && 0 <= j < ins[u].len() implies dims.contains_key(
            #[trigger] ins[u][j],
        ) && dims[ins[u][j]] == shapes[u][j] by {
            assert(ins[u] == t);
            assert(shapes[u] == seq![1usize, 1, 1]);
            assert(j == 0 || j == 1 || j == 2);
        }
    }
    assert(ins[0][0] == t[0] && ins[0][1] == t[1] && ins[0][2] == t[2]);
    assert(among(ins, t[0]) && among(ins, t[1]) && among(ins, t[2]));
    lemma_spelled_shape(eq, ins, t, shapes, dims);
    assert(output_shape(eq, shapes).len() == 3);
    assert(right_side(eq).len() == 3);
}

/// The dimension of a broadcast at the second to last place, where the other shape has `d` there.
proof fn lemma_joint_middle(a: Seq<usize>, d: usize)
    requires
        d != 1,
        joint_shape(a, seq![1, d, 1]).len() >= 3,
        crate::util::shape::broadcastable(a, seq![1, d, 1]),
    ensures
        joint_shape(a, seq![1, d, 1])[joint_shape(a, seq![1, d, 1]).len() - 2] == d,
{
    let b = seq![1usize, d, 1];
    let n = joint_shape(a, b).len() as int;
    assert(crate::util::shape::dims_match(
        crate::util::shape::dim_from_last(a, 1),
        crate::util::shape::dim_from_last(b, 1),
    ));
    assert(joint_shape(a, b)[n - 2] == crate::util::shape::joint_dim(
        crate::util::shape::dim_from_last(a, 1),
        crate::util::shape::dim_from_last(b, 1),
    ));
}

} // verus!
