//! What rotary position embeddings compute.
use vstd::arithmetic::div_mod::*;
use vstd::arithmetic::power2::*;
use vstd::prelude::*;

use crate::dag::graph::Graph;
use crate::dag::growth::{
    group_grown, grown, lemma_kept, lemma_step_add, lemma_step_einsum, lemma_step_param, rounded, seen,
};
use crate::dag::layer_laws::lemma_joint_same;
use crate::dag::meaning::{
    added, at2, at4, constant_held, inside, lemma_aligned_same, lemma_total_single, position, total,
    Numbers,
};
use crate::dag::reading::{lemma_last_times, lemma_positions_scaled, positions_scaled};
use crate::dag::text_laws::lemma_matrix_position;
use crate::dag::transformer::{partner, swap_matrix, swap_words, swappable};
use crate::dag::types::EdgeId;
use crate::dag::witness::Tensor;
use crate::util::arith::{clog2, num_vars, padded, signed_value};

verus! {

/// The other entry of a pair: pairs are an even entry and the odd one after it.
pub open spec fn other(d: int) -> int {
    if d % 2 == 0 {
        d + 1
    } else {
        d - 1
    }
}

/// The entry of the matrix that swaps pairs is one where its row is the other entry of its column.
proof fn lemma_swap_entry(d: usize, i: int, j: int)
    requires
        swappable(d),
        padded(d as nat) == d,
        0 <= i < d,
        0 <= j < d,
    ensures
        ({
            let t = swap_matrix(d);
            signed_value((t.data->0).word(position(t.shape, at2(i, j)))) == if i == other(j) {
                1int
            } else {
                0
            }
        }),
{
    lemma_matrix_position(d, d, i, j);
    let words = swap_words(d as nat);
    let k = i + j * d;
    assert(0 <= k < d * d) by (nonlinear_arith)
        requires
            0 <= i < d,
            0 <= j < d,
            k == i + j * d,
    ;
    lemma_fundamental_div_mod_converse(k, d as int, j, i);
    lemma_pow2_adds(clog2(d as nat), clog2(d as nat));
    assert(pow2(num_vars(seq![d, d])) == d * d);
    assert(words.len() == d * d) by (nonlinear_arith)
        requires
            words.len() == (d as nat) * (d as nat),
    ;
    assert((swap_matrix(d).data->0).word(k) == words[k]);
    assert(partner(i) == j <==> i == other(j));
}

pub broadcast proof fn grown_swapped(g: Graph, x: EdgeId, h: Graph)
    ensures
        #[trigger] grown(g.swapped(x).0, h) ==> grown(g, h) && x < g.values.len() && g.swapped(x).1
            < h.values.len() && g.swapped(x).0.nodes.len() >= g.nodes.len() && g.swapped(x).0.values.len()
            >= g.values.len(),
{
    reveal(Graph::swapped);
    broadcast use group_grown;

}

pub broadcast proof fn grown_turned(g: Graph, x: EdgeId, cos: EdgeId, sin: EdgeId, h: Graph)
    ensures
        #[trigger] grown(g.turned(x, cos, sin).0, h) ==> grown(g, h) && x < g.values.len() && g.turned(
            x,
            cos,
            sin,
        ).1 < h.values.len() && g.turned(x, cos, sin).0.nodes.len() >= g.nodes.len() && g.turned(
            x,
            cos,
            sin,
        ).0.values.len() >= g.values.len(),
{
    reveal(Graph::turned);
    broadcast use {group_grown, grown_swapped};

}

/// Swapping gives every entry the number of the other entry of its pair.
pub proof fn lemma_swapped(s: Graph, g: Graph, x: EdgeId, h: Graph, vals: Numbers)
    requires
        seen(s, g, h, vals),
        grown(g.swapped(x).0, h),
        h.rank(x) == 4,
        padded(h.shape(x)[3] as nat) == h.shape(x)[3],
    ensures
        h.shape(g.swapped(x).1) == h.shape(x),
        forall|b: int, p: int, n: int, d: int|
            #![trigger vals(g.swapped(x).1)(at4(b, p, n, d))]
            inside(h.shape(x), at4(b, p, n, d)) ==> vals(g.swapped(x).1)(at4(b, p, n, d)) == vals(x)(
                at4(b, p, n, other(d)),
            ),
{
    reveal(Graph::swapped);
    broadcast use group_grown;

    let y = g.swapped(x).1;
    let d = g.shape(x).last();
    let q = g.require(g.has(x) && g.rank(x) > 0 && swappable(d));
    let (g1, w) = q.param(swap_matrix(d));
    let eq = "bshd,de->bshe"@;
    let g2 = g1.einsum(eq, seq![x, w], false).0;
    assert(grown(g2, h) && grown(g1, h) && grown(q, h));
    lemma_kept(g, h, x);
    assert(d == h.shape(x)[3]);
    lemma_step_param(s, q, swap_matrix(d), h, vals);
    lemma_step_einsum(s, g1, eq, seq![x, w], false, h, vals);
    lemma_last_times(h, vals, x, w, 0, y);
    assert(h.shape(y) =~= h.shape(x));
    assert forall|b: int, p: int, n: int, e: int|
        #![trigger vals(y)(at4(b, p, n, e))]
        inside(h.shape(x), at4(b, p, n, e)) implies vals(y)(at4(b, p, n, e)) == vals(x)(
        at4(b, p, n, other(e)),
    ) by {
        let idx = at4(b, p, n, e);
        assert(0 <= idx[3] < h.shape(x)[3]);
        let f = |v: int| vals(x)(at4(b, p, n, v)) * vals(w)(at2(v, e));
        let o = other(e);
        assert(d % 2 == 0);
        assert(0 <= o < d);
        assert forall|v: int| 0 <= v < d implies #[trigger] f(v) == if v == o {
            vals(x)(at4(b, p, n, o))
        } else {
            0
        } by {
            assert(constant_held(h, vals, w));
            assert(inside(seq![d, d], at2(v, e)));
            lemma_swap_entry(d, v, e);
            let (u, c) = (vals(x)(at4(b, p, n, v)), vals(w)(at2(v, e)));
            assert(u * c == if v == o { u } else { 0 }) by (nonlinear_arith)
                requires
                    c == if v == o { 1int } else { 0 },
            ;
        }
        lemma_total_single(d as nat, o, f);
        lemma2_to64();
        assert(rounded(total(d as nat, f), 0, vals(y)(idx)));
    }
}

/// The entry of a rotated tensor: the entry times its cosine, and the other entry of its pair times its
/// sine.
pub open spec fn rotated(h: Graph, vals: Numbers, x: EdgeId, cos: EdgeId, sin: EdgeId, o: EdgeId) -> bool {
    forall|b: int, p: int, n: int, d: int|
        #![trigger vals(o)(at4(b, p, n, d))]
        inside(h.shape(x), at4(b, p, n, d)) ==> turned_entry(
            vals(x)(at4(b, p, n, d)) * vals(cos)(at2(p, d)),
            h.sf(cos) as nat,
            vals(x)(at4(b, p, n, other(d))) * vals(sin)(at2(p, d)),
            h.sf(sin) as nat,
            vals(o)(at4(b, p, n, d)),
        )
}

/// `o` is the sum of the two numbers, each divided by its power of two and rounded down.
pub open spec fn turned_entry(u: int, i: nat, v: int, j: nat, o: int) -> bool {
    exists|a: int| #[trigger] rounded(u, i, a) && rounded(v, j, o - a)
}

proof fn lemma_turned_sum(
    h: Graph,
    vals: Numbers,
    x: EdgeId,
    y: EdgeId,
    cos: EdgeId,
    sin: EdgeId,
    s1: EdgeId,
    c1: EdgeId,
    o: EdgeId,
)
    requires
        positions_scaled(h, vals, y, sin, h.sf(sin) as nat, s1),
        positions_scaled(h, vals, x, cos, h.sf(cos) as nat, c1),
        added(h, vals, s1, c1, o),
        h.rank(x) == 4,
        h.shape(s1) == h.shape(x),
        h.shape(c1) == h.shape(x),
        h.shape(o) == h.shape(x),
        forall|b: int, p: int, n: int, d: int|
            #![trigger vals(y)(at4(b, p, n, d))]
            inside(h.shape(x), at4(b, p, n, d)) ==> vals(y)(at4(b, p, n, d)) == vals(x)(at4(b, p, n, other(d))),
    ensures
        rotated(h, vals, x, cos, sin, o),
{
    assert forall|b: int, p: int, n: int, d: int|
        #![trigger vals(o)(at4(b, p, n, d))]
        inside(h.shape(x), at4(b, p, n, d)) implies turned_entry(
        vals(x)(at4(b, p, n, d)) * vals(cos)(at2(p, d)),
        h.sf(cos) as nat,
        vals(x)(at4(b, p, n, other(d))) * vals(sin)(at2(p, d)),
        h.sf(sin) as nat,
        vals(o)(at4(b, p, n, d)),
    ) by {
        let idx = at4(b, p, n, d);
        lemma_aligned_same(h.shape(x), idx);
        let a = vals(c1)(idx);
        assert(vals(o)(idx) == vals(s1)(idx) + a);
        assert(rounded(vals(x)(idx) * vals(cos)(at2(p, d)), h.sf(cos) as nat, a));
        assert(vals(y)(idx) == vals(x)(at4(b, p, n, other(d))));
        assert(rounded(vals(y)(idx) * vals(sin)(at2(p, d)), h.sf(sin) as nat, vals(s1)(idx)));
    }
}

/// A rotation turns every pair of entries by the angle of its position.
pub proof fn lemma_turned(s: Graph, g: Graph, x: EdgeId, cos: EdgeId, sin: EdgeId, h: Graph, vals: Numbers)
    requires
        seen(s, g, h, vals),
        grown(g.turned(x, cos, sin).0, h),
        h.rank(x) == 4,
        padded(h.shape(x)[3] as nat) == h.shape(x)[3],
        h.shape(cos) == seq![h.shape(x)[1], h.shape(x)[3]],
        h.shape(sin) == seq![h.shape(x)[1], h.shape(x)[3]],
    ensures
        h.shape(g.turned(x, cos, sin).1) == h.shape(x),
        rotated(h, vals, x, cos, sin, g.turned(x, cos, sin).1),
{
    reveal(Graph::turned);
    broadcast use {group_grown, grown_swapped};

    let eq = "bshd,sd->bshd"@;
    let (g1, y) = g.swapped(x);
    let (g2, s1) = g1.einsum(eq, seq![y, sin], true);
    let (g3, c1) = g2.einsum(eq, seq![x, cos], true);
    let (g4, o) = g3.add(s1, c1);
    assert(grown(g4, h) && grown(g3, h) && grown(g2, h) && grown(g1, h));
    lemma_swapped(s, g, x, h, vals);
    lemma_step_einsum(s, g1, eq, seq![y, sin], true, h, vals);
    lemma_step_einsum(s, g2, eq, seq![x, cos], true, h, vals);
    lemma_step_add(s, g3, s1, c1, h, vals);
    lemma_positions_scaled(h, vals, y, sin, h.sf(sin) as nat, s1);
    lemma_positions_scaled(h, vals, x, cos, h.sf(cos) as nat, c1);
    lemma_joint_same(h.shape(x));
    lemma_turned_sum(h, vals, x, y, cos, sin, s1, c1, o);
}

/// A rotation by given sines and cosines turns every pair of entries by the angle of its position. The edges
/// of the cosines and the sines are returned.
pub proof fn lemma_rope_at(
    s: Graph,
    g: Graph,
    sin: Tensor,
    cos: Tensor,
    x: EdgeId,
    h: Graph,
    vals: Numbers,
) -> (r: (EdgeId, EdgeId))
    requires
        seen(s, g, h, vals),
        grown(g.rope_at(sin, cos, x).0, h),
        h.rank(x) == 4,
        padded(h.shape(x)[3] as nat) == h.shape(x)[3],
        cos.shape == seq![h.shape(x)[1], h.shape(x)[3]],
        sin.shape == seq![h.shape(x)[1], h.shape(x)[3]],
    ensures
        h.values[r.0 as int] == cos,
        h.values[r.1 as int] == sin,
        h.shape(g.rope_at(sin, cos, x).1) == h.shape(x),
        rotated(h, vals, x, r.0, r.1, g.rope_at(sin, cos, x).1),
{
    reveal(Graph::rope_at);
    broadcast use {group_grown, grown_swapped};

    let eq = "bshd,sd->bshd"@;
    let (g1, y) = g.swapped(x);
    let (g2, sin_e) = g1.param(sin);
    let (g3, cos_e) = g2.param(cos);
    let (g4, s1) = g3.einsum(eq, seq![y, sin_e], true);
    let (g5, c1) = g4.einsum(eq, seq![x, cos_e], true);
    let (g6, o) = g5.add(s1, c1);
    assert(grown(g6, h) && grown(g5, h) && grown(g4, h) && grown(g3, h) && grown(g2, h) && grown(g1, h));
    lemma_swapped(s, g, x, h, vals);
    lemma_step_einsum(s, g3, eq, seq![y, sin_e], true, h, vals);
    lemma_step_einsum(s, g4, eq, seq![x, cos_e], true, h, vals);
    lemma_step_add(s, g5, s1, c1, h, vals);
    lemma_positions_scaled(h, vals, y, sin_e, h.sf(sin_e) as nat, s1);
    lemma_positions_scaled(h, vals, x, cos_e, h.sf(cos_e) as nat, c1);
    lemma_joint_same(h.shape(x));
    lemma_turned_sum(h, vals, x, y, cos_e, sin_e, s1, c1, o);
    (cos_e, sin_e)
}

} // verus!
