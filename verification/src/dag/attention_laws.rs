//! What attention computes, and the blocks that hold it.
use vstd::prelude::*;

use crate::dag::block_laws::{grown_softmax_of, is_softmax, lemma_softmax_of};
use crate::dag::graph::Graph;
use crate::dag::growth::{
    contracted, group_grown, grown, lemma_kept, lemma_step_change_shape, lemma_step_einsum, seen,
};
use crate::dag::meaning::{same_words, Numbers};
use crate::dag::reading::{lemma_projected, lemma_turned_around};
use crate::dag::rotary_laws::{grown_swapped, grown_turned, lemma_turned, rotated};
use crate::dag::transformer_laws::group_parts;
use crate::dag::types::EdgeId;
use crate::dag::witness::{known, DataType, Role};
use crate::field::GoldilocksField;
use crate::util::arith::padded;

verus! {

/// `o` has the last dimension of `a` cut in two: the words of `a` under a shape whose third dimension runs
/// within a head and whose fourth counts the heads, turned around.
pub open spec fn heads_cut(h: Graph, vals: Numbers, a: EdgeId, shape: Seq<usize>, o: EdgeId) -> bool {
    exists|b: EdgeId| #[trigger]
        same_words(h, vals, a, b) && h.shape(b) == seq![h.shape(a)[0], h.shape(a)[1], shape[3], shape[2]]
            && contracted(h, vals, "bsdh->bshd"@, seq![b], 0, o)
}

/// `o` has the last two dimensions of `a` joined.
pub open spec fn heads_joined(h: Graph, vals: Numbers, a: EdgeId, shape: Seq<usize>, o: EdgeId) -> bool {
    exists|b: EdgeId| #[trigger]
        same_words(h, vals, b, o) && h.shape(o) == shape && contracted(h, vals, "bshd->bsdh"@, seq![a], 0, b)
}

pub broadcast proof fn grown_reshape(g: Graph, a: EdgeId, shape: Seq<usize>, h: Graph)
    ensures
        #[trigger] grown(g.reshape(a, shape).0, h) ==> grown(g, h) && a < g.values.len() && g.reshape(a, shape).1
            < h.values.len() && g.reshape(a, shape).0.nodes.len() >= g.nodes.len() && g.reshape(
            a,
            shape,
        ).0.values.len() >= g.values.len(),
{
    reveal(Graph::reshape);
    broadcast use group_grown;

    if grown(g.reshape(a, shape).0, h) {
        assert(h.ok) by {
            reveal(grown);
        }
        let old = g.shape(a);
        let (m, n) = (shape.len() as int, old.len() as int);
        if m > n {
            let q = g.require(g.has(a) && n >= 2 && shape[m - 1] * shape[m - 2] == old[n - 1]);
            let (g1, b) = q.change_shape(a, seq![old[0], old[1], shape[m - 1], shape[m - 2]]);
            assert(grown(g1, h));
            assert(grown(q, h));
        } else if m < n {
            let q = g.require(g.has(a) && n >= 2 && m >= 1 && shape[m - 1] == old[n - 1] * old[n - 2]);
            let (g1, b) = q.einsum("bshd->bsdh"@, seq![a], false);
            assert(grown(g1, h));
            assert(grown(q, h));
        } else {
            assert(grown(g.require(false), h));
        }
    }
}

/// A reshape to one dimension more cuts the last one.
pub proof fn lemma_cut(s: Graph, g: Graph, a: EdgeId, shape: Seq<usize>, h: Graph, vals: Numbers)
    requires
        seen(s, g, h, vals),
        grown(g.reshape(a, shape).0, h),
        shape.len() == 4,
        h.rank(a) == 3,
    ensures
        heads_cut(h, vals, a, shape, g.reshape(a, shape).1),
        h.sf(g.reshape(a, shape).1) == h.sf(a),
        h.shape(g.reshape(a, shape).1) == seq![h.shape(a)[0], h.shape(a)[1], shape[2], shape[3]],
{
    reveal(Graph::reshape);
    broadcast use {group_grown, grown_reshape};

    assert(grown(g, h) && a < g.values.len());
    lemma_kept(g, h, a);
    let old = g.shape(a);
    let q = g.require(g.has(a) && 3 >= 2 && shape[4 - 1] * shape[4 - 2] == old[3 - 1]);
    let (g1, b) = q.change_shape(a, seq![old[0], old[1], shape[4 - 1], shape[4 - 2]]);
    let (g2, o) = g1.einsum("bsdh->bshd"@, seq![b], false);
    assert(grown(g2, h));
    assert(grown(g1, h));
    assert(grown(q, h));
    lemma_step_change_shape(s, q, a, seq![old[0], old[1], shape[3], shape[2]], h, vals);
    lemma_step_einsum(s, g1, "bsdh->bshd"@, seq![b], false, h, vals);
    reveal_with_fuel(Graph::sf_sum, 2);
    assert(seq![b].drop_last() =~= Seq::<EdgeId>::empty());
    assert(g1.has(seq![b][0]));
    lemma_kept(g1, h, b);
    lemma_turned_around(h, b);
}

/// A reshape to one dimension less joins the last two.
pub proof fn lemma_join(s: Graph, g: Graph, a: EdgeId, shape: Seq<usize>, h: Graph, vals: Numbers)
    requires
        seen(s, g, h, vals),
        grown(g.reshape(a, shape).0, h),
        shape.len() == 3,
        h.rank(a) == 4,
    ensures
        heads_joined(h, vals, a, shape, g.reshape(a, shape).1),
        h.shape(g.reshape(a, shape).1) == shape,
        h.sf(g.reshape(a, shape).1) == h.sf(a),
{
    reveal(Graph::reshape);
    broadcast use {group_grown, grown_reshape};

    assert(grown(g, h) && a < g.values.len());
    lemma_kept(g, h, a);
    let old = g.shape(a);
    let q = g.require(g.has(a) && 4 >= 2 && 3 >= 1 && shape[3 - 1] == old[4 - 1] * old[4 - 2]);
    let (g1, b) = q.einsum("bshd->bsdh"@, seq![a], false);
    let (g2, o) = g1.change_shape(b, shape);
    assert(grown(g2, h));
    assert(grown(g1, h));
    assert(grown(q, h));
    lemma_step_einsum(s, q, "bshd->bsdh"@, seq![a], false, h, vals);
    lemma_step_change_shape(s, g1, b, shape, h, vals);
    reveal_with_fuel(Graph::sf_sum, 2);
    assert(seq![a].drop_last() =~= Seq::<EdgeId>::empty());
}

/// The tensor is a constant with the one entry `v` at scale `2^sf`.
pub open spec fn single(h: Graph, e: EdgeId, v: u64, sf: usize) -> bool {
    h.values[e as int] == known(seq![1], seq![GoldilocksField(v)], DataType::Float, sf, Role::Constant)
}

/// `o` is the attention of `x` over heads: queries, keys and values are projections of `x`, cut into heads,
/// queries and keys turned by their positions; the softmax of the scaled products of queries and keys
/// weighs the values; the heads are joined and projected back. `es` are the tensors in between.
pub open spec fn attends(
    h: Graph,
    vals: Numbers,
    w: Seq<EdgeId>,
    num_heads: usize,
    head_dim: usize,
    seq_len: usize,
    cos: EdgeId,
    sin: EdgeId,
    recip: u64,
    x: EdgeId,
    es: Seq<EdgeId>,
    o: EdgeId,
) -> bool {
    let rows = "bsi,ij->bsj"@;
    let flip = "bshd->bhsd"@;
    let shape = seq![1, seq_len, num_heads, head_dim];
    let (q, k, v) = (es[0], es[1], es[2]);
    let (q1, k1, v1) = (es[3], es[4], es[5]);
    let (q2, k2) = (es[6], es[7]);
    let (q3, k3, v3) = (es[8], es[9], es[10]);
    let (r, s1, s2, p, y, y1, y2) = (es[11], es[12], es[13], es[14], es[15], es[16], es[17]);
    &&& es.len() == 18
    &&& contracted(h, vals, rows, seq![x, w[0]], h.sf(w[0]) as nat, q)
    &&& contracted(h, vals, rows, seq![x, w[1]], h.sf(w[1]) as nat, k)
    &&& contracted(h, vals, rows, seq![x, w[2]], h.sf(w[2]) as nat, v)
    &&& heads_cut(h, vals, q, shape, q1)
    &&& heads_cut(h, vals, k, shape, k1)
    &&& heads_cut(h, vals, v, shape, v1)
    &&& rotated(h, vals, q1, cos, sin, q2)
    &&& rotated(h, vals, k1, cos, sin, k2)
    &&& contracted(h, vals, flip, seq![q2], 0, q3)
    &&& contracted(h, vals, flip, seq![k2], 0, k3)
    &&& contracted(h, vals, flip, seq![v1], 0, v3)
    &&& contracted(h, vals, "bhsd,bhtd->bhst"@, seq![q3, k3], h.sf(k3) as nat, s1)
    &&& single(h, r, recip, h.sf_log)
    &&& contracted(h, vals, "bhst,z->bhst"@, seq![s1, r], h.sf_log as nat, s2)
    &&& is_softmax(h, vals, seq_len, s2, p)
    &&& contracted(h, vals, "bhst,bhtd->bhsd"@, seq![p, v3], h.sf(v3) as nat, y)
    &&& same_words(h, vals, y, y1)
    &&& h.shape(y1) == shape
    &&& heads_joined(h, vals, y1, seq![1, seq_len, (num_heads * head_dim) as usize], y2)
    &&& contracted(h, vals, rows, seq![y2, w[3]], h.sf(w[3]) as nat, o)
}

pub broadcast group group_attention {
    grown_reshape,
    grown_turned,
    grown_softmax_of,
}

pub broadcast proof fn grown_attention(
    g: Graph,
    w_q: EdgeId,
    w_k: EdgeId,
    w_v: EdgeId,
    w_o: EdgeId,
    num_heads: usize,
    head_dim: usize,
    seq_len: usize,
    cos: EdgeId,
    sin: EdgeId,
    recip: u64,
    x: EdgeId,
    h: Graph,
)
    ensures
        #[trigger] grown(
            g.attention(w_q, w_k, w_v, w_o, num_heads, head_dim, seq_len, cos, sin, recip, x).0,
            h,
        ) ==> ({
            let (g1, o) = g.attention(w_q, w_k, w_v, w_o, num_heads, head_dim, seq_len, cos, sin, recip, x);
            &&& grown(g, h)
            &&& g1.nodes.len() >= g.nodes.len()
            &&& g1.values.len() >= g.values.len()
            &&& o < h.values.len()
        }),
{
    reveal(Graph::attention);
    broadcast use {group_grown, group_parts, group_attention};

}

/// Attention does what it says, for heads whose width is a power of two. The tensors in between are
/// returned.
#[verifier::rlimit(100)]
pub proof fn lemma_attention(
    s: Graph,
    g: Graph,
    w: Seq<EdgeId>,
    num_heads: usize,
    head_dim: usize,
    seq_len: usize,
    cos: EdgeId,
    sin: EdgeId,
    recip: u64,
    x: EdgeId,
    h: Graph,
    vals: Numbers,
) -> (es: Seq<EdgeId>)
    requires
        seen(s, g, h, vals),
        grown(
            g.attention(w[0], w[1], w[2], w[3], num_heads, head_dim, seq_len, cos, sin, recip, x).0,
            h,
        ),
        h.rank(x) == 3,
        h.shape(x)[1] == seq_len,
        h.shape(w[0]).len() == 2 && h.shape(w[0])[0] == h.shape(x)[2],
        h.shape(w[1]).len() == 2 && h.shape(w[1])[0] == h.shape(x)[2],
        h.shape(w[2]).len() == 2 && h.shape(w[2])[0] == h.shape(x)[2],
        h.shape(cos) == seq![seq_len, head_dim],
        h.shape(sin) == seq![seq_len, head_dim],
        padded(head_dim as nat) == head_dim,
        h.sf(x) <= 55,
    ensures
        attends(
            h,
            vals,
            w,
            num_heads,
            head_dim,
            seq_len,
            cos,
            sin,
            recip,
            x,
            es,
            g.attention(w[0], w[1], w[2], w[3], num_heads, head_dim, seq_len, cos, sin, recip, x).1,
        ),
        h.rank(w[3]) == 2 && h.shape(w[3])[0] == num_heads * head_dim ==> h.shape(
            g.attention(w[0], w[1], w[2], w[3], num_heads, head_dim, seq_len, cos, sin, recip, x).1,
        ) == seq![1, seq_len, h.shape(w[3])[1]],
        h.sf(g.attention(
            w[0],
            w[1],
            w[2],
            w[3],
            num_heads,
            head_dim,
            seq_len,
            cos,
            sin,
            recip,
            x,
        ).1) == h.sf_log,
{
    reveal(Graph::attention);
    broadcast use {group_grown, group_parts, group_attention};

    let rows = "bsi,ij->bsj"@;
    let flip = "bshd->bhsd"@;
    let shape = seq![1, seq_len, num_heads, head_dim];
    let wide = seq![1, seq_len, (num_heads * head_dim) as usize];
    let (e1, e2, e3) = ("bhsd,bhtd->bhst"@, "bhst,z->bhst"@, "bhst,bhtd->bhsd"@);
    let g0 = g.require(num_heads * head_dim <= usize::MAX);
    let (g1, q) = g0.einsum(rows, seq![x, w[0]], true);
    let (g2, k) = g1.einsum(rows, seq![x, w[1]], true);
    let (g3, v) = g2.einsum(rows, seq![x, w[2]], true);
    let (g4, q1) = g3.reshape(q, shape);
    let (g5, k1) = g4.reshape(k, shape);
    let (g6, v1) = g5.reshape(v, shape);
    let (g7, q2) = g6.turned(q1, cos, sin);
    let (g8, k2) = g7.turned(k1, cos, sin);
    let (g9, q3) = g8.einsum(flip, seq![q2], false);
    let (g10, k3) = g9.einsum(flip, seq![k2], false);
    let (g11, v3) = g10.einsum(flip, seq![v1], false);
    let (g12, r) = g11.constant(recip, g.sf_log);
    let (g13, s1) = g12.einsum(e1, seq![q3, k3], true);
    let (g14, s2) = g13.einsum(e2, seq![s1, r], true);
    let (g15, p) = g14.softmax_of(seq_len, s2);
    let (g16, y) = g15.einsum(e3, seq![p, v3], true);
    let (g17, y1) = g16.change_shape(y, shape);
    let (g18, y2) = g17.reshape(y1, wide);
    let (g19, o) = g18.einsum(rows, seq![y2, w[3]], true);
    assert(grown(g19, h) && grown(g18, h) && grown(g17, h) && grown(g16, h) && grown(g15, h));
    assert(grown(g14, h) && grown(g13, h) && grown(g12, h) && grown(g11, h) && grown(g10, h));
    assert(grown(g9, h) && grown(g8, h) && grown(g7, h) && grown(g6, h) && grown(g5, h) && grown(g4, h));
    assert(grown(g3, h) && grown(g2, h) && grown(g1, h) && grown(g0, h) && grown(g, h));
    assert(g0.has(seq![x, w[0]][0]));
    lemma_kept(g0, h, x);
    lemma_step_einsum(s, g0, rows, seq![x, w[0]], true, h, vals);
    lemma_step_einsum(s, g1, rows, seq![x, w[1]], true, h, vals);
    lemma_step_einsum(s, g2, rows, seq![x, w[2]], true, h, vals);
    lemma_projected(h, vals, x, w[0], h.sf(w[0]) as nat, q);
    lemma_projected(h, vals, x, w[1], h.sf(w[1]) as nat, k);
    lemma_projected(h, vals, x, w[2], h.sf(w[2]) as nat, v);
    lemma_cut(s, g3, q, shape, h, vals);
    lemma_cut(s, g4, k, shape, h, vals);
    lemma_cut(s, g5, v, shape, h, vals);
    lemma_turned(s, g6, q1, cos, sin, h, vals);
    lemma_turned(s, g7, k1, cos, sin, h, vals);
    lemma_step_einsum(s, g8, flip, seq![q2], false, h, vals);
    lemma_step_einsum(s, g9, flip, seq![k2], false, h, vals);
    lemma_step_einsum(s, g10, flip, seq![v1], false, h, vals);
    lemma_step_einsum(s, g12, e1, seq![q3, k3], true, h, vals);
    lemma_step_einsum(s, g13, e2, seq![s1, r], true, h, vals);
    assert(h.sf(s2) <= 55) by {
        reveal_with_fuel(Graph::sf_sum, 2);
        assert(seq![q2].drop_last() =~= Seq::<EdgeId>::empty());
        assert(g8.has(seq![q2][0]));
        lemma_kept(g8, h, q2);
        lemma_turned_scale(g6, q1, cos, sin, h);
        assert(h.sf(q) == h.sf(x));
        assert(h.sf(q3) == h.sf(q2));
    }
    lemma_softmax_of(s, g14, seq_len, s2, h, vals);
    lemma_step_einsum(s, g15, e3, seq![p, v3], true, h, vals);
    lemma_step_change_shape(s, g16, y, shape, h, vals);
    lemma_join(s, g17, y1, wide, h, vals);
    lemma_step_einsum(s, g18, rows, seq![y2, w[3]], true, h, vals);
    if h.rank(w[3]) == 2 && h.shape(w[3])[0] == num_heads * head_dim {
        lemma_projected(h, vals, y2, w[3], h.sf(w[3]) as nat, o);
    }
    seq![q, k, v, q1, k1, v1, q2, k2, q3, k3, v3, r, s1, s2, p, y, y1, y2]
}

/// A rotation keeps the scale.
proof fn lemma_turned_scale(g: Graph, x: EdgeId, cos: EdgeId, sin: EdgeId, h: Graph)
    requires
        grown(g.turned(x, cos, sin).0, h),
    ensures
        h.sf(g.turned(x, cos, sin).1) == h.sf(x),
{
    reveal(Graph::turned);
    broadcast use {group_grown, grown_swapped};

    let eq = "bshd,sd->bshd"@;
    let (g1, y) = g.swapped(x);
    let (g2, s1) = g1.einsum(eq, seq![y, sin], true);
    let (g3, c1) = g2.einsum(eq, seq![x, cos], true);
    let (g4, o) = g3.add(s1, c1);
    assert(grown(g4, h) && grown(g3, h) && grown(g2, h) && grown(g1, h));
    reveal(Graph::swapped);
    let d = g.shape(x).last();
    let q = g.require(g.has(x) && g.rank(x) > 0 && crate::dag::transformer::swappable(d));
    let (p1, w) = q.param(crate::dag::transformer::swap_matrix(d));
    let ps = seq![x, w];
    assert(grown(p1.einsum("bshd,de->bshe"@, ps, false).0, h));
    assert(grown(p1, h));
    reveal_with_fuel(Graph::sf_sum, 3);
    assert(ps.drop_last() =~= seq![x]);
    assert(seq![x].drop_last() =~= Seq::<EdgeId>::empty());
    assert(p1.has(ps[0]) && p1.has(ps[1]));
    lemma_kept(p1, h, x);
    lemma_kept(p1, h, w);
}

/// `o` is attention in which groups of queries share keys and values: query head `q` of group `g` reads the
/// keys and values of head `g`. `es` are the tensors in between.
pub open spec fn attends_grouped(
    h: Graph,
    vals: Numbers,
    w: Seq<EdgeId>,
    num_heads: usize,
    num_kv: usize,
    head_dim: usize,
    seq_len: usize,
    cos: EdgeId,
    sin: EdgeId,
    recip: u64,
    x: EdgeId,
    es: Seq<EdgeId>,
    o: EdgeId,
) -> bool {
    let rows = "bsi,ij->bsj"@;
    let flip = "bsgd->bgsd"@;
    let shape = seq![1, seq_len, num_heads, head_dim];
    let shared = seq![1, seq_len, num_kv, head_dim];
    let (q, k, v) = (es[0], es[1], es[2]);
    let (q1, k1, v1) = (es[3], es[4], es[5]);
    let (q2, k2, qg) = (es[6], es[7], es[18]);
    let (q3, k3, v3) = (es[8], es[9], es[10]);
    let (r, s1, s2, p, y, y1, y2) = (es[11], es[12], es[13], es[14], es[15], es[16], es[17]);
    let yg = es[19];
    &&& es.len() == 20
    &&& contracted(h, vals, rows, seq![x, w[0]], h.sf(w[0]) as nat, q)
    &&& contracted(h, vals, rows, seq![x, w[1]], h.sf(w[1]) as nat, k)
    &&& contracted(h, vals, rows, seq![x, w[2]], h.sf(w[2]) as nat, v)
    &&& heads_cut(h, vals, q, shape, q1)
    &&& heads_cut(h, vals, k, shared, k1)
    &&& heads_cut(h, vals, v, shared, v1)
    &&& rotated(h, vals, q1, cos, sin, q2)
    &&& rotated(h, vals, k1, cos, sin, k2)
    &&& same_words(h, vals, q2, qg)
    &&& h.shape(qg) == seq![1, seq_len, (num_heads / num_kv) as usize, num_kv, head_dim]
    &&& contracted(h, vals, "bsqgd->bgqsd"@, seq![qg], 0, q3)
    &&& contracted(h, vals, flip, seq![k2], 0, k3)
    &&& contracted(h, vals, flip, seq![v1], 0, v3)
    &&& contracted(h, vals, "bgqsd,bgtd->bgqst"@, seq![q3, k3], h.sf(k3) as nat, s1)
    &&& single(h, r, recip, h.sf_log)
    &&& contracted(h, vals, "bgqst,z->bgqst"@, seq![s1, r], h.sf_log as nat, s2)
    &&& is_softmax(h, vals, seq_len, s2, p)
    &&& contracted(h, vals, "bgqst,bgtd->bgqsd"@, seq![p, v3], h.sf(v3) as nat, y)
    &&& contracted(h, vals, "bgqsd->bsqgd"@, seq![y], 0, yg)
    &&& same_words(h, vals, yg, y1)
    &&& h.shape(y1) == shape
    &&& heads_joined(h, vals, y1, seq![1, seq_len, (num_heads * head_dim) as usize], y2)
    &&& contracted(h, vals, rows, seq![y2, w[3]], h.sf(w[3]) as nat, o)
}

pub broadcast proof fn grown_grouped_attention(
    g: Graph,
    w_q: EdgeId,
    w_k: EdgeId,
    w_v: EdgeId,
    w_o: EdgeId,
    cos: EdgeId,
    sin: EdgeId,
    num_heads: usize,
    num_kv: usize,
    head_dim: usize,
    seq_len: usize,
    recip: u64,
    x: EdgeId,
    h: Graph,
)
    ensures
        #[trigger] grown(
            g.grouped_attention(
                w_q,
                w_k,
                w_v,
                w_o,
                cos,
                sin,
                num_heads,
                num_kv,
                head_dim,
                seq_len,
                recip,
                x,
            ).0,
            h,
        ) ==> ({
            let (g1, o) = g.grouped_attention(
                w_q,
                w_k,
                w_v,
                w_o,
                cos,
                sin,
                num_heads,
                num_kv,
                head_dim,
                seq_len,
                recip,
                x,
            );
            &&& grown(g, h)
            &&& g1.nodes.len() >= g.nodes.len()
            &&& g1.values.len() >= g.values.len()
            &&& o < h.values.len()
        }),
{
    reveal(Graph::grouped_attention);
    broadcast use {group_grown, group_parts, group_attention};

}

/// Attention over groups does what it says, for heads whose width is a power of two. The tensors in between
/// are returned.
#[verifier::rlimit(100)]
pub proof fn lemma_grouped_attention(
    s: Graph,
    g: Graph,
    w: Seq<EdgeId>,
    num_heads: usize,
    num_kv: usize,
    head_dim: usize,
    seq_len: usize,
    cos: EdgeId,
    sin: EdgeId,
    recip: u64,
    x: EdgeId,
    h: Graph,
    vals: Numbers,
) -> (es: Seq<EdgeId>)
    requires
        seen(s, g, h, vals),
        grown(
            g.grouped_attention(
                w[0],
                w[1],
                w[2],
                w[3],
                cos,
                sin,
                num_heads,
                num_kv,
                head_dim,
                seq_len,
                recip,
                x,
            ).0,
            h,
        ),
        h.rank(x) == 3,
        h.shape(x)[1] == seq_len,
        h.shape(w[0]).len() == 2 && h.shape(w[0])[0] == h.shape(x)[2],
        h.shape(w[1]).len() == 2 && h.shape(w[1])[0] == h.shape(x)[2],
        h.shape(w[2]).len() == 2 && h.shape(w[2])[0] == h.shape(x)[2],
        h.shape(cos) == seq![seq_len, head_dim],
        h.shape(sin) == seq![seq_len, head_dim],
        padded(head_dim as nat) == head_dim,
        h.sf(x) <= 55,
    ensures
        ({
            let o = g.grouped_attention(
                w[0],
                w[1],
                w[2],
                w[3],
                cos,
                sin,
                num_heads,
                num_kv,
                head_dim,
                seq_len,
                recip,
                x,
            ).1;
            &&& attends_grouped(
                h,
                vals,
                w,
                num_heads,
                num_kv,
                head_dim,
                seq_len,
                cos,
                sin,
                recip,
                x,
                es,
                o,
            )
            &&& h.rank(w[3]) == 2 && h.shape(w[3])[0] == num_heads * head_dim ==> h.shape(o) == seq![
                1,
                seq_len,
                h.shape(w[3])[1],
            ]
            &&& h.sf(o) == h.sf_log
        }),
{
    reveal(Graph::grouped_attention);
    broadcast use {group_grown, group_parts, group_attention};

    let rows = "bsi,ij->bsj"@;
    let flip = "bsgd->bgsd"@;
    let shape = seq![1, seq_len, num_heads, head_dim];
    let shared = seq![1, seq_len, num_kv, head_dim];
    let wide = seq![1, seq_len, (num_heads * head_dim) as usize];
    let group = (num_heads / num_kv) as usize;
    let (e1, e2, e3) = ("bgqsd,bgtd->bgqst"@, "bgqst,z->bgqst"@, "bgqst,bgtd->bgqsd"@);
    let g0 = g.require(num_heads * head_dim <= usize::MAX && num_kv > 0);
    let (g1, q) = g0.einsum(rows, seq![x, w[0]], true);
    let (g2, k) = g1.einsum(rows, seq![x, w[1]], true);
    let (g3, v) = g2.einsum(rows, seq![x, w[2]], true);
    let (g4, q1) = g3.reshape(q, shape);
    let (g5, k1) = g4.reshape(k, shared);
    let (g6, v1) = g5.reshape(v, shared);
    let (g7, q2) = g6.turned(q1, cos, sin);
    let (g8, k2) = g7.turned(k1, cos, sin);
    let (ga, qg) = g8.change_shape(q2, seq![1, seq_len, group, num_kv, head_dim]);
    let (g9, q3) = ga.einsum("bsqgd->bgqsd"@, seq![qg], false);
    let (g10, k3) = g9.einsum(flip, seq![k2], false);
    let (g11, v3) = g10.einsum(flip, seq![v1], false);
    let (g12, s1) = g11.einsum(e1, seq![q3, k3], true);
    let (g13, r) = g12.constant(recip, g.sf_log);
    let (g14, s2) = g13.einsum(e2, seq![s1, r], true);
    let (g15, p) = g14.softmax_of(seq_len, s2);
    let (g16, y) = g15.einsum(e3, seq![p, v3], true);
    let (gb, yg) = g16.einsum("bgqsd->bsqgd"@, seq![y], false);
    let (g17, y1) = gb.change_shape(yg, shape);
    let (g18, y2) = g17.reshape(y1, wide);
    let (g19, o) = g18.einsum(rows, seq![y2, w[3]], true);
    assert(grown(g19, h) && grown(g18, h) && grown(g17, h) && grown(gb, h) && grown(g16, h) && grown(g15, h));
    assert(grown(g14, h) && grown(g13, h) && grown(g12, h) && grown(g11, h) && grown(g10, h));
    assert(grown(g9, h) && grown(ga, h) && grown(g8, h) && grown(g7, h) && grown(g6, h) && grown(g5, h));
    assert(grown(g4, h) && grown(g3, h) && grown(g2, h) && grown(g1, h) && grown(g0, h) && grown(g, h));
    assert(g0.has(seq![x, w[0]][0]));
    lemma_kept(g0, h, x);
    lemma_step_einsum(s, g0, rows, seq![x, w[0]], true, h, vals);
    lemma_step_einsum(s, g1, rows, seq![x, w[1]], true, h, vals);
    lemma_step_einsum(s, g2, rows, seq![x, w[2]], true, h, vals);
    lemma_projected(h, vals, x, w[0], h.sf(w[0]) as nat, q);
    lemma_projected(h, vals, x, w[1], h.sf(w[1]) as nat, k);
    lemma_projected(h, vals, x, w[2], h.sf(w[2]) as nat, v);
    lemma_cut(s, g3, q, shape, h, vals);
    lemma_cut(s, g4, k, shared, h, vals);
    lemma_cut(s, g5, v, shared, h, vals);
    lemma_turned(s, g6, q1, cos, sin, h, vals);
    lemma_turned(s, g7, k1, cos, sin, h, vals);
    lemma_step_change_shape(s, g8, q2, seq![1, seq_len, group, num_kv, head_dim], h, vals);
    lemma_step_einsum(s, ga, "bsqgd->bgqsd"@, seq![qg], false, h, vals);
    lemma_step_einsum(s, g9, flip, seq![k2], false, h, vals);
    lemma_step_einsum(s, g10, flip, seq![v1], false, h, vals);
    lemma_step_einsum(s, g11, e1, seq![q3, k3], true, h, vals);
    lemma_step_einsum(s, g13, e2, seq![s1, r], true, h, vals);
    assert(h.sf(s2) <= 55) by {
        reveal_with_fuel(Graph::sf_sum, 2);
        assert(seq![qg].drop_last() =~= Seq::<EdgeId>::empty());
        assert(ga.has(seq![qg][0]));
        lemma_kept(ga, h, qg);
        lemma_turned_scale(g6, q1, cos, sin, h);
        assert(h.sf(q) == h.sf(x));
        assert(h.sf(q3) == h.sf(qg));
    }
    lemma_softmax_of(s, g14, seq_len, s2, h, vals);
    lemma_step_einsum(s, g15, e3, seq![p, v3], true, h, vals);
    lemma_step_einsum(s, g16, "bgqsd->bsqgd"@, seq![y], false, h, vals);
    assert(h.sf(yg) == h.sf(y)) by {
        reveal_with_fuel(Graph::sf_sum, 2);
        assert(seq![y].drop_last() =~= Seq::<EdgeId>::empty());
        assert(g16.has(seq![y][0]));
        lemma_kept(g16, h, y);
    }
    lemma_step_change_shape(s, gb, yg, shape, h, vals);
    lemma_join(s, g17, y1, wide, h, vals);
    lemma_step_einsum(s, g18, rows, seq![y2, w[3]], true, h, vals);
    if h.rank(w[3]) == 2 && h.shape(w[3])[0] == num_heads * head_dim {
        lemma_projected(h, vals, y2, w[3], h.sf(w[3]) as nat, o);
    }
    seq![q, k, v, q1, k1, v1, q2, k2, q3, k3, v3, r, s1, s2, p, y, y1, y2, qg, yg]
}

} // verus!
