//! What attention, gated layers and the blocks of transformers compute.
use vstd::prelude::*;

use crate::dag::block::{Block, Op};
use crate::dag::graph::Graph;
use crate::dag::growth::{
    contracted, group_grown, grown, lemma_kept, lemma_step_add, lemma_step_einsum, seen,
};
use crate::dag::layer_laws::{causally_masked, grown_causal_mask, lemma_causal_mask, lemma_joint_same};
use crate::dag::meaning::{added, Numbers};
use crate::dag::reading::{lemma_entrywise, lemma_projected};
use crate::dag::transformer_laws::{exponential, grown_exp, lemma_exp};
use crate::dag::types::EdgeId;

verus! {

/// A node of the graph applies `op` to `inputs` and writes `o`.
pub open spec fn computed(h: Graph, op: Op, inputs: Seq<EdgeId>, o: EdgeId) -> bool {
    exists|n: int|
        0 <= n < h.nodes.len() && (#[trigger] h.nodes[n]).kind == Block::Op(op) && h.nodes[n].inputs == inputs
            && h.nodes[n].outputs == seq![o]
}

/// `o` is an exponential of `a`.
pub open spec fn is_exponential(h: Graph, vals: Numbers, a: EdgeId, o: EdgeId) -> bool {
    exists|es: Seq<EdgeId>| #[trigger] exponential(h, vals, a, es, o)
}

/// `o` is the exponential of `a` plus the constant of its segments.
pub open spec fn is_sigmoid(h: Graph, vals: Numbers, a: EdgeId, o: EdgeId) -> bool {
    exists|c: EdgeId, s: EdgeId|
        #![trigger added(h, vals, a, c, s)]
        computed(
            h,
            Op::SigmoidConst { segments: 8 },
            seq![a],
            c,
        ) && added(h, vals, a, c, s) && is_exponential(
            h,
            vals,
            s,
            o,
        )
}

/// A block with one input stands in the graph.
pub proof fn lemma_alike(g: Graph, op: Op, a: EdgeId, h: Graph)
    requires
        grown(g.alike(op, a).0, h),
    ensures
        computed(h, op, seq![a], g.alike(op, a).1),
{
    reveal(Graph::alike);
    reveal(grown);
    let n = g.nodes.len() as int;
    let (g1, o) = g.alike(op, a);
    assert(h.nodes[n] == g1.nodes[n]);
    assert(h.nodes[n].outputs =~= seq![o]);
}

pub broadcast proof fn grown_sigmoid(g: Graph, a: EdgeId, h: Graph)
    ensures
        #[trigger] grown(g.sigmoid(a).0, h) ==> grown(g, h) && a < g.values.len() && g.sigmoid(a).1 < h.values.len()
            && g.sigmoid(a).0.nodes.len() >= g.nodes.len() && g.sigmoid(a).0.values.len() >= g.values.len()
            && h.sf(g.sigmoid(a).1) == h.sf_log && h.shape(g.sigmoid(a).1) == h.shape(a),
{
    reveal(Graph::sigmoid);
    broadcast use {group_grown, grown_exp};

    lemma_joint_same(h.shape(a));
    if grown(g.sigmoid(a).0, h) {
        let (g1, c) = g.sigmoid_const(a);
        let (g2, t) = g1.add(a, c);
        assert(grown(g2, h) && grown(g1, h));
    }
}

/// A sigmoid is the exponential of its input plus the constant of its segments.
pub proof fn lemma_sigmoid(s: Graph, g: Graph, a: EdgeId, h: Graph, vals: Numbers)
    requires
        seen(s, g, h, vals),
        grown(g.sigmoid(a).0, h),
    ensures
        is_sigmoid(h, vals, a, g.sigmoid(a).1),
{
    reveal(Graph::sigmoid);
    broadcast use {group_grown, grown_exp};

    let (g1, c) = g.sigmoid_const(a);
    let (g2, t) = g1.add(a, c);
    let (g3, o) = g2.exp(t);
    assert(grown(g3, h) && grown(g2, h) && grown(g1, h));
    lemma_alike(g, Op::SigmoidConst { segments: 8 }, a, h);
    lemma_step_add(s, g1, a, c, h, vals);
    let es = lemma_exp(s, g2, t, h, vals);
    assert(exponential(h, vals, t, es, o));
}

/// `o` is the gated layer of `x`: one projection times its sigmoid, times another projection, projected
/// back. `es` are the tensors in between.
pub open spec fn gates(
    h: Graph,
    vals: Numbers,
    w_1: EdgeId,
    w_2: EdgeId,
    w_3: EdgeId,
    x: EdgeId,
    es: Seq<EdgeId>,
    o: EdgeId,
) -> bool {
    let (h_1, gate, swish, h_2, both) = (es[0], es[1], es[2], es[3], es[4]);
    let rows = "bsi,ij->bsj"@;
    let mul = "bsi,bsi->bsi"@;
    &&& es.len() == 5
    &&& contracted(h, vals, rows, seq![x, w_1], h.sf(w_1) as nat, h_1)
    &&& is_sigmoid(h, vals, h_1, gate)
    &&& contracted(h, vals, mul, seq![h_1, gate], h.sf_log as nat, swish)
    &&& contracted(h, vals, rows, seq![x, w_2], h.sf(w_2) as nat, h_2)
    &&& contracted(h, vals, mul, seq![swish, h_2], h.sf(x) as nat, both)
    &&& contracted(h, vals, rows, seq![both, w_3], h.sf(w_3) as nat, o)
}

pub broadcast proof fn grown_gated_mlp(g: Graph, w_1: EdgeId, w_2: EdgeId, w_3: EdgeId, x: EdgeId, h: Graph)
    ensures
        #[trigger] grown(g.gated_mlp(w_1, w_2, w_3, x).0, h) ==> grown(g, h) && g.gated_mlp(
            w_1,
            w_2,
            w_3,
            x,
        ).0.nodes.len() >= g.nodes.len() && g.gated_mlp(w_1, w_2, w_3, x).0.values.len() >= g.values.len()
            && g.gated_mlp(w_1, w_2, w_3, x).1 < h.values.len(),
{
    reveal(Graph::gated_mlp);
    broadcast use {group_grown, grown_sigmoid};

}

/// A gated layer does what it says. The tensors in between are returned.
pub proof fn lemma_gated_mlp(
    s: Graph,
    g: Graph,
    w_1: EdgeId,
    w_2: EdgeId,
    w_3: EdgeId,
    x: EdgeId,
    h: Graph,
    vals: Numbers,
) -> (es: Seq<EdgeId>)
    requires
        seen(s, g, h, vals),
        grown(g.gated_mlp(w_1, w_2, w_3, x).0, h),
    ensures
        gates(h, vals, w_1, w_2, w_3, x, es, g.gated_mlp(w_1, w_2, w_3, x).1),
        h.rank(x) == 3 && h.rank(w_1) == 2 && h.shape(w_1)[0] == h.shape(x)[2] && h.shape(w_2) == h.shape(w_1)
            && h.rank(w_3) == 2 && h.shape(w_3)[0] == h.shape(w_1)[1] ==> h.shape(
            g.gated_mlp(w_1, w_2, w_3, x).1,
        ) == seq![h.shape(x)[0], h.shape(x)[1], h.shape(w_3)[1]],
        h.sf(g.gated_mlp(w_1, w_2, w_3, x).1) == h.sf(x),
{
    reveal(Graph::gated_mlp);
    broadcast use {group_grown, grown_sigmoid};

    let rows = "bsi,ij->bsj"@;
    let mul = "bsi,bsi->bsi"@;
    let (g1, h_1) = g.einsum(rows, seq![x, w_1], true);
    let (g2, gate) = g1.sigmoid(h_1);
    let (g3, swish) = g2.einsum(mul, seq![h_1, gate], true);
    let (g4, h_2) = g3.einsum(rows, seq![x, w_2], true);
    let (g5, both) = g4.einsum(mul, seq![swish, h_2], true);
    let (g6, o) = g5.einsum(rows, seq![both, w_3], true);
    assert(grown(g6, h) && grown(g5, h) && grown(g4, h) && grown(g3, h) && grown(g2, h) && grown(g1, h));
    lemma_step_einsum(s, g, rows, seq![x, w_1], true, h, vals);
    lemma_sigmoid(s, g1, h_1, h, vals);
    lemma_step_einsum(s, g2, mul, seq![h_1, gate], true, h, vals);
    lemma_step_einsum(s, g3, rows, seq![x, w_2], true, h, vals);
    lemma_step_einsum(s, g4, mul, seq![swish, h_2], true, h, vals);
    lemma_step_einsum(s, g5, rows, seq![both, w_3], true, h, vals);
    if h.rank(x) == 3 && h.rank(w_1) == 2 && h.shape(w_1)[0] == h.shape(x)[2] && h.shape(w_2) == h.shape(w_1)
        && h.rank(w_3) == 2 && h.shape(w_3)[0] == h.shape(w_1)[1] {
        lemma_projected(h, vals, x, w_1, h.sf(w_1) as nat, h_1);
        lemma_projected(h, vals, x, w_2, h.sf(w_2) as nat, h_2);
        lemma_entrywise(h, vals, h_1, gate, h.sf_log as nat, swish);
        lemma_entrywise(h, vals, swish, h_2, h.sf(x) as nat, both);
        lemma_projected(h, vals, both, w_3, h.sf(w_3) as nat, o);
    }
    seq![h_1, gate, swish, h_2, both]
}

/// `o` holds the scores, masked where a later position would be seen.
pub open spec fn masked(h: Graph, vals: Numbers, seq_len: usize, scores: EdgeId, o: EdgeId) -> bool {
    if seq_len > 1 {
        causally_masked(h, vals, scores, seq_len, o)
    } else {
        o == scores
    }
}

/// `o` is the softmax of the masked scores: the exponential of the masked scores plus their constants.
pub open spec fn is_softmax(h: Graph, vals: Numbers, seq_len: usize, scores: EdgeId, o: EdgeId) -> bool {
    exists|m: EdgeId, c: EdgeId, t: EdgeId|
        #![trigger masked(h, vals, seq_len, scores, m), added(h, vals, m, c, t)]
        masked(h, vals, seq_len, scores, m) && computed(
            h,
            Op::SoftmaxConst { dim: h.shape(m)[h.rank(m) - 1] },
            seq![m],
            c,
        ) && added(h, vals, m, c, t) && is_exponential(h, vals, t, o)
}

pub broadcast proof fn grown_softmax_const(g: Graph, a: EdgeId, h: Graph)
    ensures
        #[trigger] grown(g.softmax_const(a).0, h) ==> grown(g, h) && a < g.values.len() && g.softmax_const(a).1
            < h.values.len() && g.softmax_const(a).0.nodes.len() >= g.nodes.len() && g.softmax_const(
            a,
        ).0.values.len() >= g.values.len() && h.shape(g.softmax_const(a).1) == h.shape(a) && h.sf(
            g.softmax_const(a).1,
        ) == h.sf(a) && computed(h, Op::SoftmaxConst { dim: h.shape(a)[h.rank(a) - 1] }, seq![a], g.softmax_const(a).1),
{
    reveal(Graph::softmax_const);
    broadcast use group_grown;

    if grown(g.softmax_const(a).0, h) {
        let q = g.require(g.has_rank(a, 1));
        lemma_alike(q, Op::SoftmaxConst { dim: g.shape(a)[g.rank(a) - 1] }, a, h);
        assert(grown(q, h));
        lemma_kept(g, h, a);
    }
}

pub broadcast proof fn grown_softmax_of(g: Graph, seq_len: usize, scores: EdgeId, h: Graph)
    ensures
        #[trigger] grown(g.softmax_of(seq_len, scores).0, h) ==> grown(g, h) && scores < g.values.len()
            && g.softmax_of(seq_len, scores).1 < h.values.len() && g.softmax_of(seq_len, scores).0.nodes.len()
            >= g.nodes.len() && g.softmax_of(seq_len, scores).0.values.len() >= g.values.len() && h.sf(
            g.softmax_of(seq_len, scores).1,
        ) == h.sf_log,
{
    reveal(Graph::softmax_of);
    broadcast use {group_grown, grown_exp, grown_causal_mask, grown_softmax_const};

    if grown(g.softmax_of(seq_len, scores).0, h) {
        let q = g.require(true);
        let (g1, m) = if seq_len > 1 { q.causal_mask(scores, seq_len) } else { (q, scores) };
        let (g2, c) = g1.softmax_const(m);
        let (g3, t) = g2.add(m, c);
        assert(grown(g3, h) && grown(g2, h) && grown(g1, h));
        assert(grown(q, h));
    }
}

/// Where the scores can be masked, their softmax is that of the masked scores.
pub proof fn lemma_softmax_of(s: Graph, g: Graph, seq_len: usize, scores: EdgeId, h: Graph, vals: Numbers)
    requires
        seen(s, g, h, vals),
        grown(g.softmax_of(seq_len, scores).0, h),
        h.sf(scores) <= 55,
    ensures
        is_softmax(h, vals, seq_len, scores, g.softmax_of(seq_len, scores).1),
{
    reveal(Graph::softmax_of);
    broadcast use {group_grown, grown_exp, grown_causal_mask, grown_softmax_const};

    let q = g.require(true);
    let (g1, m) = if seq_len > 1 { q.causal_mask(scores, seq_len) } else { (q, scores) };
    let (g2, c) = g1.softmax_const(m);
    let (g3, t) = g2.add(m, c);
    let (g4, o) = g3.exp(t);
    assert(grown(g4, h) && grown(g3, h) && grown(g2, h) && grown(g1, h));
    assert(grown(q, h));
    if seq_len > 1 {
        lemma_causal_mask(s, q, scores, seq_len, h, vals);
    }
    lemma_step_add(s, g2, m, c, h, vals);
    let es = lemma_exp(s, g3, t, h, vals);
    assert(exponential(h, vals, t, es, o));
    assert(masked(h, vals, seq_len, scores, m));
}

} // verus!
