//! What the blocks of transformers compute.
use vstd::prelude::*;

use crate::dag::attention_laws::{
    attends, attends_grouped, grown_attention, grown_grouped_attention, lemma_attention, lemma_grouped_attention,
};
use crate::dag::block_laws::{gates, grown_gated_mlp, lemma_gated_mlp};
use crate::dag::graph::Graph;
use crate::dag::growth::{
    contracted, group_grown, grown, grown_boundary, lemma_kept, lemma_step_add, lemma_step_change_shape,
    lemma_step_einsum, seen,
};
use crate::dag::layer_laws::lemma_joint_same;
use crate::dag::llama::{row, tall, Heads};
use crate::dag::meaning::{inside, lemma_aligned_same, same_words, Numbers};
use crate::dag::norm_laws::{grown_rms_norm, lemma_rms_norm, normalized};
use crate::dag::types::EdgeId;
use crate::dag::witness::Tensor;
use crate::util::arith::padded;

verus! {

/// Parameters have the tensors that they are loaded from.
pub proof fn lemma_loaded(g: Graph, ts: Seq<Tensor>, k: nat, h: Graph)
    requires
        grown(g.load_params(ts, k).0, h),
        k <= ts.len(),
    ensures
        grown(g, h),
        g.load_params(ts, k).0.nodes.len() == g.nodes.len(),
        g.load_params(ts, k).0.values.len() >= g.values.len(),
        g.load_params(ts, k).1.len() == k,
        forall|i: int| 0 <= i < k ==> h.values[(#[trigger] g.load_params(ts, k).1[i]) as int] == ts[i],
    decreases k,
{
    broadcast use group_grown;

    if k > 0 {
        let (g1, es) = g.load_params(ts, (k - 1) as nat);
        assert(grown(g1.param(ts[k - 1]).0, h));
        lemma_loaded(g, ts, (k - 1) as nat, h);
        let all = g.load_params(ts, k).1;
        assert forall|i: int| 0 <= i < k implies h.values[(#[trigger] all[i]) as int] == ts[i] by {
            if i < k - 1 {
                assert(all[i] == es[i]);
            }
        }
    }
}

/// `o` is a normalization of `x` by weights `w`.
pub open spec fn is_normalized(h: Graph, vals: Numbers, w: EdgeId, x: EdgeId, o: EdgeId) -> bool {
    exists|es: Seq<EdgeId>| #[trigger] normalized(h, vals, w, x, es, o)
}

/// `o` is a gated layer of `x`.
pub open spec fn is_gated(
    h: Graph,
    vals: Numbers,
    w_1: EdgeId,
    w_2: EdgeId,
    w_3: EdgeId,
    x: EdgeId,
    o: EdgeId,
) -> bool {
    exists|es: Seq<EdgeId>| #[trigger] gates(h, vals, w_1, w_2, w_3, x, es, o)
}

/// `o` is the attention of `x` over heads with weights `w`.
pub open spec fn is_attention(
    h: Graph,
    vals: Numbers,
    w: Seq<EdgeId>,
    grouped: bool,
    s: Heads,
    cos: EdgeId,
    sin: EdgeId,
    x: EdgeId,
    o: EdgeId,
) -> bool {
    if grouped {
        exists|es: Seq<EdgeId>| #[trigger]
            attends_grouped(
                h,
                vals,
                w,
                s.num_heads,
                s.num_kv,
                s.head_dim,
                s.seq_len,
                cos,
                sin,
                s.recip,
                x,
                es,
                o,
            )
    } else {
        exists|es: Seq<EdgeId>| #[trigger]
            attends(h, vals, w, s.num_heads, s.head_dim, s.seq_len, cos, sin, s.recip, x, es, o)
    }
}

/// `o` is `a` plus `b`, entry by entry; all three have one shape.
pub open spec fn is_sum(h: Graph, vals: Numbers, a: EdgeId, b: EdgeId, o: EdgeId) -> bool {
    &&& h.shape(a) == h.shape(b)
    &&& h.shape(o) == h.shape(b)
    &&& forall|idx: Seq<int>| #[trigger]
        inside(h.shape(b), idx) ==> vals(o)(idx) == vals(a)(idx) + vals(b)(idx)
}

/// The sum of two tensors of one shape.
pub proof fn lemma_step_sum(s: Graph, g: Graph, a: EdgeId, b: EdgeId, h: Graph, vals: Numbers)
    requires
        seen(s, g, h, vals),
        grown(g.add(a, b).0, h),
        h.shape(a) == h.shape(b),
    ensures
        is_sum(h, vals, a, b, g.add(a, b).1),
{
    broadcast use group_grown;

    lemma_step_add(s, g, a, b, h, vals);
    lemma_joint_same(h.shape(b));
    assert forall|idx: Seq<int>| #[trigger] inside(h.shape(b), idx) implies vals(g.add(a, b).1)(idx) == vals(a)(idx)
        + vals(b)(idx) by {
        lemma_aligned_same(h.shape(b), idx);
    }
}

/// The weights of a block fit its input, whose rows have `n` entries.
pub open spec fn weights_fit(ts: Seq<Tensor>, s: Heads, n: usize) -> bool {
    &&& ts.len() >= 9
    &&& n < 0x8000_0000_0000_0000
    &&& ts[0].shape == seq![n]
    &&& ts[1].shape.len() == 2 && ts[1].shape[0] == n
    &&& ts[2].shape.len() == 2 && ts[2].shape[0] == n
    &&& ts[3].shape.len() == 2 && ts[3].shape[0] == n
    &&& ts[4].shape.len() == 2 && ts[4].shape[0] == s.num_heads * s.head_dim && ts[4].shape[1] == n
    &&& ts[5].shape == seq![n]
    &&& ts[6].shape.len() == 2 && ts[6].shape[0] == n
    &&& ts[7].shape.len() == 2 && ts[7].shape[0] == n && ts[7].shape[1] == ts[6].shape[1]
    &&& ts[8].shape.len() == 2 && ts[8].shape[0] == ts[6].shape[1] && ts[8].shape[1] == n
}

/// A block computes `mid = x + attention(norm(x))` and `o = mid + layer(norm(mid))`, each with the weights
/// that it was given for it: `w` are their edges, and `n1, a, mid, n2, m` the tensors in between.
pub open spec fn is_block(
    h: Graph,
    vals: Numbers,
    ts: Seq<Tensor>,
    grouped: bool,
    s: Heads,
    cos: EdgeId,
    sin: EdgeId,
    x: EdgeId,
    w: Seq<EdgeId>,
    es: Seq<EdgeId>,
    o: EdgeId,
) -> bool {
    let (n1, a, mid, n2, m) = (es[0], es[1], es[2], es[3], es[4]);
    &&& w.len() == 9
    &&& forall|i: int| 0 <= i < 9 ==> h.values[(#[trigger] w[i]) as int] == ts[i]
    &&& is_normalized(h, vals, w[0], x, n1)
    &&& is_attention(h, vals, w.subrange(1, 5), grouped, s, cos, sin, n1, a)
    &&& is_sum(h, vals, a, x, mid)
    &&& is_normalized(h, vals, w[5], mid, n2)
    &&& is_gated(h, vals, w[6], w[7], w[8], n2, m)
    &&& is_sum(h, vals, m, mid, o)
}

/// A block of Llama 2 computes attention and a gated layer, each of its normalized input and added to it. The edges of
/// the weights and the tensors in between are returned.
#[verifier::rlimit(60)]
pub proof fn lemma_llama_block(
    b: Graph,
    g: Graph,
    ts: Seq<Tensor>,
    s: Heads,
    cos: EdgeId,
    sin: EdgeId,
    x: EdgeId,
    h: Graph,
    vals: Numbers,
) -> (r: (Seq<EdgeId>, Seq<EdgeId>))
    requires
        seen(b, g, h, vals),
        grown(g.llama_block(ts, s, cos, sin, x).0, h),
        h.rank(x) == 3,
        h.shape(x)[0] == 1,
        h.shape(x)[1] == s.seq_len,
        weights_fit(ts, s, h.shape(x)[2]),
        h.shape(cos) == seq![s.seq_len, s.head_dim],
        h.shape(sin) == seq![s.seq_len, s.head_dim],
        padded(s.head_dim as nat) == s.head_dim,
        h.sf(x) <= 55,
        h.sf_log < 63,
    ensures
        is_block(h, vals, ts, false, s, cos, sin, x, r.0, r.1, g.llama_block(ts, s, cos, sin, x).1),
        h.shape(g.llama_block(ts, s, cos, sin, x).1) == h.shape(x),
        h.sf(g.llama_block(ts, s, cos, sin, x).1) == h.sf_log,
{
    reveal(Graph::llama_block);
    broadcast use {group_grown, grown_rms_norm, grown_attention, grown_gated_mlp};

    let n = h.shape(x)[2];
    let (g1, w) = g.load_params(ts, 9);
    let p1 = g1.require(g1.has(x) && g1.rank(x) > 1);
    let (g2, n1) = p1.rms_norm(w[0], p1.shape(x)[1], x);
    let (g3, a) = g2.attention(
        w[1],
        w[2],
        w[3],
        w[4],
        s.num_heads,
        s.head_dim,
        s.seq_len,
        cos,
        sin,
        s.recip,
        n1,
    );
    let (g4, mid) = g3.add(a, x);
    let p2 = g4.require(g4.has(mid) && g4.rank(mid) > 1);
    let (g5, n2) = p2.rms_norm(w[5], p2.shape(mid)[1], mid);
    let (g6, m) = g5.gated_mlp(w[6], w[7], w[8], n2);
    let (g7, o) = g6.add(m, mid);
    assert(grown(g7, h) && grown(g6, h) && grown(g5, h));
    assert(grown(p2, h));
    assert(grown(g4, h) && grown(g3, h) && grown(g2, h));
    assert(grown(p1, h));
    assert(grown(g1, h));
    lemma_loaded(g, ts, 9, h);
    assert(h.shape(w[0]) == ts[0].shape && h.shape(w[1]) == ts[1].shape && h.shape(w[2]) == ts[2].shape);
    assert(h.shape(w[3]) == ts[3].shape && h.shape(w[4]) == ts[4].shape && h.shape(w[5]) == ts[5].shape);
    assert(h.shape(w[6]) == ts[6].shape && h.shape(w[7]) == ts[7].shape && h.shape(w[8]) == ts[8].shape);
    assert(ts[7].shape =~= ts[6].shape);
    lemma_kept(p1, h, x);
    let es1 = lemma_rms_norm(b, p1, w[0], p1.shape(x)[1], x, h, vals);
    assert(normalized(h, vals, w[0], x, es1, n1));
    assert(h.shape(n1) == h.shape(x));
    let v = w.subrange(1, 5);
    assert(v[0] == w[1] && v[1] == w[2] && v[2] == w[3] && v[3] == w[4]);
    let es2 = lemma_attention(
        b,
        g2,
        v,
        s.num_heads,
        s.head_dim,
        s.seq_len,
        cos,
        sin,
        s.recip,
        n1,
        h,
        vals,
    );
    assert(attends(h, vals, v, s.num_heads, s.head_dim, s.seq_len, cos, sin, s.recip, n1, es2, a));
    assert(h.shape(a) =~= h.shape(x));
    lemma_step_sum(b, g3, a, x, h, vals);
    lemma_kept(g4, h, mid);
    let es3 = lemma_rms_norm(b, p2, w[5], p2.shape(mid)[1], mid, h, vals);
    assert(normalized(h, vals, w[5], mid, es3, n2));
    assert(h.shape(n2) == h.shape(mid));
    let es4 = lemma_gated_mlp(b, g5, w[6], w[7], w[8], n2, h, vals);
    assert(gates(h, vals, w[6], w[7], w[8], n2, es4, m));
    assert(h.shape(m) =~= h.shape(mid));
    lemma_step_sum(b, g6, m, mid, h, vals);
    (w, seq![n1, a, mid, n2, m])
}

/// A block of Llama 3 computes attention over groups and a gated layer, each of its normalized input and added to it. The edges of
/// the weights and the tensors in between are returned.
#[verifier::rlimit(60)]
pub proof fn lemma_llama3_block(
    b: Graph,
    g: Graph,
    ts: Seq<Tensor>,
    s: Heads,
    cos: EdgeId,
    sin: EdgeId,
    x: EdgeId,
    h: Graph,
    vals: Numbers,
) -> (r: (Seq<EdgeId>, Seq<EdgeId>))
    requires
        seen(b, g, h, vals),
        grown(g.llama3_block(ts, s, cos, sin, x).0, h),
        h.rank(x) == 3,
        h.shape(x)[0] == 1,
        h.shape(x)[1] == s.seq_len,
        weights_fit(ts, s, h.shape(x)[2]),
        h.shape(cos) == seq![s.seq_len, s.head_dim],
        h.shape(sin) == seq![s.seq_len, s.head_dim],
        padded(s.head_dim as nat) == s.head_dim,
        h.sf(x) <= 55,
        h.sf_log < 63,
    ensures
        is_block(h, vals, ts, true, s, cos, sin, x, r.0, r.1, g.llama3_block(ts, s, cos, sin, x).1),
        h.shape(g.llama3_block(ts, s, cos, sin, x).1) == h.shape(x),
        h.sf(g.llama3_block(ts, s, cos, sin, x).1) == h.sf_log,
{
    reveal(Graph::llama3_block);
    broadcast use {group_grown, grown_rms_norm, grown_grouped_attention, grown_gated_mlp};

    let n = h.shape(x)[2];
    let (g1, w) = g.load_params(ts, 9);
    let p1 = g1;
    let (g2, n1) = p1.rms_norm(w[0], s.seq_len, x);
    let (g3, a) = g2.grouped_attention(
        w[1],
        w[2],
        w[3],
        w[4],
        cos,
        sin,
        s.num_heads,
        s.num_kv,
        s.head_dim,
        s.seq_len,
        s.recip,
        n1,
    );
    let (g4, mid) = g3.add(a, x);
    let p2 = g4;
    let (g5, n2) = p2.rms_norm(w[5], s.seq_len, mid);
    let (g6, m) = g5.gated_mlp(w[6], w[7], w[8], n2);
    let (g7, o) = g6.add(m, mid);
    assert(grown(g7, h) && grown(g6, h) && grown(g5, h));
    assert(grown(p2, h));
    assert(grown(g4, h) && grown(g3, h) && grown(g2, h));
    assert(grown(p1, h));
    assert(grown(g1, h));
    lemma_loaded(g, ts, 9, h);
    assert(h.shape(w[0]) == ts[0].shape && h.shape(w[1]) == ts[1].shape && h.shape(w[2]) == ts[2].shape);
    assert(h.shape(w[3]) == ts[3].shape && h.shape(w[4]) == ts[4].shape && h.shape(w[5]) == ts[5].shape);
    assert(h.shape(w[6]) == ts[6].shape && h.shape(w[7]) == ts[7].shape && h.shape(w[8]) == ts[8].shape);
    assert(ts[7].shape =~= ts[6].shape);
    lemma_kept(p1, h, x);
    let es1 = lemma_rms_norm(b, p1, w[0], s.seq_len, x, h, vals);
    assert(normalized(h, vals, w[0], x, es1, n1));
    assert(h.shape(n1) == h.shape(x));
    let v = w.subrange(1, 5);
    assert(v[0] == w[1] && v[1] == w[2] && v[2] == w[3] && v[3] == w[4]);
    let es2 = lemma_grouped_attention(
        b,
        g2,
        v,
        s.num_heads,
        s.num_kv,
        s.head_dim,
        s.seq_len,
        cos,
        sin,
        s.recip,
        n1,
        h,
        vals,
    );
    assert(attends_grouped(
        h,
        vals,
        v,
        s.num_heads,
        s.num_kv,
        s.head_dim,
        s.seq_len,
        cos,
        sin,
        s.recip,
        n1,
        es2,
        a,
    ));
    assert(h.shape(a) =~= h.shape(x));
    lemma_step_sum(b, g3, a, x, h, vals);
    lemma_kept(g4, h, mid);
    let es3 = lemma_rms_norm(b, p2, w[5], s.seq_len, mid, h, vals);
    assert(normalized(h, vals, w[5], mid, es3, n2));
    assert(h.shape(n2) == h.shape(mid));
    let es4 = lemma_gated_mlp(b, g5, w[6], w[7], w[8], n2, h, vals);
    assert(gates(h, vals, w[6], w[7], w[8], n2, es4, m));
    assert(h.shape(m) =~= h.shape(mid));
    lemma_step_sum(b, g6, m, mid, h, vals);
    (w, seq![n1, a, mid, n2, m])
}

pub broadcast proof fn grown_llama_block(
    g: Graph,
    ts: Seq<Tensor>,
    s: Heads,
    cos: EdgeId,
    sin: EdgeId,
    x: EdgeId,
    h: Graph,
)
    requires
        ts.len() >= 9,
    ensures
        #[trigger] grown(g.llama_block(ts, s, cos, sin, x).0, h) ==> grown(g, h) && g.llama_block(
            ts,
            s,
            cos,
            sin,
            x,
        ).0.nodes.len() >= g.nodes.len() && g.llama_block(ts, s, cos, sin, x).0.values.len() >= g.values.len(),
{
    reveal(Graph::llama_block);
    broadcast use {group_grown, grown_rms_norm, grown_attention, grown_gated_mlp};

    let g1 = g.load_params(ts, 9).0;
    if grown(g.llama_block(ts, s, cos, sin, x).0, h) {
        assert(grown(g1, h));
        lemma_loaded(g, ts, 9, h);
    }
}

pub broadcast proof fn grown_llama3_block(
    g: Graph,
    ts: Seq<Tensor>,
    s: Heads,
    cos: EdgeId,
    sin: EdgeId,
    x: EdgeId,
    h: Graph,
)
    requires
        ts.len() >= 9,
    ensures
        #[trigger] grown(g.llama3_block(ts, s, cos, sin, x).0, h) ==> grown(g, h) && g.llama3_block(
            ts,
            s,
            cos,
            sin,
            x,
        ).0.nodes.len() >= g.nodes.len() && g.llama3_block(ts, s, cos, sin, x).0.values.len() >= g.values.len(),
{
    reveal(Graph::llama3_block);
    broadcast use {group_grown, grown_rms_norm, grown_grouped_attention, grown_gated_mlp};

    let g1 = g.load_params(ts, 9).0;
    if grown(g.llama3_block(ts, s, cos, sin, x).0, h) {
        assert(grown(g1, h));
        lemma_loaded(g, ts, 9, h);
    }
}

/// The weights of layer `k`.
pub open spec fn layer_weights(cols: Seq<Seq<Tensor>>, k: int) -> Seq<Tensor> {
    Seq::new(9, |j: int| cols[j][k])
}

/// Every tensor of `xs` but the first is the block of the one before it, with the weights of its layer.
pub open spec fn layered(
    h: Graph,
    vals: Numbers,
    grouped: bool,
    cols: Seq<Seq<Tensor>>,
    s: Heads,
    cos: EdgeId,
    sin: EdgeId,
    xs: Seq<EdgeId>,
) -> bool {
    forall|k: int|
        0 <= k < xs.len() - 1 ==> #[trigger] follows(
            h,
            vals,
            grouped,
            layer_weights(cols, k),
            s,
            cos,
            sin,
            xs[k],
            xs[k + 1],
        )
}

/// `o` is the block of `x` with the given weights.
pub open spec fn follows(
    h: Graph,
    vals: Numbers,
    grouped: bool,
    ts: Seq<Tensor>,
    s: Heads,
    cos: EdgeId,
    sin: EdgeId,
    x: EdgeId,
    o: EdgeId,
) -> bool {
    exists|w: Seq<EdgeId>, es: Seq<EdgeId>| #[trigger] is_block(
        h,
        vals,
        ts,
        grouped,
        s,
        cos,
        sin,
        x,
        w,
        es,
        o,
    )
}

proof fn lemma_layers_grown(
    g: Graph,
    grouped: bool,
    cols: Seq<Seq<Tensor>>,
    s: Heads,
    cos: EdgeId,
    sin: EdgeId,
    x: EdgeId,
    n: nat,
    k: nat,
    h: Graph,
)
    requires
        grown(g.llama_layers(grouped, cols, s, cos, sin, x, n, k).0, h),
        cols.len() == 9,
        k <= n,
    ensures
        grown(g, h),
        g.llama_layers(grouped, cols, s, cos, sin, x, n, k).0.nodes.len() >= g.nodes.len(),
        g.llama_layers(grouped, cols, s, cos, sin, x, n, k).0.values.len() >= g.values.len(),
    decreases k,
{
    broadcast use {grown_boundary, grown_llama_block, grown_llama3_block};

    if k > 0 {
        let (g1, y) = g.llama_layers(grouped, cols, s, cos, sin, x, n, (k - 1) as nat);
        let (g2, o) = if grouped {
            g1.llama3_block(row(cols, k - 1), s, cos, sin, y)
        } else {
            g1.llama_block(row(cols, k - 1), s, cos, sin, y)
        };
        if k < n {
            assert(grown(g2.boundary(o), h));
        }
        assert(grown(g2, h));
        assert(grown(g1, h));
        lemma_layers_grown(g, grouped, cols, s, cos, sin, x, n, (k - 1) as nat, h);
    }
}

/// The layers of a model are blocks, one after the other, each with the weights of its layer. Their
/// inputs and outputs are returned.
pub proof fn lemma_llama_layers(
    b: Graph,
    g: Graph,
    grouped: bool,
    cols: Seq<Seq<Tensor>>,
    s: Heads,
    cos: EdgeId,
    sin: EdgeId,
    x: EdgeId,
    n: nat,
    k: nat,
    h: Graph,
    vals: Numbers,
) -> (xs: Seq<EdgeId>)
    requires
        seen(b, g, h, vals),
        grown(g.llama_layers(grouped, cols, s, cos, sin, x, n, k).0, h),
        cols.len() == 9,
        k <= n,
        h.rank(x) == 3,
        h.shape(x)[0] == 1,
        h.shape(x)[1] == s.seq_len,
        forall|i: int| 0 <= i < k ==> weights_fit(#[trigger] layer_weights(cols, i), s, h.shape(x)[2]),
        h.shape(cos) == seq![s.seq_len, s.head_dim],
        h.shape(sin) == seq![s.seq_len, s.head_dim],
        padded(s.head_dim as nat) == s.head_dim,
        h.sf(x) <= 55,
        h.sf_log <= 55,
    ensures
        xs.len() == k + 1,
        xs[0] == x,
        xs[k as int] == g.llama_layers(grouped, cols, s, cos, sin, x, n, k).1,
        h.shape(xs[k as int]) == h.shape(x),
        h.sf(xs[k as int]) <= 55,
        layered(h, vals, grouped, cols, s, cos, sin, xs),
    decreases k,
{
    broadcast use {grown_boundary, grown_llama_block, grown_llama3_block};

    if k == 0 {
        seq![x]
    } else {
        let (g1, y) = g.llama_layers(grouped, cols, s, cos, sin, x, n, (k - 1) as nat);
        let ts = row(cols, k - 1);
        assert(ts =~= layer_weights(cols, k - 1));
        let (g2, o) = if grouped {
            g1.llama3_block(ts, s, cos, sin, y)
        } else {
            g1.llama_block(ts, s, cos, sin, y)
        };
        if k < n {
            assert(grown(g2.boundary(o), h));
        }
        assert(grown(g2, h));
        assert(grown(g1, h));
        lemma_layers_grown(g, grouped, cols, s, cos, sin, x, n, (k - 1) as nat, h);
        let before = lemma_llama_layers(b, g, grouped, cols, s, cos, sin, x, n, (k - 1) as nat, h, vals);
        assert(before[k - 1] == y);
        assert(weights_fit(layer_weights(cols, k - 1), s, h.shape(x)[2]));
        let (w, es) = if grouped {
            lemma_llama3_block(b, g1, ts, s, cos, sin, y, h, vals)
        } else {
            lemma_llama_block(b, g1, ts, s, cos, sin, y, h, vals)
        };
        assert(is_block(h, vals, layer_weights(cols, k - 1), grouped, s, cos, sin, y, w, es, o));
        let xs = before.push(o);
        assert(layered(h, vals, grouped, cols, s, cos, sin, xs)) by {
            assert forall|i: int| 0 <= i < xs.len() - 1 implies #[trigger] follows(
                h,
                vals,
                grouped,
                layer_weights(cols, i),
                s,
                cos,
                sin,
                xs[i],
                xs[i + 1],
            ) by {
                if i < k - 1 {
                    assert(xs[i] == before[i] && xs[i + 1] == before[i + 1]);
                    assert(follows(
                        h,
                        vals,
                        grouped,
                        layer_weights(cols, i),
                        s,
                        cos,
                        sin,
                        before[i],
                        before[i + 1],
                    ));
                }
            }
        }
        xs
    }
}

/// Llama 3 turns its input by its layers, a normalization and a projection to the scores of the tokens. The
/// edges of the parameters (cosines, sines, weights of the normalization and of the projection), the inputs
/// and outputs of the layers, and the tensors behind them are returned.
#[verifier::rlimit(40)]
pub proof fn lemma_llama3(
    b: Graph,
    g: Graph,
    cols: Seq<Seq<Tensor>>,
    cos: Tensor,
    sin: Tensor,
    norm: Tensor,
    logits: Tensor,
    s: Heads,
    vocab_size: usize,
    x: EdgeId,
    h: Graph,
    vals: Numbers,
) -> (r: (Seq<EdgeId>, Seq<EdgeId>, EdgeId, EdgeId))
    requires
        seen(b, g, h, vals),
        grown(g.llama3(cols, cos, sin, norm, logits, s, vocab_size, x).0, h),
        cols.len() == 9,
        h.rank(x) == 3,
        h.shape(x)[0] == 1,
        h.shape(x)[1] == s.seq_len,
        h.shape(x)[2] < 0x8000_0000_0000_0000,
        forall|i: int|
            0 <= i < cols[0].len() ==> weights_fit(#[trigger] layer_weights(cols, i), s, h.shape(x)[2]),
        cos.shape == seq![s.seq_len, s.head_dim],
        sin.shape == seq![s.seq_len, s.head_dim],
        padded(s.head_dim as nat) == s.head_dim,
        h.sf(x) <= 55,
        h.sf_log <= 55,
    ensures
        ({
            let (ps, xs, y, z) = r;
            let n = cols[0].len() as int;
            &&& ps.len() == 4 && xs.len() == n + 1
            &&& h.values[ps[0] as int] == cos
            &&& h.values[ps[1] as int] == sin
            &&& h.values[ps[2] as int] == norm
            &&& h.values[ps[3] as int] == logits
            &&& xs[0] == x
            &&& layered(h, vals, true, cols, s, ps[0], ps[1], xs)
            &&& is_normalized(h, vals, ps[2], xs[n], y)
            &&& contracted(h, vals, "bsi,ij->bsj"@, seq![y, ps[3]], logits.sf as nat, z)
            &&& same_words(h, vals, z, g.llama3(cols, cos, sin, norm, logits, s, vocab_size, x).1)
            &&& h.shape(g.llama3(cols, cos, sin, norm, logits, s, vocab_size, x).1) == seq![
                1,
                s.seq_len,
                vocab_size,
            ]
        }),
{
    reveal(Graph::llama3);
    broadcast use {group_grown, grown_rms_norm};

    let n = cols[0].len();
    let rows = "bsi,ij->bsj"@;
    let q = g.require(cols.len() == 9 && tall(cols, n));
    let (g1, cos_e) = q.param(cos);
    let (g2, sin_e) = g1.param(sin);
    let (g3, last) = g2.llama_layers(true, cols, s, cos_e, sin_e, x, n, n);
    let (g4, norm_e) = g3.param(norm);
    let (g5, y) = g4.rms_norm(norm_e, s.seq_len, last);
    let (g6, logits_e) = g5.param(logits);
    let (g7, z) = g6.einsum(rows, seq![y, logits_e], true);
    let shape = seq![1, s.seq_len, vocab_size];
    let (g8, o) = g7.change_shape(z, shape);
    assert(grown(g8, h) && grown(g7, h) && grown(g6, h) && grown(g5, h) && grown(g4, h) && grown(g3, h));
    lemma_layers_grown(g2, true, cols, s, cos_e, sin_e, x, n, n, h);
    assert(grown(g2, h));
    assert(grown(g1, h));
    assert(grown(q, h));
    let xs = lemma_llama_layers(b, g2, true, cols, s, cos_e, sin_e, x, n, n, h, vals);
    let es = lemma_rms_norm(b, g4, norm_e, s.seq_len, last, h, vals);
    assert(normalized(h, vals, norm_e, last, es, y));
    lemma_step_einsum(b, g6, rows, seq![y, logits_e], true, h, vals);
    lemma_step_change_shape(b, g7, z, shape, h, vals);
    (seq![cos_e, sin_e, norm_e, logits_e], xs, y, z)
}

} // verus!
