//! What the blocks of GPT-J compute.
use vstd::prelude::*;

use crate::dag::attention_laws::{attends, grown_attention, lemma_attention};
use crate::dag::block_laws::{grown_sigmoid, is_sigmoid, lemma_sigmoid};
use crate::dag::equation::output_shape;
use crate::dag::graph::{filled, Graph};
use crate::dag::graph_ops::letter_run;
use crate::dag::growth::{
    contracted, group_grown, grown, lemma_kept, lemma_step_add, lemma_step_einsum, lemma_step_sub, seen,
};
use crate::dag::llama::Heads;
use crate::dag::llama_laws::{is_normalized, lemma_loaded};
use crate::dag::meaning::{added, sized, subtracted, Numbers};
use crate::dag::norm_laws::{averaged, grown_mean_of, grown_rms_norm, lemma_mean_of, lemma_rms_norm, normalized};
use crate::dag::reading::lemma_spells_two;
use crate::dag::spelling::{among, lemma_spelled_shape};
use crate::dag::types::EdgeId;
use crate::dag::witness::{known, DataType, Role, Tensor};
use crate::field::GoldilocksField;
use crate::util::arith::{num_vars, padded};

verus! {

/// The tensor is a constant with `v` at all entries of the given shape.
pub open spec fn filled_with(h: Graph, e: EdgeId, shape: Seq<usize>, v: u64, sf: usize) -> bool {
    h.values[e as int] == known(shape, filled(shape, GoldilocksField(v)), DataType::Float, sf, Role::Constant)
}

/// `o` is `a` with zeros in the padding of the given shape: its product, entry by entry, with a tensor of
/// ones. `e` holds the ones.
pub open spec fn cleared(
    h: Graph,
    vals: Numbers,
    a: EdgeId,
    shape: Seq<usize>,
    e: EdgeId,
    o: EdgeId,
) -> bool {
    let s = letter_run(shape.len());
    &&& filled_with(h, e, shape, 1, 0)
    &&& contracted(h, vals, s + seq![','] + s + seq!['-', '>'] + s, seq![a, e], 0, o)
}

pub broadcast proof fn grown_mask(g: Graph, a: EdgeId, shape: Seq<usize>, h: Graph)
    ensures
        #[trigger] grown(g.mask(a, shape).0, h) ==> grown(g, h) && g.mask(a, shape).1 < h.values.len() && g.mask(
            a,
            shape,
        ).0.nodes.len() >= g.nodes.len() && g.mask(a, shape).0.values.len() >= g.values.len(),
{
    reveal(Graph::mask);
    broadcast use group_grown;

}

/// The equation of a mask of three dimensions keeps the shape.
proof fn lemma_mask_shape(h: Graph, a: EdgeId, e: EdgeId)
    requires
        h.rank(a) == 3,
        h.shape(e) == h.shape(a),
    ensures
        output_shape(
            letter_run(3) + seq![','] + letter_run(3) + seq!['-', '>'] + letter_run(3),
            h.shapes(seq![a, e]),
        ) == h.shape(a),
{
    let t = letter_run(3);
    let eq = t + seq![','] + t + seq!['-', '>'] + t;
    assert(t =~= seq!['a', 'b', 'c']);
    let x = a;
    let dims = Map::<char, nat>::empty().insert('a', h.shape(x)[0] as nat).insert('b', h.shape(x)[1] as nat).insert(
        'c',
        h.shape(x)[2] as nat,
    );
    let shapes = h.shapes(seq![a, e]);
    let ins = seq![t, t];
    assert(shapes[0] == h.shape(x) && shapes[1] == h.shape(x));
    assert(sized(ins, shapes, dims)) by {
        assert forall|u: int, j: int| 0 <= u < ins.len() && 0 <= j < ins[u].len() implies dims.contains_key(
            #[trigger] ins[u][j],
        ) && dims[ins[u][j]] == shapes[u][j] by {
            assert(ins[u] == t);
            assert(j == 0 || j == 1 || j == 2);
        }
    }
    lemma_spells_two(eq, t, t, t);
    assert(ins[0][0] == t[0] && ins[0][1] == t[1] && ins[0][2] == t[2]);
    assert(among(ins, t[0]) && among(ins, t[1]) && among(ins, t[2]));
    lemma_spelled_shape(eq, ins, t, shapes, dims);
    assert(output_shape(eq, shapes) =~= h.shape(x));
}

/// Masking multiplies with ones. Their edge is returned.
pub proof fn lemma_mask(
    s: Graph,
    g: Graph,
    a: EdgeId,
    shape: Seq<usize>,
    h: Graph,
    vals: Numbers,
) -> (e: EdgeId)
    requires
        seen(s, g, h, vals),
        grown(g.mask(a, shape).0, h),
    ensures
        cleared(h, vals, a, shape, e, g.mask(a, shape).1),
        h.sf(g.mask(a, shape).1) == h.sf(a),
        h.shape(a) == shape && shape.len() == 3 ==> h.shape(g.mask(a, shape).1) == shape,
{
    reveal(Graph::mask);
    broadcast use group_grown;

    let l = letter_run(shape.len());
    let q = g.require(num_vars(shape) < usize::BITS && shape.len() <= 159);
    let t = known(shape, filled(shape, GoldilocksField(1)), DataType::Float, 0, Role::Constant);
    let (g1, e) = q.param(t);
    let eq = l + seq![','] + l + seq!['-', '>'] + l;
    let (g2, o) = g1.einsum(eq, seq![a, e], false);
    assert(grown(g2, h));
    assert(grown(g1, h));
    assert(grown(q, h));
    lemma_step_einsum(s, g1, eq, seq![a, e], false, h, vals);
    let ps = seq![a, e];
    reveal_with_fuel(Graph::sf_sum, 3);
    assert(ps.drop_last() =~= seq![a]);
    assert(seq![a].drop_last() =~= Seq::<EdgeId>::empty());
    assert(g1.has(ps[0]) && g1.has(ps[1]));
    lemma_kept(g1, h, a);
    lemma_kept(g1, h, e);
    if h.shape(a) == shape && shape.len() == 3 {
        lemma_mask_shape(h, a, e);
    }
    e
}

/// `o` is the normalization of `x` less the means of its rows, plus the bias. `es` are the sums and means of
/// the rows, the rows less their means, the ones that clear the padding, what is left, and its
/// normalization.
pub open spec fn is_layer_norm(
    h: Graph,
    vals: Numbers,
    w: EdgeId,
    b: EdgeId,
    x: EdgeId,
    es: Seq<EdgeId>,
    o: EdgeId,
) -> bool {
    let (sum, mean, y, ones, z, u) = (es[0], es[1], es[2], es[3], es[4], es[5]);
    &&& es.len() == 6
    &&& contracted(h, vals, "bsi->bs"@, seq![x], 0, sum)
    &&& averaged(h, vals, sum, h.shape(x).last() as int, mean)
    &&& subtracted(h, vals, x, mean, y)
    &&& cleared(h, vals, y, seq![1, h.shape(x)[1], h.shape(x).last()], ones, z)
    &&& is_normalized(h, vals, w, z, u)
    &&& added(h, vals, u, b, o)
}

pub broadcast proof fn grown_layer_norm(g: Graph, w: EdgeId, b: EdgeId, x: EdgeId, h: Graph)
    ensures
        #[trigger] grown(g.layer_norm(w, b, x).0, h) ==> grown(g, h) && g.layer_norm(w, b, x).0.nodes.len()
            >= g.nodes.len() && g.layer_norm(w, b, x).0.values.len() >= g.values.len() && x < g.values.len()
            && g.layer_norm(w, b, x).1 < h.values.len(),
{
    reveal(Graph::layer_norm);
    broadcast use {group_grown, grown_mean_of, grown_mask, grown_rms_norm};

}

/// A layer normalization does what it says. The tensors in between are returned.
#[verifier::rlimit(40)]
pub proof fn lemma_layer_norm(
    s: Graph,
    g: Graph,
    w: EdgeId,
    b: EdgeId,
    x: EdgeId,
    h: Graph,
    vals: Numbers,
) -> (es: Seq<EdgeId>)
    requires
        seen(s, g, h, vals),
        grown(g.layer_norm(w, b, x).0, h),
        h.rank(x) == 3,
        h.shape(x)[0] == 1,
        h.shape(x)[2] < 0x8000_0000_0000_0000,
        h.sf_log < 63,
    ensures
        is_layer_norm(h, vals, w, b, x, es, g.layer_norm(w, b, x).1),
        h.shape(w) == seq![h.shape(x)[2]] && h.shape(b) == seq![h.shape(x)[2]] ==> h.shape(
            g.layer_norm(w, b, x).1,
        ) == h.shape(x),
        h.sf(g.layer_norm(w, b, x).1) == h.sf(x),
{
    reveal(Graph::layer_norm);
    broadcast use {group_grown, grown_mean_of, grown_mask, grown_rms_norm};

    let n = g.shape(x).last();
    let rows = g.shape(x)[1];
    let q = g.require(g.has(x) && g.rank(x) > 1);
    let (g1, sum) = q.einsum("bsi->bs"@, seq![x], false);
    let (g2, mean) = g1.mean_of(sum, rows, n);
    let (g3, y) = g2.sub(x, mean);
    let (g4, z) = g3.mask(y, seq![1, rows, n]);
    let p = g4.require(g4.has(z) && g4.rank(z) > 1);
    let (g5, u) = p.rms_norm(w, p.shape(z)[1], z);
    let (g6, o) = g5.add(u, b);
    assert(grown(g6, h) && grown(g5, h));
    assert(grown(p, h));
    assert(grown(g4, h) && grown(g3, h) && grown(g2, h) && grown(g1, h));
    assert(grown(q, h));
    lemma_kept(g, h, x);
    lemma_step_einsum(s, q, "bsi->bs"@, seq![x], false, h, vals);
    lemma_mean_of(s, g1, sum, rows, n, h, vals);
    lemma_step_sub(s, g2, x, mean, h, vals);
    let m = seq![1usize, rows, n];
    assert(h.shape(x) =~= m);
    assert(h.shape(y) =~= m);
    let ones = lemma_mask(s, g3, y, m, h, vals);
    lemma_kept(g4, h, z);
    assert(h.shape(z) == m);
    let ns = lemma_rms_norm(s, p, w, p.shape(z)[1], z, h, vals);
    assert(normalized(h, vals, w, z, ns, u));
    lemma_step_add(s, g5, u, b, h, vals);
    if h.shape(w) == seq![h.shape(x)[2]] && h.shape(b) == seq![h.shape(x)[2]] {
        assert(h.shape(u) == m);
        assert(h.shape(o) =~= m);
    }
    assert(h.sf(y) == h.sf(x));
    assert(h.sf(z) == h.sf(y));
    assert(h.sf(u) == h.sf(z));
    seq![sum, mean, y, ones, z, u]
}

/// `o` is a layer of two projections with biases around a sigmoid of a multiple of its input. `es` are the
/// tensors in between.
pub open spec fn is_gelu_layer(
    h: Graph,
    vals: Numbers,
    w_1: EdgeId,
    w_2: EdgeId,
    b_1: EdgeId,
    b_2: EdgeId,
    gelu: u64,
    x: EdgeId,
    es: Seq<EdgeId>,
    o: EdgeId,
) -> bool {
    let (y, z, c, u, v, t) = (es[0], es[1], es[2], es[3], es[4], es[5]);
    let rows = "bsi,ij->bsj"@;
    &&& es.len() == 6
    &&& contracted(h, vals, rows, seq![x, w_1], h.sf(w_1) as nat, y)
    &&& added(h, vals, y, b_1, z)
    &&& filled_with(h, c, h.shape(z), gelu, h.sf_log)
    &&& contracted(h, vals, "bsi,bsi->bsi"@, seq![z, c], h.sf_log as nat, u)
    &&& is_sigmoid(h, vals, u, v)
    &&& contracted(h, vals, rows, seq![v, w_2], h.sf(w_2) as nat, t)
    &&& added(h, vals, t, b_2, o)
}

pub broadcast proof fn grown_gelu_mlp(
    g: Graph,
    w_1: EdgeId,
    w_2: EdgeId,
    b_1: EdgeId,
    b_2: EdgeId,
    gelu: u64,
    x: EdgeId,
    h: Graph,
)
    ensures
        #[trigger] grown(g.gelu_mlp(w_1, w_2, b_1, b_2, gelu, x).0, h) ==> grown(g, h) && g.gelu_mlp(
            w_1,
            w_2,
            b_1,
            b_2,
            gelu,
            x,
        ).0.nodes.len() >= g.nodes.len() && g.gelu_mlp(w_1, w_2, b_1, b_2, gelu, x).0.values.len()
            >= g.values.len() && g.gelu_mlp(w_1, w_2, b_1, b_2, gelu, x).1 < h.values.len(),
{
    reveal(Graph::gelu_mlp);
    broadcast use {group_grown, grown_sigmoid};

}

/// A layer with a sigmoid does what it says. The tensors in between are returned.
#[verifier::rlimit(40)]
pub proof fn lemma_gelu_mlp(
    s: Graph,
    g: Graph,
    w_1: EdgeId,
    w_2: EdgeId,
    b_1: EdgeId,
    b_2: EdgeId,
    gelu: u64,
    x: EdgeId,
    h: Graph,
    vals: Numbers,
) -> (es: Seq<EdgeId>)
    requires
        seen(s, g, h, vals),
        grown(g.gelu_mlp(w_1, w_2, b_1, b_2, gelu, x).0, h),
    ensures
        is_gelu_layer(h, vals, w_1, w_2, b_1, b_2, gelu, x, es, g.gelu_mlp(w_1, w_2, b_1, b_2, gelu, x).1),
{
    reveal(Graph::gelu_mlp);
    broadcast use {group_grown, grown_sigmoid};

    let rows = "bsi,ij->bsj"@;
    let mul = "bsi,bsi->bsi"@;
    let (g1, y) = g.einsum(rows, seq![x, w_1], true);
    let (g2, z) = g1.add(y, b_1);
    let q = g2.require(g2.has(z) && num_vars(g2.shape(z)) < usize::BITS);
    let t0 = known(
        q.shape(z),
        filled(q.shape(z), GoldilocksField(gelu)),
        DataType::Float,
        g.sf_log,
        Role::Constant,
    );
    let (g3, c) = q.param(t0);
    let (g4, u) = g3.einsum(mul, seq![z, c], true);
    let (g5, v) = g4.sigmoid(u);
    let (g6, t) = g5.einsum(rows, seq![v, w_2], true);
    let (g7, o) = g6.add(t, b_2);
    assert(grown(g7, h) && grown(g6, h) && grown(g5, h) && grown(g4, h) && grown(g3, h));
    assert(grown(q, h));
    assert(grown(g2, h) && grown(g1, h) && grown(g, h));
    assert(g.has(seq![x, w_1][0]));
    lemma_kept(g, h, x);
    lemma_kept(g2, h, z);
    lemma_step_einsum(s, g, rows, seq![x, w_1], true, h, vals);
    lemma_step_add(s, g1, y, b_1, h, vals);
    lemma_step_einsum(s, g3, mul, seq![z, c], true, h, vals);
    lemma_sigmoid(s, g4, u, h, vals);
    lemma_step_einsum(s, g5, rows, seq![v, w_2], true, h, vals);
    lemma_step_add(s, g6, t, b_2, h, vals);
    seq![y, z, c, u, v, t]
}

/// A block of GPT-J adds the attention and the layer of its normalized input, and its input. `w` are the
/// edges of the weights; `es` are the normalized input, the attention, the layer and their sum, and what
/// lies in between in each.
pub open spec fn is_gptj_block(
    h: Graph,
    vals: Numbers,
    ts: Seq<Tensor>,
    s: Heads,
    gelu: u64,
    cos: EdgeId,
    sin: EdgeId,
    x: EdgeId,
    w: Seq<EdgeId>,
    es: Seq<EdgeId>,
    parts: Seq<Seq<EdgeId>>,
    o: EdgeId,
) -> bool {
    let (y, a, m, sum) = (es[0], es[1], es[2], es[3]);
    &&& w.len() == 10
    &&& forall|i: int| 0 <= i < 10 ==> h.values[(#[trigger] w[i]) as int] == ts[i]
    &&& is_layer_norm(h, vals, w[0], w[5], x, parts[0], y)
    &&& attends(
        h,
        vals,
        w.subrange(1, 5),
        s.num_heads,
        s.head_dim,
        s.seq_len,
        cos,
        sin,
        s.recip,
        y,
        parts[1],
        a,
    )
    &&& is_gelu_layer(h, vals, w[6], w[7], w[8], w[9], gelu, y, parts[2], m)
    &&& added(h, vals, a, m, sum)
    &&& added(h, vals, sum, x, o)
}

/// A block of GPT-J does what it says. The edges of the weights and the tensors in between are returned.
#[verifier::rlimit(60)]
pub proof fn lemma_gptj_block(
    b: Graph,
    g: Graph,
    ts: Seq<Tensor>,
    s: Heads,
    gelu: u64,
    cos: EdgeId,
    sin: EdgeId,
    x: EdgeId,
    h: Graph,
    vals: Numbers,
) -> (r: (Seq<EdgeId>, Seq<EdgeId>, Seq<Seq<EdgeId>>))
    requires
        seen(b, g, h, vals),
        grown(g.gptj_block(ts, s, gelu, cos, sin, x).0, h),
        ts.len() >= 10,
        h.rank(x) == 3,
        h.shape(x)[0] == 1,
        h.shape(x)[1] == s.seq_len,
        h.shape(x)[2] < 0x8000_0000_0000_0000,
        ts[0].shape == seq![h.shape(x)[2]],
        ts[5].shape == seq![h.shape(x)[2]],
        ts[1].shape.len() == 2 && ts[1].shape[0] == h.shape(x)[2],
        ts[2].shape.len() == 2 && ts[2].shape[0] == h.shape(x)[2],
        ts[3].shape.len() == 2 && ts[3].shape[0] == h.shape(x)[2],
        h.shape(cos) == seq![s.seq_len, s.head_dim],
        h.shape(sin) == seq![s.seq_len, s.head_dim],
        padded(s.head_dim as nat) == s.head_dim,
        h.sf(x) <= 55,
        h.sf_log < 63,
    ensures
        is_gptj_block(
            h,
            vals,
            ts,
            s,
            gelu,
            cos,
            sin,
            x,
            r.0,
            r.1,
            r.2,
            g.gptj_block(ts, s, gelu, cos, sin, x).1,
        ),
{
    reveal(Graph::gptj_block);
    broadcast use {group_grown, grown_layer_norm, grown_attention, grown_gelu_mlp};

    let (g1, w) = g.load_params(ts, 10);
    let (g2, y) = g1.layer_norm(w[0], w[5], x);
    let (g3, a) = g2.attention(
        w[1],
        w[2],
        w[3],
        w[4],
        s.num_heads,
        s.head_dim,
        s.seq_len,
        cos,
        sin,
        s.recip,
        y,
    );
    let (g4, m) = g3.gelu_mlp(w[6], w[7], w[8], w[9], gelu, y);
    let (g5, sum) = g4.add(a, m);
    let (g6, o) = g5.add(sum, x);
    assert(grown(g6, h) && grown(g5, h) && grown(g4, h) && grown(g3, h) && grown(g2, h) && grown(g1, h));
    lemma_loaded(g, ts, 10, h);
    assert(h.shape(w[0]) == ts[0].shape && h.shape(w[1]) == ts[1].shape && h.shape(w[2]) == ts[2].shape);
    assert(h.shape(w[3]) == ts[3].shape && h.shape(w[5]) == ts[5].shape);
    let p0 = lemma_layer_norm(b, g1, w[0], w[5], x, h, vals);
    let v = w.subrange(1, 5);
    assert(v[0] == w[1] && v[1] == w[2] && v[2] == w[3] && v[3] == w[4]);
    let p1 = lemma_attention(
        b,
        g2,
        v,
        s.num_heads,
        s.head_dim,
        s.seq_len,
        cos,
        sin,
        s.recip,
        y,
        h,
        vals,
    );
    let p2 = lemma_gelu_mlp(b, g3, w[6], w[7], w[8], w[9], gelu, y, h, vals);
    lemma_step_add(b, g4, a, m, h, vals);
    lemma_step_add(b, g5, sum, x, h, vals);
    (w, seq![y, a, m, sum], seq![p0, p1, p2])
}

} // verus!
