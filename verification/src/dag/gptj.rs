//! GPT-J.
use vstd::arithmetic::power2::*;
use vstd::prelude::*;

use crate::dag::builder::DagBuilder;
use crate::dag::builder_ops::{filled_words, list1, list2, list3};
use crate::dag::graph::{filled, one_edge, Graph};
use crate::dag::graph_ops::group_ops_ok;
use crate::dag::llama::{columns, heads_of, ok_load_params, row, take_row, tall, Heads};
use crate::dag::run::tensors;
use crate::dag::transformer::{ok_attention, ok_mean_of, ok_rms_norm};
use crate::dag::types::EdgeId;
use crate::dag::witness::{known, DataType, Role, Tensor, Witness};
use crate::field::GoldilocksField;
use crate::util::arith::num_vars;

verus! {

impl Graph {
    /// The rows of `x` less their means, divided by their root mean squares, times weights plus biases.
    #[verifier::opaque]
    pub open spec fn layer_norm(self, w_e: EdgeId, b_e: EdgeId, x: EdgeId) -> (Graph, EdgeId) {
        let n = self.shape(x).last();
        let seq = self.shape(x)[1];
        let g = self.require(self.has(x) && self.rank(x) > 1);
        let (g, x_sum) = g.einsum("bsi->bs"@, seq![x], false);
        let (g, mean) = g.mean_of(x_sum, seq, n);
        let (g, y) = g.sub(x, mean);
        let (g, y) = g.mask(y, seq![1, seq, n]);
        let g = g.require(g.has(y) && g.rank(y) > 1);
        let (g, y) = g.rms_norm(w_e, g.shape(y)[1], y);
        let (g, out) = g.add(y, b_e);
        (g, out)
    }
}

pub broadcast proof fn ok_layer_norm(g: Graph, w_e: EdgeId, b_e: EdgeId, x: EdgeId)
    ensures
        #[trigger] g.layer_norm(w_e, b_e, x).0.ok ==> g.ok,
{
    broadcast use group_ops_ok;
    broadcast use {ok_mean_of, ok_rms_norm};

    reveal(Graph::layer_norm);
}

impl DagBuilder {
    /// The rows of `x` less their means, divided by their root mean squares, times weights plus biases.
    #[verifier::rlimit(50)]
    pub fn layer_norm(&mut self, w_e: EdgeId, b_e: EdgeId, x: EdgeId) -> (e: EdgeId)
        requires
            old(self).wf(),
            old(self)@.layer_norm(w_e, b_e, x).0.ok,
        ensures
            final(self).wf(),
            (final(self)@, e) == old(self)@.layer_norm(w_e, b_e, x),
    {
        reveal(Graph::layer_norm);
        broadcast use group_ops_ok;
        broadcast use {ok_mean_of, ok_rms_norm};

        let shape: Vec<usize> = self.shape_of(x);
        let n: usize = shape[shape.len() - 1];
        let seq: usize = shape[1];
        let x_sum: EdgeId = self.einsum("bsi->bs".to_string(), list1(x), false)[0];
        let mean: EdgeId = self.mean_of(x_sum, seq, n);
        let y: EdgeId = self.sub(x, mean)[0];
        let y: EdgeId = self.mask(y, list3(1, seq, n));
        let ghost ready = self@.require(self@.has(y) && self@.rank(y) > 1);
        assert(ready.ok);
        assert(ready == self@);
        let rows: usize = self.second_dim(y);
        let y: EdgeId = self.rms_norm(w_e, rows, y);
        let out: EdgeId = self.add(y, b_e)[0];
        out
    }
}

impl Graph {
    /// Two projections around a sigmoid of `gelu` times its input, which stands for a Gaussian unit.
    #[verifier::opaque]
    pub open spec fn gelu_mlp(
        self,
        w_1: EdgeId,
        w_2: EdgeId,
        b_1: EdgeId,
        b_2: EdgeId,
        gelu: u64,
        x: EdgeId,
    ) -> (Graph, EdgeId) {
        let (g, h) = self.einsum("bsi,ij->bsj"@, seq![x, w_1], true);
        let (g, h) = g.add(h, b_1);
        let g = g.require(g.has(h) && num_vars(g.shape(h)) < usize::BITS);
        let (g, c) = g.param(
            known(
                g.shape(h),
                filled(g.shape(h), GoldilocksField(gelu)),
                DataType::Float,
                self.sf_log,
                Role::Constant,
            ),
        );
        let (g, h) = g.einsum("bsi,bsi->bsi"@, seq![h, c], true);
        let (g, h) = g.sigmoid(h);
        let (g, h) = g.einsum("bsi,ij->bsj"@, seq![h, w_2], true);
        let (g, h) = g.add(h, b_2);
        (g, h)
    }
}

pub broadcast proof fn ok_gelu_mlp(
    g: Graph,
    w_1: EdgeId,
    w_2: EdgeId,
    b_1: EdgeId,
    b_2: EdgeId,
    gelu: u64,
    x: EdgeId,
)
    ensures
        #[trigger] g.gelu_mlp(w_1, w_2, b_1, b_2, gelu, x).0.ok ==> g.ok,
{
    broadcast use group_ops_ok;

    reveal(Graph::gelu_mlp);
}

impl DagBuilder {
    /// Two projections around a sigmoid of `gelu` times its input, which stands for a Gaussian unit.
    #[verifier::rlimit(50)]
    pub fn gelu_mlp(
        &mut self,
        w_1: EdgeId,
        w_2: EdgeId,
        b_1: EdgeId,
        b_2: EdgeId,
        gelu: u64,
        x: EdgeId,
    ) -> (e: EdgeId)
        requires
            old(self).wf(),
            old(self)@.gelu_mlp(w_1, w_2, b_1, b_2, gelu, x).0.ok,
        ensures
            final(self).wf(),
            (final(self)@, e) == old(self)@.gelu_mlp(w_1, w_2, b_1, b_2, gelu, x),
    {
        reveal(Graph::gelu_mlp);
        broadcast use group_ops_ok;

        let sf_log: usize = self.sf_log;
        let h: EdgeId = self.einsum("bsi,ij->bsj".to_string(), list2(x, w_1), true)[0];
        let h: EdgeId = self.add(h, b_1)[0];
        let ghost ready = self@.require(self@.has(h) && num_vars(self@.shape(h)) < usize::BITS);
        assert(ready.ok);
        assert(ready == self@);
        let shape: Vec<usize> = self.shape_of(h);
        let words: Vec<GoldilocksField> = filled_words(&shape, GoldilocksField(gelu));
        let t: Witness = Witness::new(shape, words, DataType::Float, sf_log, Role::Constant);
        let c: EdgeId = self.param(t);
        let h: EdgeId = self.einsum("bsi,bsi->bsi".to_string(), list2(h, c), true)[0];
        let h: EdgeId = self.sigmoid(h)[0];
        let h: EdgeId = self.einsum("bsi,ij->bsj".to_string(), list2(h, w_2), true)[0];
        let h: EdgeId = self.add(h, b_2)[0];
        h
    }
}

impl Graph {
    /// A block: attention and a layer beside each other, behind one normalization and beside the
    /// input.
    #[verifier::opaque]
    pub open spec fn gptj_block(
        self,
        ts: Seq<Tensor>,
        s: Heads,
        gelu: u64,
        cos: EdgeId,
        sin: EdgeId,
        x: EdgeId,
    ) -> (Graph, EdgeId) {
        let (g, w) = self.load_params(ts, 10);
        let (g, y) = g.layer_norm(w[0], w[5], x);
        let (g, a) = g.attention(
            w[1],
            w[2],
            w[3],
            w[4],
            s.num_heads,
            s.head_dim,
            s.seq_len,
            cos,
            sin,
            s.recip,
            y,
        );
        let (g, m) = g.gelu_mlp(w[6], w[7], w[8], w[9], gelu, y);
        let (g, h) = g.add(a, m);
        g.add(h, x)
    }

    /// The first `k` of `n` layers; the edges between layers can be cut.
    pub open spec fn gptj_layers(
        self,
        cols: Seq<Seq<Tensor>>,
        s: Heads,
        gelu: u64,
        cos: EdgeId,
        sin: EdgeId,
        x: EdgeId,
        n: nat,
        k: nat,
    ) -> (Graph, EdgeId)
        decreases k,
    {
        if k == 0 {
            (self, x)
        } else {
            let (g, h) = self.gptj_layers(cols, s, gelu, cos, sin, x, n, (k - 1) as nat);
            let (g, h) = g.gptj_block(row(cols, k - 1), s, gelu, cos, sin, h);
            if k < n {
                (g.boundary(h), h)
            } else {
                (g, h)
            }
        }
    }

    /// The model: the rotations, the layers, a normalization and a dense layer. `tail` holds the
    /// weights and biases of the last two.
    #[verifier::opaque]
    pub open spec fn gptj(
        self,
        cols: Seq<Seq<Tensor>>,
        cos: Tensor,
        sin: Tensor,
        tail: Seq<Tensor>,
        s: Heads,
        gelu: u64,
        x: EdgeId,
    ) -> (Graph, EdgeId) {
        let n = cols[0].len();
        let (g, cos_e) = self.require(cols.len() == 10 && tall(cols, n)).param(cos);
        let (g, sin_e) = g.param(sin);
        let (g, h) = g.gptj_layers(cols, s, gelu, cos_e, sin_e, x, n, n);
        let (g, norm_w) = g.param(tail[0]);
        let (g, norm_b) = g.param(tail[1]);
        let (g, h) = g.layer_norm(norm_w, norm_b, h);
        let (g, w) = g.param(tail[2]);
        let (g, b) = g.param(tail[3]);
        let (g, h) = g.einsum("bsi,ij->bsj"@, seq![h, w], true);
        g.add(h, b)
    }
}

pub broadcast proof fn ok_gptj_block(
    g: Graph,
    ts: Seq<Tensor>,
    s: Heads,
    gelu: u64,
    cos: EdgeId,
    sin: EdgeId,
    x: EdgeId,
)
    ensures
        #[trigger] g.gptj_block(ts, s, gelu, cos, sin, x).0.ok ==> g.ok,
{
    broadcast use group_ops_ok;
    broadcast use {ok_load_params, ok_layer_norm, ok_attention, ok_gelu_mlp};

    reveal(Graph::gptj_block);
}

proof fn lemma_layers_ok(
    g: Graph,
    cols: Seq<Seq<Tensor>>,
    s: Heads,
    gelu: u64,
    cos: EdgeId,
    sin: EdgeId,
    x: EdgeId,
    n: nat,
    j: nat,
    k: nat,
)
    requires
        j <= k,
        g.gptj_layers(cols, s, gelu, cos, sin, x, n, k).0.ok,
    ensures
        g.gptj_layers(cols, s, gelu, cos, sin, x, n, j).0.ok,
    decreases k,
{
    broadcast use ok_gptj_block;

    if j < k {
        lemma_layers_ok(g, cols, s, gelu, cos, sin, x, n, j, (k - 1) as nat);
    }
}

broadcast proof fn ok_gptj_layers(
    g: Graph,
    cols: Seq<Seq<Tensor>>,
    s: Heads,
    gelu: u64,
    cos: EdgeId,
    sin: EdgeId,
    x: EdgeId,
    n: nat,
    k: nat,
)
    ensures
        #[trigger] g.gptj_layers(cols, s, gelu, cos, sin, x, n, k).0.ok ==> g.ok,
{
    if g.gptj_layers(cols, s, gelu, cos, sin, x, n, k).0.ok {
        lemma_layers_ok(g, cols, s, gelu, cos, sin, x, n, 0, k);
    }
}

impl DagBuilder {
    /// A block.
    #[verifier::rlimit(60)]
    pub fn gptj_block(
        &mut self,
        ts: &Vec<Witness>,
        s: Heads,
        gelu: u64,
        cos: EdgeId,
        sin: EdgeId,
        x: EdgeId,
    ) -> (e: EdgeId)
        requires
            old(self).wf(),
            ts.len() == 10,
            old(self)@.gptj_block(tensors(ts@), s, gelu, cos, sin, x).0.ok,
        ensures
            final(self).wf(),
            (final(self)@, e) == old(self)@.gptj_block(tensors(ts@), s, gelu, cos, sin, x),
    {
        reveal(Graph::gptj_block);
        broadcast use group_ops_ok;
        broadcast use {ok_load_params, ok_layer_norm, ok_attention, ok_gelu_mlp};

        let w: Vec<EdgeId> = self.load_params(ts);
        let y: EdgeId = self.layer_norm(w[0], w[5], x);
        let a: EdgeId = self.attention(
            w[1],
            w[2],
            w[3],
            w[4],
            s.num_heads,
            s.head_dim,
            s.seq_len,
            cos,
            sin,
            s.recip,
            y,
        );
        let m: EdgeId = self.gelu_mlp(w[6], w[7], w[8], w[9], gelu, y);
        let h: EdgeId = self.add(a, m)[0];
        self.add(h, x)[0]
    }

    /// The model.
    #[verifier::rlimit(60)]
    pub fn gptj(
        &mut self,
        cols: &Vec<Vec<Witness>>,
        cos: Witness,
        sin: Witness,
        tail: &Vec<Witness>,
        s: Heads,
        gelu: u64,
        x: EdgeId,
    ) -> (e: EdgeId)
        requires
            old(self).wf(),
            tail.len() == 4,
            old(self)@.gptj(columns(cols@), cos@, sin@, tensors(tail@), s, gelu, x).0.ok,
        ensures
            final(self).wf(),
            (final(self)@, e) == old(self)@.gptj(
                columns(cols@),
                cos@,
                sin@,
                tensors(tail@),
                s,
                gelu,
                x,
            ),
    {
        reveal(Graph::gptj);
        broadcast use group_ops_ok;
        broadcast use {ok_gptj_layers, ok_layer_norm};

        let ghost cs = columns(cols@);
        let ghost ready = self@.require(cs.len() == 10 && tall(cs, cs[0].len()));
        assert(ready.ok);
        assert(ready == self@);
        let n: usize = cols[0].len();
        assert(cs[0] == tensors(cols[0]@));
        let cos_e: EdgeId = self.param(cos);
        let sin_e: EdgeId = self.param(sin);
        let ghost g = self@;
        let mut h: EdgeId = x;
        let mut i: usize = 0;
        while i < n
            invariant
                i <= n,
                cols.len() == 10,
                cs == columns(cols@),
                tall(cs, n as nat),
                g.gptj_layers(cs, s, gelu, cos_e, sin_e, x, n as nat, n as nat).0.ok,
                self.wf(),
                (self@, h) == g.gptj_layers(cs, s, gelu, cos_e, sin_e, x, n as nat, i as nat),
            decreases n - i,
        {
            proof {
                lemma_layers_ok(
                    g,
                    cs,
                    s,
                    gelu,
                    cos_e,
                    sin_e,
                    x,
                    n as nat,
                    (i + 1) as nat,
                    n as nat,
                );
                assert forall|c: int| 0 <= c < cs.len() implies (#[trigger] cs[c]).len() >= (i + 1) as nat by {}
            }
            let ts: Vec<Witness> = take_row(cols, i);
            h = self.gptj_block(&ts, s, gelu, cos_e, sin_e, h);
            i = i + 1;
            if i < n {
                self.mark_boundary(h);
            }
        }
        let norm_w: EdgeId = self.param(tail[0].clone());
        let norm_b: EdgeId = self.param(tail[1].clone());
        let h: EdgeId = self.layer_norm(norm_w, norm_b, h);
        let w: EdgeId = self.param(tail[2].clone());
        let b: EdgeId = self.param(tail[3].clone());
        let h: EdgeId = self.einsum("bsi,ij->bsj".to_string(), list2(h, w), true)[0];
        self.add(h, b)[0]
    }
}

/// The recipe of a normalization by mean and root mean square.
pub fn gptj_layer_norm(
    w_e: EdgeId,
    b_e: EdgeId,
) -> (f: impl FnOnce(&mut DagBuilder, &[EdgeId]) -> Vec<EdgeId>)
    ensures
        forall|g: &mut DagBuilder, x: &[EdgeId]|
            g.wf() && x.len() == 1 && g@.layer_norm(w_e, b_e, x[0]).0.ok ==> #[trigger] call_requires(f, (g, x)),
        forall|g: &mut DagBuilder, x: &[EdgeId], r: Vec<EdgeId>| #[trigger]
            call_ensures(f, (g, x), r) ==> final(g).wf() && (final(g)@, r@) == one_edge(
                g@.layer_norm(w_e, b_e, x[0]),
            ),
{
    move |g: &mut DagBuilder, x: &[EdgeId]| -> (r: Vec<EdgeId>)
        requires
            g.wf(),
            x.len() == 1,
            g@.layer_norm(w_e, b_e, x[0]).0.ok,
        ensures
            final(g).wf(),
            (final(g)@, r@) == one_edge(
                old(g)@.layer_norm(w_e, b_e, x[0]),
            ),
        { list1(g.layer_norm(w_e, b_e, x[0])) }
}

/// The recipe of the layer between normalizations. `gelu` is the scaled factor of its unit.
pub fn gptj_mlp(
    w_1_e: EdgeId,
    w_2_e: EdgeId,
    b_1_e: EdgeId,
    b_2_e: EdgeId,
    gelu: u64,
) -> (f: impl FnOnce(&mut DagBuilder, &[EdgeId]) -> Vec<EdgeId>)
    ensures
        forall|g: &mut DagBuilder, x: &[EdgeId]|
            g.wf() && x.len() == 1 && g@.gelu_mlp(
                w_1_e,
                w_2_e,
                b_1_e,
                b_2_e,
                gelu,
                x[0],
            ).0.ok ==> #[trigger] call_requires(f, (g, x)),
        forall|g: &mut DagBuilder, x: &[EdgeId], r: Vec<EdgeId>| #[trigger]
            call_ensures(f, (g, x), r) ==> final(g).wf() && (final(g)@, r@) == one_edge(
                g@.gelu_mlp(w_1_e, w_2_e, b_1_e, b_2_e, gelu, x[0]),
            ),
{
    move |g: &mut DagBuilder, x: &[EdgeId]| -> (r: Vec<EdgeId>)
        requires
            g.wf(),
            x.len() == 1,
            g@.gelu_mlp(w_1_e, w_2_e, b_1_e, b_2_e, gelu, x[0]).0.ok,
        ensures
            final(g).wf(),
            (final(g)@, r@) == one_edge(
                old(g)@.gelu_mlp(w_1_e, w_2_e, b_1_e, b_2_e, gelu, x[0]),
            ),
        { list1(g.gelu_mlp(w_1_e, w_2_e, b_1_e, b_2_e, gelu, x[0])) }
}

/// The recipe of attention. `recip` is the scaled reciprocal of the root of `head_dim`.
pub fn gptj_attention(
    w_q_e: EdgeId,
    w_k_e: EdgeId,
    w_v_e: EdgeId,
    w_o_e: EdgeId,
    num_heads: usize,
    head_dim: usize,
    seq_len: usize,
    cos_param: EdgeId,
    sin_param: EdgeId,
    recip: u64,
) -> (f: impl FnOnce(&mut DagBuilder, &[EdgeId]) -> Vec<EdgeId>)
    ensures
        forall|g: &mut DagBuilder, x: &[EdgeId]|
            g.wf() && x.len() == 1 && g@.attention(
                w_q_e,
                w_k_e,
                w_v_e,
                w_o_e,
                num_heads,
                head_dim,
                seq_len,
                cos_param,
                sin_param,
                recip,
                x[0],
            ).0.ok ==> #[trigger] call_requires(f, (g, x)),
        forall|g: &mut DagBuilder, x: &[EdgeId], r: Vec<EdgeId>| #[trigger]
            call_ensures(f, (g, x), r) ==> final(g).wf() && (final(g)@, r@) == one_edge(
                g@.attention(
                    w_q_e,
                    w_k_e,
                    w_v_e,
                    w_o_e,
                    num_heads,
                    head_dim,
                    seq_len,
                    cos_param,
                    sin_param,
                    recip,
                    x[0],
                ),
            ),
{
    move |g: &mut DagBuilder, x: &[EdgeId]| -> (r: Vec<EdgeId>)
        requires
            g.wf(),
            x.len() == 1,
            g@.attention(
                w_q_e,
                w_k_e,
                w_v_e,
                w_o_e,
                num_heads,
                head_dim,
                seq_len,
                cos_param,
                sin_param,
                recip,
                x[0],
            ).0.ok,
        ensures
            final(g).wf(),
            (final(g)@, r@) == one_edge(
                old(g)@.attention(
                    w_q_e,
                    w_k_e,
                    w_v_e,
                    w_o_e,
                    num_heads,
                    head_dim,
                    seq_len,
                    cos_param,
                    sin_param,
                    recip,
                    x[0],
                ),
            ),
        { list1(g.attention(
            w_q_e,
            w_k_e,
            w_v_e,
            w_o_e,
            num_heads,
            head_dim,
            seq_len,
            cos_param,
            sin_param,
            recip,
            x[0],
        )) }
}

/// The recipe of a block.
pub fn gptj_block(
    attn_norm_w: Witness,
    attn_q_w: Witness,
    attn_k_w: Witness,
    attn_v_w: Witness,
    attn_o_w: Witness,
    attn_norm_b: Witness,
    proj_1_w: Witness,
    proj_2_w: Witness,
    proj_1_b: Witness,
    proj_2_b: Witness,
    num_heads: usize,
    head_dim: usize,
    seq_len: usize,
    cos_param: EdgeId,
    sin_param: EdgeId,
    recip: u64,
    gelu: u64,
) -> (f: impl FnOnce(&mut DagBuilder, &[EdgeId]) -> Vec<EdgeId>)
    ensures
        forall|g: &mut DagBuilder, x: &[EdgeId]|
            g.wf() && x.len() == 1 && g@.gptj_block(
                seq![
                    attn_norm_w@,
                    attn_q_w@,
                    attn_k_w@,
                    attn_v_w@,
                    attn_o_w@,
                    attn_norm_b@,
                    proj_1_w@,
                    proj_2_w@,
                    proj_1_b@,
                    proj_2_b@,
                ],
                heads_of(num_heads, num_heads, head_dim, seq_len, recip),
                gelu,
                cos_param,
                sin_param,
                x[0],
            ).0.ok ==> #[trigger] call_requires(f, (g, x)),
        forall|g: &mut DagBuilder, x: &[EdgeId], r: Vec<EdgeId>| #[trigger]
            call_ensures(f, (g, x), r) ==> final(g).wf() && (final(g)@, r@) == one_edge(
                g@.gptj_block(
                    seq![
                        attn_norm_w@,
                        attn_q_w@,
                        attn_k_w@,
                        attn_v_w@,
                        attn_o_w@,
                        attn_norm_b@,
                        proj_1_w@,
                        proj_2_w@,
                        proj_1_b@,
                        proj_2_b@,
                    ],
                    heads_of(num_heads, num_heads, head_dim, seq_len, recip),
                    gelu,
                    cos_param,
                    sin_param,
                    x[0],
                ),
            ),
{
    let ghost all = seq![
        attn_norm_w@,
        attn_q_w@,
        attn_k_w@,
        attn_v_w@,
        attn_o_w@,
        attn_norm_b@,
        proj_1_w@,
        proj_2_w@,
        proj_1_b@,
        proj_2_b@,
    ];
    let mut ts: Vec<Witness> = Vec::new();
    ts.push(attn_norm_w);
    ts.push(attn_q_w);
    ts.push(attn_k_w);
    ts.push(attn_v_w);
    ts.push(attn_o_w);
    ts.push(attn_norm_b);
    ts.push(proj_1_w);
    ts.push(proj_2_w);
    ts.push(proj_1_b);
    ts.push(proj_2_b);
    assert(tensors(ts@) =~= all);
    let s: Heads = Heads { num_heads, num_kv: num_heads, head_dim, seq_len, recip };
    move |g: &mut DagBuilder, x: &[EdgeId]| -> (r: Vec<EdgeId>)
        requires
            g.wf(),
            x.len() == 1,
            g@.gptj_block(tensors(ts@), s, gelu, cos_param, sin_param, x[0]).0.ok,
        ensures
            final(g).wf(),
            (final(g)@, r@) == one_edge(
                old(g)@.gptj_block(tensors(ts@), s, gelu, cos_param, sin_param, x[0]),
            ),
        { list1(g.gptj_block(&ts, s, gelu, cos_param, sin_param, x[0])) }
}

/// The recipe of GPT-J. `cos` and `sin` hold the rotations, a row per position.
pub fn gpt_j_6b(
    attn_norm_w_vec: Vec<Witness>,
    attn_q_w_vec: Vec<Witness>,
    attn_k_w_vec: Vec<Witness>,
    attn_v_w_vec: Vec<Witness>,
    attn_o_w_vec: Vec<Witness>,
    attn_norm_b_vec: Vec<Witness>,
    proj_1_w_vec: Vec<Witness>,
    proj_2_w_vec: Vec<Witness>,
    proj_1_b_vec: Vec<Witness>,
    proj_2_b_vec: Vec<Witness>,
    layer_norm_w: Witness,
    layer_norm_b: Witness,
    matmul_w: Witness,
    matmul_b: Witness,
    cos: Witness,
    sin: Witness,
    num_heads: usize,
    head_dim: usize,
    seq_len: usize,
    recip: u64,
    gelu: u64,
) -> (f: impl FnOnce(&mut DagBuilder, &[EdgeId]) -> Vec<EdgeId>)
    ensures
        forall|g: &mut DagBuilder, x: &[EdgeId]|
            g.wf() && x.len() == 1 && g@.gptj(
                seq![
                    tensors(attn_norm_w_vec@),
                    tensors(attn_q_w_vec@),
                    tensors(attn_k_w_vec@),
                    tensors(attn_v_w_vec@),
                    tensors(attn_o_w_vec@),
                    tensors(attn_norm_b_vec@),
                    tensors(proj_1_w_vec@),
                    tensors(proj_2_w_vec@),
                    tensors(proj_1_b_vec@),
                    tensors(proj_2_b_vec@),
                ],
                cos@,
                sin@,
                seq![layer_norm_w@, layer_norm_b@, matmul_w@, matmul_b@],
                heads_of(num_heads, num_heads, head_dim, seq_len, recip),
                gelu,
                x[0],
            ).0.ok ==> #[trigger] call_requires(f, (g, x)),
        forall|g: &mut DagBuilder, x: &[EdgeId], r: Vec<EdgeId>| #[trigger]
            call_ensures(f, (g, x), r) ==> final(g).wf() && (final(g)@, r@) == one_edge(
                g@.gptj(
                    seq![
                        tensors(attn_norm_w_vec@),
                        tensors(attn_q_w_vec@),
                        tensors(attn_k_w_vec@),
                        tensors(attn_v_w_vec@),
                        tensors(attn_o_w_vec@),
                        tensors(attn_norm_b_vec@),
                        tensors(proj_1_w_vec@),
                        tensors(proj_2_w_vec@),
                        tensors(proj_1_b_vec@),
                        tensors(proj_2_b_vec@),
                    ],
                    cos@,
                    sin@,
                    seq![layer_norm_w@, layer_norm_b@, matmul_w@, matmul_b@],
                    heads_of(num_heads, num_heads, head_dim, seq_len, recip),
                    gelu,
                    x[0],
                ),
            ),
{
    let ghost all = seq![
        tensors(attn_norm_w_vec@),
        tensors(attn_q_w_vec@),
        tensors(attn_k_w_vec@),
        tensors(attn_v_w_vec@),
        tensors(attn_o_w_vec@),
        tensors(attn_norm_b_vec@),
        tensors(proj_1_w_vec@),
        tensors(proj_2_w_vec@),
        tensors(proj_1_b_vec@),
        tensors(proj_2_b_vec@),
    ];
    let ghost ends = seq![layer_norm_w@, layer_norm_b@, matmul_w@, matmul_b@];
    let mut cols: Vec<Vec<Witness>> = Vec::new();
    cols.push(attn_norm_w_vec);
    cols.push(attn_q_w_vec);
    cols.push(attn_k_w_vec);
    cols.push(attn_v_w_vec);
    cols.push(attn_o_w_vec);
    cols.push(attn_norm_b_vec);
    cols.push(proj_1_w_vec);
    cols.push(proj_2_w_vec);
    cols.push(proj_1_b_vec);
    cols.push(proj_2_b_vec);
    assert(columns(cols@) =~= all);
    let mut tail: Vec<Witness> = Vec::new();
    tail.push(layer_norm_w);
    tail.push(layer_norm_b);
    tail.push(matmul_w);
    tail.push(matmul_b);
    assert(tensors(tail@) =~= ends);
    let s: Heads = Heads { num_heads, num_kv: num_heads, head_dim, seq_len, recip };
    let ghost (ct, st) = (cos@, sin@);
    move |g: &mut DagBuilder, x: &[EdgeId]| -> (r: Vec<EdgeId>)
        requires
            g.wf(),
            x.len() == 1,
            g@.gptj(columns(cols@), ct, st, tensors(tail@), s, gelu, x[0]).0.ok,
        ensures
            final(g).wf(),
            (final(g)@, r@) == one_edge(
                old(g)@.gptj(columns(cols@), ct, st, tensors(tail@), s, gelu, x[0]),
            ),
        { list1(g.gptj(&cols, cos, sin, &tail, s, gelu, x[0])) }
}

} // verus!
