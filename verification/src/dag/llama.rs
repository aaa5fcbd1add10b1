//! Llama 2 and Llama 3.
use vstd::arithmetic::power2::*;
use vstd::prelude::*;

use crate::dag::builder::DagBuilder;
use crate::dag::builder_ops::{list1, list2, list3};
use crate::dag::graph::{one_edge, Graph};
use crate::dag::graph_ops::group_ops_ok;
use crate::dag::run::tensors;
use crate::dag::transformer::{
    ok_attention, ok_gated_mlp, ok_grouped_attention, ok_rms_norm, ok_swapped,
};
use crate::dag::types::EdgeId;
use crate::dag::witness::{fits, known, DataType, Role, Tensor, Witness};
use crate::field::elem::embed;
use crate::field::GoldilocksField;
use crate::util::arith::{field_from_i64, next_pow, padded};

pub use crate::dag::transformer::pair_swap_perm_matrix;

verus! {

impl Graph {
    /// The rotation by the given sines and cosines, which are parameters.
    #[verifier::opaque]
    pub open spec fn rope_at(self, sin: Tensor, cos: Tensor, x: EdgeId) -> (Graph, EdgeId) {
        let (g, s) = self.swapped(x);
        let (g, sin_e) = g.param(sin);
        let (g, cos_e) = g.param(cos);
        let (g, s) = g.einsum("bshd,sd->bshd"@, seq![s, sin_e], true);
        let (g, c) = g.einsum("bshd,sd->bshd"@, seq![x, cos_e], true);
        let (g, out) = g.add(s, c);
        (g, out)
    }
}

impl DagBuilder {
    /// The rotation by the given sines and cosines, which are parameters.
    pub fn rope_at(&mut self, sin: Witness, cos: Witness, x: EdgeId) -> (e: EdgeId)
        requires
            old(self).wf(),
            old(self)@.rope_at(sin@, cos@, x).0.ok,
        ensures
            final(self).wf(),
            (final(self)@, e) == old(self)@.rope_at(sin@, cos@, x),
    {
        reveal(Graph::rope_at);
        broadcast use group_ops_ok;
        broadcast use {ok_swapped};

        let s: EdgeId = self.swapped(x);
        let sin_e: EdgeId = self.param(sin);
        let cos_e: EdgeId = self.param(cos);
        let s: EdgeId = self.einsum("bshd,sd->bshd".to_string(), list2(s, sin_e), true)[0];
        let c: EdgeId = self.einsum("bshd,sd->bshd".to_string(), list2(x, cos_e), true)[0];
        let out: EdgeId = self.add(s, c)[0];
        out
    }
}

impl DagBuilder {
    /// The rotation by the given sines and cosines, which belong to one position.
    pub fn rope(
        &mut self,
        a: EdgeId,
        sin: Vec<GoldilocksField>,
        cos: Vec<GoldilocksField>,
    ) -> (r: Vec<EdgeId>)
        requires
            old(self).wf(),
            old(self)@.has(a),
            old(self)@.rank(a) > 0,
            fits(seq![1, old(self)@.shape(a).last()], sin.len() as nat),
            fits(seq![1, old(self)@.shape(a).last()], cos.len() as nat),
            ({
                let g = old(self)@;
                g.rope_at(angle_row(g, a, sin@), angle_row(g, a, cos@), a).0.ok
            }),
        ensures
            final(self).wf(),
            ({
                let g = old(self)@;
                (final(self)@, r@) == one_edge(
                    g.rope_at(angle_row(g, a, sin@), angle_row(g, a, cos@), a),
                )
            }),
    {
        let shape: Vec<usize> = self.shape_of(a);
        let d: usize = shape[shape.len() - 1];
        let sf_log: usize = self.sf_log;
        let sin_t: Witness = Witness::new(list2(1, d), sin, DataType::Float, sf_log, Role::Constant);
        let cos_t: Witness = Witness::new(list2(1, d), cos, DataType::Float, sf_log, Role::Constant);
        list1(self.rope_at(sin_t, cos_t, a))
    }

    /// The rotation by sines and cosines that are edges, a row per position.
    pub fn rope_with_vecs(&mut self, a: EdgeId, cos_param: EdgeId, sin_param: EdgeId) -> (r: Vec<EdgeId>)
        requires
            old(self).wf(),
            old(self)@.turned(a, cos_param, sin_param).0.ok,
        ensures
            final(self).wf(),
            (final(self)@, r@) == one_edge(old(self)@.turned(a, cos_param, sin_param)),
    {
        list1(self.turned(a, cos_param, sin_param))
    }
}

/// Sines or cosines for one position of `a`.
pub open spec fn angle_row(g: Graph, a: EdgeId, words: Seq<GoldilocksField>) -> Tensor {
    known(seq![1, g.shape(a).last()], words, DataType::Float, g.sf_log, Role::Constant)
}

/// The words of rotations for `d` columns and `seq_len` positions: column after column, each padded
/// to a power of two, with `even[i][m]` and `odd[i][m]` for pair `i` at position `m`.
pub open spec fn angle_words(
    d: int,
    seq_len: int,
    even: Seq<i64>,
    odd: Seq<i64>,
    k: int,
) -> int {
    let rows = padded(seq_len as nat) as int;
    let (m, c) = (k % rows, k / rows);
    if m >= seq_len {
        0
    } else if c % 2 == 0 {
        even[(c / 2) * seq_len + m] as int
    } else {
        odd[(c / 2) * seq_len + m] as int
    }
}

/// Lays out rotations for `d` columns and `seq_len` positions. `even` and `odd` hold the rounded
/// values of the two columns of a pair, pair after pair.
pub fn rope_layout(d: usize, seq_len: usize, even: &Vec<i64>, odd: &Vec<i64>) -> (r: Vec<GoldilocksField>)
    requires
        d % 2 == 0,
        seq_len <= usize::MAX / 2 + 1,
        padded(seq_len as nat) * d <= usize::MAX,
        even.len() == (d / 2) * seq_len,
        odd.len() == (d / 2) * seq_len,
        forall|i: int| 0 <= i < even.len() ==> (#[trigger] even[i]) > i64::MIN,
        forall|i: int| 0 <= i < odd.len() ==> (#[trigger] odd[i]) > i64::MIN,
    ensures
        r.len() == padded(seq_len as nat) * d,
        forall|k: int|
            0 <= k < r.len() ==> (#[trigger] r[k])@ == embed(
                angle_words(d as int, seq_len as int, even@, odd@, k),
            ),
{
    let rows: usize = next_pow(seq_len);
    let mut r: Vec<GoldilocksField> = Vec::new();
    let mut c: usize = 0;
    while c < d
        invariant
            c <= d,
            d % 2 == 0,
            rows == padded(seq_len as nat),
            seq_len <= rows,
            rows > 0,
            rows * d <= usize::MAX,
            even.len() == (d / 2) * seq_len,
            odd.len() == (d / 2) * seq_len,
            forall|i: int| 0 <= i < even.len() ==> (#[trigger] even[i]) > i64::MIN,
            forall|i: int| 0 <= i < odd.len() ==> (#[trigger] odd[i]) > i64::MIN,
            r.len() == c * rows,
            forall|k: int|
                0 <= k < r.len() ==> (#[trigger] r[k])@ == embed(
                    angle_words(d as int, seq_len as int, even@, odd@, k),
                ),
        decreases d - c,
    {
        let mut m: usize = 0;
        while m < rows
            invariant
                m <= rows,
                c < d,
                d % 2 == 0,
                rows == padded(seq_len as nat),
                seq_len <= rows,
                rows > 0,
                rows * d <= usize::MAX,
                even.len() == (d / 2) * seq_len,
                odd.len() == (d / 2) * seq_len,
                forall|i: int| 0 <= i < even.len() ==> (#[trigger] even[i]) > i64::MIN,
                forall|i: int| 0 <= i < odd.len() ==> (#[trigger] odd[i]) > i64::MIN,
                r.len() == c * rows + m,
                forall|k: int|
                    0 <= k < r.len() ==> (#[trigger] r[k])@ == embed(
                        angle_words(d as int, seq_len as int, even@, odd@, k),
                    ),
            decreases rows - m,
        {
            let ghost k = r.len() as int;
            proof {
                vstd::arithmetic::div_mod::lemma_fundamental_div_mod_converse(
                    k,
                    rows as int,
                    c as int,
                    m as int,
                );
                assert(c * rows + m < rows * d) by (nonlinear_arith)
                    requires
                        c < d,
                        m < rows,
                ;
            }
            let w: GoldilocksField = if m >= seq_len {
                GoldilocksField(0)
            } else {
                let pair: usize = c / 2;
                proof {
                    assert(pair * seq_len + m < (d / 2) * seq_len) by (nonlinear_arith)
                        requires
                            pair < d / 2,
                            m < seq_len,
                    ;
                }
                if c % 2 == 0 {
                    field_from_i64(even[pair * seq_len + m])
                } else {
                    field_from_i64(odd[pair * seq_len + m])
                }
            };
            r.push(w);
            m = m + 1;
        }
        proof {
            assert(c * rows + rows == (c + 1) * rows) by (nonlinear_arith);
        }
        c = c + 1;
    }
    assert(c * rows == rows * d) by (nonlinear_arith)
        requires
            c == d,
    ;
    r
}

impl Graph {
    /// Parameters, one after the other.
    pub open spec fn load_params(self, ts: Seq<Tensor>, k: nat) -> (Graph, Seq<EdgeId>)
        decreases k,
    {
        if k == 0 {
            (self, Seq::empty())
        } else {
            let (g, es) = self.load_params(ts, (k - 1) as nat);
            let (g, e) = g.param(ts[k - 1]);
            (g, es.push(e))
        }
    }
}

pub proof fn lemma_params_ok(g: Graph, ts: Seq<Tensor>, j: nat, k: nat)
    requires
        j <= k,
        g.load_params(ts, k).0.ok,
    ensures
        g.load_params(ts, j).0.ok,
    decreases k,
{
    broadcast use group_ops_ok;

    if j < k {
        lemma_params_ok(g, ts, j, (k - 1) as nat);
    }
}

pub broadcast proof fn ok_load_params(g: Graph, ts: Seq<Tensor>, k: nat)
    ensures
        #[trigger] g.load_params(ts, k).0.ok ==> g.ok,
{
    if g.load_params(ts, k).0.ok {
        lemma_params_ok(g, ts, 0, k);
    }
}

impl DagBuilder {
    /// Parameters, one after the other.
    pub(crate) fn load_params(&mut self, ts: &Vec<Witness>) -> (r: Vec<EdgeId>)
        requires
            old(self).wf(),
            old(self)@.load_params(tensors(ts@), ts.len() as nat).0.ok,
        ensures
            final(self).wf(),
            (final(self)@, r@) == old(self)@.load_params(tensors(ts@), ts.len() as nat),
            r.len() == ts.len(),
    {
        let ghost g = self@;
        let ghost all = tensors(ts@);
        let mut r: Vec<EdgeId> = Vec::new();
        let mut i: usize = 0;
        while i < ts.len()
            invariant
                i <= ts.len(),
                all == tensors(ts@),
                g.load_params(all, ts.len() as nat).0.ok,
                self.wf(),
                r.len() == i,
                (self@, r@) == g.load_params(all, i as nat),
            decreases ts.len() - i,
        {
            proof {
                lemma_params_ok(g, all, (i + 1) as nat, ts.len() as nat);
            }
            let e: EdgeId = self.param(ts[i].clone());
            r.push(e);
            i = i + 1;
        }
        r
    }
}

/// Tensors in columns: a list of layers for every kind of weight.
pub open spec fn columns(cols: Seq<Vec<Witness>>) -> Seq<Seq<Tensor>> {
    cols.map_values(|c: Vec<Witness>| tensors(c@))
}

/// The weights of layer `i`.
pub open spec fn row(cols: Seq<Seq<Tensor>>, i: int) -> Seq<Tensor> {
    Seq::new(cols.len(), |c: int| cols[c][i])
}

/// Every column has at least `n` layers.
pub open spec fn tall(cols: Seq<Seq<Tensor>>, n: nat) -> bool {
    forall|c: int| 0 <= c < cols.len() ==> (#[trigger] cols[c]).len() >= n
}

/// Copies of the weights of layer `i`.
pub(crate) fn take_row(cols: &Vec<Vec<Witness>>, i: usize) -> (r: Vec<Witness>)
    requires
        tall(columns(cols@), (i + 1) as nat),
    ensures
        tensors(r@) == row(columns(cols@), i as int),
        r.len() == cols.len(),
{
    let ghost cs = columns(cols@);
    let mut r: Vec<Witness> = Vec::new();
    let mut c: usize = 0;
    while c < cols.len()
        invariant
            c <= cols.len(),
            cs == columns(cols@),
            tall(cs, (i + 1) as nat),
            r.len() == c,
            forall|k: int| 0 <= k < c ==> (#[trigger] r[k])@ == cs[k][i as int],
        decreases cols.len() - c,
    {
        assert(cs[c as int].len() >= i + 1);
        assert(cs[c as int] == tensors(cols[c as int]@));
        r.push(cols[c][i].clone());
        c = c + 1;
    }
    assert(tensors(r@) =~= row(cs, i as int));
    r
}

/// The sizes of a transformer.
#[derive(Clone, Copy, Debug, PartialEq, Eq, Structural)]
pub struct Heads {
    pub num_heads: usize,
    /// Heads of keys and values.
    pub num_kv: usize,
    pub head_dim: usize,
    pub seq_len: usize,
    /// The scaled reciprocal of the root of `head_dim`.
    pub recip: u64,
}

impl Graph {
    /// A block of Llama 2: attention and a gated layer, each behind a normalization and beside its
    /// input.
    #[verifier::opaque]
    pub open spec fn llama_block(self, ts: Seq<Tensor>, s: Heads, cos: EdgeId, sin: EdgeId, x: EdgeId) -> (
        Graph,
        EdgeId,
    ) {
        let (g, w) = self.load_params(ts, 9);
        let g = g.require(g.has(x) && g.rank(x) > 1);
        let (g, h) = g.rms_norm(w[0], g.shape(x)[1], x);
        let (g, h) = g.attention(
            w[1],
            w[2],
            w[3],
            w[4],
            s.num_heads,
            s.head_dim,
            s.seq_len,
            cos,
            sin,
            s.recip,
            h,
        );
        let (g, mid) = g.add(h, x);
        let g = g.require(g.has(mid) && g.rank(mid) > 1);
        let (g, h) = g.rms_norm(w[5], g.shape(mid)[1], mid);
        let (g, h) = g.gated_mlp(w[6], w[7], w[8], h);
        g.add(h, mid)
    }

    /// A block of Llama 3, whose heads share keys and values in groups.
    #[verifier::opaque]
    pub open spec fn llama3_block(self, ts: Seq<Tensor>, s: Heads, cos: EdgeId, sin: EdgeId, x: EdgeId) -> (
        Graph,
        EdgeId,
    ) {
        let (g, w) = self.load_params(ts, 9);
        let (g, h) = g.rms_norm(w[0], s.seq_len, x);
        let (g, h) = g.grouped_attention(
            w[1],
            w[2],
            w[3],
            w[4],
            cos,
            sin,
            s.num_heads,
            s.num_kv,
            s.head_dim,
            s.seq_len,
            s.recip,
            h,
        );
        let (g, mid) = g.add(h, x);
        let (g, h) = g.rms_norm(w[5], s.seq_len, mid);
        let (g, h) = g.gated_mlp(w[6], w[7], w[8], h);
        g.add(h, mid)
    }
}

pub broadcast proof fn ok_llama_block(
    g: Graph,
    ts: Seq<Tensor>,
    s: Heads,
    cos: EdgeId,
    sin: EdgeId,
    x: EdgeId,
)
    ensures
        #[trigger] g.llama_block(ts, s, cos, sin, x).0.ok ==> g.ok,
{
    broadcast use group_ops_ok;
    broadcast use {ok_load_params, ok_rms_norm, ok_attention, ok_gated_mlp};

    reveal(Graph::llama_block);
}

pub broadcast proof fn ok_llama3_block(
    g: Graph,
    ts: Seq<Tensor>,
    s: Heads,
    cos: EdgeId,
    sin: EdgeId,
    x: EdgeId,
)
    ensures
        #[trigger] g.llama3_block(ts, s, cos, sin, x).0.ok ==> g.ok,
{
    broadcast use group_ops_ok;
    broadcast use {ok_load_params, ok_rms_norm, ok_grouped_attention, ok_gated_mlp};

    reveal(Graph::llama3_block);
}

impl DagBuilder {
    /// The second dimension of a tensor.
    pub(crate) fn second_dim(&self, x: EdgeId) -> (r: usize)
        requires
            self.wf(),
            self@.has(x),
            self@.rank(x) > 1,
        ensures
            r == self@.shape(x)[1],
    {
        let shape: Vec<usize> = self.shape_of(x);
        shape[1]
    }

    /// A block of Llama 2.
    #[verifier::rlimit(60)]
    pub fn llama_block(
        &mut self,
        ts: &Vec<Witness>,
        s: Heads,
        cos: EdgeId,
        sin: EdgeId,
        x: EdgeId,
    ) -> (e: EdgeId)
        requires
            old(self).wf(),
            ts.len() == 9,
            old(self)@.llama_block(tensors(ts@), s, cos, sin, x).0.ok,
        ensures
            final(self).wf(),
            (final(self)@, e) == old(self)@.llama_block(tensors(ts@), s, cos, sin, x),
    {
        reveal(Graph::llama_block);
        broadcast use group_ops_ok;
        broadcast use {ok_load_params, ok_rms_norm, ok_attention, ok_gated_mlp};

        let w: Vec<EdgeId> = self.load_params(ts);
        let ghost ready = self@.require(self@.has(x) && self@.rank(x) > 1);
        assert(ready.ok);
        assert(ready == self@);
        let seq: usize = self.second_dim(x);
        let h: EdgeId = self.rms_norm(w[0], seq, x);
        let h: EdgeId = self.attention(
            w[1],
            w[2],
            w[3],
            w[4],
            s.num_heads,
            s.head_dim,
            s.seq_len,
            cos,
            sin,
            s.recip,
            h,
        );
        let mid: EdgeId = self.add(h, x)[0];
        let ghost ready = self@.require(self@.has(mid) && self@.rank(mid) > 1);
        assert(ready.ok);
        assert(ready == self@);
        let seq: usize = self.second_dim(mid);
        let h: EdgeId = self.rms_norm(w[5], seq, mid);
        let h: EdgeId = self.gated_mlp(w[6], w[7], w[8], h);
        self.add(h, mid)[0]
    }

    /// A block of Llama 3.
    #[verifier::rlimit(60)]
    pub fn llama3_block(
        &mut self,
        ts: &Vec<Witness>,
        s: Heads,
        cos: EdgeId,
        sin: EdgeId,
        x: EdgeId,
    ) -> (e: EdgeId)
        requires
            old(self).wf(),
            ts.len() == 9,
            old(self)@.llama3_block(tensors(ts@), s, cos, sin, x).0.ok,
        ensures
            final(self).wf(),
            (final(self)@, e) == old(self)@.llama3_block(tensors(ts@), s, cos, sin, x),
    {
        reveal(Graph::llama3_block);
        broadcast use group_ops_ok;
        broadcast use {ok_load_params, ok_rms_norm, ok_grouped_attention, ok_gated_mlp};

        let w: Vec<EdgeId> = self.load_params(ts);
        let h: EdgeId = self.rms_norm(w[0], s.seq_len, x);
        let h: EdgeId = self.grouped_attention(
            w[1],
            w[2],
            w[3],
            w[4],
            cos,
            sin,
            s.num_heads,
            s.num_kv,
            s.head_dim,
            s.seq_len,
            s.recip,
            h,
        );
        let mid: EdgeId = self.add(h, x)[0];
        let h: EdgeId = self.rms_norm(w[5], s.seq_len, mid);
        let h: EdgeId = self.gated_mlp(w[6], w[7], w[8], h);
        self.add(h, mid)[0]
    }
}

impl Graph {
    /// The first `k` of `n` layers; the edges between layers can be cut.
    pub open spec fn llama_layers(
        self,
        grouped: bool,
        cols: Seq<Seq<Tensor>>,
        s: Heads,
        cos: EdgeId,
        sin: EdgeId,
        x: EdgeId,
        n: nat,
        k: nat,
    ) -> (Graph, EdgeId)
        decreases k,
    {
        if k == 0 {
            (self, x)
        } else {
            let (g, h) = self.llama_layers(grouped, cols, s, cos, sin, x, n, (k - 1) as nat);
            let (g, h) = if grouped {
                g.llama3_block(row(cols, k - 1), s, cos, sin, h)
            } else {
                g.llama_block(row(cols, k - 1), s, cos, sin, h)
            };
            if k < n {
                (g.boundary(h), h)
            } else {
                (g, h)
            }
        }
    }

    /// Llama 2: the rotations, the layers, a normalization and the projection to 32000 tokens.
    #[verifier::opaque]
    pub open spec fn llama(
        self,
        cols: Seq<Seq<Tensor>>,
        cos: Tensor,
        sin: Tensor,
        norm: Tensor,
        logits: Tensor,
        s: Heads,
        x: EdgeId,
    ) -> (Graph, EdgeId) {
        let n = cols[0].len();
        let (g, cos_e) = self.require(cols.len() == 9 && tall(cols, n)).param(cos);
        let (g, sin_e) = g.param(sin);
        let (g, h) = g.llama_layers(false, cols, s, cos_e, sin_e, x, n, n);
        let (g, norm_e) = g.param(norm);
        let g = g.require(g.has(h) && g.rank(h) > 1);
        let (g, h) = g.rms_norm(norm_e, g.shape(h)[1], h);
        let (g, logits_e) = g.param(logits);
        let (g, h) = g.einsum("bij,jk->ik"@, seq![h, logits_e], true);
        g.change_shape(h, seq![1, 32000])
    }

    /// Llama 3: the rotations, the layers, a normalization and the projection to the tokens.
    #[verifier::opaque]
    pub open spec fn llama3(
        self,
        cols: Seq<Seq<Tensor>>,
        cos: Tensor,
        sin: Tensor,
        norm: Tensor,
        logits: Tensor,
        s: Heads,
        vocab_size: usize,
        x: EdgeId,
    ) -> (Graph, EdgeId) {
        let n = cols[0].len();
        let (g, cos_e) = self.require(cols.len() == 9 && tall(cols, n)).param(cos);
        let (g, sin_e) = g.param(sin);
        let (g, h) = g.llama_layers(true, cols, s, cos_e, sin_e, x, n, n);
        let (g, norm_e) = g.param(norm);
        let (g, h) = g.rms_norm(norm_e, s.seq_len, h);
        let (g, logits_e) = g.param(logits);
        let (g, h) = g.einsum("bsi,ij->bsj"@, seq![h, logits_e], true);
        g.change_shape(h, seq![1, s.seq_len, vocab_size])
    }
}

proof fn lemma_layers_ok(
    g: Graph,
    grouped: bool,
    cols: Seq<Seq<Tensor>>,
    s: Heads,
    cos: EdgeId,
    sin: EdgeId,
    x: EdgeId,
    n: nat,
    j: nat,
    k: nat,
)
    requires
        j <= k,
        g.llama_layers(grouped, cols, s, cos, sin, x, n, k).0.ok,
    ensures
        g.llama_layers(grouped, cols, s, cos, sin, x, n, j).0.ok,
    decreases k,
{
    broadcast use {ok_llama_block, ok_llama3_block};

    if j < k {
        lemma_layers_ok(g, grouped, cols, s, cos, sin, x, n, j, (k - 1) as nat);
    }
}

broadcast proof fn ok_llama_layers(
    g: Graph,
    grouped: bool,
    cols: Seq<Seq<Tensor>>,
    s: Heads,
    cos: EdgeId,
    sin: EdgeId,
    x: EdgeId,
    n: nat,
    k: nat,
)
    ensures
        #[trigger] g.llama_layers(grouped, cols, s, cos, sin, x, n, k).0.ok ==> g.ok,
{
    if g.llama_layers(grouped, cols, s, cos, sin, x, n, k).0.ok {
        lemma_layers_ok(g, grouped, cols, s, cos, sin, x, n, 0, k);
    }
}

impl DagBuilder {
    /// All layers; the edges between layers can be cut.
    fn llama_layers(
        &mut self,
        grouped: bool,
        cols: &Vec<Vec<Witness>>,
        s: Heads,
        cos: EdgeId,
        sin: EdgeId,
        x: EdgeId,
        n: usize,
    ) -> (e: EdgeId)
        requires
            old(self).wf(),
            cols.len() == 9,
            tall(columns(cols@), n as nat),
            old(self)@.llama_layers(
                grouped,
                columns(cols@),
                s,
                cos,
                sin,
                x,
                n as nat,
                n as nat,
            ).0.ok,
        ensures
            final(self).wf(),
            (final(self)@, e) == old(self)@.llama_layers(
                grouped,
                columns(cols@),
                s,
                cos,
                sin,
                x,
                n as nat,
                n as nat,
            ),
    {
        let ghost g = self@;
        let ghost cs = columns(cols@);
        let mut h: EdgeId = x;
        let mut i: usize = 0;
        while i < n
            invariant
                i <= n,
                cols.len() == 9,
                cs == columns(cols@),
                tall(cs, n as nat),
                g.llama_layers(grouped, cs, s, cos, sin, x, n as nat, n as nat).0.ok,
                self.wf(),
                (self@, h) == g.llama_layers(grouped, cs, s, cos, sin, x, n as nat, i as nat),
            decreases n - i,
        {
            proof {
                lemma_layers_ok(
                    g,
                    grouped,
                    cs,
                    s,
                    cos,
                    sin,
                    x,
                    n as nat,
                    (i + 1) as nat,
                    n as nat,
                );
                assert forall|c: int| 0 <= c < cs.len() implies (#[trigger] cs[c]).len() >= (i + 1) as nat by {}
            }
            let ts: Vec<Witness> = take_row(cols, i);
            if grouped {
                h = self.llama3_block(&ts, s, cos, sin, h);
            } else {
                h = self.llama_block(&ts, s, cos, sin, h);
            }
            i = i + 1;
            if i < n {
                self.mark_boundary(h);
            }
        }
        h
    }

    /// Llama 2.
    #[verifier::rlimit(60)]
    pub fn llama(
        &mut self,
        cols: &Vec<Vec<Witness>>,
        cos: Witness,
        sin: Witness,
        norm: Witness,
        logits: Witness,
        s: Heads,
        x: EdgeId,
    ) -> (e: EdgeId)
        requires
            old(self).wf(),
            old(self)@.llama(columns(cols@), cos@, sin@, norm@, logits@, s, x).0.ok,
        ensures
            final(self).wf(),
            (final(self)@, e) == old(self)@.llama(columns(cols@), cos@, sin@, norm@, logits@, s, x),
    {
        reveal(Graph::llama);
        broadcast use group_ops_ok;
        broadcast use {ok_llama_layers, ok_rms_norm};

        let ghost cs = columns(cols@);
        let ghost ready = self@.require(cs.len() == 9 && tall(cs, cs[0].len()));
        assert(ready.ok);
        assert(ready == self@);
        let n: usize = cols[0].len();
        assert(cs[0] == tensors(cols[0]@));
        let cos_e: EdgeId = self.param(cos);
        let sin_e: EdgeId = self.param(sin);
        let h: EdgeId = self.llama_layers(false, cols, s, cos_e, sin_e, x, n);
        let norm_e: EdgeId = self.param(norm);
        let ghost ready = self@.require(self@.has(h) && self@.rank(h) > 1);
        assert(ready.ok);
        assert(ready == self@);
        let seq: usize = self.second_dim(h);
        let h: EdgeId = self.rms_norm(norm_e, seq, h);
        let logits_e: EdgeId = self.param(logits);
        let h: EdgeId = self.einsum("bij,jk->ik".to_string(), list2(h, logits_e), true)[0];
        self.change_shape(h, list2(1, 32000))
    }

    /// Llama 3.
    #[verifier::rlimit(60)]
    pub fn llama3(
        &mut self,
        cols: &Vec<Vec<Witness>>,
        cos: Witness,
        sin: Witness,
        norm: Witness,
        logits: Witness,
        s: Heads,
        vocab_size: usize,
        x: EdgeId,
    ) -> (e: EdgeId)
        requires
            old(self).wf(),
            old(self)@.llama3(
                columns(cols@),
                cos@,
                sin@,
                norm@,
                logits@,
                s,
                vocab_size,
                x,
            ).0.ok,
        ensures
            final(self).wf(),
            (final(self)@, e) == old(self)@.llama3(
                columns(cols@),
                cos@,
                sin@,
                norm@,
                logits@,
                s,
                vocab_size,
                x,
            ),
    {
        reveal(Graph::llama3);
        broadcast use group_ops_ok;
        broadcast use {ok_llama_layers, ok_rms_norm};

        let ghost cs = columns(cols@);
        let ghost ready = self@.require(cs.len() == 9 && tall(cs, cs[0].len()));
        assert(ready.ok);
        assert(ready == self@);
        let n: usize = cols[0].len();
        assert(cs[0] == tensors(cols[0]@));
        let cos_e: EdgeId = self.param(cos);
        let sin_e: EdgeId = self.param(sin);
        let h: EdgeId = self.llama_layers(true, cols, s, cos_e, sin_e, x, n);
        let norm_e: EdgeId = self.param(norm);
        let h: EdgeId = self.rms_norm(norm_e, s.seq_len, h);
        let logits_e: EdgeId = self.param(logits);
        let h: EdgeId = self.einsum("bsi,ij->bsj".to_string(), list2(h, logits_e), true)[0];
        self.change_shape(h, list3(1, s.seq_len, vocab_size))
    }
}

/// The given sizes.
pub open spec fn heads_of(
    num_heads: usize,
    num_kv: usize,
    head_dim: usize,
    seq_len: usize,
    recip: u64,
) -> Heads {
    Heads { num_heads, num_kv, head_dim, seq_len, recip }
}

/// The recipe of a normalization by the root mean square.
pub fn llama_rms_norm(w_e: EdgeId) -> (f: impl FnOnce(&mut DagBuilder, &[EdgeId]) -> Vec<EdgeId>)
    ensures
        forall|g: &mut DagBuilder, x: &[EdgeId]|
            g.wf() && x.len() == 1 && g@.has(x[0]) && g@.rank(x[0]) > 1 && g@.rms_norm(
                w_e,
                g@.shape(x[0])[1],
                x[0],
            ).0.ok ==> #[trigger] call_requires(f, (g, x)),
        forall|g: &mut DagBuilder, x: &[EdgeId], r: Vec<EdgeId>| #[trigger]
            call_ensures(f, (g, x), r) ==> final(g).wf() && (final(g)@, r@) == one_edge(
                g@.rms_norm(w_e, g@.shape(x[0])[1], x[0]),
            ),
{
    move |g: &mut DagBuilder, x: &[EdgeId]| -> (r: Vec<EdgeId>)
        requires
            g.wf(),
            x.len() == 1,
            g@.has(x[0]),
            g@.rank(x[0]) > 1,
            g@.rms_norm(w_e, g@.shape(x[0])[1], x[0]).0.ok,
        ensures
            final(g).wf(),
            (final(g)@, r@) == one_edge(
                old(g)@.rms_norm(w_e, old(g)@.shape(x[0])[1], x[0]),
            ),
        {
            let seq: usize = g.second_dim(x[0]);
            list1(g.rms_norm(w_e, seq, x[0]))
        }
}

/// The recipe of a gated layer.
pub fn llama_mlp(
    w_1_e: EdgeId,
    w_2_e: EdgeId,
    w_3_e: EdgeId,
) -> (f: impl FnOnce(&mut DagBuilder, &[EdgeId]) -> Vec<EdgeId>)
    ensures
        forall|g: &mut DagBuilder, x: &[EdgeId]|
            g.wf() && x.len() == 1 && g@.gated_mlp(w_1_e, w_2_e, w_3_e, x[0]).0.ok ==> #[trigger] call_requires(f, (g, x)),
        forall|g: &mut DagBuilder, x: &[EdgeId], r: Vec<EdgeId>| #[trigger]
            call_ensures(f, (g, x), r) ==> final(g).wf() && (final(g)@, r@) == one_edge(
                g@.gated_mlp(w_1_e, w_2_e, w_3_e, x[0]),
            ),
{
    move |g: &mut DagBuilder, x: &[EdgeId]| -> (r: Vec<EdgeId>)
        requires
            g.wf(),
            x.len() == 1,
            g@.gated_mlp(w_1_e, w_2_e, w_3_e, x[0]).0.ok,
        ensures
            final(g).wf(),
            (final(g)@, r@) == one_edge(
                old(g)@.gated_mlp(w_1_e, w_2_e, w_3_e, x[0]),
            ),
        { list1(g.gated_mlp(w_1_e, w_2_e, w_3_e, x[0])) }
}

/// The recipe of attention. `recip` is the scaled reciprocal of the root of `head_dim`.
pub fn llama_attention(
    w_q_e: EdgeId,
    w_k_e: EdgeId,
    w_v_e: EdgeId,
    w_o_e: EdgeId,
    num_heads: usize,
    head_dim: usize,
    seq_len: usize,
    cos_param: EdgeId,
    sin_param: EdgeId,
    recip: u64,
) -> (f: impl FnOnce(&mut DagBuilder, &[EdgeId]) -> Vec<EdgeId>)
    ensures
        forall|g: &mut DagBuilder, x: &[EdgeId]|
            g.wf() && x.len() == 1 && g@.attention(
                w_q_e,
                w_k_e,
                w_v_e,
                w_o_e,
                num_heads,
                head_dim,
                seq_len,
                cos_param,
                sin_param,
                recip,
                x[0],
            ).0.ok ==> #[trigger] call_requires(f, (g, x)),
        forall|g: &mut DagBuilder, x: &[EdgeId], r: Vec<EdgeId>| #[trigger]
            call_ensures(f, (g, x), r) ==> final(g).wf() && (final(g)@, r@) == one_edge(
                g@.attention(
                    w_q_e,
                    w_k_e,
                    w_v_e,
                    w_o_e,
                    num_heads,
                    head_dim,
                    seq_len,
                    cos_param,
                    sin_param,
                    recip,
                    x[0],
                ),
            ),
{
    move |g: &mut DagBuilder, x: &[EdgeId]| -> (r: Vec<EdgeId>)
        requires
            g.wf(),
            x.len() == 1,
            g@.attention(
                w_q_e,
                w_k_e,
                w_v_e,
                w_o_e,
                num_heads,
                head_dim,
                seq_len,
                cos_param,
                sin_param,
                recip,
                x[0],
            ).0.ok,
        ensures
            final(g).wf(),
            (final(g)@, r@) == one_edge(
                old(g)@.attention(
                    w_q_e,
                    w_k_e,
                    w_v_e,
                    w_o_e,
                    num_heads,
                    head_dim,
                    seq_len,
                    cos_param,
                    sin_param,
                    recip,
                    x[0],
                ),
            ),
        { list1(g.attention(
            w_q_e,
            w_k_e,
            w_v_e,
            w_o_e,
            num_heads,
            head_dim,
            seq_len,
            cos_param,
            sin_param,
            recip,
            x[0],
        )) }
}

/// The recipe of attention in groups. `recip` is the scaled reciprocal of the root of `head_dim`.
pub fn llama3_attention(
    w_q_e: EdgeId,
    w_k_e: EdgeId,
    w_v_e: EdgeId,
    w_o_e: EdgeId,
    cos_param: EdgeId,
    sin_param: EdgeId,
    num_heads: usize,
    num_kv_heads: usize,
    head_dim: usize,
    seq_len: usize,
    recip: u64,
) -> (f: impl FnOnce(&mut DagBuilder, &[EdgeId]) -> Vec<EdgeId>)
    ensures
        forall|g: &mut DagBuilder, x: &[EdgeId]|
            g.wf() && x.len() == 1 && g@.grouped_attention(
                w_q_e,
                w_k_e,
                w_v_e,
                w_o_e,
                cos_param,
                sin_param,
                num_heads,
                num_kv_heads,
                head_dim,
                seq_len,
                recip,
                x[0],
            ).0.ok ==> #[trigger] call_requires(f, (g, x)),
        forall|g: &mut DagBuilder, x: &[EdgeId], r: Vec<EdgeId>| #[trigger]
            call_ensures(f, (g, x), r) ==> final(g).wf() && (final(g)@, r@) == one_edge(
                g@.grouped_attention(
                    w_q_e,
                    w_k_e,
                    w_v_e,
                    w_o_e,
                    cos_param,
                    sin_param,
                    num_heads,
                    num_kv_heads,
                    head_dim,
                    seq_len,
                    recip,
                    x[0],
                ),
            ),
{
    move |g: &mut DagBuilder, x: &[EdgeId]| -> (r: Vec<EdgeId>)
        requires
            g.wf(),
            x.len() == 1,
            g@.grouped_attention(
                w_q_e,
                w_k_e,
                w_v_e,
                w_o_e,
                cos_param,
                sin_param,
                num_heads,
                num_kv_heads,
                head_dim,
                seq_len,
                recip,
                x[0],
            ).0.ok,
        ensures
            final(g).wf(),
            (final(g)@, r@) == one_edge(
                old(g)@.grouped_attention(
                    w_q_e,
                    w_k_e,
                    w_v_e,
                    w_o_e,
                    cos_param,
                    sin_param,
                    num_heads,
                    num_kv_heads,
                    head_dim,
                    seq_len,
                    recip,
                    x[0],
                ),
            ),
        { list1(g.grouped_attention(
            w_q_e,
            w_k_e,
            w_v_e,
            w_o_e,
            cos_param,
            sin_param,
            num_heads,
            num_kv_heads,
            head_dim,
            seq_len,
            recip,
            x[0],
        )) }
}

/// The recipe of a block of Llama 2.
pub fn llama_block(
    attn_norm_w: Witness,
    attn_q_w: Witness,
    attn_k_w: Witness,
    attn_v_w: Witness,
    attn_o_w: Witness,
    proj_norm_w: Witness,
    proj_1_w: Witness,
    proj_2_w: Witness,
    proj_3_w: Witness,
    num_heads: usize,
    head_dim: usize,
    seq_len: usize,
    cos_param: EdgeId,
    sin_param: EdgeId,
    recip: u64,
) -> (f: impl FnOnce(&mut DagBuilder, &[EdgeId]) -> Vec<EdgeId>)
    ensures
        forall|g: &mut DagBuilder, x: &[EdgeId]|
            g.wf() && x.len() == 1 && g@.llama_block(
                seq![
                    attn_norm_w@,
                    attn_q_w@,
                    attn_k_w@,
                    attn_v_w@,
                    attn_o_w@,
                    proj_norm_w@,
                    proj_1_w@,
                    proj_2_w@,
                    proj_3_w@,
                ],
                heads_of(num_heads, num_heads, head_dim, seq_len, recip),
                cos_param,
                sin_param,
                x[0],
            ).0.ok ==> #[trigger] call_requires(f, (g, x)),
        forall|g: &mut DagBuilder, x: &[EdgeId], r: Vec<EdgeId>| #[trigger]
            call_ensures(f, (g, x), r) ==> final(g).wf() && (final(g)@, r@) == one_edge(
                g@.llama_block(
                    seq![
                        attn_norm_w@,
                        attn_q_w@,
                        attn_k_w@,
                        attn_v_w@,
                        attn_o_w@,
                        proj_norm_w@,
                        proj_1_w@,
                        proj_2_w@,
                        proj_3_w@,
                    ],
                    heads_of(num_heads, num_heads, head_dim, seq_len, recip),
                    cos_param,
                    sin_param,
                    x[0],
                ),
            ),
{
    let ghost all = seq![
        attn_norm_w@,
        attn_q_w@,
        attn_k_w@,
        attn_v_w@,
        attn_o_w@,
        proj_norm_w@,
        proj_1_w@,
        proj_2_w@,
        proj_3_w@,
    ];
    let mut ts: Vec<Witness> = Vec::new();
    ts.push(attn_norm_w);
    ts.push(attn_q_w);
    ts.push(attn_k_w);
    ts.push(attn_v_w);
    ts.push(attn_o_w);
    ts.push(proj_norm_w);
    ts.push(proj_1_w);
    ts.push(proj_2_w);
    ts.push(proj_3_w);
    assert(tensors(ts@) =~= all);
    let s: Heads = Heads { num_heads, num_kv: num_heads, head_dim, seq_len, recip };
    move |g: &mut DagBuilder, x: &[EdgeId]| -> (r: Vec<EdgeId>)
        requires
            g.wf(),
            x.len() == 1,
            g@.llama_block(tensors(ts@), s, cos_param, sin_param, x[0]).0.ok,
        ensures
            final(g).wf(),
            (final(g)@, r@) == one_edge(
                old(g)@.llama_block(tensors(ts@), s, cos_param, sin_param, x[0]),
            ),
        { list1(g.llama_block(&ts, s, cos_param, sin_param, x[0])) }
}

/// The recipe of a block of Llama 3.
pub fn llama3_block(
    attn_norm_w: Witness,
    attn_q_w: Witness,
    attn_k_w: Witness,
    attn_v_w: Witness,
    attn_o_w: Witness,
    proj_norm_w: Witness,
    proj_1_w: Witness,
    proj_2_w: Witness,
    proj_3_w: Witness,
    cos_param: EdgeId,
    sin_param: EdgeId,
    num_heads: usize,
    num_kv_heads: usize,
    head_dim: usize,
    seq_len: usize,
    recip: u64,
) -> (f: impl FnOnce(&mut DagBuilder, &[EdgeId]) -> Vec<EdgeId>)
    ensures
        forall|g: &mut DagBuilder, x: &[EdgeId]|
            g.wf() && x.len() == 1 && g@.llama3_block(
                seq![
                    attn_norm_w@,
                    attn_q_w@,
                    attn_k_w@,
                    attn_v_w@,
                    attn_o_w@,
                    proj_norm_w@,
                    proj_1_w@,
                    proj_2_w@,
                    proj_3_w@,
                ],
                heads_of(num_heads, num_kv_heads, head_dim, seq_len, recip),
                cos_param,
                sin_param,
                x[0],
            ).0.ok ==> #[trigger] call_requires(f, (g, x)),
        forall|g: &mut DagBuilder, x: &[EdgeId], r: Vec<EdgeId>| #[trigger]
            call_ensures(f, (g, x), r) ==> final(g).wf() && (final(g)@, r@) == one_edge(
                g@.llama3_block(
                    seq![
                        attn_norm_w@,
                        attn_q_w@,
                        attn_k_w@,
                        attn_v_w@,
                        attn_o_w@,
                        proj_norm_w@,
                        proj_1_w@,
                        proj_2_w@,
                        proj_3_w@,
                    ],
                    heads_of(num_heads, num_kv_heads, head_dim, seq_len, recip),
                    cos_param,
                    sin_param,
                    x[0],
                ),
            ),
{
    let ghost all = seq![
        attn_norm_w@,
        attn_q_w@,
        attn_k_w@,
        attn_v_w@,
        attn_o_w@,
        proj_norm_w@,
        proj_1_w@,
        proj_2_w@,
        proj_3_w@,
    ];
    let mut ts: Vec<Witness> = Vec::new();
    ts.push(attn_norm_w);
    ts.push(attn_q_w);
    ts.push(attn_k_w);
    ts.push(attn_v_w);
    ts.push(attn_o_w);
    ts.push(proj_norm_w);
    ts.push(proj_1_w);
    ts.push(proj_2_w);
    ts.push(proj_3_w);
    assert(tensors(ts@) =~= all);
    let s: Heads = Heads { num_heads, num_kv: num_kv_heads, head_dim, seq_len, recip };
    move |g: &mut DagBuilder, x: &[EdgeId]| -> (r: Vec<EdgeId>)
        requires
            g.wf(),
            x.len() == 1,
            g@.llama3_block(tensors(ts@), s, cos_param, sin_param, x[0]).0.ok,
        ensures
            final(g).wf(),
            (final(g)@, r@) == one_edge(
                old(g)@.llama3_block(tensors(ts@), s, cos_param, sin_param, x[0]),
            ),
        { list1(g.llama3_block(&ts, s, cos_param, sin_param, x[0])) }
}

/// The recipe of Llama 2. `cos` and `sin` hold the rotations, a row per position.
pub fn llama_2_7b(
    attn_norm_w_vec: Vec<Witness>,
    attn_q_w_vec: Vec<Witness>,
    attn_k_w_vec: Vec<Witness>,
    attn_v_w_vec: Vec<Witness>,
    attn_o_w_vec: Vec<Witness>,
    proj_norm_w_vec: Vec<Witness>,
    proj_1_w_vec: Vec<Witness>,
    proj_2_w_vec: Vec<Witness>,
    proj_3_w_vec: Vec<Witness>,
    layer_norm_w: Witness,
    logits_w: Witness,
    cos: Witness,
    sin: Witness,
    num_heads: usize,
    head_dim: usize,
    seq_len: usize,
    recip: u64,
) -> (f: impl FnOnce(&mut DagBuilder, &[EdgeId]) -> Vec<EdgeId>)
    ensures
        forall|g: &mut DagBuilder, x: &[EdgeId]|
            g.wf() && x.len() == 1 && g@.llama(
                seq![
                    tensors(attn_norm_w_vec@),
                    tensors(attn_q_w_vec@),
                    tensors(attn_k_w_vec@),
                    tensors(attn_v_w_vec@),
                    tensors(attn_o_w_vec@),
                    tensors(proj_norm_w_vec@),
                    tensors(proj_1_w_vec@),
                    tensors(proj_2_w_vec@),
                    tensors(proj_3_w_vec@),
                ],
                cos@,
                sin@,
                layer_norm_w@,
                logits_w@,
                heads_of(num_heads, num_heads, head_dim, seq_len, recip),
                x[0],
            ).0.ok ==> #[trigger] call_requires(f, (g, x)),
        forall|g: &mut DagBuilder, x: &[EdgeId], r: Vec<EdgeId>| #[trigger]
            call_ensures(f, (g, x), r) ==> final(g).wf() && (final(g)@, r@) == one_edge(
                g@.llama(
                    seq![
                        tensors(attn_norm_w_vec@),
                        tensors(attn_q_w_vec@),
                        tensors(attn_k_w_vec@),
                        tensors(attn_v_w_vec@),
                        tensors(attn_o_w_vec@),
                        tensors(proj_norm_w_vec@),
                        tensors(proj_1_w_vec@),
                        tensors(proj_2_w_vec@),
                        tensors(proj_3_w_vec@),
                    ],
                    cos@,
                    sin@,
                    layer_norm_w@,
                    logits_w@,
                    heads_of(num_heads, num_heads, head_dim, seq_len, recip),
                    x[0],
                ),
            ),
{
    let ghost all = seq![
        tensors(attn_norm_w_vec@),
        tensors(attn_q_w_vec@),
        tensors(attn_k_w_vec@),
        tensors(attn_v_w_vec@),
        tensors(attn_o_w_vec@),
        tensors(proj_norm_w_vec@),
        tensors(proj_1_w_vec@),
        tensors(proj_2_w_vec@),
        tensors(proj_3_w_vec@),
    ];
    let mut cols: Vec<Vec<Witness>> = Vec::new();
    cols.push(attn_norm_w_vec);
    cols.push(attn_q_w_vec);
    cols.push(attn_k_w_vec);
    cols.push(attn_v_w_vec);
    cols.push(attn_o_w_vec);
    cols.push(proj_norm_w_vec);
    cols.push(proj_1_w_vec);
    cols.push(proj_2_w_vec);
    cols.push(proj_3_w_vec);
    assert(columns(cols@) =~= all);
    let s: Heads = Heads { num_heads, num_kv: num_heads, head_dim, seq_len, recip };
    let ghost (ct, st, nt, lt) = (cos@, sin@, layer_norm_w@, logits_w@);
    move |g: &mut DagBuilder, x: &[EdgeId]| -> (r: Vec<EdgeId>)
        requires
            g.wf(),
            x.len() == 1,
            g@.llama(columns(cols@), ct, st, nt, lt, s, x[0]).0.ok,
        ensures
            final(g).wf(),
            (final(g)@, r@) == one_edge(
                old(g)@.llama(columns(cols@), ct, st, nt, lt, s, x[0]),
            ),
        { list1(g.llama(&cols, cos, sin, layer_norm_w, logits_w, s, x[0])) }
}

/// The recipe of Llama 3. `cos` and `sin` hold the rotations, a row per position.
pub fn llama3_8b(
    attn_norm_w_vec: Vec<Witness>,
    attn_q_w_vec: Vec<Witness>,
    attn_k_w_vec: Vec<Witness>,
    attn_v_w_vec: Vec<Witness>,
    attn_o_w_vec: Vec<Witness>,
    proj_norm_w_vec: Vec<Witness>,
    proj_1_w_vec: Vec<Witness>,
    proj_2_w_vec: Vec<Witness>,
    proj_3_w_vec: Vec<Witness>,
    layer_norm_w: Witness,
    logits_w: Witness,
    cos: Witness,
    sin: Witness,
    seq_len: usize,
    head_dim: usize,
    num_heads: usize,
    num_kv_heads: usize,
    vocab_size: usize,
    recip: u64,
) -> (f: impl FnOnce(&mut DagBuilder, &[EdgeId]) -> Vec<EdgeId>)
    ensures
        forall|g: &mut DagBuilder, x: &[EdgeId]|
            g.wf() && x.len() == 1 && g@.llama3(
                seq![
                    tensors(attn_norm_w_vec@),
                    tensors(attn_q_w_vec@),
                    tensors(attn_k_w_vec@),
                    tensors(attn_v_w_vec@),
                    tensors(attn_o_w_vec@),
                    tensors(proj_norm_w_vec@),
                    tensors(proj_1_w_vec@),
                    tensors(proj_2_w_vec@),
                    tensors(proj_3_w_vec@),
                ],
                cos@,
                sin@,
                layer_norm_w@,
                logits_w@,
                heads_of(num_heads, num_kv_heads, head_dim, seq_len, recip),
                vocab_size,
                x[0],
            ).0.ok ==> #[trigger] call_requires(f, (g, x)),
        forall|g: &mut DagBuilder, x: &[EdgeId], r: Vec<EdgeId>| #[trigger]
            call_ensures(f, (g, x), r) ==> final(g).wf() && (final(g)@, r@) == one_edge(
                g@.llama3(
                    seq![
                        tensors(attn_norm_w_vec@),
                        tensors(attn_q_w_vec@),
                        tensors(attn_k_w_vec@),
                        tensors(attn_v_w_vec@),
                        tensors(attn_o_w_vec@),
                        tensors(proj_norm_w_vec@),
                        tensors(proj_1_w_vec@),
                        tensors(proj_2_w_vec@),
                        tensors(proj_3_w_vec@),
                    ],
                    cos@,
                    sin@,
                    layer_norm_w@,
                    logits_w@,
                    heads_of(num_heads, num_kv_heads, head_dim, seq_len, recip),
                    vocab_size,
                    x[0],
                ),
            ),
{
    let ghost all = seq![
        tensors(attn_norm_w_vec@),
        tensors(attn_q_w_vec@),
        tensors(attn_k_w_vec@),
        tensors(attn_v_w_vec@),
        tensors(attn_o_w_vec@),
        tensors(proj_norm_w_vec@),
        tensors(proj_1_w_vec@),
        tensors(proj_2_w_vec@),
        tensors(proj_3_w_vec@),
    ];
    let mut cols: Vec<Vec<Witness>> = Vec::new();
    cols.push(attn_norm_w_vec);
    cols.push(attn_q_w_vec);
    cols.push(attn_k_w_vec);
    cols.push(attn_v_w_vec);
    cols.push(attn_o_w_vec);
    cols.push(proj_norm_w_vec);
    cols.push(proj_1_w_vec);
    cols.push(proj_2_w_vec);
    cols.push(proj_3_w_vec);
    assert(columns(cols@) =~= all);
    let s: Heads = Heads { num_heads, num_kv: num_kv_heads, head_dim, seq_len, recip };
    let ghost (ct, st, nt, lt) = (cos@, sin@, layer_norm_w@, logits_w@);
    move |g: &mut DagBuilder, x: &[EdgeId]| -> (r: Vec<EdgeId>)
        requires
            g.wf(),
            x.len() == 1,
            g@.llama3(columns(cols@), ct, st, nt, lt, s, vocab_size, x[0]).0.ok,
        ensures
            final(g).wf(),
            (final(g)@, r@) == one_edge(
                old(g)@.llama3(columns(cols@), ct, st, nt, lt, s, vocab_size, x[0]),
            ),
        { list1(g.llama3(&cols, cos, sin, layer_norm_w, logits_w, s, vocab_size, x[0])) }
}

} // verus!
