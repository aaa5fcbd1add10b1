//! Layers of transformers.
use vstd::arithmetic::power2::*;
use vstd::prelude::*;

use crate::dag::builder::DagBuilder;
use crate::dag::builder_ops::{list1, list2, list3, list4, list5};
use crate::dag::graph::Graph;
use crate::dag::graph_ops::group_ops_ok;
use crate::dag::types::EdgeId;
use crate::dag::witness::{fits, known, DataType, Role, Tensor, Witness};
use crate::field::GoldilocksField;

verus! {

impl Graph {
    /// A constant with one entry.
    #[verifier::opaque]
    pub open spec fn constant(self, v: u64, sf: usize) -> (Graph, EdgeId) {
        self.param(known(seq![1], seq![GoldilocksField(v)], DataType::Float, sf, Role::Constant))
    }
}

pub broadcast proof fn ok_constant(g: Graph, v: u64, sf: usize)
    ensures
        #[trigger] g.constant(v, sf).0.ok ==> g.ok,
{
    broadcast use group_ops_ok;

    reveal(Graph::constant);
}

impl DagBuilder {
    /// A constant with one entry.
    pub fn constant(&mut self, v: u64, sf: usize) -> (e: EdgeId)
        requires
            old(self).wf(),
            old(self)@.constant(v, sf).0.ok,
        ensures
            final(self).wf(),
            (final(self)@, e) == old(self)@.constant(v, sf),
    {
        reveal(Graph::constant);
        let words: Vec<GoldilocksField> = vec![GoldilocksField(v)];
        assert(words@ =~= seq![GoldilocksField(v)]);
        proof {
            lemma_one_fits();
        }
        let t: Witness = Witness::new(list1(1), words, DataType::Float, sf, Role::Constant);
        self.param(t)
    }
}

/// One entry fits a tensor of one entry.
proof fn lemma_one_fits()
    ensures
        fits(seq![1usize], 1),
{
    assert(fits(seq![1usize], 1)) by {
        reveal_with_fuel(crate::util::arith::num_vars, 3);
        lemma2_to64();
        crate::util::arith::lemma_clog2(1);
    }
}

/// `2^n` as a word.
pub fn pow2_word(n: usize) -> (r: u64)
    requires
        n < 64,
    ensures
        r == pow2(n as nat),
{
    let mut r: u64 = 1;
    let mut i: usize = 0;
    proof {
        lemma2_to64();
    }
    while i < n
        invariant
            i <= n < 64,
            r == pow2(i as nat),
        decreases n - i,
    {
        proof {
            lemma_pow2_unfold((i + 1) as nat);
            lemma_pow2_strictly_increases((i + 1) as nat, 64);
            lemma2_to64();
        }
        r = r * 2;
        i = i + 1;
    }
    r
}

/// The other entry of a pair.
pub open spec fn partner(i: int) -> int {
    if i % 2 == 0 {
        i + 1
    } else {
        i - 1
    }
}

/// The matrix that swaps the entries of every pair, column after column.
pub open spec fn swap_words(d: nat) -> Seq<GoldilocksField> {
    Seq::new(
        d * d,
        |k: int|
            GoldilocksField(
                if partner(k % d as int) == k / d as int {
                    1
                } else {
                    0
                },
            ),
    )
}

/// The dimension can be cut into pairs, and the matrix fits a tensor.
pub open spec fn swappable(d: usize) -> bool {
    d % 2 == 0 && d * d <= usize::MAX && fits(seq![d, d], (d * d) as nat)
}

/// The tensor of the matrix that swaps the entries of every pair.
pub open spec fn swap_matrix(d: usize) -> Tensor {
    known(seq![d, d], swap_words(d as nat), DataType::Float, 0, Role::Constant)
}

/// Swapping twice changes nothing, and every entry has one partner.
pub proof fn lemma_partner(d: int, i: int)
    requires
        0 <= i < d,
        d % 2 == 0,
    ensures
        0 <= partner(i) < d,
        partner(i) != i,
        partner(partner(i)) == i,
{
}

/// The matrix that swaps the entries of every pair, column after column.
pub fn pair_swap_perm_matrix(d: usize) -> (r: Vec<GoldilocksField>)
    requires
        d % 2 == 0,
        d * d <= usize::MAX,
    ensures
        r@ == swap_words(d as nat),
{
    let ghost target = swap_words(d as nat);
    let mut r: Vec<GoldilocksField> = Vec::new();
    let total: usize = d * d;
    let mut k: usize = 0;
    while k < total
        invariant
            k <= total,
            total == d * d,
            d % 2 == 0,
            target == swap_words(d as nat),
            r@ == target.take(k as int),
        decreases total - k,
    {
        assert(d > 0) by (nonlinear_arith)
            requires
                k < d * d,
                0 <= k,
                0 <= d,
        ;
        let i: usize = k % d;
        let j: usize = k / d;
        let other: usize = if i % 2 == 0 {
            i + 1
        } else {
            i - 1
        };
        let w: GoldilocksField = if other == j {
            GoldilocksField(1)
        } else {
            GoldilocksField(0)
        };
        r.push(w);
        k = k + 1;
        assert(r@ =~= target.take(k as int));
    }
    assert(target.len() == total) by (nonlinear_arith)
        requires
            target.len() == (d as nat) * (d as nat),
            total == d * d,
    ;
    assert(target.take(k as int) =~= target);
    r
}

/// The tensor of the matrix that swaps the entries of every pair.
fn new_swap_matrix(d: usize) -> (t: Witness)
    requires
        swappable(d),
    ensures
        t@ == swap_matrix(d),
        t.role == Role::Constant,
{
    let words: Vec<GoldilocksField> = pair_swap_perm_matrix(d);
    Witness::new(list2(d, d), words, DataType::Float, 0, Role::Constant)
}

impl Graph {
    /// The mean of `n` numbers with the given sum, checked to within half a unit each way.
    #[verifier::opaque]
    pub open spec fn mean_of(self, x_sum: EdgeId, seq: usize, n: usize) -> (Graph, EdgeId) {
        let (g, mean) = self.div_const(x_sum, n);
        let (g, mean) = g.change_shape(mean, seq![1, seq, 1]);
        let (g, count) = g.constant(n as u64, 0);
        let (g, half) = g.constant((n / 2) as u64, self.sf_log);
        let (g, back) = g.einsum("bsi,i->bsi"@, seq![mean, count], false);
        let (g, diff) = g.sub(x_sum, back);
        let (g, above) = g.add(diff, half);
        let (g, beneath) = g.sub(half, diff);
        let g = g.nonneg(above);
        let g = g.nonneg(beneath);
        (g, mean)
    }
}

pub broadcast proof fn ok_mean_of(g: Graph, x_sum: EdgeId, seq: usize, n: usize)
    ensures
        #[trigger] g.mean_of(x_sum, seq, n).0.ok ==> g.ok,
{
    broadcast use group_ops_ok;
    broadcast use {ok_constant};

    reveal(Graph::mean_of);
}

impl DagBuilder {
    /// The mean of `n` numbers with the given sum, checked to within half a unit each way.
    #[verifier::rlimit(40)]
    pub fn mean_of(&mut self, x_sum: EdgeId, seq: usize, n: usize) -> (e: EdgeId)
        requires
            old(self).wf(),
            old(self)@.mean_of(x_sum, seq, n).0.ok,
        ensures
            final(self).wf(),
            (final(self)@, e) == old(self)@.mean_of(x_sum, seq, n),
    {
        reveal(Graph::mean_of);
        broadcast use group_ops_ok;
        broadcast use {ok_constant};

        let sf_log: usize = self.sf_log;
        let mean: EdgeId = self.div_const(x_sum, n)[0];
        let mean: EdgeId = self.change_shape(mean, list3(1, seq, 1));
        let count: EdgeId = self.constant(n as u64, 0);
        let half: EdgeId = self.constant((n / 2) as u64, sf_log);
        let back: EdgeId = self.einsum("bsi,i->bsi".to_string(), list2(mean, count), false)[0];
        let diff: EdgeId = self.sub(x_sum, back)[0];
        let above: EdgeId = self.add(diff, half)[0];
        let beneath: EdgeId = self.sub(half, diff)[0];
        self.add_nonneg_node(above);
        self.add_nonneg_node(beneath);
        mean
    }
}

impl Graph {
    /// Checks that `z` is one to within the tolerance.
    #[verifier::opaque]
    pub open spec fn near_one(self, z: EdgeId, one: EdgeId, tolerance: EdgeId) -> (Graph, EdgeId) {
        let (g, diff) = self.sub(z, one);
        let (g, above) = g.add(diff, tolerance);
        let (g, beneath) = g.sub(tolerance, diff);
        let g = g.nonneg(above);
        let g = g.nonneg(beneath);
        (g, diff)
    }
}

pub broadcast proof fn ok_near_one(g: Graph, z: EdgeId, one: EdgeId, tolerance: EdgeId)
    ensures
        #[trigger] g.near_one(z, one, tolerance).0.ok ==> g.ok,
{
    broadcast use group_ops_ok;

    reveal(Graph::near_one);
}

impl DagBuilder {
    /// Checks that `z` is one to within the tolerance.
    pub fn near_one(&mut self, z: EdgeId, one: EdgeId, tolerance: EdgeId) -> (e: EdgeId)
        requires
            old(self).wf(),
            old(self)@.near_one(z, one, tolerance).0.ok,
        ensures
            final(self).wf(),
            (final(self)@, e) == old(self)@.near_one(z, one, tolerance),
    {
        reveal(Graph::near_one);
        broadcast use group_ops_ok;

        let diff: EdgeId = self.sub(z, one)[0];
        let above: EdgeId = self.add(diff, tolerance)[0];
        let beneath: EdgeId = self.sub(tolerance, diff)[0];
        self.add_nonneg_node(above);
        self.add_nonneg_node(beneath);
        diff
    }
}

impl Graph {
    /// The rows of `x` divided by their root mean squares, times the weights. The quotient is checked:
    /// the mean square times its square is one to within the tolerance.
    #[verifier::opaque]
    pub open spec fn rms_norm(self, w_e: EdgeId, seq: usize, x: EdgeId) -> (Graph, EdgeId) {
        let n = self.shape(x).last();
        let g = self.require(self.has(x) && self.rank(x) > 0 && self.sf_log < 64);
        let (g, r) = g.rms_reciprocal(x);
        let (g, one) = g.constant(pow2(self.sf_log as nat) as u64, self.sf_log);
        let (g, tolerance) = g.constant(2, self.sf_log);
        let (g, square) = g.einsum("bsi,bsi->bsi"@, seq![x, x], true);
        let (g, x_sum) = g.einsum("bsi->bs"@, seq![square], false);
        let (g, mean) = g.mean_of(x_sum, seq, n);
        let (g, r_square) = g.einsum("bsi,bsi->bsi"@, seq![r, r], true);
        let (g, z) = g.einsum("bsi,bsi->bsi"@, seq![mean, r_square], true);
        let (g, diff) = g.near_one(z, one, tolerance);
        let (g, r) = g.change_shape(r, seq![1, seq]);
        let (g, h) = g.einsum("bsi,bs->bsi"@, seq![x, r], true);
        let (g, out) = g.einsum("bsi,i->bsi"@, seq![h, w_e], true);
        (g, out)
    }
}

pub broadcast proof fn ok_rms_norm(g: Graph, w_e: EdgeId, seq: usize, x: EdgeId)
    ensures
        #[trigger] g.rms_norm(w_e, seq, x).0.ok ==> g.ok,
{
    broadcast use group_ops_ok;
    broadcast use {ok_constant, ok_mean_of, ok_near_one};

    reveal(Graph::rms_norm);
}

impl DagBuilder {
    /// The rows of `x` divided by their root mean squares, times the weights. The quotient is checked:
    /// the mean square times its square is one to within the tolerance.
    #[verifier::rlimit(60)]
    pub fn rms_norm(&mut self, w_e: EdgeId, seq: usize, x: EdgeId) -> (e: EdgeId)
        requires
            old(self).wf(),
            old(self)@.rms_norm(w_e, seq, x).0.ok,
        ensures
            final(self).wf(),
            (final(self)@, e) == old(self)@.rms_norm(w_e, seq, x),
    {
        reveal(Graph::rms_norm);
        broadcast use group_ops_ok;
        broadcast use {ok_constant, ok_mean_of, ok_near_one};

        let shape: Vec<usize> = self.shape_of(x);
        let n: usize = shape[shape.len() - 1];
        let sf_log: usize = self.sf_log;
        let unit: u64 = pow2_word(sf_log);
        let r: EdgeId = self.rms_reciprocal(x)[0];
        let one: EdgeId = self.constant(unit, sf_log);
        let tolerance: EdgeId = self.constant(2, sf_log);
        let square: EdgeId = self.einsum("bsi,bsi->bsi".to_string(), list2(x, x), true)[0];
        let x_sum: EdgeId = self.einsum("bsi->bs".to_string(), list1(square), false)[0];
        let mean: EdgeId = self.mean_of(x_sum, seq, n);
        let r_square: EdgeId = self.einsum("bsi,bsi->bsi".to_string(), list2(r, r), true)[0];
        let z: EdgeId = self.einsum("bsi,bsi->bsi".to_string(), list2(mean, r_square), true)[0];
        let diff: EdgeId = self.near_one(z, one, tolerance);
        let r: EdgeId = self.change_shape(r, list2(1, seq));
        let h: EdgeId = self.einsum("bsi,bs->bsi".to_string(), list2(x, r), true)[0];
        let out: EdgeId = self.einsum("bsi,i->bsi".to_string(), list2(h, w_e), true)[0];
        out
    }
}

impl Graph {
    /// A gated layer: the product of one projection, times its sigmoid, and another, projected back.
    #[verifier::opaque]
    pub open spec fn gated_mlp(self, w_1: EdgeId, w_2: EdgeId, w_3: EdgeId, x: EdgeId) -> (Graph, EdgeId) {
        let (g, h_1) = self.einsum("bsi,ij->bsj"@, seq![x, w_1], true);
        let (g, gate) = g.sigmoid(h_1);
        let (g, swish) = g.einsum("bsi,bsi->bsi"@, seq![h_1, gate], true);
        let (g, h_2) = g.einsum("bsi,ij->bsj"@, seq![x, w_2], true);
        let (g, both) = g.einsum("bsi,bsi->bsi"@, seq![swish, h_2], true);
        let (g, out) = g.einsum("bsi,ij->bsj"@, seq![both, w_3], true);
        (g, out)
    }
}

pub broadcast proof fn ok_gated_mlp(g: Graph, w_1: EdgeId, w_2: EdgeId, w_3: EdgeId, x: EdgeId)
    ensures
        #[trigger] g.gated_mlp(w_1, w_2, w_3, x).0.ok ==> g.ok,
{
    broadcast use group_ops_ok;

    reveal(Graph::gated_mlp);
}

impl DagBuilder {
    /// A gated layer: the product of one projection, times its sigmoid, and another, projected back.
    #[verifier::rlimit(30)]
    pub fn gated_mlp(&mut self, w_1: EdgeId, w_2: EdgeId, w_3: EdgeId, x: EdgeId) -> (e: EdgeId)
        requires
            old(self).wf(),
            old(self)@.gated_mlp(w_1, w_2, w_3, x).0.ok,
        ensures
            final(self).wf(),
            (final(self)@, e) == old(self)@.gated_mlp(w_1, w_2, w_3, x),
    {
        reveal(Graph::gated_mlp);
        broadcast use group_ops_ok;

        let h_1: EdgeId = self.einsum("bsi,ij->bsj".to_string(), list2(x, w_1), true)[0];
        let gate: EdgeId = self.sigmoid(h_1)[0];
        let swish: EdgeId = self.einsum("bsi,bsi->bsi".to_string(), list2(h_1, gate), true)[0];
        let h_2: EdgeId = self.einsum("bsi,ij->bsj".to_string(), list2(x, w_2), true)[0];
        let both: EdgeId = self.einsum("bsi,bsi->bsi".to_string(), list2(swish, h_2), true)[0];
        let out: EdgeId = self.einsum("bsi,ij->bsj".to_string(), list2(both, w_3), true)[0];
        out
    }
}

impl Graph {
    /// `x` with the entries of every pair of its last dimension swapped.
    #[verifier::opaque]
    pub open spec fn swapped(self, x: EdgeId) -> (Graph, EdgeId) {
        let d = self.shape(x).last();
        let g = self.require(self.has(x) && self.rank(x) > 0 && swappable(d));
        let (g, swap) = g.param(swap_matrix(d));
        let (g, y) = g.einsum("bshd,de->bshe"@, seq![x, swap], false);
        (g, y)
    }
}

pub broadcast proof fn ok_swapped(g: Graph, x: EdgeId)
    ensures
        #[trigger] g.swapped(x).0.ok ==> g.ok,
{
    broadcast use group_ops_ok;

    reveal(Graph::swapped);
}

impl DagBuilder {
    /// `x` with the entries of every pair of its last dimension swapped.
    pub fn swapped(&mut self, x: EdgeId) -> (e: EdgeId)
        requires
            old(self).wf(),
            old(self)@.swapped(x).0.ok,
        ensures
            final(self).wf(),
            (final(self)@, e) == old(self)@.swapped(x),
    {
        reveal(Graph::swapped);
        broadcast use group_ops_ok;

        let shape: Vec<usize> = self.shape_of(x);
        let d: usize = shape[shape.len() - 1];
        let swap: EdgeId = self.param(new_swap_matrix(d));
        let y: EdgeId = self.einsum("bshd,de->bshe".to_string(), list2(x, swap), false)[0];
        y
    }
}

impl Graph {
    /// The rotation: `cos * x + sin * swapped(x)`.
    #[verifier::opaque]
    pub open spec fn turned(self, x: EdgeId, cos: EdgeId, sin: EdgeId) -> (Graph, EdgeId) {
        let (g, s) = self.swapped(x);
        let (g, s) = g.einsum("bshd,sd->bshd"@, seq![s, sin], true);
        let (g, c) = g.einsum("bshd,sd->bshd"@, seq![x, cos], true);
        let (g, out) = g.add(s, c);
        (g, out)
    }
}

pub broadcast proof fn ok_turned(g: Graph, x: EdgeId, cos: EdgeId, sin: EdgeId)
    ensures
        #[trigger] g.turned(x, cos, sin).0.ok ==> g.ok,
{
    broadcast use group_ops_ok;
    broadcast use {ok_swapped};

    reveal(Graph::turned);
}

impl DagBuilder {
    /// The rotation: `cos * x + sin * swapped(x)`.
    pub fn turned(&mut self, x: EdgeId, cos: EdgeId, sin: EdgeId) -> (e: EdgeId)
        requires
            old(self).wf(),
            old(self)@.turned(x, cos, sin).0.ok,
        ensures
            final(self).wf(),
            (final(self)@, e) == old(self)@.turned(x, cos, sin),
    {
        reveal(Graph::turned);
        broadcast use group_ops_ok;
        broadcast use {ok_swapped};

        let s: EdgeId = self.swapped(x);
        let s: EdgeId = self.einsum("bshd,sd->bshd".to_string(), list2(s, sin), true)[0];
        let c: EdgeId = self.einsum("bshd,sd->bshd".to_string(), list2(x, cos), true)[0];
        let out: EdgeId = self.add(s, c)[0];
        out
    }
}

impl Graph {
    /// The softmax of the scores, masked where a later position would be seen.
    #[verifier::opaque]
    pub open spec fn softmax_of(self, seq_len: usize, scores: EdgeId) -> (Graph, EdgeId) {
        let g = self.require(true);
        let (g, scores) = if seq_len > 1 { g.causal_mask(scores, seq_len) } else { (g, scores) };
        let (g, c) = g.softmax_const(scores);
        let (g, s) = g.add(scores, c);
        let (g, out) = g.exp(s);
        (g, out)
    }
}

pub broadcast proof fn ok_softmax_of(g: Graph, seq_len: usize, scores: EdgeId)
    ensures
        #[trigger] g.softmax_of(seq_len, scores).0.ok ==> g.ok,
{
    broadcast use group_ops_ok;

    reveal(Graph::softmax_of);
}

impl DagBuilder {
    /// The softmax of the scores, masked where a later position would be seen.
    pub fn softmax_of(&mut self, seq_len: usize, scores: EdgeId) -> (e: EdgeId)
        requires
            old(self).wf(),
            old(self)@.softmax_of(seq_len, scores).0.ok,
        ensures
            final(self).wf(),
            (final(self)@, e) == old(self)@.softmax_of(seq_len, scores),
    {
        reveal(Graph::softmax_of);
        broadcast use group_ops_ok;

        let scores: EdgeId = if seq_len > 1 { self.causal_mask(scores, seq_len) } else { scores };
        let c: EdgeId = self.softmax_const(scores)[0];
        let s: EdgeId = self.add(scores, c)[0];
        let out: EdgeId = self.exp(s)[0];
        out
    }
}

impl Graph {
    /// Attention over `num_heads` heads. `recip` is the scaled reciprocal of the root of their width.
    #[verifier::opaque]
    pub open spec fn attention(
        self,
        w_q: EdgeId,
        w_k: EdgeId,
        w_v: EdgeId,
        w_o: EdgeId,
        num_heads: usize,
        head_dim: usize,
        seq_len: usize,
        cos: EdgeId,
        sin: EdgeId,
        recip: u64,
        x: EdgeId,
    ) -> (Graph, EdgeId) {
        let g = self.require(num_heads * head_dim <= usize::MAX);
        let (g, q) = g.einsum("bsi,ij->bsj"@, seq![x, w_q], true);
        let (g, k) = g.einsum("bsi,ij->bsj"@, seq![x, w_k], true);
        let (g, v) = g.einsum("bsi,ij->bsj"@, seq![x, w_v], true);
        let (g, q) = g.reshape(q, seq![1, seq_len, num_heads, head_dim]);
        let (g, k) = g.reshape(k, seq![1, seq_len, num_heads, head_dim]);
        let (g, v) = g.reshape(v, seq![1, seq_len, num_heads, head_dim]);
        let (g, q) = g.turned(q, cos, sin);
        let (g, k) = g.turned(k, cos, sin);
        let (g, q) = g.einsum("bshd->bhsd"@, seq![q], false);
        let (g, k) = g.einsum("bshd->bhsd"@, seq![k], false);
        let (g, v) = g.einsum("bshd->bhsd"@, seq![v], false);
        let (g, recip_e) = g.constant(recip, self.sf_log);
        let (g, scores) = g.einsum("bhsd,bhtd->bhst"@, seq![q, k], true);
        let (g, scores) = g.einsum("bhst,z->bhst"@, seq![scores, recip_e], true);
        let (g, scores) = g.softmax_of(seq_len, scores);
        let (g, out) = g.einsum("bhst,bhtd->bhsd"@, seq![scores, v], true);
        let (g, out) = g.change_shape(out, seq![1, seq_len, num_heads, head_dim]);
        let (g, out) = g.reshape(out, seq![1, seq_len, (num_heads * head_dim) as usize]);
        let (g, out) = g.einsum("bsi,ij->bsj"@, seq![out, w_o], true);
        (g, out)
    }
}

pub broadcast proof fn ok_attention(
    g: Graph,
    w_q: EdgeId,
    w_k: EdgeId,
    w_v: EdgeId,
    w_o: EdgeId,
    num_heads: usize,
    head_dim: usize,
    seq_len: usize,
    cos: EdgeId,
    sin: EdgeId,
    recip: u64,
    x: EdgeId,
)
    ensures
        #[trigger] g.attention(
            w_q,
            w_k,
            w_v,
            w_o,
            num_heads,
            head_dim,
            seq_len,
            cos,
            sin,
            recip,
            x,
        ).0.ok ==> g.ok,
{
    broadcast use group_ops_ok;
    broadcast use {ok_constant, ok_turned, ok_softmax_of};

    reveal(Graph::attention);
}

impl DagBuilder {
    /// Attention over `num_heads` heads. `recip` is the scaled reciprocal of the root of their width.
    #[verifier::rlimit(80)]
    pub fn attention(
        &mut self,
        w_q: EdgeId,
        w_k: EdgeId,
        w_v: EdgeId,
        w_o: EdgeId,
        num_heads: usize,
        head_dim: usize,
        seq_len: usize,
        cos: EdgeId,
        sin: EdgeId,
        recip: u64,
        x: EdgeId,
    ) -> (e: EdgeId)
        requires
            old(self).wf(),
            old(self)@.attention(w_q, w_k, w_v, w_o, num_heads, head_dim, seq_len, cos, sin, recip, x).0.ok,
        ensures
            final(self).wf(),
            (final(self)@, e) == old(self)@.attention(
                w_q,
                w_k,
                w_v,
                w_o,
                num_heads,
                head_dim,
                seq_len,
                cos,
                sin,
                recip,
                x,
            ),
    {
        reveal(Graph::attention);
        broadcast use group_ops_ok;
        broadcast use {ok_constant, ok_turned, ok_softmax_of};

        let sf_log: usize = self.sf_log;
        let q: EdgeId = self.einsum("bsi,ij->bsj".to_string(), list2(x, w_q), true)[0];
        let k: EdgeId = self.einsum("bsi,ij->bsj".to_string(), list2(x, w_k), true)[0];
        let v: EdgeId = self.einsum("bsi,ij->bsj".to_string(), list2(x, w_v), true)[0];
        let q: EdgeId = self.reshape(q, list4(1, seq_len, num_heads, head_dim))[0];
        let k: EdgeId = self.reshape(k, list4(1, seq_len, num_heads, head_dim))[0];
        let v: EdgeId = self.reshape(v, list4(1, seq_len, num_heads, head_dim))[0];
        let q: EdgeId = self.turned(q, cos, sin);
        let k: EdgeId = self.turned(k, cos, sin);
        let q: EdgeId = self.einsum("bshd->bhsd".to_string(), list1(q), false)[0];
        let k: EdgeId = self.einsum("bshd->bhsd".to_string(), list1(k), false)[0];
        let v: EdgeId = self.einsum("bshd->bhsd".to_string(), list1(v), false)[0];
        let recip_e: EdgeId = self.constant(recip, sf_log);
        let scores: EdgeId = self.einsum("bhsd,bhtd->bhst".to_string(), list2(q, k), true)[0];
        let scores: EdgeId = self.einsum("bhst,z->bhst".to_string(), list2(scores, recip_e), true)[0];
        let scores: EdgeId = self.softmax_of(seq_len, scores);
        let out: EdgeId = self.einsum("bhst,bhtd->bhsd".to_string(), list2(scores, v), true)[0];
        let out: EdgeId = self.change_shape(out, list4(1, seq_len, num_heads, head_dim));
        let out: EdgeId = self.reshape(out, list3(1, seq_len, num_heads * head_dim))[0];
        let out: EdgeId = self.einsum("bsi,ij->bsj".to_string(), list2(out, w_o), true)[0];
        out
    }
}

impl Graph {
    /// Attention whose heads share keys and values in groups. `recip` is the scaled reciprocal of the root
    /// of their width.
    #[verifier::opaque]
    pub open spec fn grouped_attention(
        self,
        w_q: EdgeId,
        w_k: EdgeId,
        w_v: EdgeId,
        w_o: EdgeId,
        cos: EdgeId,
        sin: EdgeId,
        num_heads: usize,
        num_kv: usize,
        head_dim: usize,
        seq_len: usize,
        recip: u64,
        x: EdgeId,
    ) -> (Graph, EdgeId) {
        let group = (num_heads / num_kv) as usize;
        let g = self.require(num_heads * head_dim <= usize::MAX && num_kv > 0);
        let (g, q) = g.einsum("bsi,ij->bsj"@, seq![x, w_q], true);
        let (g, k) = g.einsum("bsi,ij->bsj"@, seq![x, w_k], true);
        let (g, v) = g.einsum("bsi,ij->bsj"@, seq![x, w_v], true);
        let (g, q) = g.reshape(q, seq![1, seq_len, num_heads, head_dim]);
        let (g, k) = g.reshape(k, seq![1, seq_len, num_kv, head_dim]);
        let (g, v) = g.reshape(v, seq![1, seq_len, num_kv, head_dim]);
        let (g, q) = g.turned(q, cos, sin);
        let (g, k) = g.turned(k, cos, sin);
        let (g, q) = g.change_shape(q, seq![1, seq_len, group, num_kv, head_dim]);
        let (g, q) = g.einsum("bsqgd->bgqsd"@, seq![q], false);
        let (g, k) = g.einsum("bsgd->bgsd"@, seq![k], false);
        let (g, v) = g.einsum("bsgd->bgsd"@, seq![v], false);
        let (g, scores) = g.einsum("bgqsd,bgtd->bgqst"@, seq![q, k], true);
        let (g, recip_e) = g.constant(recip, self.sf_log);
        let (g, scores) = g.einsum("bgqst,z->bgqst"@, seq![scores, recip_e], true);
        let (g, scores) = g.softmax_of(seq_len, scores);
        let (g, out) = g.einsum("bgqst,bgtd->bgqsd"@, seq![scores, v], true);
        let (g, out) = g.einsum("bgqsd->bsqgd"@, seq![out], false);
        let (g, out) = g.change_shape(out, seq![1, seq_len, num_heads, head_dim]);
        let (g, out) = g.reshape(out, seq![1, seq_len, (num_heads * head_dim) as usize]);
        let (g, out) = g.einsum("bsi,ij->bsj"@, seq![out, w_o], true);
        (g, out)
    }
}

pub broadcast proof fn ok_grouped_attention(
    g: Graph,
    w_q: EdgeId,
    w_k: EdgeId,
    w_v: EdgeId,
    w_o: EdgeId,
    cos: EdgeId,
    sin: EdgeId,
    num_heads: usize,
    num_kv: usize,
    head_dim: usize,
    seq_len: usize,
    recip: u64,
    x: EdgeId,
)
    ensures
        #[trigger] g.grouped_attention(
            w_q,
            w_k,
            w_v,
            w_o,
            cos,
            sin,
            num_heads,
            num_kv,
            head_dim,
            seq_len,
            recip,
            x,
        ).0.ok ==> g.ok,
{
    broadcast use group_ops_ok;
    broadcast use {ok_constant, ok_turned, ok_softmax_of};

    reveal(Graph::grouped_attention);
}

impl DagBuilder {
    /// Attention whose heads share keys and values in groups. `recip` is the scaled reciprocal of the root
    /// of their width.
    #[verifier::rlimit(80)]
    pub fn grouped_attention(
        &mut self,
        w_q: EdgeId,
        w_k: EdgeId,
        w_v: EdgeId,
        w_o: EdgeId,
        cos: EdgeId,
        sin: EdgeId,
        num_heads: usize,
        num_kv: usize,
        head_dim: usize,
        seq_len: usize,
        recip: u64,
        x: EdgeId,
    ) -> (e: EdgeId)
        requires
            old(self).wf(),
            old(self)@.grouped_attention(
                w_q,
                w_k,
                w_v,
                w_o,
                cos,
                sin,
                num_heads,
                num_kv,
                head_dim,
                seq_len,
                recip,
                x,
            ).0.ok,
        ensures
            final(self).wf(),
            (final(self)@, e) == old(self)@.grouped_attention(
                w_q,
                w_k,
                w_v,
                w_o,
                cos,
                sin,
                num_heads,
                num_kv,
                head_dim,
                seq_len,
                recip,
                x,
            ),
    {
        reveal(Graph::grouped_attention);
        broadcast use group_ops_ok;
        broadcast use {ok_constant, ok_turned, ok_softmax_of};

        let sf_log: usize = self.sf_log;
        let group: usize = num_heads / num_kv;
        let q: EdgeId = self.einsum("bsi,ij->bsj".to_string(), list2(x, w_q), true)[0];
        let k: EdgeId = self.einsum("bsi,ij->bsj".to_string(), list2(x, w_k), true)[0];
        let v: EdgeId = self.einsum("bsi,ij->bsj".to_string(), list2(x, w_v), true)[0];
        let q: EdgeId = self.reshape(q, list4(1, seq_len, num_heads, head_dim))[0];
        let k: EdgeId = self.reshape(k, list4(1, seq_len, num_kv, head_dim))[0];
        let v: EdgeId = self.reshape(v, list4(1, seq_len, num_kv, head_dim))[0];
        let q: EdgeId = self.turned(q, cos, sin);
        let k: EdgeId = self.turned(k, cos, sin);
        let q: EdgeId = self.change_shape(q, list5(1, seq_len, group, num_kv, head_dim));
        let q: EdgeId = self.einsum("bsqgd->bgqsd".to_string(), list1(q), false)[0];
        let k: EdgeId = self.einsum("bsgd->bgsd".to_string(), list1(k), false)[0];
        let v: EdgeId = self.einsum("bsgd->bgsd".to_string(), list1(v), false)[0];
        let scores: EdgeId = self.einsum("bgqsd,bgtd->bgqst".to_string(), list2(q, k), true)[0];
        let recip_e: EdgeId = self.constant(recip, sf_log);
        let scores: EdgeId = self.einsum("bgqst,z->bgqst".to_string(), list2(scores, recip_e), true)[0];
        let scores: EdgeId = self.softmax_of(seq_len, scores);
        let out: EdgeId = self.einsum("bgqst,bgtd->bgqsd".to_string(), list2(scores, v), true)[0];
        let out: EdgeId = self.einsum("bgqsd->bsqgd".to_string(), list1(out), false)[0];
        let out: EdgeId = self.change_shape(out, list4(1, seq_len, num_heads, head_dim));
        let out: EdgeId = self.reshape(out, list3(1, seq_len, num_heads * head_dim))[0];
        let out: EdgeId = self.einsum("bsi,ij->bsj".to_string(), list2(out, w_o), true)[0];
        out
    }
}

} // verus!
