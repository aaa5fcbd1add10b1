//! The VGG networks on images of 32 by 32.
use vstd::prelude::*;

use crate::dag::builder::DagBuilder;
use crate::dag::builder_ops::{list1, list2};
use crate::dag::graph::{one_edge, Graph};
use crate::dag::graph_ops::{group_ops_ok, ok_maxpool2d};
use crate::dag::run::tensors;
use crate::dag::types::EdgeId;
use crate::dag::witness::{Tensor, Witness};

verus! {

/// The blocks of VGG-11: convolutions per block, and channels out.
pub const VGG11_BLOCKS: [(usize, usize); 5] = [(1, 64), (1, 128), (2, 256), (2, 512), (2, 512)];

/// The blocks of VGG-16: convolutions per block, and channels out.
pub const VGG16_BLOCKS: [(usize, usize); 5] = [(2, 64), (2, 128), (3, 256), (3, 512), (3, 512)];

/// Width of the hidden dense layers.
pub const VGG_FC_HIDDEN: usize = 4096;

/// Number of convolutions in the first `k` blocks.
pub open spec fn convs_before(blocks: Seq<(usize, usize)>, k: nat) -> int
    decreases k,
{
    if k == 0 {
        0
    } else {
        convs_before(blocks, (k - 1) as nat) + blocks[k - 1].0
    }
}

/// Block `b` is entered by the first `n` convolutions.
pub open spec fn entered(blocks: Seq<(usize, usize)>, n: int, b: nat) -> bool {
    b == 0 || convs_before(blocks, b) < n
}

/// Channels after the first `n` convolutions, as far as they are in the first `k` blocks.
pub open spec fn channels_after(blocks: Seq<(usize, usize)>, n: int, k: nat) -> usize
    decreases k,
{
    if k == 0 {
        3
    } else if convs_before(blocks, (k - 1) as nat) < n && blocks[k - 1].0 > 0 {
        blocks[k - 1].1
    } else {
        channels_after(blocks, n, (k - 1) as nat)
    }
}

/// Width after the first `n` convolutions: it halves after each of the first `k` blocks that is
/// complete.
pub open spec fn width_after(blocks: Seq<(usize, usize)>, n: int, k: nat) -> int
    decreases k,
{
    if k == 0 {
        32
    } else {
        let w = width_after(blocks, n, (k - 1) as nat);
        if entered(blocks, n, (k - 1) as nat) && convs_before(blocks, k) <= n {
            w / 2
        } else {
            w
        }
    }
}

/// Later blocks are entered only after earlier ones.
proof fn lemma_convs_mono(blocks: Seq<(usize, usize)>, a: nat, b: nat)
    requires
        a <= b <= blocks.len(),
    ensures
        convs_before(blocks, a) <= convs_before(blocks, b),
    decreases b,
{
    if a < b {
        lemma_convs_mono(blocks, a, (b - 1) as nat);
    }
}

/// Blocks that are not entered change nothing.
proof fn lemma_rest(blocks: Seq<(usize, usize)>, n: int, a: nat, b: nat)
    requires
        1 <= a <= b <= blocks.len(),
        convs_before(blocks, a) >= n,
    ensures
        channels_after(blocks, n, b) == channels_after(blocks, n, a),
        width_after(blocks, n, b) == width_after(blocks, n, a),
    decreases b,
{
    if a < b {
        lemma_rest(blocks, n, a, (b - 1) as nat);
        lemma_convs_mono(blocks, a, (b - 1) as nat);
    }
}

/// Channels and width after the first `num_layers` convolutions of the given blocks.
pub fn vgg_output_shape_generic(blocks: &[(usize, usize)], num_layers: usize) -> (r: (usize, usize))
    ensures
        r.0 == channels_after(blocks@, num_layers as int, blocks.len() as nat),
        r.1 == width_after(blocks@, num_layers as int, blocks.len() as nat),
{
    let ghost n = num_layers as int;
    let mut last_c: usize = 3;
    let mut spatial: usize = 32;
    let mut w_idx: usize = 0;
    let mut b: usize = 0;
    while b < blocks.len() && (b == 0 || w_idx < num_layers)
        invariant
            b <= blocks.len(),
            n == num_layers,
            w_idx <= num_layers,
            w_idx == if convs_before(blocks@, b as nat) <= n {
                convs_before(blocks@, b as nat)
            } else {
                n
            },
            last_c == channels_after(blocks@, n, b as nat),
            spatial == width_after(blocks@, n, b as nat),
        decreases blocks.len() - b,
    {
        let (num_convs, out_c) = blocks[b];
        let left: usize = num_layers - w_idx;
        let complete: bool = num_convs <= left;
        let taken: usize = if complete {
            num_convs
        } else {
            left
        };
        if taken > 0 {
            last_c = out_c;
        }
        w_idx = w_idx + taken;
        if complete {
            spatial = spatial / 2;
        }
        b = b + 1;
    }
    proof {
        if b < blocks.len() {
            lemma_rest(blocks@, n, b as nat, blocks.len() as nat);
        }
    }
    (last_c, spatial)
}

/// Channels and width after the first convolutions of VGG-16.
pub fn vgg_output_shape(num_layers: usize) -> (r: (usize, usize))
    ensures
        r.0 == channels_after(VGG16_BLOCKS@, num_layers as int, 5),
        r.1 == width_after(VGG16_BLOCKS@, num_layers as int, 5),
{
    vgg_output_shape_generic(&VGG16_BLOCKS, num_layers)
}

/// Channels and width after the first convolutions of VGG-11.
pub fn vgg11_output_shape(num_layers: usize) -> (r: (usize, usize))
    ensures
        r.0 == channels_after(VGG11_BLOCKS@, num_layers as int, 5),
        r.1 == width_after(VGG11_BLOCKS@, num_layers as int, 5),
{
    vgg_output_shape_generic(&VGG11_BLOCKS, num_layers)
}

impl Graph {
    /// A padded convolution with bias and rectifier; the edge behind it can be cut.
    #[verifier::opaque]
    pub open spec fn vgg_conv(self, w: Tensor, b: Tensor, x: EdgeId) -> (Graph, EdgeId) {
        let (g, h) = self.pad(x, 1, 1);
        let (g, w_e) = g.param(w);
        let (g, h) = g.conv2d_full(h, w_e, (3, 3), (1, 1), (1, 1));
        let (g, b_e) = g.param(b);
        let (g, h) = g.add(h, b_e);
        let (g, h) = g.relu(h);
        let g = g.boundary(h);
        (g, h)
    }
}

pub broadcast proof fn ok_vgg_conv(g: Graph, w: Tensor, b: Tensor, x: EdgeId)
    ensures
        #[trigger] g.vgg_conv(w, b, x).0.ok ==> g.ok,
{
    broadcast use group_ops_ok;

    reveal(Graph::vgg_conv);
}

impl DagBuilder {
    /// A padded convolution with bias and rectifier; the edge behind it can be cut.
    #[verifier::rlimit(30)]
    pub fn vgg_conv(&mut self, w: Witness, b: Witness, x: EdgeId) -> (e: EdgeId)
        requires
            old(self).wf(),
            old(self)@.vgg_conv(w@, b@, x).0.ok,
        ensures
            final(self).wf(),
            (final(self)@, e) == old(self)@.vgg_conv(w@, b@, x),
    {
        reveal(Graph::vgg_conv);
        broadcast use group_ops_ok;

        let h: EdgeId = self.pad(x, 1, 1);
        let w_e: EdgeId = self.param(w);
        let h: EdgeId = self.conv2d(h, w_e, (3, 3))[0];
        let b_e: EdgeId = self.param(b);
        let h: EdgeId = self.add(h, b_e)[0];
        let h: EdgeId = self.relu(h);
        self.mark_boundary(h);
        h
    }
}

impl Graph {
    /// A dense layer with bias.
    #[verifier::opaque]
    pub open spec fn vgg_dense(self, w: Tensor, b: Tensor, x: EdgeId) -> (Graph, EdgeId) {
        let (g, w_e) = self.param(w);
        let (g, h) = g.einsum("i,ij->j"@, seq![x, w_e], false);
        let (g, b_e) = g.param(b);
        let (g, h) = g.add(h, b_e);
        (g, h)
    }
}

pub broadcast proof fn ok_vgg_dense(g: Graph, w: Tensor, b: Tensor, x: EdgeId)
    ensures
        #[trigger] g.vgg_dense(w, b, x).0.ok ==> g.ok,
{
    broadcast use group_ops_ok;

    reveal(Graph::vgg_dense);
}

impl DagBuilder {
    /// A dense layer with bias.
    pub fn vgg_dense(&mut self, w: Witness, b: Witness, x: EdgeId) -> (e: EdgeId)
        requires
            old(self).wf(),
            old(self)@.vgg_dense(w@, b@, x).0.ok,
        ensures
            final(self).wf(),
            (final(self)@, e) == old(self)@.vgg_dense(w@, b@, x),
    {
        reveal(Graph::vgg_dense);
        broadcast use group_ops_ok;

        let w_e: EdgeId = self.param(w);
        let h: EdgeId = self.einsum("i,ij->j".to_string(), list2(x, w_e), false)[0];
        let b_e: EdgeId = self.param(b);
        let h: EdgeId = self.add(h, b_e)[0];
        h
    }
}

impl Graph {
    /// The convolutions from number `from` on, `k` of them.
    pub open spec fn vgg_convs(
        self,
        ws: Seq<Tensor>,
        bs: Seq<Tensor>,
        from: nat,
        k: nat,
        x: EdgeId,
    ) -> (Graph, EdgeId)
        decreases k,
    {
        if k == 0 {
            (self, x)
        } else {
            let (g, h) = self.vgg_convs(ws, bs, from, (k - 1) as nat, x);
            let i = from + k - 1;
            g.vgg_conv(ws[i], bs[i], h)
        }
    }

    /// The first `k` blocks, as far as there are weights, and the number of convolutions in them.
    /// A complete block ends in a pooling.
    pub open spec fn vgg_blocks(
        self,
        blocks: Seq<(usize, usize)>,
        ws: Seq<Tensor>,
        bs: Seq<Tensor>,
        x: EdgeId,
        k: nat,
    ) -> (Graph, EdgeId, nat)
        decreases k,
    {
        if k == 0 {
            (self, x, 0)
        } else {
            let (g, h, done) = self.vgg_blocks(blocks, ws, bs, x, (k - 1) as nat);
            if k > 1 && done >= ws.len() {
                (g, h, done)
            } else {
                let left = ws.len() - done;
                let take = if blocks[k - 1].0 <= left {
                    blocks[k - 1].0 as int
                } else {
                    left
                };
                let (g, h) = g.vgg_convs(ws, bs, done, take as nat, h);
                let (g, h) = if take == blocks[k - 1].0 {
                    g.maxpool2d(h, 2, 2)
                } else {
                    (g, h)
                };
                (g, h, (done + take) as nat)
            }
        }
    }

    /// The network: blocks of convolutions, then three dense layers.
    #[verifier::opaque]
    pub open spec fn vgg(
        self,
        blocks: Seq<(usize, usize)>,
        ws: Seq<Tensor>,
        bs: Seq<Tensor>,
        fws: Seq<Tensor>,
        fbs: Seq<Tensor>,
        x: EdgeId,
    ) -> (Graph, EdgeId) {
        let n = ws.len() as int;
        let c = channels_after(blocks, n, blocks.len());
        let w = width_after(blocks, n, blocks.len());
        let flat = c * w * w;
        let g = self.require(
            bs.len() == ws.len() && fws.len() == 3 && fbs.len() == 3 && flat <= usize::MAX,
        );
        let (g, h, done) = g.vgg_blocks(blocks, ws, bs, x, blocks.len());
        let (g, h) = g.change_shape(h, seq![flat as usize]);
        let (g, h) = g.vgg_dense(fws[0], fbs[0], h);
        let (g, h) = g.relu(h);
        let (g, h) = g.vgg_dense(fws[1], fbs[1], h);
        let (g, h) = g.relu(h);
        g.vgg_dense(fws[2], fbs[2], h)
    }
}

proof fn lemma_convs_ok(g: Graph, ws: Seq<Tensor>, bs: Seq<Tensor>, from: nat, j: nat, k: nat, x: EdgeId)
    requires
        j <= k,
        g.vgg_convs(ws, bs, from, k, x).0.ok,
    ensures
        g.vgg_convs(ws, bs, from, j, x).0.ok,
    decreases k,
{
    if j < k {
        let (h, e) = g.vgg_convs(ws, bs, from, (k - 1) as nat, x);
        ok_vgg_conv(h, ws[from + k - 1], bs[from + k - 1], e);
        lemma_convs_ok(g, ws, bs, from, j, (k - 1) as nat, x);
    }
}

/// A failure in a block is a failure of the network, and the numbers of convolutions are those of
/// the blocks.
proof fn lemma_blocks_ok(
    g: Graph,
    blocks: Seq<(usize, usize)>,
    ws: Seq<Tensor>,
    bs: Seq<Tensor>,
    x: EdgeId,
    j: nat,
    k: nat,
)
    requires
        j <= k <= blocks.len(),
        g.vgg_blocks(blocks, ws, bs, x, k).0.ok,
    ensures
        g.vgg_blocks(blocks, ws, bs, x, j).0.ok,
    decreases k,
{
    broadcast use group_ops_ok;

    if j < k {
        let (h, e, done) = g.vgg_blocks(blocks, ws, bs, x, (k - 1) as nat);
        if !(k > 1 && done >= ws.len()) {
            let left = ws.len() - done;
            let take = if blocks[k - 1].0 <= left {
                blocks[k - 1].0 as int
            } else {
                left
            };
            let (g2, h2) = h.vgg_convs(ws, bs, done, take as nat, e);
            ok_maxpool2d(g2, h2, 2, 2);
            lemma_convs_ok(h, ws, bs, done, 0, take as nat, e);
        }
        lemma_blocks_ok(g, blocks, ws, bs, x, j, (k - 1) as nat);
    }
}

impl DagBuilder {
    /// The convolutions from number `from` on, `k` of them.
    fn vgg_convs(&mut self, ws: &Vec<Witness>, bs: &Vec<Witness>, from: usize, k: usize, x: EdgeId) -> (e:
        EdgeId)
        requires
            old(self).wf(),
            from + k <= ws.len(),
            ws.len() == bs.len(),
            old(self)@.vgg_convs(tensors(ws@), tensors(bs@), from as nat, k as nat, x).0.ok,
        ensures
            final(self).wf(),
            (final(self)@, e) == old(self)@.vgg_convs(
                tensors(ws@),
                tensors(bs@),
                from as nat,
                k as nat,
                x,
            ),
    {
        let ghost g = self@;
        let ghost (wt, bt) = (tensors(ws@), tensors(bs@));
        let mut h: EdgeId = x;
        let mut i: usize = 0;
        while i < k
            invariant
                i <= k,
                from + k <= ws.len(),
                ws.len() == bs.len(),
                wt == tensors(ws@),
                bt == tensors(bs@),
                g.vgg_convs(wt, bt, from as nat, k as nat, x).0.ok,
                self.wf(),
                (self@, h) == g.vgg_convs(wt, bt, from as nat, i as nat, x),
            decreases k - i,
        {
            proof {
                lemma_convs_ok(g, wt, bt, from as nat, (i + 1) as nat, k as nat, x);
            }
            let at: usize = from + i;
            h = self.vgg_conv(ws[at].clone(), bs[at].clone(), h);
            i = i + 1;
        }
        h
    }

    /// The network: blocks of convolutions, then three dense layers.
    #[verifier::rlimit(40)]
    pub fn vgg(
        &mut self,
        blocks: &Vec<(usize, usize)>,
        ws: &Vec<Witness>,
        bs: &Vec<Witness>,
        fws: &Vec<Witness>,
        fbs: &Vec<Witness>,
        x: EdgeId,
    ) -> (e: EdgeId)
        requires
            old(self).wf(),
            old(self)@.vgg(
                blocks@,
                tensors(ws@),
                tensors(bs@),
                tensors(fws@),
                tensors(fbs@),
                x,
            ).0.ok,
        ensures
            final(self).wf(),
            (final(self)@, e) == old(self)@.vgg(
                blocks@,
                tensors(ws@),
                tensors(bs@),
                tensors(fws@),
                tensors(fbs@),
                x,
            ),
    {
        reveal(Graph::vgg);
        broadcast use group_ops_ok;
        broadcast use {ok_vgg_conv, ok_vgg_dense};

        let ghost (wt, bt) = (tensors(ws@), tensors(bs@));
        let ghost n = wt.len() as int;
        let ghost c = channels_after(blocks@, n, blocks.len() as nat);
        let ghost w = width_after(blocks@, n, blocks.len() as nat);
        let ghost ready = self@.require(
            bt.len() == wt.len() && tensors(fws@).len() == 3 && tensors(fbs@).len() == 3 && c * w * w
                <= usize::MAX,
        );
        proof {
            let (g1, h1, d1) = ready.vgg_blocks(blocks@, wt, bt, x, blocks.len() as nat);
            assert(g1.ok);
            lemma_blocks_ok(ready, blocks@, wt, bt, x, 0, blocks.len() as nat);
            assert(ready.ok);
        }
        let ghost g = self@;
        assert(g == ready);
        let mut h: EdgeId = x;
        let mut done: usize = 0;
        let mut b: usize = 0;
        while b < blocks.len() && (b == 0 || done < ws.len())
            invariant
                b <= blocks.len(),
                wt == tensors(ws@),
                bt == tensors(bs@),
                ws.len() == bs.len(),
                done <= ws.len(),
                g.vgg_blocks(blocks@, wt, bt, x, blocks.len() as nat).0.ok,
                self.wf(),
                (self@, h, done as nat) == g.vgg_blocks(blocks@, wt, bt, x, b as nat),
            decreases blocks.len() - b,
        {
            let num_convs: usize = blocks[b].0;
            let left: usize = ws.len() - done;
            let complete: bool = num_convs <= left;
            let take: usize = if complete {
                num_convs
            } else {
                left
            };
            proof {
                lemma_blocks_ok(g, blocks@, wt, bt, x, (b + 1) as nat, blocks.len() as nat);
                let (g2, h2) = self@.vgg_convs(wt, bt, done as nat, take as nat, h);
                ok_maxpool2d(g2, h2, 2, 2);
                assert(wt.len() == ws.len());
            }
            h = self.vgg_convs(ws, bs, done, take, h);
            if complete {
                h = self.maxpool2d(h, 2, 2);
            }
            done = done + take;
            b = b + 1;
        }
        proof {
            if b < blocks.len() {
                lemma_blocks_full(g, blocks@, wt, bt, x, b as nat, blocks.len() as nat);
            }
        }
        let (c_out, spatial) = vgg_output_shape_generic(blocks.as_slice(), ws.len());
        proof {
            assert(c_out == c && spatial == w);
            lemma_width(blocks@, n, blocks.len() as nat);
            assert(c_out * spatial <= c_out * spatial * spatial || spatial == 0) by (nonlinear_arith)
                requires
                    c_out >= 0,
                    spatial >= 0,
            ;
        }
        let flat: usize = if spatial == 0 {
            0
        } else {
            c_out * spatial * spatial
        };
        proof {
            if spatial == 0 {
                assert(c * w * w == 0) by (nonlinear_arith)
                    requires
                        w == 0,
                ;
            }
            assert(flat == c * w * w);
        }
        let dims: Vec<usize> = list1(flat);
        assert(dims@ =~= seq![(c * w * w) as usize]);
        let h: EdgeId = self.change_shape(h, dims);
        let h: EdgeId = self.vgg_dense(fws[0].clone(), fbs[0].clone(), h);
        let h: EdgeId = self.relu(h);
        let h: EdgeId = self.vgg_dense(fws[1].clone(), fbs[1].clone(), h);
        let h: EdgeId = self.relu(h);
        self.vgg_dense(fws[2].clone(), fbs[2].clone(), h)
    }
}

/// Without weights no block follows.
proof fn lemma_blocks_full(
    g: Graph,
    blocks: Seq<(usize, usize)>,
    ws: Seq<Tensor>,
    bs: Seq<Tensor>,
    x: EdgeId,
    a: nat,
    b: nat,
)
    requires
        1 <= a <= b <= blocks.len(),
        g.vgg_blocks(blocks, ws, bs, x, a).2 >= ws.len(),
    ensures
        g.vgg_blocks(blocks, ws, bs, x, b) == g.vgg_blocks(blocks, ws, bs, x, a),
    decreases b,
{
    if a < b {
        lemma_blocks_full(g, blocks, ws, bs, x, a, (b - 1) as nat);
    }
}

/// The width never grows.
proof fn lemma_width(blocks: Seq<(usize, usize)>, n: int, k: nat)
    ensures
        0 <= width_after(blocks, n, k) <= 32,
    decreases k,
{
    if k > 0 {
        lemma_width(blocks, n, (k - 1) as nat);
    }
}

/// VGG-11: eight convolutions and three dense layers.
pub fn vgg11(
    conv_weights: Vec<Witness>,
    conv_biases: Vec<Witness>,
    fc_weights: Vec<Witness>,
    fc_biases: Vec<Witness>,
) -> (f: impl FnOnce(&mut DagBuilder, &[EdgeId]) -> Vec<EdgeId>)
    ensures
        forall|g: &mut DagBuilder, x: &[EdgeId]|
            g.wf() && x.len() == 1 && g@.vgg(
                VGG11_BLOCKS@,
                tensors(conv_weights@),
                tensors(conv_biases@),
                tensors(fc_weights@),
                tensors(fc_biases@),
                x[0],
            ).0.ok ==> #[trigger] call_requires(f, (g, x)),
        forall|g: &mut DagBuilder, x: &[EdgeId], r: Vec<EdgeId>| #[trigger]
            call_ensures(f, (g, x), r) ==> final(g).wf() && (final(g)@, r@) == one_edge(
                g@.vgg(
                    VGG11_BLOCKS@,
                    tensors(conv_weights@),
                    tensors(conv_biases@),
                    tensors(fc_weights@),
                    tensors(fc_biases@),
                    x[0],
                ),
            ),
{
    let mut blocks: Vec<(usize, usize)> = Vec::new();
    let mut i: usize = 0;
    while i < 5
        invariant
            i <= 5,
            blocks@ == VGG11_BLOCKS@.take(i as int),
        decreases 5 - i,
    {
        blocks.push(VGG11_BLOCKS[i]);
        i = i + 1;
        assert(blocks@ =~= VGG11_BLOCKS@.take(i as int));
    }
    assert(VGG11_BLOCKS@.take(5) =~= VGG11_BLOCKS@);
    move |g: &mut DagBuilder, x: &[EdgeId]| -> (r: Vec<EdgeId>)
        requires
            g.wf(),
            x.len() == 1,
            g@.vgg(
                VGG11_BLOCKS@,
                tensors(conv_weights@),
                tensors(conv_biases@),
                tensors(fc_weights@),
                tensors(fc_biases@),
                x[0],
            ).0.ok,
        ensures
            final(g).wf(),
            (final(g)@, r@) == one_edge(
                old(g)@.vgg(
                    VGG11_BLOCKS@,
                    tensors(conv_weights@),
                    tensors(conv_biases@),
                    tensors(fc_weights@),
                    tensors(fc_biases@),
                    x[0],
                ),
            ),
        {
            list1(g.vgg(&blocks, &conv_weights, &conv_biases, &fc_weights, &fc_biases, x[0]))
        }
}

/// VGG-16: thirteen convolutions and three dense layers.
pub fn vgg16(
    conv_weights: Vec<Witness>,
    conv_biases: Vec<Witness>,
    fc_weights: Vec<Witness>,
    fc_biases: Vec<Witness>,
) -> (f: impl FnOnce(&mut DagBuilder, &[EdgeId]) -> Vec<EdgeId>)
    ensures
        forall|g: &mut DagBuilder, x: &[EdgeId]|
            g.wf() && x.len() == 1 && g@.vgg(
                VGG16_BLOCKS@,
                tensors(conv_weights@),
                tensors(conv_biases@),
                tensors(fc_weights@),
                tensors(fc_biases@),
                x[0],
            ).0.ok ==> #[trigger] call_requires(f, (g, x)),
        forall|g: &mut DagBuilder, x: &[EdgeId], r: Vec<EdgeId>| #[trigger]
            call_ensures(f, (g, x), r) ==> final(g).wf() && (final(g)@, r@) == one_edge(
                g@.vgg(
                    VGG16_BLOCKS@,
                    tensors(conv_weights@),
                    tensors(conv_biases@),
                    tensors(fc_weights@),
                    tensors(fc_biases@),
                    x[0],
                ),
            ),
{
    let mut blocks: Vec<(usize, usize)> = Vec::new();
    let mut i: usize = 0;
    while i < 5
        invariant
            i <= 5,
            blocks@ == VGG16_BLOCKS@.take(i as int),
        decreases 5 - i,
    {
        blocks.push(VGG16_BLOCKS[i]);
        i = i + 1;
        assert(blocks@ =~= VGG16_BLOCKS@.take(i as int));
    }
    assert(VGG16_BLOCKS@.take(5) =~= VGG16_BLOCKS@);
    move |g: &mut DagBuilder, x: &[EdgeId]| -> (r: Vec<EdgeId>)
        requires
            g.wf(),
            x.len() == 1,
            g@.vgg(
                VGG16_BLOCKS@,
                tensors(conv_weights@),
                tensors(conv_biases@),
                tensors(fc_weights@),
                tensors(fc_biases@),
                x[0],
            ).0.ok,
        ensures
            final(g).wf(),
            (final(g)@, r@) == one_edge(
                old(g)@.vgg(
                    VGG16_BLOCKS@,
                    tensors(conv_weights@),
                    tensors(conv_biases@),
                    tensors(fc_weights@),
                    tensors(fc_biases@),
                    x[0],
                ),
            ),
        {
            list1(g.vgg(&blocks, &conv_weights, &conv_biases, &fc_weights, &fc_biases, x[0]))
        }
}

} // verus!
