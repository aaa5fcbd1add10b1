//! PointPillar: detection on a grid of pillars seen from above.
use vstd::prelude::*;

use crate::dag::builder::DagBuilder;
use crate::dag::builder_ops::{list2, list3};
use crate::dag::graph::Graph;
use crate::dag::graph_ops::{group_ops_ok, ok_multi_concat};
use crate::dag::pairs::{lemma_pairs_len, ok_load_pairs, pair_list};
use crate::dag::types::EdgeId;
use crate::dag::witness::{Tensor, Witness};

verus! {

/// A convolution: channels in, channels out, the kernel, and whether it is a transposed one.
pub type ConvP = (usize, usize, usize, usize, bool);

/// The convolutions of a block of the backbone: one that changes channels, and `k` that do not.
pub open spec fn backbone_convs(c_in: usize, c_out: usize, k: nat) -> Seq<ConvP> {
    Seq::new(
        k + 1,
        |i: int|
            (
                if i == 0 {
                    c_in
                } else {
                    c_out
                },
                c_out,
                3usize,
                3usize,
                false,
            ),
    )
}

/// The convolutions that bring the blocks to one size.
pub open spec fn upsampling_convs() -> Seq<ConvP> {
    seq![
        (64usize, 128usize, 1usize, 1usize, true),
        (128, 256, 2, 2, true),
        (256, 256, 2, 2, true),
        (256, 256, 2, 2, true),
    ]
}

/// The convolutions of the heads: classes, boxes and directions.
pub open spec fn head_convs(num_anchors: usize, num_classes: usize) -> Seq<ConvP> {
    seq![
        (1024usize, (num_anchors * num_classes) as usize, 1usize, 1usize, false),
        (1024, (num_anchors * 7) as usize, 1, 1, false),
        (1024, (num_anchors * 2) as usize, 1, 1, false),
    ]
}

/// All convolutions, in order.
pub open spec fn all_convs(num_anchors: usize, num_classes: usize) -> Seq<ConvP> {
    backbone_convs(64, 64, 5) + backbone_convs(64, 128, 5) + backbone_convs(128, 256, 5)
        + upsampling_convs() + head_convs(num_anchors, num_classes)
}

/// Adds the convolutions of a block of the backbone.
fn push_backbone(configs: &mut Vec<ConvP>, c_in: usize, c_out: usize)
    ensures
        final(configs)@ == old(configs)@ + backbone_convs(c_in, c_out, 5),
{
    let ghost before = configs@;
    configs.push((c_in, c_out, 3, 3, false));
    let mut i: usize = 0;
    assert(configs@ =~= before + backbone_convs(c_in, c_out, 0));
    while i < 5
        invariant
            i <= 5,
            configs@ == before + backbone_convs(c_in, c_out, i as nat),
        decreases 5 - i,
    {
        configs.push((c_out, c_out, 3, 3, false));
        i = i + 1;
        assert(configs@ =~= before + backbone_convs(c_in, c_out, i as nat));
    }
}

/// All convolutions with their channels and kernels, in order.
pub fn pointpillar_conv_configs(
    _ny: usize,
    _nx: usize,
    num_anchors: usize,
    num_classes: usize,
) -> (r: Vec<(usize, usize, usize, usize, bool)>)
    requires
        num_anchors * num_classes <= usize::MAX,
        num_anchors * 7 <= usize::MAX,
    ensures
        r@ == all_convs(num_anchors, num_classes),
        r.len() == 25,
{
    let mut configs: Vec<ConvP> = Vec::new();
    push_backbone(&mut configs, 64, 64);
    push_backbone(&mut configs, 64, 128);
    push_backbone(&mut configs, 128, 256);
    configs.push((64, 128, 1, 1, true));
    configs.push((128, 256, 2, 2, true));
    configs.push((256, 256, 2, 2, true));
    configs.push((256, 256, 2, 2, true));
    configs.push((1024, num_anchors * num_classes, 1, 1, false));
    configs.push((1024, num_anchors * 7, 1, 1, false));
    configs.push((1024, num_anchors * 2, 1, 1, false));
    assert(configs@ =~= all_convs(num_anchors, num_classes));
    configs
}

impl Graph {
    /// A padded convolution with bias and rectifier.
    #[verifier::opaque]
    pub open spec fn pillar_conv(
        self,
        wb: (EdgeId, EdgeId),
        stride: (usize, usize),
        x: EdgeId,
    ) -> (Graph, EdgeId) {
        let (g, h) = self.pad(x, 1, 1);
        let (g, h) = g.conv2d_full(h, wb.0, (3, 3), stride, (1, 1));
        let (g, h) = g.add(h, wb.1);
        let (g, h) = g.relu(h);
        (g, h)
    }
}

pub broadcast proof fn ok_pillar_conv(g: Graph, wb: (EdgeId, EdgeId), stride: (usize, usize), x: EdgeId)
    ensures
        #[trigger] g.pillar_conv(wb, stride, x).0.ok ==> g.ok,
{
    broadcast use group_ops_ok;

    reveal(Graph::pillar_conv);
}

impl DagBuilder {
    /// A padded convolution with bias and rectifier.
    pub fn pillar_conv(&mut self, wb: (EdgeId, EdgeId), stride: (usize, usize), x: EdgeId) -> (e: EdgeId)
        requires
            old(self).wf(),
            old(self)@.pillar_conv(wb, stride, x).0.ok,
        ensures
            final(self).wf(),
            (final(self)@, e) == old(self)@.pillar_conv(wb, stride, x),
    {
        reveal(Graph::pillar_conv);
        broadcast use group_ops_ok;

        let h: EdgeId = self.pad(x, 1, 1);
        let h: EdgeId = self.conv2d_strided(h, wb.0, (3, 3), stride)[0];
        let h: EdgeId = self.add(h, wb.1)[0];
        let h: EdgeId = self.relu(h);
        h
    }
}

impl Graph {
    /// A transposed convolution with bias and rectifier.
    #[verifier::opaque]
    pub open spec fn pillar_deconv(
        self,
        wb: (EdgeId, EdgeId),
        kernel: (usize, usize),
        stride: (usize, usize),
        x: EdgeId,
    ) -> (Graph, EdgeId) {
        let (g, h) = self.conv_transpose2d(x, wb.0, kernel, stride);
        let (g, h) = g.add(h, wb.1);
        let (g, h) = g.relu(h);
        (g, h)
    }
}

pub broadcast proof fn ok_pillar_deconv(
    g: Graph,
    wb: (EdgeId, EdgeId),
    kernel: (usize, usize),
    stride: (usize, usize),
    x: EdgeId,
)
    ensures
        #[trigger] g.pillar_deconv(wb, kernel, stride, x).0.ok ==> g.ok,
{
    broadcast use group_ops_ok;

    reveal(Graph::pillar_deconv);
}

impl DagBuilder {
    /// A transposed convolution with bias and rectifier.
    pub fn pillar_deconv(
        &mut self,
        wb: (EdgeId, EdgeId),
        kernel: (usize, usize),
        stride: (usize, usize),
        x: EdgeId,
    ) -> (e: EdgeId)
        requires
            old(self).wf(),
            old(self)@.pillar_deconv(wb, kernel, stride, x).0.ok,
        ensures
            final(self).wf(),
            (final(self)@, e) == old(self)@.pillar_deconv(wb, kernel, stride, x),
    {
        reveal(Graph::pillar_deconv);
        broadcast use group_ops_ok;

        let h: EdgeId = self.conv_transpose2d(x, wb.0, kernel, stride)[0];
        let h: EdgeId = self.add(h, wb.1)[0];
        let h: EdgeId = self.relu(h);
        h
    }
}

impl Graph {
    /// A convolution of single positions, with bias.
    #[verifier::opaque]
    pub open spec fn pillar_head(self, wb: (EdgeId, EdgeId), x: EdgeId) -> (Graph, EdgeId) {
        let (g, h) = self.conv2d_full(x, wb.0, (1, 1), (1, 1), (1, 1));
        let (g, h) = g.add(h, wb.1);
        (g, h)
    }
}

pub broadcast proof fn ok_pillar_head(g: Graph, wb: (EdgeId, EdgeId), x: EdgeId)
    ensures
        #[trigger] g.pillar_head(wb, x).0.ok ==> g.ok,
{
    broadcast use group_ops_ok;

    reveal(Graph::pillar_head);
}

impl DagBuilder {
    /// A convolution of single positions, with bias.
    pub fn pillar_head(&mut self, wb: (EdgeId, EdgeId), x: EdgeId) -> (e: EdgeId)
        requires
            old(self).wf(),
            old(self)@.pillar_head(wb, x).0.ok,
        ensures
            final(self).wf(),
            (final(self)@, e) == old(self)@.pillar_head(wb, x),
    {
        reveal(Graph::pillar_head);
        broadcast use group_ops_ok;

        let h: EdgeId = self.conv2d(x, wb.0, (1, 1))[0];
        let h: EdgeId = self.add(h, wb.1)[0];
        h
    }
}

impl Graph {
    /// The features of the pillars: a dense layer over the points and the largest of them, put on the
    /// grid.
    #[verifier::opaque]
    pub open spec fn pillar_features(
        self,
        wb: (EdgeId, EdgeId),
        coords: EdgeId,
        n_pillars: usize,
        max_points: usize,
        ny: usize,
        nx: usize,
        x: EdgeId,
    ) -> (Graph, EdgeId) {
        let (g, h) = self.einsum("abc,cd->abd"@, seq![x, wb.0], false);
        let (g, h) = g.add(h, wb.1);
        let (g, h) = g.relu(h);
        let (g, h) = g.pillar_maxpool(h, n_pillars, max_points, 64);
        let g = g.boundary(h);
        let (g, h) = g.scatter_to_bev(h, coords, n_pillars, 64, ny, nx);
        let g = g.boundary(h);
        (g, h)
    }
}

pub broadcast proof fn ok_pillar_features(
    g: Graph,
    wb: (EdgeId, EdgeId),
    coords: EdgeId,
    n_pillars: usize,
    max_points: usize,
    ny: usize,
    nx: usize,
    x: EdgeId,
)
    ensures
        #[trigger] g.pillar_features(wb, coords, n_pillars, max_points, ny, nx, x).0.ok ==> g.ok,
{
    broadcast use group_ops_ok;

    reveal(Graph::pillar_features);
}

impl DagBuilder {
    /// The features of the pillars: a dense layer over the points and the largest of them, put on the
    /// grid.
    pub fn pillar_features(
        &mut self,
        wb: (EdgeId, EdgeId),
        coords: EdgeId,
        n_pillars: usize,
        max_points: usize,
        ny: usize,
        nx: usize,
        x: EdgeId,
    ) -> (e: EdgeId)
        requires
            old(self).wf(),
            old(self)@.pillar_features(wb, coords, n_pillars, max_points, ny, nx, x).0.ok,
        ensures
            final(self).wf(),
            (final(self)@, e) == old(self)@.pillar_features(wb, coords, n_pillars, max_points, ny, nx, x),
    {
        reveal(Graph::pillar_features);
        broadcast use group_ops_ok;

        let h: EdgeId = self.einsum("abc,cd->abd".to_string(), list2(x, wb.0), false)[0];
        let h: EdgeId = self.add(h, wb.1)[0];
        let h: EdgeId = self.relu(h);
        let h: EdgeId = self.pillar_maxpool(h, n_pillars, max_points, 64);
        self.mark_boundary(h);
        let h: EdgeId = self.scatter_to_bev(h, coords, n_pillars, 64, ny, nx);
        self.mark_boundary(h);
        h
    }
}

impl Graph {
    /// The three blocks of the backbone at one size, side by side.
    #[verifier::opaque]
    pub open spec fn pillar_ups(
        self,
        wb: Seq<(EdgeId, EdgeId)>,
        b1: EdgeId,
        b2: EdgeId,
        b3: EdgeId,
    ) -> (Graph, EdgeId) {
        let (g, d1) = self.pillar_deconv(wb[0], (1, 1), (1, 1), b1);
        let (g, d2) = g.pillar_deconv(wb[1], (2, 2), (2, 2), b2);
        let (g, d3) = g.pillar_deconv(wb[2], (2, 2), (2, 2), b3);
        let (g, d3) = g.pillar_deconv(wb[3], (2, 2), (2, 2), d3);
        let (g, h) = g.multi_concat(seq![d1, d2, d3]);
        (g.boundary(h), h)
    }

    /// The first `k` convolutions of a block; the first one halves the grid.
    pub open spec fn pillar_run(self, wb: Seq<(EdgeId, EdgeId)>, x: EdgeId, k: nat) -> (Graph, EdgeId)
        decreases k,
    {
        if k == 0 {
            (self, x)
        } else {
            let (g, h) = self.pillar_run(wb, x, (k - 1) as nat);
            g.pillar_conv(
                wb[k - 1],
                if k == 1 {
                    (2, 2)
                } else {
                    (1, 1)
                },
                h,
            )
        }
    }

    /// A block of the backbone, with the weights from number `from` on.
    #[verifier::opaque]
    pub open spec fn pillar_block(self, ps: Seq<(Tensor, Tensor)>, from: nat, x: EdgeId) -> (Graph, EdgeId) {
        let (g, wb) = self.load_pairs(ps, from, 6);
        let (g, h) = g.pillar_run(wb, x, 6);
        (g.boundary(h), h)
    }

    /// The network, with the edges of its three heads: classes, boxes and directions.
    #[verifier::opaque]
    pub open spec fn pointpillar(
        self,
        ps: Seq<(Tensor, Tensor)>,
        ny: usize,
        nx: usize,
        n_pillars: usize,
        max_points: usize,
        pillars: EdgeId,
        coords: EdgeId,
    ) -> (Graph, Seq<EdgeId>) {
        let (g, vfe) = self.require(ps.len() >= 26).load_pairs(ps, 0, 1);
        let (g, h) = g.pillar_features(vfe[0], coords, n_pillars, max_points, ny, nx, pillars);
        let (g, b1) = g.pillar_block(ps, 1, h);
        let (g, b2) = g.pillar_block(ps, 7, b1);
        let (g, b3) = g.pillar_block(ps, 13, b2);
        let (g, up) = g.load_pairs(ps, 19, 4);
        let (g, h) = g.pillar_ups(up, b1, b2, b3);
        let (g, heads) = g.load_pairs(ps, 23, 3);
        let (g, classes) = g.pillar_head(heads[0], h);
        let (g, boxes) = g.pillar_head(heads[1], h);
        let (g, directions) = g.pillar_head(heads[2], h);
        (g, seq![classes, boxes, directions])
    }
}

pub broadcast proof fn ok_pillar_ups(
    g: Graph,
    wb: Seq<(EdgeId, EdgeId)>,
    b1: EdgeId,
    b2: EdgeId,
    b3: EdgeId,
)
    ensures
        #[trigger] g.pillar_ups(wb, b1, b2, b3).0.ok ==> g.ok,
{
    broadcast use group_ops_ok;
    broadcast use ok_pillar_deconv;

    reveal(Graph::pillar_ups);
    let (g, d1) = g.pillar_deconv(wb[0], (1, 1), (1, 1), b1);
    let (g, d2) = g.pillar_deconv(wb[1], (2, 2), (2, 2), b2);
    let (g, d3) = g.pillar_deconv(wb[2], (2, 2), (2, 2), b3);
    let (g, d3) = g.pillar_deconv(wb[3], (2, 2), (2, 2), d3);
    ok_multi_concat(g, seq![d1, d2, d3]);
}

proof fn lemma_run_ok(g: Graph, wb: Seq<(EdgeId, EdgeId)>, x: EdgeId, j: nat, k: nat)
    requires
        j <= k,
        g.pillar_run(wb, x, k).0.ok,
    ensures
        g.pillar_run(wb, x, j).0.ok,
    decreases k,
{
    broadcast use ok_pillar_conv;

    if j < k {
        lemma_run_ok(g, wb, x, j, (k - 1) as nat);
    }
}

pub broadcast proof fn ok_pillar_block(g: Graph, ps: Seq<(Tensor, Tensor)>, from: nat, x: EdgeId)
    ensures
        #[trigger] g.pillar_block(ps, from, x).0.ok ==> g.ok,
{
    broadcast use ok_load_pairs;

    reveal(Graph::pillar_block);
    if g.pillar_block(ps, from, x).0.ok {
        let (h, wb) = g.load_pairs(ps, from, 6);
        lemma_run_ok(h, wb, x, 0, 6);
    }
}

impl DagBuilder {
    /// The three blocks of the backbone at one size, side by side.
    fn pillar_ups(&mut self, wb: &Vec<(EdgeId, EdgeId)>, b1: EdgeId, b2: EdgeId, b3: EdgeId) -> (e: EdgeId)
        requires
            old(self).wf(),
            wb.len() == 4,
            old(self)@.pillar_ups(wb@, b1, b2, b3).0.ok,
        ensures
            final(self).wf(),
            (final(self)@, e) == old(self)@.pillar_ups(wb@, b1, b2, b3),
    {
        reveal(Graph::pillar_ups);
        broadcast use group_ops_ok;
        broadcast use ok_pillar_deconv;

        proof {
            let (g, d1) = self@.pillar_deconv(wb[0], (1, 1), (1, 1), b1);
            let (g, d2) = g.pillar_deconv(wb[1], (2, 2), (2, 2), b2);
            let (g, d3) = g.pillar_deconv(wb[2], (2, 2), (2, 2), b3);
            let (g, d3) = g.pillar_deconv(wb[3], (2, 2), (2, 2), d3);
            ok_multi_concat(g, seq![d1, d2, d3]);
        }
        let d1: EdgeId = self.pillar_deconv(wb[0], (1, 1), (1, 1), b1);
        let d2: EdgeId = self.pillar_deconv(wb[1], (2, 2), (2, 2), b2);
        let d3: EdgeId = self.pillar_deconv(wb[2], (2, 2), (2, 2), b3);
        let d3: EdgeId = self.pillar_deconv(wb[3], (2, 2), (2, 2), d3);
        let h: EdgeId = self.multi_concat(list3(d1, d2, d3));
        self.mark_boundary(h);
        h
    }

    /// A block of the backbone, with the weights from number `from` on.
    fn pillar_block(&mut self, ps: &Vec<(Witness, Witness)>, from: usize, x: EdgeId) -> (e: EdgeId)
        requires
            old(self).wf(),
            from + 6 <= ps.len(),
            old(self)@.pillar_block(pair_list(ps@), from as nat, x).0.ok,
        ensures
            final(self).wf(),
            (final(self)@, e) == old(self)@.pillar_block(pair_list(ps@), from as nat, x),
    {
        reveal(Graph::pillar_block);
        broadcast use group_ops_ok;
        broadcast use ok_load_pairs;

        let ghost pt = pair_list(ps@);
        let ghost (g1, wb1) = self@.load_pairs(pt, from as nat, 6);
        proof {
            lemma_run_ok(g1, wb1, x, 0, 6);
        }
        let wb: Vec<(EdgeId, EdgeId)> = self.load_pairs(ps, from, 6);
        let mut h: EdgeId = x;
        let mut i: usize = 0;
        while i < 6
            invariant
                i <= 6,
                wb.len() == 6,
                wb@ == wb1,
                g1.pillar_run(wb1, x, 6).0.ok,
                self.wf(),
                (self@, h) == g1.pillar_run(wb1, x, i as nat),
            decreases 6 - i,
        {
            proof {
                lemma_run_ok(g1, wb1, x, (i + 1) as nat, 6);
            }
            let stride: (usize, usize) = if i == 0 {
                (2, 2)
            } else {
                (1, 1)
            };
            h = self.pillar_conv(wb[i], stride, h);
            i = i + 1;
        }
        self.mark_boundary(h);
        h
    }

    /// The network, with the edges of its three heads: classes, boxes and directions.
    #[verifier::rlimit(60)]
    pub fn pointpillar(
        &mut self,
        ps: &Vec<(Witness, Witness)>,
        ny: usize,
        nx: usize,
        n_pillars: usize,
        max_points: usize,
        pillars: EdgeId,
        coords: EdgeId,
    ) -> (r: Vec<EdgeId>)
        requires
            old(self).wf(),
            old(self)@.pointpillar(
                pair_list(ps@),
                ny,
                nx,
                n_pillars,
                max_points,
                pillars,
                coords,
            ).0.ok,
        ensures
            final(self).wf(),
            (final(self)@, r@) == old(self)@.pointpillar(
                pair_list(ps@),
                ny,
                nx,
                n_pillars,
                max_points,
                pillars,
                coords,
            ),
    {
        reveal(Graph::pointpillar);
        broadcast use {
            ok_load_pairs,
            ok_pillar_features,
            ok_pillar_block,
            ok_pillar_ups,
            ok_pillar_head,
            lemma_pairs_len,
        };

        let ghost ready = self@.require(pair_list(ps@).len() >= 26);
        assert(ready.ok);
        assert(ready == self@);
        let vfe: Vec<(EdgeId, EdgeId)> = self.load_pairs(ps, 0, 1);
        let h: EdgeId = self.pillar_features(vfe[0], coords, n_pillars, max_points, ny, nx, pillars);
        let b1: EdgeId = self.pillar_block(ps, 1, h);
        let b2: EdgeId = self.pillar_block(ps, 7, b1);
        let b3: EdgeId = self.pillar_block(ps, 13, b2);
        let up: Vec<(EdgeId, EdgeId)> = self.load_pairs(ps, 19, 4);
        let h: EdgeId = self.pillar_ups(&up, b1, b2, b3);
        let heads: Vec<(EdgeId, EdgeId)> = self.load_pairs(ps, 23, 3);
        let classes: EdgeId = self.pillar_head(heads[0], h);
        let boxes: EdgeId = self.pillar_head(heads[1], h);
        let directions: EdgeId = self.pillar_head(heads[2], h);
        list3(classes, boxes, directions)
    }
}

/// The recipe of PointPillar, from the pillars and their coordinates.
pub fn pointpillar(
    all_weights: Vec<(Witness, Witness)>,
    ny: usize,
    nx: usize,
    n_pillars: usize,
    max_points: usize,
    _num_anchors: usize,
    _num_classes: usize,
) -> (f: impl FnOnce(&mut DagBuilder, &[EdgeId]) -> Vec<EdgeId>)
    ensures
        forall|g: &mut DagBuilder, x: &[EdgeId]|
            g.wf() && x.len() == 2 && g@.pointpillar(
                pair_list(all_weights@),
                ny,
                nx,
                n_pillars,
                max_points,
                x[0],
                x[1],
            ).0.ok ==> #[trigger] call_requires(f, (g, x)),
        forall|g: &mut DagBuilder, x: &[EdgeId], r: Vec<EdgeId>| #[trigger]
            call_ensures(f, (g, x), r) ==> final(g).wf() && (final(g)@, r@) == g@.pointpillar(
                pair_list(all_weights@),
                ny,
                nx,
                n_pillars,
                max_points,
                x[0],
                x[1],
            ),
{
    move |g: &mut DagBuilder, x: &[EdgeId]| -> (r: Vec<EdgeId>)
        requires
            g.wf(),
            x.len() == 2,
            g@.pointpillar(
                pair_list(all_weights@),
                ny,
                nx,
                n_pillars,
                max_points,
                x[0],
                x[1],
            ).0.ok,
        ensures
            final(g).wf(),
            (final(g)@, r@) == old(g)@.pointpillar(
                pair_list(all_weights@),
                ny,
                nx,
                n_pillars,
                max_points,
                x[0],
                x[1],
            ),
        { g.pointpillar(&all_weights, ny, nx, n_pillars, max_points, x[0], x[1]) }
}

} // verus!
