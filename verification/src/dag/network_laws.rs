//! What the blocks of networks for images compute.
use vstd::prelude::*;

use crate::dag::block::{Block, Op};
use crate::dag::deeplabv3plus::{points_at, spread_window, Window};
use crate::dag::graph::Graph;
use crate::dag::growth::{contracted, group_grown, grown, lemma_step_add, lemma_step_einsum, seen};
use crate::dag::image_laws::{
    grown_conv2d_full, grown_relu, is_convolution, lemma_conv2d, lemma_rectified, rectified,
};
use crate::dag::meaning::{added, framed, runs_on, Numbers};
use crate::dag::pool_laws::lemma_pad;
use crate::dag::types::EdgeId;
use crate::dag::witness::Tensor;

verus! {

/// `y` is `x` with `rows` rows of zeros above and below it and `cols` columns to its left and right.
pub open spec fn bordered(h: Graph, vals: Numbers, x: EdgeId, rows: usize, cols: usize, y: EdgeId) -> bool {
    &&& h.shape(y).len() == 3
    &&& h.shape(y)[0] == h.shape(x)[0]
    &&& h.shape(y)[1] == rows + h.shape(x)[1] + rows
    &&& h.shape(y)[2] == cols + h.shape(x)[2] + cols
    &&& framed(h, vals, x, y, h.shape(x)[1] as int, h.shape(x)[2] as int, rows as int, cols as int)
}

pub broadcast proof fn grown_pad(g: Graph, x: EdgeId, pad_h: usize, pad_w: usize, h: Graph)
    ensures
        #[trigger] grown(g.pad(x, pad_h, pad_w).0, h) ==> grown(g, h) && g.pad(x, pad_h, pad_w).1 < h.values.len()
            && g.pad(x, pad_h, pad_w).0.nodes.len() >= g.nodes.len() && g.pad(x, pad_h, pad_w).0.values.len()
            >= g.values.len(),
{
    reveal(Graph::pad);
    broadcast use group_grown;

}

/// A border in a larger graph.
pub proof fn lemma_bordered(s: Graph, g: Graph, x: EdgeId, rows: usize, cols: usize, h: Graph, vals: Numbers)
    requires
        seen(s, g, h, vals),
        grown(g.pad(x, rows, cols).0, h),
    ensures
        bordered(h, vals, x, rows, cols, g.pad(x, rows, cols).1),
{
    assert(runs_on(g, h, vals));
    lemma_pad(g, x, rows, cols, h, vals);
}

/// A node of the graph brings `y` to scale `2^sf`.
pub open spec fn scaled_down(h: Graph, y: EdgeId, sf: usize, z: EdgeId) -> bool {
    exists|n: int|
        0 <= n < h.nodes.len() && (#[trigger] h.nodes[n]).kind == Block::Op(Op::ScaleDown { output_sf: sf })
            && h.nodes[n].inputs == seq![y] && h.nodes[n].outputs[0] == z
}

/// `z` is `y` at scale `2^sf`, where there is one.
pub open spec fn returned(h: Graph, y: EdgeId, sf: usize, z: EdgeId) -> bool {
    if sf > 0 {
        scaled_down(h, y, sf, z)
    } else {
        z == y
    }
}

/// `o` is `z` with the bias, where there is one.
pub open spec fn with_bias(h: Graph, vals: Numbers, z: EdgeId, b: Option<EdgeId>, o: EdgeId) -> bool {
    match b {
        Some(b) => added(h, vals, z, b, o),
        None => o == z,
    }
}

/// `o` is the convolution of `x` with kernels `w`, at scale `2^sf` and with bias `b`.
pub open spec fn is_conv_step(
    h: Graph,
    vals: Numbers,
    x: EdgeId,
    w: EdgeId,
    b: Option<EdgeId>,
    stride: (usize, usize),
    sf: usize,
    o: EdgeId,
) -> bool {
    exists|y: EdgeId, z: EdgeId|
        #![trigger returned(h, y, sf, z)]
        is_convolution(
            h,
            vals,
            x,
            w,
            stride,
            (1, 1),
            y,
        ) && returned(h, y, sf, z) && with_bias(h, vals, z, b, o)
}

proof fn lemma_returned(g: Graph, y: EdgeId, sf: usize, h: Graph)
    requires
        grown(g.back_to(y, sf).0, h),
        y < h.values.len(),
    ensures
        grown(g, h),
        returned(h, y, sf, g.back_to(y, sf).1),
        g.back_to(y, sf).0.nodes.len() >= g.nodes.len(),
        g.back_to(y, sf).0.values.len() >= g.values.len(),
        g.back_to(y, sf).1 < h.values.len(),
{
    broadcast use group_grown;

    if sf > 0 {
        let q = g.require(2 * sf <= usize::MAX);
        let (g1, z) = q.scale(y, (2 * sf) as usize, sf);
        assert(grown(g1, h));
        assert(grown(q, h));
        reveal(Graph::scale);
        reveal(grown);
        let n = g.nodes.len() as int;
        assert(h.nodes[n] == g1.nodes[n]);
    }
}

pub broadcast proof fn grown_conv_step(
    g: Graph,
    x: EdgeId,
    wb: (EdgeId, Option<EdgeId>),
    kernel: (usize, usize),
    stride: (usize, usize),
    sf: usize,
    h: Graph,
)
    ensures
        #[trigger] grown(g.conv_step(x, wb, kernel, stride, sf).0, h) ==> grown(g, h) && g.conv_step(
            x,
            wb,
            kernel,
            stride,
            sf,
        ).0.nodes.len() >= g.nodes.len() && g.conv_step(x, wb, kernel, stride, sf).0.values.len()
            >= g.values.len() && g.conv_step(x, wb, kernel, stride, sf).1 < h.values.len() && x < g.values.len(),
{
    reveal(Graph::conv_step);
    broadcast use {group_grown, grown_conv2d_full};

    if grown(g.conv_step(x, wb, kernel, stride, sf).0, h) {
        let (g1, y) = g.conv2d_full(x, wb.0, kernel, stride, (1, 1));
        let (g2, z) = g1.back_to(y, sf);
        if wb.1 is Some {
            assert(grown(g2.add(z, wb.1->0).0, h));
        }
        assert(grown(g2, h));
        if sf > 0 {
            let q = g1.require(2 * sf <= usize::MAX);
            assert(grown(q.scale(y, (2 * sf) as usize, sf).0, h));
            assert(grown(q, h));
        }
        assert(grown(g1, h));
        lemma_returned(g1, y, sf, h);
    }
}

/// A convolution with its scale and bias.
pub proof fn lemma_conv_step(
    s: Graph,
    g: Graph,
    x: EdgeId,
    wb: (EdgeId, Option<EdgeId>),
    kernel: (usize, usize),
    stride: (usize, usize),
    sf: usize,
    h: Graph,
    vals: Numbers,
)
    requires
        seen(s, g, h, vals),
        grown(g.conv_step(x, wb, kernel, stride, sf).0, h),
        h.rank(wb.0) == 4,
    ensures
        is_conv_step(h, vals, x, wb.0, wb.1, stride, sf, g.conv_step(x, wb, kernel, stride, sf).1),
        h.shape(wb.0)[2] == kernel.0,
        h.shape(wb.0)[3] == kernel.1,
{
    reveal(Graph::conv_step);
    broadcast use {group_grown, grown_conv2d_full};

    let (g1, y) = g.conv2d_full(x, wb.0, kernel, stride, (1, 1));
    let (g2, z) = g1.back_to(y, sf);
    let (g3, o) = g2.biased(z, wb.1);
    if wb.1 is Some {
        assert(grown(g2.add(z, wb.1->0).0, h));
    }
    assert(grown(g2, h));
    if sf > 0 {
        let q = g1.require(2 * sf <= usize::MAX);
        assert(grown(q.scale(y, (2 * sf) as usize, sf).0, h));
        assert(grown(q, h));
    }
    assert(grown(g1, h));
    lemma_returned(g1, y, sf, h);
    lemma_conv2d(s, g, x, wb.0, kernel, stride, (1, 1), h, vals);
    if wb.1 is Some {
        lemma_step_add(s, g2, z, wb.1->0, h, vals);
    }
    assert(returned(h, y, sf, z));
}

/// A bottleneck adds its shortcut to three convolutions, the first two with a rectifier and the second
/// with a border, and rectifies the sum. Without a projection the shortcut is the input itself. `es` are
/// the tensors in between.
pub open spec fn is_bottleneck(
    h: Graph,
    vals: Numbers,
    x: EdgeId,
    stride: usize,
    projected: bool,
    wb: Seq<(EdgeId, Option<EdgeId>)>,
    sf: usize,
    es: Seq<EdgeId>,
    o: EdgeId,
) -> bool {
    let (c1, r1, p1, c2, r2, c3, short, sum) = (es[0], es[1], es[2], es[3], es[4], es[5], es[6], es[7]);
    &&& es.len() == 8
    &&& is_conv_step(h, vals, x, wb[0].0, wb[0].1, (1, 1), sf, c1)
    &&& rectified(h, vals, c1, r1)
    &&& bordered(h, vals, r1, 1, 1, p1)
    &&& is_conv_step(h, vals, p1, wb[1].0, wb[1].1, (stride, stride), sf, c2)
    &&& rectified(h, vals, c2, r2)
    &&& is_conv_step(h, vals, r2, wb[2].0, wb[2].1, (1, 1), sf, c3)
    &&& if projected {
        is_conv_step(h, vals, x, wb[3].0, wb[3].1, (stride, stride), sf, short)
    } else {
        short == x
    }
    &&& added(h, vals, c3, short, sum)
    &&& rectified(h, vals, sum, o)
}

/// A bottleneck does what it says. The tensors in between are returned.
#[verifier::rlimit(40)]
pub proof fn lemma_bottleneck(
    s: Graph,
    g: Graph,
    x: EdgeId,
    stride: usize,
    projected: bool,
    wb: Seq<(EdgeId, Option<EdgeId>)>,
    sf: usize,
    h: Graph,
    vals: Numbers,
) -> (es: Seq<EdgeId>)
    requires
        seen(s, g, h, vals),
        grown(g.bottleneck(x, stride, projected, wb, sf).0, h),
        h.rank(wb[0].0) == 4,
        h.rank(wb[1].0) == 4,
        h.rank(wb[2].0) == 4,
        projected ==> h.rank(wb[3].0) == 4,
    ensures
        is_bottleneck(
            h,
            vals,
            x,
            stride,
            projected,
            wb,
            sf,
            es,
            g.bottleneck(x, stride, projected, wb, sf).1,
        ),
{
    reveal(Graph::bottleneck);
    broadcast use {group_grown, grown_conv_step, grown_relu, grown_pad};

    let (g1, c1) = g.conv_step(x, wb[0], (1, 1), (1, 1), sf);
    let (g2, r1) = g1.relu(c1);
    let (g3, p1) = g2.pad(r1, 1, 1);
    let (g4, c2) = g3.conv_step(p1, wb[1], (3, 3), (stride, stride), sf);
    let (g5, r2) = g4.relu(c2);
    let (g6, c3) = g5.conv_step(r2, wb[2], (1, 1), (1, 1), sf);
    let (g7, short) = if projected {
        g6.conv_step(x, wb[3], (1, 1), (stride, stride), sf)
    } else {
        (g6, x)
    };
    let (g8, sum) = g7.add(c3, short);
    let (g9, o) = g8.relu(sum);
    assert(grown(g9, h) && grown(g8, h) && grown(g7, h));
    assert(grown(g6, h));
    assert(grown(g5, h) && grown(g4, h) && grown(g3, h) && grown(g2, h) && grown(g1, h));
    lemma_conv_step(s, g, x, wb[0], (1, 1), (1, 1), sf, h, vals);
    lemma_rectified(s, g1, c1, h, vals);
    lemma_bordered(s, g2, r1, 1, 1, h, vals);
    lemma_conv_step(s, g3, p1, wb[1], (3, 3), (stride, stride), sf, h, vals);
    lemma_rectified(s, g4, c2, h, vals);
    lemma_conv_step(s, g5, r2, wb[2], (1, 1), (1, 1), sf, h, vals);
    if projected {
        lemma_conv_step(s, g6, x, wb[3], (1, 1), (stride, stride), sf, h, vals);
    }
    lemma_step_add(s, g7, c3, short, h, vals);
    lemma_rectified(s, g8, sum, h, vals);
    seq![c1, r1, p1, c2, r2, c3, short, sum]
}

/// `o` is the rectified convolution of `x`, bordered by one, with kernels `w` and bias `b`. `es` are the
/// tensors in between.
pub open spec fn is_conv_layer(
    h: Graph,
    vals: Numbers,
    x: EdgeId,
    w: EdgeId,
    b: EdgeId,
    stride: (usize, usize),
    es: Seq<EdgeId>,
    o: EdgeId,
) -> bool {
    let (p, y, z) = (es[0], es[1], es[2]);
    &&& es.len() == 3
    &&& bordered(h, vals, x, 1, 1, p)
    &&& is_convolution(h, vals, p, w, stride, (1, 1), y)
    &&& added(h, vals, y, b, z)
    &&& rectified(h, vals, z, o)
}

/// A layer of VGG is a bordered convolution with its bias and a rectifier. The edges of its weights and its
/// bias and the tensors in between are returned.
pub proof fn lemma_vgg_conv(
    s: Graph,
    g: Graph,
    w: Tensor,
    b: Tensor,
    x: EdgeId,
    h: Graph,
    vals: Numbers,
) -> (r: (
    EdgeId,
    EdgeId,
    Seq<EdgeId>,
))
    requires
        seen(s, g, h, vals),
        grown(g.vgg_conv(w, b, x).0, h),
        w.shape.len() == 4,
    ensures
        h.values[r.0 as int] == w,
        h.values[r.1 as int] == b,
        is_conv_layer(h, vals, x, r.0, r.1, (1, 1), r.2, g.vgg_conv(w, b, x).1),
{
    reveal(Graph::vgg_conv);
    broadcast use {group_grown, grown_conv2d_full, grown_relu, grown_pad};

    let (g1, p) = g.pad(x, 1, 1);
    let (g2, w_e) = g1.param(w);
    let (g3, y) = g2.conv2d_full(p, w_e, (3, 3), (1, 1), (1, 1));
    let (g4, b_e) = g3.param(b);
    let (g5, z) = g4.add(y, b_e);
    let (g6, o) = g5.relu(z);
    assert(grown(g6.boundary(o), h));
    assert(grown(g6, h) && grown(g5, h) && grown(g4, h) && grown(g3, h) && grown(g2, h) && grown(g1, h));
    lemma_bordered(s, g, x, 1, 1, h, vals);
    lemma_conv2d(s, g2, p, w_e, (3, 3), (1, 1), (1, 1), h, vals);
    lemma_step_add(s, g4, y, b_e, h, vals);
    lemma_rectified(s, g5, z, h, vals);
    (w_e, b_e, seq![p, y, z])
}

/// A layer of the pillars' network is a bordered convolution with its bias and a rectifier. The tensors in
/// between are returned.
pub proof fn lemma_pillar_conv(
    s: Graph,
    g: Graph,
    wb: (EdgeId, EdgeId),
    stride: (usize, usize),
    x: EdgeId,
    h: Graph,
    vals: Numbers,
) -> (es: Seq<EdgeId>)
    requires
        seen(s, g, h, vals),
        grown(g.pillar_conv(wb, stride, x).0, h),
        h.rank(wb.0) == 4,
    ensures
        is_conv_layer(h, vals, x, wb.0, wb.1, stride, es, g.pillar_conv(wb, stride, x).1),
{
    reveal(Graph::pillar_conv);
    broadcast use {group_grown, grown_conv2d_full, grown_relu, grown_pad};

    let (g1, p) = g.pad(x, 1, 1);
    let (g2, y) = g1.conv2d_full(p, wb.0, (3, 3), stride, (1, 1));
    let (g3, z) = g2.add(y, wb.1);
    let (g4, o) = g3.relu(z);
    assert(grown(g4, h) && grown(g3, h) && grown(g2, h) && grown(g1, h));
    lemma_bordered(s, g, x, 1, 1, h, vals);
    lemma_conv2d(s, g1, p, wb.0, (3, 3), stride, (1, 1), h, vals);
    lemma_step_add(s, g2, y, wb.1, h, vals);
    lemma_rectified(s, g3, z, h, vals);
    seq![p, y, z]
}

/// `o` is `x` times the weights plus the bias. `y` is the product, brought back by `k` bits.
pub open spec fn is_dense(
    h: Graph,
    vals: Numbers,
    x: EdgeId,
    w: EdgeId,
    b: EdgeId,
    k: nat,
    y: EdgeId,
    o: EdgeId,
) -> bool {
    &&& contracted(h, vals, "i,ij->j"@, seq![x, w], k, y)
    &&& added(h, vals, y, b, o)
}

/// A dense layer is a product with its weights, at the scale of its input, plus its bias. The edges of
/// weights and bias and the product are returned.
pub proof fn lemma_dense(
    s: Graph,
    g: Graph,
    w: Tensor,
    b: Tensor,
    x: EdgeId,
    h: Graph,
    vals: Numbers,
) -> (r: (
    EdgeId,
    EdgeId,
    EdgeId,
))
    requires
        seen(s, g, h, vals),
        grown(g.dense(w, b, x).0, h),
    ensures
        h.values[r.0 as int] == w,
        h.values[r.1 as int] == b,
        is_dense(h, vals, x, r.0, r.1, w.sf as nat, r.2, g.dense(w, b, x).1),
{
    reveal(Graph::dense);
    broadcast use group_grown;

    let eq = "i,ij->j"@;
    let (g1, w_e) = g.param(w);
    let (g2, y) = g1.einsum(eq, seq![x, w_e], true);
    let (g3, b_e) = g2.param(b);
    let (g4, o) = g3.add(y, b_e);
    assert(grown(g4, h) && grown(g3, h) && grown(g2, h) && grown(g1, h));
    lemma_step_einsum(s, g1, eq, seq![x, w_e], true, h, vals);
    lemma_step_add(s, g3, y, b_e, h, vals);
    (w_e, b_e, y)
}

/// A dense layer of VGG is a product with its weights plus its bias. The edges of weights and bias and the
/// product are returned.
pub proof fn lemma_vgg_dense(
    s: Graph,
    g: Graph,
    w: Tensor,
    b: Tensor,
    x: EdgeId,
    h: Graph,
    vals: Numbers,
) -> (r: (
    EdgeId,
    EdgeId,
    EdgeId,
))
    requires
        seen(s, g, h, vals),
        grown(g.vgg_dense(w, b, x).0, h),
    ensures
        h.values[r.0 as int] == w,
        h.values[r.1 as int] == b,
        is_dense(h, vals, x, r.0, r.1, 0, r.2, g.vgg_dense(w, b, x).1),
{
    reveal(Graph::vgg_dense);
    broadcast use group_grown;

    let eq = "i,ij->j"@;
    let (g1, w_e) = g.param(w);
    let (g2, y) = g1.einsum(eq, seq![x, w_e], false);
    let (g3, b_e) = g2.param(b);
    let (g4, o) = g3.add(y, b_e);
    assert(grown(g4, h) && grown(g3, h) && grown(g2, h) && grown(g1, h));
    lemma_step_einsum(s, g1, eq, seq![x, w_e], false, h, vals);
    lemma_step_add(s, g3, y, b_e, h, vals);
    (w_e, b_e, y)
}

/// `y` is `x` with a border, where there is one.
pub open spec fn maybe_bordered(h: Graph, vals: Numbers, x: EdgeId, pad: (usize, usize), y: EdgeId) -> bool {
    if pad.0 > 0 || pad.1 > 0 {
        bordered(h, vals, x, pad.0, pad.1, y)
    } else {
        y == x
    }
}

/// `o` is the convolution of `x`, bordered by `pad`, with kernels `w` that have gaps, plus the bias.
pub open spec fn is_spread_conv(
    h: Graph,
    vals: Numbers,
    x: EdgeId,
    w: EdgeId,
    b: EdgeId,
    stride: usize,
    pad: usize,
    gap: usize,
    o: EdgeId,
) -> bool {
    exists|p: EdgeId, y: EdgeId|
        #![trigger maybe_bordered(h, vals, x, (pad, pad), p), added(h, vals, y, b, o)]
        maybe_bordered(h, vals, x, (pad, pad), p) && is_convolution(
            h,
            vals,
            p,
            w,
            (stride, stride),
            (gap, gap),
            y,
        )
            && added(h, vals, y, b, o)
}

pub broadcast proof fn grown_lab_conv(g: Graph, wb: (EdgeId, EdgeId), w: Window, x: EdgeId, h: Graph)
    ensures
        #[trigger] grown(g.lab_conv(wb, w, x).0, h) ==> grown(g, h) && g.lab_conv(wb, w, x).0.nodes.len()
            >= g.nodes.len() && g.lab_conv(wb, w, x).0.values.len() >= g.values.len() && g.lab_conv(wb, w, x).1
            < h.values.len(),
{
    reveal(Graph::lab_conv);
    broadcast use {group_grown, grown_conv2d_full, grown_pad};

    if grown(g.lab_conv(wb, w, x).0, h) {
        let (g1, p) = g.padded(x, w.pad);
        let gap = if w.dilation.0 > 1 || w.dilation.1 > 1 {
            w.dilation
        } else {
            (1, 1)
        };
        let (g2, y) = g1.conv2d_full(p, wb.0, w.kernel, w.stride, gap);
        assert(grown(g2.add(y, wb.1).0, h));
        assert(grown(g2, h));
        assert(grown(g1, h));
    }
}

/// A convolution of DeepLab.
pub proof fn lemma_lab_conv(
    s: Graph,
    g: Graph,
    wb: (EdgeId, EdgeId),
    w: Window,
    x: EdgeId,
    h: Graph,
    vals: Numbers,
)
    requires
        seen(s, g, h, vals),
        grown(g.lab_conv(wb, w, x).0, h),
        h.rank(wb.0) == 4,
        w.stride.0 == w.stride.1,
        w.pad.0 == w.pad.1,
        w.dilation.0 == w.dilation.1,
        w.dilation.0 >= 1,
    ensures
        is_spread_conv(
            h,
            vals,
            x,
            wb.0,
            wb.1,
            w.stride.0,
            w.pad.0,
            w.dilation.0,
            g.lab_conv(wb, w, x).1,
        ),
        h.shape(wb.0)[2] == w.kernel.0,
        h.shape(wb.0)[3] == w.kernel.1,
{
    reveal(Graph::lab_conv);
    broadcast use {group_grown, grown_conv2d_full, grown_pad};

    let (g1, p) = g.padded(x, w.pad);
    let gap = if w.dilation.0 > 1 || w.dilation.1 > 1 {
        w.dilation
    } else {
        (1, 1)
    };
    assert(gap == (w.dilation.0, w.dilation.0));
    let (g2, y) = g1.conv2d_full(p, wb.0, w.kernel, w.stride, gap);
    let (g3, o) = g2.add(y, wb.1);
    assert(grown(g3, h));
    assert(grown(g2, h));
    assert(grown(g1, h));
    if w.pad.0 > 0 || w.pad.1 > 0 {
        lemma_bordered(s, g, x, w.pad.0, w.pad.1, h, vals);
    }
    assert(w.stride == (w.stride.0, w.stride.0));
    lemma_conv2d(s, g1, p, wb.0, w.kernel, w.stride, gap, h, vals);
    lemma_step_add(s, g2, y, wb.1, h, vals);
    assert(maybe_bordered(h, vals, x, (w.pad.0, w.pad.0), p));
}

/// A bottleneck of DeepLab: three convolutions, the first two with rectifiers and the second spread and
/// bordered by the dilation, plus the shortcut, rectified. `es` are the tensors in between.
pub open spec fn is_lab_bottleneck(
    h: Graph,
    vals: Numbers,
    wb: Seq<(EdgeId, EdgeId)>,
    stride: usize,
    dilation: usize,
    projected: bool,
    x: EdgeId,
    es: Seq<EdgeId>,
    o: EdgeId,
) -> bool {
    let (c1, r1, c2, r2, c3, short, sum) = (es[0], es[1], es[2], es[3], es[4], es[5], es[6]);
    &&& es.len() == 7
    &&& is_spread_conv(h, vals, x, wb[0].0, wb[0].1, 1, 0, 1, c1)
    &&& rectified(h, vals, c1, r1)
    &&& is_spread_conv(h, vals, r1, wb[1].0, wb[1].1, stride, dilation, dilation, c2)
    &&& rectified(h, vals, c2, r2)
    &&& is_spread_conv(h, vals, r2, wb[2].0, wb[2].1, 1, 0, 1, c3)
    &&& if projected {
        is_spread_conv(h, vals, x, wb[3].0, wb[3].1, stride, 0, 1, short)
    } else {
        short == x
    }
    &&& added(h, vals, c3, short, sum)
    &&& rectified(h, vals, sum, o)
}

/// A bottleneck of DeepLab does what it says. The tensors in between are returned.
#[verifier::rlimit(40)]
pub proof fn lemma_lab_bottleneck(
    s: Graph,
    g: Graph,
    wb: Seq<(EdgeId, EdgeId)>,
    stride: usize,
    dilation: usize,
    projected: bool,
    x: EdgeId,
    h: Graph,
    vals: Numbers,
) -> (es: Seq<EdgeId>)
    requires
        seen(s, g, h, vals),
        grown(g.lab_bottleneck(wb, stride, dilation, projected, x).0, h),
        dilation >= 1,
        h.rank(wb[0].0) == 4,
        h.rank(wb[1].0) == 4,
        h.rank(wb[2].0) == 4,
        projected ==> h.rank(wb[3].0) == 4,
    ensures
        is_lab_bottleneck(
            h,
            vals,
            wb,
            stride,
            dilation,
            projected,
            x,
            es,
            g.lab_bottleneck(wb, stride, dilation, projected, x).1,
        ),
{
    reveal(Graph::lab_bottleneck);
    reveal(Graph::lab_conv_relu);
    broadcast use {group_grown, grown_lab_conv, grown_relu};

    let (g1, c1) = g.lab_conv(wb[0], points_at(1), x);
    let (g2, r1) = g1.relu(c1);
    let (g3, c2) = g2.lab_conv(wb[1], spread_window(stride, dilation), r1);
    let (g4, r2) = g3.relu(c2);
    let (g5, c3) = g4.lab_conv(wb[2], points_at(1), r2);
    let (g6, short) = if projected {
        g5.lab_conv(wb[3], points_at(stride), x)
    } else {
        (g5, x)
    };
    let (g7, sum) = g6.add(c3, short);
    let (g8, o) = g7.relu(sum);
    assert(grown(g8, h) && grown(g7, h) && grown(g6, h));
    assert(grown(g5, h));
    assert(grown(g4, h) && grown(g3, h) && grown(g2, h) && grown(g1, h));
    lemma_lab_conv(s, g, wb[0], points_at(1), x, h, vals);
    lemma_rectified(s, g1, c1, h, vals);
    lemma_lab_conv(s, g2, wb[1], spread_window(stride, dilation), r1, h, vals);
    lemma_rectified(s, g3, c2, h, vals);
    lemma_lab_conv(s, g4, wb[2], points_at(1), r2, h, vals);
    if projected {
        lemma_lab_conv(s, g5, wb[3], points_at(stride), x, h, vals);
    }
    lemma_step_add(s, g6, c3, short, h, vals);
    lemma_rectified(s, g7, sum, h, vals);
    seq![c1, r1, c2, r2, c3, short, sum]
}

} // verus!
