//! What the layers of networks for images compute.
use vstd::arithmetic::power2::*;
use vstd::prelude::*;

use crate::dag::block::Op;
use crate::dag::graph::{word, Graph};
use crate::dag::graph_ops::{extent, pad2, paddable, window_ok, windows};
use crate::dag::growth::{
    group_grown, grown, lemma_kept, lemma_step_add, lemma_step_nonneg, lemma_step_plain, seen,
};
use crate::dag::layer_laws::lemma_joint_same;
use crate::dag::meaning::{
    at3, at4, convolved, does, doubled, flattened, inside, lemma_aligned_same, lemma_does_zero,
    lemma_window_total_eq, sliced, stacked, window_total, Numbers,
};
use crate::dag::types::EdgeId;
use crate::util::arith::{clog2, lemma_clog2, lemma_usize_max, padded};

verus! {

/// `y` is the larger of zero and `x`, entry by entry.
pub open spec fn rectified(h: Graph, vals: Numbers, x: EdgeId, y: EdgeId) -> bool {
    &&& h.shape(y) == h.shape(x)
    &&& forall|idx: Seq<int>| #[trigger]
        inside(h.shape(x), idx) ==> vals(y)(idx) == if vals(x)(idx) >= 0 {
            vals(x)(idx)
        } else {
            0
        }
}

pub broadcast proof fn grown_relu(g: Graph, x: EdgeId, h: Graph)
    ensures
        #[trigger] grown(g.relu(x).0, h) ==> grown(g, h) && x < g.values.len() && g.relu(x).1 < h.values.len()
            && g.relu(x).0.nodes.len() >= g.nodes.len() && g.relu(x).0.values.len() >= g.values.len(),
{
    reveal(Graph::relu);
    broadcast use group_grown;

}

/// A rectifier in a larger graph: in every run whose checks hold, it gives the larger of zero and its
/// input.
pub proof fn lemma_rectified(s: Graph, g: Graph, x: EdgeId, h: Graph, vals: Numbers)
    requires
        seen(s, g, h, vals),
        grown(g.relu(x).0, h),
    ensures
        rectified(h, vals, x, g.relu(x).1),
{
    reveal(Graph::relu);
    broadcast use group_grown;

    let (g1, neg) = g.alike(Op::ReLUHelper, x);
    let (g2, y) = g1.add(x, neg);
    let g3 = g2.nonneg(y);
    let g4 = g3.nonneg(neg);
    let both = seq![neg, y];
    let (g5, cert) = g4.plain(Op::ProductZeroCheck, both, g.shape(x));
    assert(grown(g5.self_claim(cert), h));
    assert(grown(g5, h));
    assert(grown(g4, h) && grown(g3, h) && grown(g2, h) && grown(g1, h));
    lemma_step_add(s, g1, x, neg, h, vals);
    lemma_step_nonneg(s, g2, y, h, vals);
    lemma_step_nonneg(s, g3, neg, h, vals);
    lemma_step_plain(s, g4, Op::ProductZeroCheck, both, g.shape(x), h, vals);
    let shape = h.shape(x);
    lemma_joint_same(shape);
    assert(h.shape(neg) == shape && h.shape(y) == shape);
    let n = g4.nodes.len() as int;
    assert forall|idx: Seq<int>| #[trigger] inside(shape, idx) implies vals(y)(idx) == if vals(x)(idx) >= 0 {
        vals(x)(idx)
    } else {
        0
    } by {
        lemma_aligned_same(shape, idx);
        assert(inside(h.shape(y), idx) && inside(h.shape(neg), idx));
        lemma_does_zero(h, vals, n, neg, y, idx);
        let (a, b) = (vals(neg)(idx), vals(y)(idx));
        assert(a >= 0 && b >= 0 && a * b == 0);
        assert(a == 0 || b == 0) by (nonlinear_arith)
            requires
                a * b == 0,
        ;
    }
}

/// `y` is the convolution of `x` with the kernels `w`: at every place of the window the sum over its
/// channels, rows and columns.
pub open spec fn is_convolution(
    h: Graph,
    vals: Numbers,
    x: EdgeId,
    w: EdgeId,
    stride: (usize, usize),
    gap: (usize, usize),
    y: EdgeId,
) -> bool {
    &&& h.shape(y) == seq![
        h.shape(w)[0],
        ((h.shape(x)[1] - ((h.shape(w)[2] - 1) * gap.0 + 1)) / stride.0 as int + 1) as usize,
        ((h.shape(x)[2] - ((h.shape(w)[3] - 1) * gap.1 + 1)) / stride.1 as int + 1) as usize,
    ]
    &&& forall|idx: Seq<int>| #[trigger]
        inside(h.shape(y), idx) ==> vals(y)(idx) == window_total(
            h.shape(x)[0] as nat,
            h.shape(w)[2] as nat,
            h.shape(w)[3] as nat,
            |c: int, a: int, b: int|
                vals(x)(at3(c, idx[1] * stride.0 + a * gap.0, idx[2] * stride.1 + b * gap.1)) * vals(w)(
                    at4(idx[0], c, a, b),
                ),
        )
}

pub broadcast proof fn grown_conv2d_full(
    g: Graph,
    x: EdgeId,
    w: EdgeId,
    kernel: (usize, usize),
    stride: (usize, usize),
    dilation: (usize, usize),
    h: Graph,
)
    ensures
        #[trigger] grown(g.conv2d_full(x, w, kernel, stride, dilation).0, h) ==> grown(g, h) && g.conv2d_full(
            x,
            w,
            kernel,
            stride,
            dilation,
        ).1 < h.values.len() && g.conv2d_full(x, w, kernel, stride, dilation).0.nodes.len() >= g.nodes.len()
            && g.conv2d_full(
                x,
                w,
                kernel,
                stride,
                dilation,
            ).0.values.len() >= g.values.len() && x < g.values.len(),
{
    reveal(Graph::conv2d_full);
    broadcast use group_grown;

}

/// A padded number fits a machine word.
proof fn lemma_pad_fits(x: int)
    requires
        paddable(x),
    ensures
        pad2(x) <= usize::MAX,
{
    lemma_clog2(x as nat);
    lemma_usize_max();
    lemma_pow2_unfold(usize::BITS as nat);
    if clog2(x as nat) >= usize::BITS {
        let k = (clog2(x as nat) - 1) as nat;
        if k > usize::BITS - 1 {
            lemma_pow2_strictly_increases((usize::BITS - 1) as nat, k);
        }
    } else {
        lemma_pow2_strictly_increases(clog2(x as nat), usize::BITS as nat);
    }
}

/// A convolution is the sum over its window.
#[verifier::rlimit(40)]
pub proof fn lemma_conv2d(
    s: Graph,
    g: Graph,
    x: EdgeId,
    w: EdgeId,
    kernel: (usize, usize),
    stride: (usize, usize),
    dilation: (usize, usize),
    h: Graph,
    vals: Numbers,
)
    requires
        seen(s, g, h, vals),
        grown(g.conv2d_full(x, w, kernel, stride, dilation).0, h),
        h.rank(w) == 4,
    ensures
        is_convolution(h, vals, x, w, stride, dilation, g.conv2d_full(x, w, kernel, stride, dilation).1),
        h.shape(w)[2] == kernel.0,
        h.shape(w)[3] == kernel.1,
        h.shape(w)[1] == h.shape(x)[0],
{
    reveal(Graph::conv2d_full);
    broadcast use group_grown;

    let (c_in, ih, iw) = (g.shape(x)[0], g.shape(x)[1], g.shape(x)[2]);
    let c_out = g.shape(w)[0];
    let (kh, kw) = (kernel.0 as int, kernel.1 as int);
    let (dh, dw) = (dilation.0 as int, dilation.1 as int);
    let row = pad2(iw as int);
    let flat = Graph::flat_kernel(kh, kw, dh, dw, row);
    let (oh, ow) = (
        windows(ih as int, extent(kh, dh), stride.0 as int),
        windows(iw as int, extent(kw, dw), stride.1 as int),
    );
    let q = g.require(
        g.has_rank(x, 3) && g.has_rank(w, 4) && g.shape(w)[1] == c_in && g.shape(w)[2] == kernel.0 && g.shape(
            w,
        )[3] == kernel.1 && kh >= 1 && kw >= 1 && window_ok(ih as int, extent(kh, dh), stride.0 as int)
            && window_ok(
                iw as int,
                extent(kw, dw),
                stride.1 as int,
            ) && paddable(iw as int) && word(flat) && word(
            oh,
        ) && word(ow),
    );
    let flatten = Op::FlattenKernel {
        s_w: row as usize,
        kh: kernel.0,
        kw: kernel.1,
        c_out,
        c_in,
        dilation_h: dilation.0,
        dilation_w: dilation.1,
    };
    let conv = Op::Conv2D {
        c_in,
        c_out,
        kh: kernel.0,
        kw: kernel.1,
        input_h: ih,
        input_w: iw,
        stride_h: stride.0,
        stride_w: stride.1,
        dilation_h: dilation.0,
        dilation_w: dilation.1,
    };
    let (g1, wf) = q.plain(flatten, seq![w], seq![c_out, c_in, flat as usize]);
    let (g2, y) = g1.plain(conv, seq![x, wf], seq![c_out, oh as usize, ow as usize]);
    assert(grown(g2.self_claim(y), h));
    assert(grown(g2, h));
    assert(grown(g1, h));
    assert(grown(q, h));
    lemma_kept(g, h, x);
    lemma_kept(g, h, w);
    lemma_step_plain(s, q, flatten, seq![w], seq![c_out, c_in, flat as usize], h, vals);
    lemma_step_plain(s, g1, conv, seq![x, wf], seq![c_out, oh as usize, ow as usize], h, vals);
    let (n1, n2) = (q.nodes.len() as int, g1.nodes.len() as int);
    assert(h.nodes[n1].inputs[0] == w);
    assert(h.nodes[n2].inputs[0] == x && h.nodes[n2].inputs[1] == wf);
    assert(row == padded(iw as nat));
    assert(row <= usize::MAX) by {
        lemma_pad_fits(iw as int);
    }
    assert(flattened(h, vals, w, wf, dh, dw, row));
    assert(convolved(h, vals, x, wf, y, c_in as nat, kernel, stride, dilation, row));
    assert forall|idx: Seq<int>| #[trigger] inside(h.shape(y), idx) implies vals(y)(idx) == window_total(
        c_in as nat,
        kernel.0 as nat,
        kernel.1 as nat,
        |c: int, a: int, b: int|
            vals(x)(at3(c, idx[1] * stride.0 + a * dilation.0, idx[2] * stride.1 + b * dilation.1)) * vals(w)(
                at4(idx[0], c, a, b),
            ),
    ) by {
        let f = |c: int, a: int, b: int|
            vals(x)(at3(
                c,
                idx[1] * stride.0 + a * dilation.0,
                idx[2] * stride.1 + b * dilation.1,
            )) * vals(wf)(
                at3(idx[0], c, a * dilation.0 * row + b * dilation.1),
            );
        let t = |c: int, a: int, b: int|
            vals(x)(at3(c, idx[1] * stride.0 + a * dilation.0, idx[2] * stride.1 + b * dilation.1)) * vals(w)(
                at4(idx[0], c, a, b),
            );
        assert forall|c: int, a: int, b: int|
            0 <= c < c_in && 0 <= a < kernel.0 && 0 <= b < kernel.1 implies #[trigger] f(c, a, b) == t(c, a, b) by {
            assert(0 <= idx[0] < h.shape(y)[0]);
            assert(inside(h.shape(w), at4(idx[0], c, a, b)));
        }
        lemma_window_total_eq(c_in as nat, kernel.0 as nat, kernel.1 as nat, f, t);
    }
}

/// Joining puts the channels of the second tensor behind those of the first.
pub proof fn lemma_concat(s: Graph, g: Graph, a: EdgeId, b: EdgeId, h: Graph, vals: Numbers)
    requires
        seen(s, g, h, vals),
        grown(g.concat(a, b).0, h),
    ensures
        grown(g, h),
        h.rank(a) >= 1,
        h.shape(b) == h.shape(a),
        h.shape(g.concat(a, b).1) == h.shape(a).update(0, (2 * h.shape(a)[0]) as usize),
        forall|idx: Seq<int>| #[trigger]
            inside(
                h.shape(g.concat(a, b).1),
                idx,
            ) ==> vals(g.concat(a, b).1)(idx) == if idx[0] < h.shape(a)[0] {
                vals(a)(idx)
            } else {
                vals(b)(idx.update(0, idx[0] - h.shape(a)[0]))
            },
{
    reveal(Graph::concat);
    reveal(grown);
    let n = g.nodes.len() as int;
    let (g1, o) = g.concat(a, b);
    assert forall|k: int| 0 <= k < g.nodes.len() implies #[trigger] h.nodes[k] == g.nodes[k] by {
        assert(h.nodes[k] == g1.nodes[k]);
    }
    assert forall|e: int| 0 <= e < g.values.len() implies #[trigger] h.values[e] == g.values[e] by {
        assert(h.values[e] == g1.values[e]);
    }
    assert(h.values[g.values.len() as int] == g1.values[g.values.len() as int]);
    assert(h.nodes[n] == g1.nodes[n]);
    assert(does(h, vals, n));
    assert(h.nodes[n].inputs[0] == a && h.nodes[n].inputs[1] == b);
    assert(stacked(h, vals, a, b, o, h.shape(a)[0] as int));
    assert(h.shape(o) =~= h.shape(a).update(0, (2 * h.shape(a)[0]) as usize));
}

/// A slice has the channels from `start` on, as many as are asked for.
pub proof fn lemma_channel_slice(
    s: Graph,
    g: Graph,
    x: EdgeId,
    start: usize,
    count: usize,
    h: Graph,
    vals: Numbers,
)
    requires
        seen(s, g, h, vals),
        grown(g.channel_slice(x, start, count).0, h),
    ensures
        h.rank(x) >= 1,
        start + count <= h.shape(x)[0],
        h.shape(g.channel_slice(x, start, count).1) == h.shape(x).update(0, count),
        forall|idx: Seq<int>| #[trigger]
            inside(
                h.shape(g.channel_slice(x, start, count).1),
                idx,
            ) ==> vals(g.channel_slice(x, start, count).1)(
                idx,
            ) == vals(x)(idx.update(0, idx[0] + start)),
{
    reveal(Graph::channel_slice);
    reveal(grown);
    let n = g.nodes.len() as int;
    let (g1, o) = g.channel_slice(x, start, count);
    assert(h.values[g.values.len() as int] == g1.values[g.values.len() as int]);
    assert(g.has_rank(x, 1));
    assert(h.values[x as int] == g1.values[x as int]);
    assert(h.nodes[n] == g1.nodes[n]);
    assert(does(h, vals, n));
    assert(h.nodes[n].inputs[0] == x);
    assert(sliced(h, vals, x, o, start as int));
    assert(h.shape(o) =~= h.shape(x).update(0, count));
}

/// Upsampling repeats every entry two by two.
pub proof fn lemma_upsample(s: Graph, g: Graph, x: EdgeId, h: Graph, vals: Numbers)
    requires
        seen(s, g, h, vals),
        grown(g.upsample_nearest_2x(x).0, h),
    ensures
        h.rank(x) >= 3,
        h.shape(g.upsample_nearest_2x(x).1) == seq![
            h.shape(x)[0],
            (2 * h.shape(x)[1]) as usize,
            (2 * h.shape(x)[2]) as usize,
        ],
        forall|idx: Seq<int>| #[trigger]
            inside(
                h.shape(g.upsample_nearest_2x(x).1),
                idx,
            ) ==> vals(g.upsample_nearest_2x(x).1)(idx) == vals(x)(
                at3(idx[0], idx[1] / 2, idx[2] / 2),
            ),
{
    reveal(Graph::upsample_nearest_2x);
    broadcast use group_grown;

    let (c, hh, w) = (g.shape(x)[0], g.shape(x)[1], g.shape(x)[2]);
    let q = g.require(g.has_rank(x, 3) && word(2 * hh) && word(2 * w));
    let op = Op::Replicate2x2 { channels: c, out_h: (2 * hh) as usize, out_w: (2 * w) as usize };
    let shape = seq![c, (2 * hh) as usize, (2 * w) as usize];
    assert(grown(q.plain(op, seq![x], shape).0, h));
    assert(grown(q, h));
    lemma_kept(g, h, x);
    lemma_step_plain(s, q, op, seq![x], shape, h, vals);
    assert(h.nodes[q.nodes.len() as int].inputs[0] == x);
    assert(doubled(h, vals, x, g.upsample_nearest_2x(x).1));
}

} // verus!
