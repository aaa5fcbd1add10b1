//! What pooling and padding compute.
use vstd::arithmetic::div_mod::*;
use vstd::prelude::*;

use crate::dag::block::Op;
use crate::dag::graph::Graph;
use crate::dag::graph_ops::windows;
use crate::dag::growth::{
    group_grown, grown, lemma_kept, lemma_step_nonneg, lemma_step_plain, lemma_step_sub, seen,
};
use crate::dag::layer_laws::lemma_joint_same;
use crate::dag::meaning::{
    at3, doubled, framed, inside, lemma_aligned_same, runs_on, sampled, Numbers,
};
use crate::dag::types::EdgeId;

verus! {

pub broadcast proof fn grown_subsample_sized(
    g: Graph,
    x: EdgeId,
    stride: (usize, usize),
    offset: (usize, usize),
    out: (usize, usize),
    h: Graph,
)
    ensures
        #[trigger] grown(g.subsample_sized(x, stride, offset, out).0, h) ==> grown(g, h) && x < g.values.len()
            && h.rank(x) >= 3 && h.shape(g.subsample_sized(x, stride, offset, out).1) == seq![
            h.shape(x)[0],
            out.0,
            out.1,
        ] && g.subsample_sized(x, stride, offset, out).1 < h.values.len(),
        g.subsample_sized(x, stride, offset, out).0.nodes.len() == g.nodes.len() + 1,
        g.subsample_sized(x, stride, offset, out).0.values.len() == g.values.len() + 1,
{
    reveal(Graph::subsample_sized);
    broadcast use group_grown;

    if grown(g.subsample_sized(x, stride, offset, out).0, h) {
        lemma_kept(g, h, x);
    }
    reveal(Graph::plain);
}

pub broadcast proof fn grown_dominate(
    g: Graph,
    x: EdgeId,
    y: EdgeId,
    stride: (usize, usize),
    offset: (usize, usize),
    out: (usize, usize),
    h: Graph,
)
    ensures
        #[trigger] grown(g.dominate(x, y, stride, offset, out), h) ==> grown(g, h),
        g.dominate(x, y, stride, offset, out).nodes.len() >= g.nodes.len(),
        g.dominate(x, y, stride, offset, out).values.len() >= g.values.len(),
{
    reveal(Graph::dominate);
    broadcast use {group_grown, grown_subsample_sized};

    reveal(Graph::subsample_sized);
    reveal(Graph::plain);
    reveal(Graph::pointwise);
    reveal(Graph::nonneg);
}

proof fn lemma_row_grown(
    g: Graph,
    x: EdgeId,
    y: EdgeId,
    stride: (usize, usize),
    row: usize,
    k: nat,
    out: (usize, usize),
    h: Graph,
)
    ensures
        grown(g.dominate_row(x, y, stride, row, k, out), h) ==> grown(g, h),
        g.dominate_row(x, y, stride, row, k, out).nodes.len() >= g.nodes.len(),
        g.dominate_row(x, y, stride, row, k, out).values.len() >= g.values.len(),
    decreases k,
{
    broadcast use grown_dominate;

    if k > 0 {
        lemma_row_grown(g, x, y, stride, row, (k - 1) as nat, out, h);
        let g1 = g.dominate_row(x, y, stride, row, (k - 1) as nat, out);
        grown_dominate(g1, x, y, stride, (row, (k - 1) as usize), out, h);
    }
}

proof fn lemma_rows_grown(
    g: Graph,
    x: EdgeId,
    y: EdgeId,
    stride: (usize, usize),
    rows: nat,
    cols: nat,
    out: (usize, usize),
    h: Graph,
)
    ensures
        grown(g.dominate_rows(x, y, stride, rows, cols, out), h) ==> grown(g, h),
        g.dominate_rows(x, y, stride, rows, cols, out).nodes.len() >= g.nodes.len(),
        g.dominate_rows(x, y, stride, rows, cols, out).values.len() >= g.values.len(),
    decreases rows,
{
    if rows > 0 {
        lemma_rows_grown(g, x, y, stride, (rows - 1) as nat, cols, out, h);
        let g1 = g.dominate_rows(x, y, stride, (rows - 1) as nat, cols, out);
        lemma_row_grown(g1, x, y, stride, (rows - 1) as usize, cols, out, h);
    }
}

/// No entry of `x` at the given offset in its window is larger than that of `y` for the window.
pub open spec fn topped(
    vals: Numbers,
    x: EdgeId,
    y: EdgeId,
    shape: Seq<usize>,
    stride: (usize, usize),
    a: int,
    b: int,
) -> bool {
    forall|c: int, i: int, j: int|
        #![trigger vals(y)(at3(c, i, j))]
        inside(shape, at3(c, i, j)) ==> vals(x)(at3(c, i * stride.0 + a, j * stride.1 + b)) <= vals(y)(
            at3(c, i, j),
        )
}

proof fn lemma_dominate(
    s: Graph,
    g: Graph,
    x: EdgeId,
    y: EdgeId,
    stride: (usize, usize),
    offset: (usize, usize),
    out: (usize, usize),
    h: Graph,
    vals: Numbers,
)
    requires
        seen(s, g, h, vals),
        grown(g.dominate(x, y, stride, offset, out), h),
        h.shape(y) == seq![h.shape(x)[0], out.0, out.1],
    ensures
        topped(vals, x, y, h.shape(y), stride, offset.0 as int, offset.1 as int),
{
    reveal(Graph::dominate);
    broadcast use {group_grown, grown_subsample_sized};

    let (g1, sv) = g.subsample_sized(x, stride, offset, out);
    let (g2, diff) = g1.sub(y, sv);
    assert(grown(g2.nonneg(diff), h));
    assert(grown(g2, h));
    assert(grown(g1, h));
    lemma_kept(g, h, x);
    lemma_step_sub(s, g1, y, sv, h, vals);
    lemma_step_nonneg(s, g2, diff, h, vals);
    let shape = h.shape(y);
    lemma_joint_same(shape);
    assert(h.shape(sv) == shape);
    assert(h.shape(diff) == shape);
    assert(sampled(
        h,
        vals,
        x,
        sv,
        stride.0 as int,
        stride.1 as int,
        offset.0 as int,
        offset.1 as int,
    )) by {
        reveal(Graph::subsample_sized);
        let q = g.require(g.has_rank(x, 3));
        let op = Op::SubSample2D {
            channels: g.shape(x)[0],
            input_h: g.shape(x)[1],
            input_w: g.shape(x)[2],
            stride_h: stride.0,
            stride_w: stride.1,
            offset_h: offset.0,
            offset_w: offset.1,
            out_h: out.0,
            out_w: out.1,
        };
        let sh = seq![g.shape(x)[0], out.0, out.1];
        assert(grown(q.plain(op, seq![x], sh).0, h));
        assert(grown(q, h));
        lemma_step_plain(s, q, op, seq![x], sh, h, vals);
        let n = q.nodes.len() as int;
        assert(h.nodes[n].inputs[0] == x);
        assert(h.nodes[n].outputs[0] == sv);
    }
    assert forall|c: int, i: int, j: int|
        #![trigger vals(y)(at3(c, i, j))]
        inside(shape, at3(c, i, j)) implies vals(x)(
        at3(c, i * stride.0 + offset.0, j * stride.1 + offset.1),
    ) <= vals(y)(at3(c, i, j)) by {
        let idx = at3(c, i, j);
        lemma_aligned_same(shape, idx);
        assert(inside(h.shape(diff), idx));
        assert(vals(diff)(idx) >= 0);
        assert(vals(diff)(idx) == vals(y)(idx) - vals(sv)(idx));
        assert(inside(h.shape(sv), idx));
    }
}

proof fn lemma_dominate_row(
    s: Graph,
    g: Graph,
    x: EdgeId,
    y: EdgeId,
    stride: (usize, usize),
    row: usize,
    k: nat,
    out: (usize, usize),
    h: Graph,
    vals: Numbers,
    b: int,
)
    requires
        s.nodes.len() <= g.nodes.len(),
        s.values.len() <= g.values.len(),
        runs_on(s, h, vals),
        grown(g.dominate_row(x, y, stride, row, k, out), h),
        h.shape(y) == seq![h.shape(x)[0], out.0, out.1],
        0 <= b < k <= usize::MAX,
    ensures
        topped(vals, x, y, h.shape(y), stride, row as int, b),
    decreases k,
{
    let g1 = g.dominate_row(x, y, stride, row, (k - 1) as nat, out);
    grown_dominate(g1, x, y, stride, (row, (k - 1) as usize), out, h);
    if b == k - 1 {
        lemma_row_grown(g, x, y, stride, row, (k - 1) as nat, out, h);
        lemma_dominate(s, g1, x, y, stride, (row, (k - 1) as usize), out, h, vals);
    } else {
        lemma_dominate_row(s, g, x, y, stride, row, (k - 1) as nat, out, h, vals, b);
    }
}

proof fn lemma_dominate_rows(
    s: Graph,
    g: Graph,
    x: EdgeId,
    y: EdgeId,
    stride: (usize, usize),
    rows: nat,
    cols: nat,
    out: (usize, usize),
    h: Graph,
    vals: Numbers,
    a: int,
    b: int,
)
    requires
        s.nodes.len() <= g.nodes.len(),
        s.values.len() <= g.values.len(),
        runs_on(s, h, vals),
        grown(g.dominate_rows(x, y, stride, rows, cols, out), h),
        h.shape(y) == seq![h.shape(x)[0], out.0, out.1],
        0 <= a < rows <= usize::MAX,
        0 <= b < cols <= usize::MAX,
    ensures
        topped(vals, x, y, h.shape(y), stride, a, b),
    decreases rows,
{
    let g1 = g.dominate_rows(x, y, stride, (rows - 1) as nat, cols, out);
    lemma_row_grown(g1, x, y, stride, (rows - 1) as usize, cols, out, h);
    lemma_rows_grown(g, x, y, stride, (rows - 1) as nat, cols, out, h);
    if a == rows - 1 {
        lemma_dominate_row(s, g1, x, y, stride, (rows - 1) as usize, cols, out, h, vals, b);
    } else {
        lemma_dominate_rows(s, g, x, y, stride, (rows - 1) as nat, cols, out, h, vals, a, b);
    }
}

/// Pooling gives one entry for every place of the window, and in every run whose checks hold no entry of
/// the window is larger.
pub proof fn lemma_maxpool(
    g: Graph,
    x: EdgeId,
    kernel: (usize, usize),
    stride: (usize, usize),
    h: Graph,
    vals: Numbers,
)
    requires
        grown(g.maxpool_general(x, kernel, stride).0, h),
        runs_on(g, h, vals),
    ensures
        h.shape(g.maxpool_general(x, kernel, stride).1) == seq![
            h.shape(x)[0],
            ((h.shape(x)[1] - kernel.0) / stride.0 as int + 1) as usize,
            ((h.shape(x)[2] - kernel.1) / stride.1 as int + 1) as usize,
        ],
        forall|c: int, i: int, j: int, a: int, b: int|
            #![
                trigger vals(g.maxpool_general(x, kernel, stride).1)(at3(c, i, j)),
                vals(x)(at3(c, i * stride.0 + a, j * stride.1 + b)),
            ]
            inside(
                h.shape(g.maxpool_general(x, kernel, stride).1),
                at3(c, i, j),
            ) && 0 <= a < kernel.0 && 0 <= b
                < kernel.1 ==> vals(x)(at3(c, i * stride.0 + a, j * stride.1 + b)) <= vals(
                g.maxpool_general(x, kernel, stride).1,
            )(at3(c, i, j)),
{
    reveal(Graph::maxpool_general);
    broadcast use group_grown;

    let (g9, y) = g.maxpool_general(x, kernel, stride);
    let (c, hh, w) = (g.shape(x)[0], g.shape(x)[1], g.shape(x)[2]);
    let out = (
        windows(hh as int, kernel.0 as int, stride.0 as int) as usize,
        windows(w as int, kernel.1 as int, stride.1 as int) as usize,
    );
    let q = g.require(
        g.has_rank(x, 3) && kernel.0 <= hh && kernel.1 <= w && stride.0 > 0 && stride.1 > 0
            && crate::dag::graph::word(windows(hh as int, kernel.0 as int, stride.0 as int))
            && crate::dag::graph::word(windows(w as int, kernel.1 as int, stride.1 as int)),
    );
    let g1 = q.plain(
        Op::GeneralMaxPoolHelper {
            channels: c,
            input_h: hh,
            input_w: w,
            kernel_h: kernel.0,
            kernel_w: kernel.1,
            stride_h: stride.0,
            stride_w: stride.1,
        },
        seq![x],
        seq![c, out.0, out.1],
    ).0;
    lemma_rows_grown(g1, x, y, stride, kernel.0 as nat, kernel.1 as nat, out, h);
    assert(grown(g1, h));
    assert(grown(q, h));
    assert(grown(g, h));
    lemma_kept(g, h, x);
    assert forall|cc: int, i: int, j: int, a: int, b: int|
        #![trigger vals(y)(at3(cc, i, j)), vals(x)(at3(cc, i * stride.0 + a, j * stride.1 + b))]
        inside(h.shape(y), at3(cc, i, j)) && 0 <= a < kernel.0 && 0 <= b < kernel.1 implies vals(x)(
        at3(cc, i * stride.0 + a, j * stride.1 + b),
    ) <= vals(y)(at3(cc, i, j)) by {
        lemma_dominate_rows(g, g1, x, y, stride, kernel.0 as nat, kernel.1 as nat, out, h, vals, a, b);
    }
}

/// Pooling by two in both directions: in every run whose checks hold, no entry of a square of four is larger
/// than the one that stands for it.
pub proof fn lemma_maxpool_two(s: Graph, g: Graph, x: EdgeId, h: Graph, vals: Numbers)
    requires
        seen(s, g, h, vals),
        grown(g.maxpool2d(x, 2, 2).0, h),
        h.rank(x) == 3,
    ensures
        h.shape(g.maxpool2d(x, 2, 2).1) == seq![h.shape(x)[0], h.shape(x)[1] / 2, h.shape(x)[2] / 2],
        forall|c: int, i: int, j: int|
            #![trigger vals(x)(at3(c, i, j))]
            inside(h.shape(x), at3(c, i, j)) ==> vals(x)(at3(c, i, j)) <= vals(g.maxpool2d(x, 2, 2).1)(
                at3(c, i / 2, j / 2),
            ),
{
    reveal(Graph::maxpool2d);
    broadcast use group_grown;

    let (c0, hh, w) = (g.shape(x)[0], g.shape(x)[1], g.shape(x)[2]);
    let two = 2usize;
    let q = g.require(
        g.has_rank(x, 3) && two > 0 && two > 0 && hh as int % two as int == 0 && w as int % two as int == 0,
    );
    let small = seq![c0, (hh as int / two as int) as usize, (w as int / two as int) as usize];
    let pool = Op::MaxPoolHelper { channels: c0, input_h: hh, input_w: w, pool_h: two, pool_w: two };
    let (g1, y) = q.plain(pool, seq![x], small);
    let twice = Op::Replicate2x2 { channels: c0, out_h: hh, out_w: w };
    let (g2, rep) = g1.plain(twice, seq![y], seq![c0, hh, w]);
    let (g3, diff) = g2.sub(rep, x);
    assert(grown(g3.nonneg(diff), h));
    assert(grown(g3, h) && grown(g2, h) && grown(g1, h));
    assert(grown(q, h));
    lemma_kept(g, h, x);
    lemma_step_plain(s, g1, twice, seq![y], seq![c0, hh, w], h, vals);
    lemma_step_sub(s, g2, rep, x, h, vals);
    lemma_step_nonneg(s, g3, diff, h, vals);
    let shape = h.shape(x);
    assert(shape =~= seq![c0, hh, w]);
    lemma_joint_same(shape);
    assert(h.nodes[g1.nodes.len() as int].inputs[0] == y);
    assert(doubled(h, vals, y, rep));
    assert forall|c: int, i: int, j: int|
        #![trigger vals(x)(at3(c, i, j))]
        inside(shape, at3(c, i, j)) implies vals(x)(at3(c, i, j)) <= vals(y)(at3(c, i / 2, j / 2)) by {
        let idx = at3(c, i, j);
        lemma_aligned_same(shape, idx);
        assert(inside(h.shape(diff), idx) && inside(h.shape(rep), idx));
        assert(vals(diff)(idx) >= 0);
    }
}

/// Padding puts a tensor into a larger one of zeros: as many rows above and below it, and columns to its
/// left and right, as are asked for.
pub proof fn lemma_pad_asym(
    g: Graph,
    x: EdgeId,
    top: usize,
    bottom: usize,
    left: usize,
    right: usize,
    h: Graph,
    vals: Numbers,
)
    requires
        grown(g.pad_asym(x, top, bottom, left, right).0, h),
        runs_on(g, h, vals),
    ensures
        ({
            let y = g.pad_asym(x, top, bottom, left, right).1;
            &&& h.shape(y).len() == 3
            &&& h.shape(y)[0] == h.shape(x)[0]
            &&& h.shape(y)[1] == top + h.shape(x)[1] + bottom
            &&& h.shape(y)[2] == left + h.shape(x)[2] + right
            &&& framed(
                h,
                vals,
                x,
                y,
                h.shape(x)[1] as int,
                h.shape(x)[2] as int,
                top as int,
                left as int,
            )
        }),
{
    reveal(Graph::pad_asym);
    broadcast use group_grown;

    let (c, hh, w) = (g.shape(x)[0], g.shape(x)[1], g.shape(x)[2]);
    let q = g.require(
        g.has_rank(x, 3) && crate::dag::graph::word(hh + top + bottom) && crate::dag::graph::word(
            w + left + right,
        ),
    );
    let op = Op::ZeroPadAsym {
        channels: c,
        input_h: hh,
        input_w: w,
        pad_h_top: top,
        pad_h_bottom: bottom,
        pad_w_left: left,
        pad_w_right: right,
    };
    let shape = seq![c, (hh + top + bottom) as usize, (w + left + right) as usize];
    assert(grown(q.plain(op, seq![x], shape).0, h));
    assert(grown(q, h));
    lemma_kept(g, h, x);
    lemma_step_plain(g, q, op, seq![x], shape, h, vals);
    assert(h.nodes[q.nodes.len() as int].inputs[0] == x);
}

/// Padding by the same number of zeros on both sides.
pub proof fn lemma_pad(g: Graph, x: EdgeId, pad_h: usize, pad_w: usize, h: Graph, vals: Numbers)
    requires
        grown(g.pad(x, pad_h, pad_w).0, h),
        runs_on(g, h, vals),
    ensures
        ({
            let y = g.pad(x, pad_h, pad_w).1;
            &&& h.shape(y).len() == 3
            &&& h.shape(y)[0] == h.shape(x)[0]
            &&& h.shape(y)[1] == pad_h + h.shape(x)[1] + pad_h
            &&& h.shape(y)[2] == pad_w + h.shape(x)[2] + pad_w
            &&& framed(
                h,
                vals,
                x,
                y,
                h.shape(x)[1] as int,
                h.shape(x)[2] as int,
                pad_h as int,
                pad_w as int,
            )
        }),
{
    reveal(Graph::pad);
    broadcast use group_grown;

    let (c, hh, w) = (g.shape(x)[0], g.shape(x)[1], g.shape(x)[2]);
    let q = g.require(
        g.has_rank(x, 3) && crate::dag::graph::word(hh + 2 * pad_h) && crate::dag::graph::word(w + 2 * pad_w),
    );
    let op = Op::ZeroPad { channels: c, input_h: hh, input_w: w, pad_h, pad_w };
    let shape = seq![c, (hh + 2 * pad_h) as usize, (w + 2 * pad_w) as usize];
    assert(grown(q.plain(op, seq![x], shape).0, h));
    assert(grown(q, h));
    lemma_kept(g, h, x);
    lemma_step_plain(g, q, op, seq![x], shape, h, vals);
    assert(h.nodes[q.nodes.len() as int].inputs[0] == x);
}

} // verus!
