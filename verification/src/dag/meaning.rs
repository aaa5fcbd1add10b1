//! What the blocks of a graph compute, as relations between the numbers on its edges.
use vstd::arithmetic::power2::*;
use vstd::prelude::*;

use crate::dag::block::{Block, Op};
use crate::dag::graph::Graph;
use crate::dag::types::{EdgeId, NodeSpec};
use crate::dag::witness::Role;
use crate::util::arith::{num_vars, padded, signed_value};

verus! {

/// The numbers on the edges of a graph: of each edge, the number at each index.
pub type Numbers = spec_fn(EdgeId) -> spec_fn(Seq<int>) -> int;

/// The index is that of an entry of a tensor of the given shape.
pub open spec fn inside(shape: Seq<usize>, idx: Seq<int>) -> bool {
    idx.len() == shape.len() && forall|k: int| 0 <= k < idx.len() ==> 0 <= #[trigger] idx[k] < shape[k]
}

/// The index of an entry of a matrix.
pub open spec fn at2(i: int, j: int) -> Seq<int> {
    seq![i, j]
}

/// The index of an entry of an image.
pub open spec fn at3(c: int, i: int, j: int) -> Seq<int> {
    seq![c, i, j]
}

/// The index of an entry of a tensor with four dimensions.
pub open spec fn at4(b: int, s: int, n: int, d: int) -> Seq<int> {
    seq![b, s, n, d]
}

/// The index at which a tensor of shape `inp` is read for entry `idx` of a broadcast: shapes are aligned
/// at their last dimensions, and a dimension of one is repeated.
pub open spec fn aligned(inp: Seq<usize>, idx: Seq<int>) -> Seq<int> {
    Seq::new(
        inp.len(),
        |k: int|
            if inp[k] == 1 {
                0
            } else {
                idx[idx.len() - inp.len() + k]
            },
    )
}

/// Position of an entry among the words of its tensor: the first dimension varies fastest, and all
/// dimensions are padded to powers of two.
pub open spec fn position(shape: Seq<usize>, idx: Seq<int>) -> int
    decreases idx.len(),
{
    if idx.len() == 0 {
        0
    } else {
        let k = idx.len() - 1;
        position(shape, idx.drop_last()) + idx.last() * pow2(num_vars(shape.take(k)))
    }
}

/// `f(0) + .. + f(n - 1)`.
pub open spec fn total(n: nat, f: spec_fn(int) -> int) -> int
    decreases n,
{
    if n == 0 {
        0
    } else {
        total((n - 1) as nat, f) + f(n - 1)
    }
}

/// The sum over channels, rows and columns of a window.
pub open spec fn window_total(c: nat, rows: nat, cols: nat, f: spec_fn(int, int, int) -> int) -> int {
    total(c, |i: int| total(rows, |a: int| total(cols, |b: int| f(i, a, b))))
}

/// The lists of symbols with commas between them.
pub open spec fn joined(ins: Seq<Seq<char>>) -> Seq<char>
    decreases ins.len(),
{
    if ins.len() == 0 {
        Seq::empty()
    } else if ins.len() == 1 {
        ins[0]
    } else {
        joined(ins.drop_last()).push(',') + ins.last()
    }
}

/// The equation names the inputs by `ins` and the output by `out`.
pub open spec fn spells(eq: Seq<char>, ins: Seq<Seq<char>>, out: Seq<char>) -> bool {
    eq == joined(ins) + seq!['-', '>'] + out
}

/// The symbols of `s` that are not in `out`, each once.
pub open spec fn summed(s: Seq<char>, out: Seq<char>) -> Seq<char>
    decreases s.len(),
{
    if s.len() == 0 {
        Seq::empty()
    } else {
        let rest = summed(s.drop_last(), out);
        if out.contains(s.last()) || rest.contains(s.last()) {
            rest
        } else {
            rest.push(s.last())
        }
    }
}

/// The symbols of all inputs, one after the other.
pub open spec fn symbols(ins: Seq<Seq<char>>) -> Seq<char>
    decreases ins.len(),
{
    if ins.len() == 0 {
        Seq::empty()
    } else {
        symbols(ins.drop_last()) + ins.last()
    }
}

/// The dimensions that the symbols stand for are `dims`.
pub open spec fn sized(ins: Seq<Seq<char>>, shapes: Seq<Seq<usize>>, dims: Map<char, nat>) -> bool {
    forall|i: int, j: int|
        0 <= i < ins.len() && 0 <= j < ins[i].len() ==> dims.contains_key(#[trigger] ins[i][j])
            && dims[ins[i][j]] == shapes[i][j]
}

/// The entry of an input that an assignment of numbers to symbols names.
pub open spec fn named(syms: Seq<char>, at: Map<char, int>) -> Seq<int> {
    Seq::new(syms.len(), |j: int| at[syms[j]])
}

/// The product of the entries of the first `k` inputs that an assignment names.
pub open spec fn named_product(
    vals: Numbers,
    inputs: Seq<EdgeId>,
    ins: Seq<Seq<char>>,
    at: Map<char, int>,
    k: nat,
) -> int
    decreases k,
{
    if k == 0 {
        1
    } else {
        named_product(vals, inputs, ins, at, (k - 1) as nat) * vals(inputs[k - 1])(named(ins[k - 1], at))
    }
}

/// The sum of the products over all values of the listed symbols.
pub open spec fn einstein(
    vals: Numbers,
    inputs: Seq<EdgeId>,
    ins: Seq<Seq<char>>,
    dims: Map<char, nat>,
    over: Seq<char>,
    at: Map<char, int>,
) -> int
    decreases 2 * over.len() + 1, 0nat,
{
    if over.len() == 0 {
        named_product(vals, inputs, ins, at, ins.len())
    } else {
        einstein_below(vals, inputs, ins, dims, over, at, dims[over.last()])
    }
}

/// The part of that sum in which the last of the symbols is below `k`.
pub open spec fn einstein_below(
    vals: Numbers,
    inputs: Seq<EdgeId>,
    ins: Seq<Seq<char>>,
    dims: Map<char, nat>,
    over: Seq<char>,
    at: Map<char, int>,
    k: nat,
) -> int
    decreases 2 * over.len(), k,
{
    if k == 0 || over.len() == 0 {
        0
    } else {
        einstein_below(vals, inputs, ins, dims, over, at, (k - 1) as nat) + einstein(
            vals,
            inputs,
            ins,
            dims,
            over.drop_last(),
            at.insert(over.last(), k - 1),
        )
    }
}

/// The assignment that gives the symbols of the output the numbers of an index.
pub open spec fn assigned(out: Seq<char>, idx: Seq<int>) -> Map<char, int>
    decreases out.len(),
{
    if out.len() == 0 {
        Map::empty()
    } else {
        assigned(out.drop_last(), idx.drop_last()).insert(out.last(), idx.last())
    }
}

/// The output of an Einstein summation.
pub open spec fn sums_up(h: Graph, vals: Numbers, node: NodeSpec, eq: Seq<char>) -> bool {
    forall|ins: Seq<Seq<char>>, out: Seq<char>, dims: Map<char, nat>, idx: Seq<int>|
        #![trigger spells(eq, ins, out), sized(ins, h.shapes(node.inputs), dims), vals(node.outputs[0])(idx)]
        spells(eq, ins, out) && ins.len() == node.inputs.len() && sized(ins, h.shapes(node.inputs), dims)
            && inside(h.shape(node.outputs[0]), idx) ==> vals(node.outputs[0])(idx) == einstein(
            vals,
            node.inputs,
            ins,
            dims,
            summed(symbols(ins), out),
            assigned(out, idx),
        )
}

/// `o` is the entrywise sum of `a` and `b`.
pub open spec fn added(h: Graph, vals: Numbers, a: EdgeId, b: EdgeId, o: EdgeId) -> bool {
    forall|idx: Seq<int>| #[trigger]
        inside(h.shape(o), idx) ==> vals(o)(idx) == vals(a)(aligned(h.shape(a), idx)) + vals(b)(
            aligned(h.shape(b), idx),
        )
}

/// `o` is the entrywise difference of `a` and `b`.
pub open spec fn subtracted(h: Graph, vals: Numbers, a: EdgeId, b: EdgeId, o: EdgeId) -> bool {
    forall|idx: Seq<int>| #[trigger]
        inside(h.shape(o), idx) ==> vals(o)(idx) == vals(a)(aligned(h.shape(a), idx)) - vals(b)(
            aligned(h.shape(b), idx),
        )
}

/// No entry is negative.
pub open spec fn never_negative(h: Graph, vals: Numbers, a: EdgeId) -> bool {
    forall|idx: Seq<int>| #[trigger] inside(h.shape(a), idx) ==> vals(a)(idx) >= 0
}

/// At every index one of the two entries is zero.
pub open spec fn never_both(h: Graph, vals: Numbers, a: EdgeId, b: EdgeId) -> bool {
    forall|idx: Seq<int>| #[trigger] inside(h.shape(a), idx) ==> vals(a)(idx) * vals(b)(idx) == 0
}

/// `o` is `a` divided by `d`, rounded down.
pub open spec fn divided(h: Graph, vals: Numbers, a: EdgeId, o: EdgeId, d: int) -> bool {
    forall|idx: Seq<int>| #[trigger]
        inside(h.shape(a), idx) ==> vals(o)(idx) * d <= vals(a)(idx) < (vals(o)(idx) + 1) * d
}

/// `o` is `a` times `d`.
pub open spec fn multiplied(h: Graph, vals: Numbers, a: EdgeId, o: EdgeId, d: int) -> bool {
    forall|idx: Seq<int>| #[trigger] inside(h.shape(a), idx) ==> vals(o)(idx) == vals(a)(idx) * d
}

/// `o` has the entries of `a` at rows `top, top + rows, ..` and columns `left, left + cols, ..`.
pub open spec fn sampled(
    h: Graph,
    vals: Numbers,
    a: EdgeId,
    o: EdgeId,
    rows: int,
    cols: int,
    top: int,
    left: int,
) -> bool {
    forall|idx: Seq<int>| #[trigger]
        inside(h.shape(o), idx) ==> vals(o)(idx) == vals(a)(
            at3(idx[0], idx[1] * rows + top, idx[2] * cols + left),
        )
}

/// `o` repeats every entry of `a` two by two.
pub open spec fn doubled(h: Graph, vals: Numbers, a: EdgeId, o: EdgeId) -> bool {
    forall|idx: Seq<int>| #[trigger]
        inside(h.shape(o), idx) ==> vals(o)(idx) == vals(a)(at3(idx[0], idx[1] / 2, idx[2] / 2))
}

/// `o` has the channels of `a` from `start` on.
pub open spec fn sliced(h: Graph, vals: Numbers, a: EdgeId, o: EdgeId, start: int) -> bool {
    forall|idx: Seq<int>| #[trigger]
        inside(h.shape(o), idx) ==> vals(o)(idx) == vals(a)(idx.update(0, idx[0] + start))
}

/// `o` is `a` with zeros around it: `top` rows above and `left` columns to the left of it.
pub open spec fn framed(
    h: Graph,
    vals: Numbers,
    a: EdgeId,
    o: EdgeId,
    rows: int,
    cols: int,
    top: int,
    left: int,
) -> bool {
    forall|idx: Seq<int>| #[trigger]
        inside(h.shape(o), idx) ==> vals(o)(idx) == if top <= idx[1] < top + rows && left <= idx[2] < left
            + cols {
            vals(a)(at3(idx[0], idx[1] - top, idx[2] - left))
        } else {
            0
        }
}

/// `o` shows the words of `a` under another shape.
pub open spec fn same_words(h: Graph, vals: Numbers, a: EdgeId, o: EdgeId) -> bool {
    forall|idx: Seq<int>, other: Seq<int>|
        #![trigger inside(h.shape(o), idx), inside(h.shape(a), other)]
        inside(h.shape(o), idx) && inside(h.shape(a), other) && position(h.shape(o), idx) == position(
            h.shape(a),
            other,
        ) ==> vals(o)(idx) == vals(a)(other)
}

/// `o` has the channels of `a` and then those of `b`.
pub open spec fn stacked(h: Graph, vals: Numbers, a: EdgeId, b: EdgeId, o: EdgeId, channels: int) -> bool {
    forall|idx: Seq<int>| #[trigger]
        inside(h.shape(o), idx) ==> vals(o)(idx) == if idx[0] < channels {
            vals(a)(idx)
        } else {
            vals(b)(idx.update(0, idx[0] - channels))
        }
}

/// `o` holds the rows of the kernels `w` with gaps, each row `row` entries after the one before.
pub open spec fn flattened(
    h: Graph,
    vals: Numbers,
    w: EdgeId,
    o: EdgeId,
    gap_rows: int,
    gap_cols: int,
    row: int,
) -> bool {
    forall|k: int, c: int, a: int, b: int|
        #![trigger vals(w)(at4(k, c, a, b))]
        inside(h.shape(w), at4(k, c, a, b)) ==> vals(o)(at3(
            k,
            c,
            a * gap_rows * row + b * gap_cols,
        )) == vals(w)(
            at4(k, c, a, b),
        )
}

/// `o` holds the sums of the products of a window of `x` and the flat kernels `w`, as the window moves.
pub open spec fn convolved(
    h: Graph,
    vals: Numbers,
    x: EdgeId,
    w: EdgeId,
    o: EdgeId,
    c_in: nat,
    kernel: (usize, usize),
    stride: (usize, usize),
    gap: (usize, usize),
    row: int,
) -> bool {
    forall|idx: Seq<int>| #[trigger]
        inside(h.shape(o), idx) ==> vals(o)(idx) == window_total(
            c_in,
            kernel.0 as nat,
            kernel.1 as nat,
            |c: int, a: int, b: int|
                vals(x)(at3(c, idx[1] * stride.0 + a * gap.0, idx[2] * stride.1 + b * gap.1)) * vals(w)(
                    at3(idx[0], c, a * gap.0 * row + b * gap.1),
                ),
        )
}

/// Node `n` does what its block says: sums, differences, convolutions and Einstein summations add up;
/// another shape shows the same words; a rescaled number is rounded down; a subsample, a padded and a
/// sliced tensor have the entries that they name; and the checks hold, that numbers are not negative and
/// that products are zero. Advice is free.
pub open spec fn does(h: Graph, vals: Numbers, n: int) -> bool {
    let node = h.nodes[n];
    let (a, o) = (node.inputs[0], node.outputs[0]);
    match node.kind {
        Block::Op(Op::Add) => added(h, vals, a, node.inputs[1], o),
        Block::Op(Op::Sub) => subtracted(h, vals, a, node.inputs[1], o),
        Block::Op(Op::NonNegative) => never_negative(h, vals, a),
        Block::Op(Op::ProductZeroCheck) => never_both(h, vals, a, node.inputs[1]),
        Block::Op(Op::ScaleDown { output_sf }) => h.sf(a) >= output_sf ==> divided(
            h,
            vals,
            a,
            o,
            pow2((h.sf(a) - output_sf) as nat) as int,
        ),
        Block::Op(Op::ScaleUp { output_sf }) => h.sf(a) <= output_sf ==> multiplied(
            h,
            vals,
            a,
            o,
            pow2((output_sf - h.sf(a)) as nat) as int,
        ),
        Block::Op(Op::SubSample2D { stride_h, stride_w, offset_h, offset_w, .. }) => sampled(
            h,
            vals,
            a,
            o,
            stride_h as int,
            stride_w as int,
            offset_h as int,
            offset_w as int,
        ),
        Block::Op(Op::ZeroPadAsym { input_h, input_w, pad_h_top, pad_w_left, .. }) => framed(
            h,
            vals,
            a,
            o,
            input_h as int,
            input_w as int,
            pad_h_top as int,
            pad_w_left as int,
        ),
        Block::Op(Op::ZeroPad { input_h, input_w, pad_h, pad_w, .. }) => framed(
            h,
            vals,
            a,
            o,
            input_h as int,
            input_w as int,
            pad_h as int,
            pad_w as int,
        ),
        Block::Op(Op::Replicate2x2 { .. }) => doubled(h, vals, a, o),
        Block::Op(Op::FlattenKernel { s_w, dilation_h, dilation_w, .. }) => flattened(
            h,
            vals,
            a,
            o,
            dilation_h as int,
            dilation_w as int,
            s_w as int,
        ),
        Block::Op(
            Op::Conv2D { c_in, kh, kw, input_w, stride_h, stride_w, dilation_h, dilation_w, .. },
        ) => convolved(
            h,
            vals,
            a,
            node.inputs[1],
            o,
            c_in as nat,
            (kh, kw),
            (stride_h, stride_w),
            (dilation_h, dilation_w),
            padded(input_w as nat) as int,
        ),
        Block::Einsum { equation, .. } => sums_up(h, vals, node, equation),
        Block::ChangeShape { .. } => same_words(h, vals, a, o),
        Block::Concat { channels_a, .. } => stacked(h, vals, a, node.inputs[1], o, channels_a as int),
        Block::ChannelSlice { channel_start, .. } => sliced(h, vals, a, o, channel_start as int),
        _ => true,
    }
}

/// Known constants have the numbers that their words stand for.
pub open spec fn constant_held(h: Graph, vals: Numbers, e: EdgeId) -> bool {
    let t = h.values[e as int];
    t.role == Role::Constant && t.data is Some ==> forall|idx: Seq<int>| #[trigger]
        inside(t.shape, idx) ==> vals(e)(idx) == signed_value((t.data->0).word(position(t.shape, idx)))
}

/// The numbers are those of a run of what was added to graph `g`: the new nodes do what their blocks say,
/// the new checks hold, and the new constants are what they are.
pub open spec fn runs_on(g: Graph, h: Graph, vals: Numbers) -> bool {
    &&& forall|n: int| g.nodes.len() <= n < h.nodes.len() ==> #[trigger] does(h, vals, n)
    &&& forall|e: EdgeId| g.values.len() <= e < h.values.len() ==> #[trigger] constant_held(h, vals, e)
}

/// The numbers agree on the edges of graph `g`.
pub open spec fn agree(g: Graph, a: Numbers, b: Numbers) -> bool {
    forall|e: EdgeId| e < g.values.len() ==> #[trigger] a(e) == b(e)
}

/// An index of a tensor reads the tensor where it is.
pub proof fn lemma_aligned_same(shape: Seq<usize>, idx: Seq<int>)
    requires
        inside(shape, idx),
    ensures
        aligned(shape, idx) == idx,
{
    assert forall|k: int| 0 <= k < idx.len() implies aligned(shape, idx)[k] == idx[k] by {
        assert(0 <= idx[k] < shape[k]);
    }
    assert(aligned(shape, idx) =~= idx);
}

/// A sum with one term that counts.
pub proof fn lemma_total_single(n: nat, at: int, f: spec_fn(int) -> int)
    requires
        0 <= at < n,
        forall|v: int| 0 <= v < n && v != at ==> #[trigger] f(v) == 0,
    ensures
        total(n, f) == f(at),
    decreases n,
{
    if at == n - 1 {
        lemma_total_zero((n - 1) as nat, f);
    } else {
        lemma_total_single((n - 1) as nat, at, f);
        assert(f(n - 1) == 0);
    }
}

pub proof fn lemma_total_zero(n: nat, f: spec_fn(int) -> int)
    requires
        forall|v: int| 0 <= v < n ==> #[trigger] f(v) == 0,
    ensures
        total(n, f) == 0,
    decreases n,
{
    if n > 0 {
        lemma_total_zero((n - 1) as nat, f);
        assert(f(n - 1) == 0);
    }
}

pub proof fn lemma_total_eq(n: nat, f: spec_fn(int) -> int, g: spec_fn(int) -> int)
    requires
        forall|v: int| 0 <= v < n ==> #[trigger] f(v) == g(v),
    ensures
        total(n, f) == total(n, g),
    decreases n,
{
    if n > 0 {
        lemma_total_eq((n - 1) as nat, f, g);
        assert(f(n - 1) == g(n - 1));
    }
}

pub proof fn lemma_window_total_eq(
    c: nat,
    rows: nat,
    cols: nat,
    f: spec_fn(int, int, int) -> int,
    g: spec_fn(int, int, int) -> int,
)
    requires
        forall|i: int, a: int, b: int|
            0 <= i < c && 0 <= a < rows && 0 <= b < cols ==> #[trigger] f(i, a, b) == g(i, a, b),
    ensures
        window_total(c, rows, cols, f) == window_total(c, rows, cols, g),
{
    let f1 = |i: int| total(rows, |a: int| total(cols, |b: int| f(i, a, b)));
    let g1 = |i: int| total(rows, |a: int| total(cols, |b: int| g(i, a, b)));
    assert forall|i: int| 0 <= i < c implies #[trigger] f1(i) == g1(i) by {
        let f2 = |a: int| total(cols, |b: int| f(i, a, b));
        let g2 = |a: int| total(cols, |b: int| g(i, a, b));
        assert forall|a: int| 0 <= a < rows implies #[trigger] f2(a) == g2(a) by {
            let f3 = |b: int| f(i, a, b);
            let g3 = |b: int| g(i, a, b);
            assert forall|b: int| 0 <= b < cols implies #[trigger] f3(b) == g3(b) by {
                assert(f(i, a, b) == g(i, a, b));
            }
            lemma_total_eq(cols, f3, g3);
        }
        lemma_total_eq(rows, f2, g2);
    }
    lemma_total_eq(c, f1, g1);
}

/// An entry of a sum.
pub proof fn lemma_does_add(h: Graph, vals: Numbers, n: int, a: EdgeId, b: EdgeId, o: EdgeId, idx: Seq<int>)
    requires
        does(h, vals, n),
        h.nodes[n].kind == Block::Op(Op::Add),
        h.nodes[n].inputs == seq![a, b],
        h.nodes[n].outputs[0] == o,
        inside(h.shape(o), idx),
    ensures
        vals(o)(idx) == vals(a)(aligned(h.shape(a), idx)) + vals(b)(aligned(h.shape(b), idx)),
{
    let node = h.nodes[n];
    assert(node.inputs[0] == a && node.inputs[1] == b);
    assert(added(h, vals, a, b, o));
}

/// An entry of a difference.
pub proof fn lemma_does_sub(h: Graph, vals: Numbers, n: int, a: EdgeId, b: EdgeId, o: EdgeId, idx: Seq<int>)
    requires
        does(h, vals, n),
        h.nodes[n].kind == Block::Op(Op::Sub),
        h.nodes[n].inputs == seq![a, b],
        h.nodes[n].outputs[0] == o,
        inside(h.shape(o), idx),
    ensures
        vals(o)(idx) == vals(a)(aligned(h.shape(a), idx)) - vals(b)(aligned(h.shape(b), idx)),
{
    let node = h.nodes[n];
    assert(node.inputs[0] == a && node.inputs[1] == b);
    assert(subtracted(h, vals, a, b, o));
}

/// An entry that is checked not to be negative.
pub proof fn lemma_does_nonneg(h: Graph, vals: Numbers, n: int, a: EdgeId, idx: Seq<int>)
    requires
        does(h, vals, n),
        h.nodes[n].kind == Block::Op(Op::NonNegative),
        h.nodes[n].inputs == seq![a],
        inside(h.shape(a), idx),
    ensures
        vals(a)(idx) >= 0,
{
    let node = h.nodes[n];
    assert(node.inputs[0] == a);
    assert(inside(h.shape(node.inputs[0]), idx));
    assert(never_negative(h, vals, a));
}

/// Two entries whose product is checked to be zero.
pub proof fn lemma_does_zero(h: Graph, vals: Numbers, n: int, a: EdgeId, b: EdgeId, idx: Seq<int>)
    requires
        does(h, vals, n),
        h.nodes[n].kind == Block::Op(Op::ProductZeroCheck),
        h.nodes[n].inputs == seq![a, b],
        inside(h.shape(a), idx),
    ensures
        vals(a)(idx) * vals(b)(idx) == 0,
{
    let node = h.nodes[n];
    assert(node.inputs[0] == a && node.inputs[1] == b);
    assert(never_both(h, vals, a, b));
}

/// The sum over the values of a symbol, term by term.
pub proof fn lemma_einstein_total(
    vals: Numbers,
    inputs: Seq<EdgeId>,
    ins: Seq<Seq<char>>,
    dims: Map<char, nat>,
    over: Seq<char>,
    at: Map<char, int>,
    k: nat,
    f: spec_fn(int) -> int,
)
    requires
        over.len() > 0,
        forall|v: int|
            0 <= v < k ==> #[trigger] f(v) == einstein(
                vals,
                inputs,
                ins,
                dims,
                over.drop_last(),
                at.insert(over.last(), v),
            ),
    ensures
        einstein_below(vals, inputs, ins, dims, over, at, k) == total(k, f),
    decreases k,
{
    if k > 0 {
        lemma_einstein_total(vals, inputs, ins, dims, over, at, (k - 1) as nat, f);
        assert(f(k - 1) == einstein(
            vals,
            inputs,
            ins,
            dims,
            over.drop_last(),
            at.insert(over.last(), k - 1),
        ));
    }
}

} // verus!
