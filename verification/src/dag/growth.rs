//! Graphs that grow, and what the numbers of a run on the grown graph satisfy.
use vstd::arithmetic::power2::*;
use vstd::prelude::*;

use crate::dag::block::{Block, Op};
use crate::dag::graph::Graph;
use crate::dag::meaning::{
    added, assigned, constant_held, divided, does, einstein, inside, multiplied, never_negative, runs_on,
    same_words, sized, spells, subtracted, summed, sums_up, symbols, Numbers,
};
use crate::dag::types::EdgeId;
use crate::dag::witness::Tensor;
use crate::util::shape::{broadcastable, joint_shape};

verus! {

/// Graph `h` is graph `g` with more nodes and edges.
#[verifier::opaque]
pub open spec fn grown(g: Graph, h: Graph) -> bool {
    &&& g.nodes.len() <= h.nodes.len()
    &&& g.values.len() <= h.values.len() <= usize::MAX
    &&& forall|n: int| 0 <= n < g.nodes.len() ==> #[trigger] h.nodes[n] == g.nodes[n]
    &&& forall|e: int| 0 <= e < g.values.len() ==> #[trigger] h.values[e] == g.values[e]
    &&& h.sf_log == g.sf_log
    &&& h.ok
    &&& g.ok
}

/// Graph `g` stands between `s` and `h`, and the numbers are those of a run of what was added to `s`.
pub open spec fn seen(s: Graph, g: Graph, h: Graph, vals: Numbers) -> bool {
    &&& s.nodes.len() <= g.nodes.len()
    &&& s.values.len() <= g.values.len()
    &&& grown(g, h)
    &&& runs_on(s, h, vals)
}

/// `o` is `v / 2^k`, rounded down.
pub open spec fn rounded(v: int, k: nat, o: int) -> bool {
    o * pow2(k) <= v < (o + 1) * pow2(k)
}

/// `o` is `v`, brought from scale `2^from` to scale `2^to`.
pub open spec fn rescaled(v: int, from: nat, to: nat, o: int) -> bool {
    if from > to {
        rounded(v, (from - to) as nat, o)
    } else {
        o == v * pow2((to - from) as nat)
    }
}

/// The numbers of `o` are those of `a`, brought from scale `2^from` to scale `2^to`.
pub open spec fn brought(h: Graph, vals: Numbers, a: EdgeId, from: nat, to: nat, o: EdgeId) -> bool {
    forall|idx: Seq<int>| #[trigger] inside(h.shape(a), idx) ==> rescaled(
        vals(a)(idx),
        from,
        to,
        vals(o)(idx),
    )
}

/// The numbers of `o` are the Einstein summation of the inputs, divided by `2^k` and rounded down.
pub open spec fn contracted(
    h: Graph,
    vals: Numbers,
    eq: Seq<char>,
    inputs: Seq<EdgeId>,
    k: nat,
    o: EdgeId,
) -> bool {
    forall|ins: Seq<Seq<char>>, out: Seq<char>, dims: Map<char, nat>, idx: Seq<int>|
        #![trigger spells(eq, ins, out), sized(ins, h.shapes(inputs), dims), vals(o)(idx)]
        spells(eq, ins, out) && ins.len() == inputs.len() && sized(ins, h.shapes(inputs), dims)
            && inside(h.shape(o), idx) ==> rounded(
            einstein(vals, inputs, ins, dims, summed(symbols(ins), out), assigned(out, idx)),
            k,
            vals(o)(idx),
        )
}

/// What has grown is still there.
pub proof fn lemma_grown_same(g: Graph)
    requires
        g.ok,
        g.values.len() <= usize::MAX,
    ensures
        grown(g, g),
{
    reveal(grown);
}

/// Edges keep their tensors.
pub proof fn lemma_kept(g: Graph, h: Graph, e: EdgeId)
    requires
        grown(g, h),
        e < g.values.len(),
    ensures
        h.values[e as int] == g.values[e as int],
        e < h.values.len(),
        h.sf_log == g.sf_log,
{
    reveal(grown);
}

pub broadcast proof fn grown_require(g: Graph, c: bool, h: Graph)
    ensures
        #[trigger] grown(g.require(c), h) ==> grown(g, h) && c,
        g.require(c).nodes == g.nodes,
        g.require(c).values == g.values,
        g.require(c).sf_log == g.sf_log,
{
    reveal(grown);
}

pub broadcast proof fn grown_boundary(g: Graph, e: EdgeId, h: Graph)
    ensures
        #[trigger] grown(g.boundary(e), h) ==> grown(g, h),
        g.boundary(e).nodes == g.nodes,
        g.boundary(e).values == g.values,
{
    reveal(grown);
}

pub broadcast proof fn grown_self_claim(g: Graph, e: EdgeId, h: Graph)
    ensures
        #[trigger] grown(g.self_claim(e), h) ==> grown(g, h),
        g.self_claim(e).nodes == g.nodes,
        g.self_claim(e).values == g.values,
{
    reveal(grown);
}

proof fn lemma_grown_place(g: Graph, t: Tensor, h: Graph)
    requires
        grown(g.place(t).0, h),
    ensures
        grown(g, h),
        g.place(t).1 == g.values.len(),
        h.values[g.values.len() as int] == t,
{
    reveal(grown);
    let g1 = g.place(t).0;
    assert forall|e: int| 0 <= e < g.values.len() implies #[trigger] h.values[e] == g.values[e] by {
        assert(h.values[e] == g1.values[e]);
    }
    assert(h.values[g.values.len() as int] == g1.values[g.values.len() as int]);
}

pub broadcast proof fn grown_param(g: Graph, t: Tensor, h: Graph)
    ensures
        #[trigger] grown(g.param(t).0, h) ==> grown(g, h) && h.values[g.param(t).1 as int] == t && g.param(t).1
            == g.values.len() && g.param(t).1 < h.values.len(),
        g.param(t).0.nodes == g.nodes,
        g.param(t).0.values.len() == g.values.len() + 1,
{
    reveal(Graph::param);
    broadcast use grown_require;

    let q = g.require(t.role == crate::dag::witness::Role::Constant);
    if grown(g.param(t).0, h) {
        lemma_grown_place(q, t, h);
        reveal(grown);
    }
}

pub broadcast proof fn grown_pointwise(g: Graph, op: Op, a: EdgeId, b: EdgeId, h: Graph)
    ensures
        #[trigger] grown(g.pointwise(op, a, b).0, h) ==> grown(g, h) && a < g.values.len() && b < g.values.len()
            && g.pointwise(op, a, b).1 < h.values.len() && h.shape(g.pointwise(op, a, b).1) == joint_shape(
            h.shape(a),
            h.shape(b),
        ) && broadcastable(h.shape(a), h.shape(b)) && h.sf(g.pointwise(op, a, b).1) == h.sf(a),
        g.pointwise(op, a, b).0.nodes.len() == g.nodes.len() + 1,
        g.pointwise(op, a, b).0.values.len() == g.values.len() + 1,
{
    reveal(Graph::pointwise);
    if grown(g.pointwise(op, a, b).0, h) {
        reveal(grown);
        let g1 = g.pointwise(op, a, b).0;
        assert forall|n: int| 0 <= n < g.nodes.len() implies #[trigger] h.nodes[n] == g.nodes[n] by {
            assert(h.nodes[n] == g1.nodes[n]);
        }
        assert forall|e: int| 0 <= e < g.values.len() implies #[trigger] h.values[e] == g.values[e] by {
            assert(h.values[e] == g1.values[e]);
        }
        assert(h.values[g.values.len() as int] == g1.values[g.values.len() as int]);
    }
}

pub broadcast proof fn grown_nonneg(g: Graph, a: EdgeId, h: Graph)
    ensures
        #[trigger] grown(g.nonneg(a), h) ==> grown(g, h),
        g.nonneg(a).nodes.len() == g.nodes.len() + 1,
        g.nonneg(a).values.len() == g.values.len() + 1,
{
    reveal(Graph::nonneg);
    if grown(g.nonneg(a), h) {
        reveal(grown);
        let g1 = g.nonneg(a);
        assert forall|n: int| 0 <= n < g.nodes.len() implies #[trigger] h.nodes[n] == g.nodes[n] by {
            assert(h.nodes[n] == g1.nodes[n]);
        }
        assert forall|e: int| 0 <= e < g.values.len() implies #[trigger] h.values[e] == g.values[e] by {
            assert(h.values[e] == g1.values[e]);
        }
    }
}

pub broadcast proof fn grown_change_shape(g: Graph, a: EdgeId, shape: Seq<usize>, h: Graph)
    ensures
        #[trigger] grown(g.change_shape(a, shape).0, h) ==> grown(g, h) && a < g.values.len() && g.change_shape(
            a,
            shape,
        ).1 < h.values.len() && h.shape(g.change_shape(a, shape).1) == shape && h.sf(
            g.change_shape(a, shape).1,
        ) == h.sf(a),
        g.change_shape(a, shape).0.nodes.len() == g.nodes.len() + 1,
        g.change_shape(a, shape).0.values.len() == g.values.len() + 1,
{
    reveal(Graph::change_shape);
    if grown(g.change_shape(a, shape).0, h) {
        reveal(grown);
        let g1 = g.change_shape(a, shape).0;
        assert forall|n: int| 0 <= n < g.nodes.len() implies #[trigger] h.nodes[n] == g.nodes[n] by {
            assert(h.nodes[n] == g1.nodes[n]);
        }
        assert forall|e: int| 0 <= e < g.values.len() implies #[trigger] h.values[e] == g.values[e] by {
            assert(h.values[e] == g1.values[e]);
        }
        assert(h.values[g.values.len() as int] == g1.values[g.values.len() as int]);
        assert(g.has_all(seq![a]));
        assert(seq![a][0] == a);
    }
}

pub broadcast proof fn grown_alike(g: Graph, op: Op, a: EdgeId, h: Graph)
    ensures
        #[trigger] grown(g.alike(op, a).0, h) ==> grown(g, h) && a < g.values.len() && g.alike(op, a).1
            < h.values.len() && h.shape(g.alike(op, a).1) == h.shape(a) && h.sf(g.alike(op, a).1) == h.sf(a),
        g.alike(op, a).0.nodes.len() == g.nodes.len() + 1,
        g.alike(op, a).0.values.len() == g.values.len() + 1,
{
    reveal(Graph::alike);
    if grown(g.alike(op, a).0, h) {
        reveal(grown);
        let g1 = g.alike(op, a).0;
        assert forall|n: int| 0 <= n < g.nodes.len() implies #[trigger] h.nodes[n] == g.nodes[n] by {
            assert(h.nodes[n] == g1.nodes[n]);
        }
        assert forall|e: int| 0 <= e < g.values.len() implies #[trigger] h.values[e] == g.values[e] by {
            assert(h.values[e] == g1.values[e]);
        }
        assert(h.values[g.values.len() as int] == g1.values[g.values.len() as int]);
        assert(g.has_all(seq![a]));
        assert(seq![a][0] == a);
    }
}

pub broadcast proof fn grown_plain(g: Graph, op: Op, inputs: Seq<EdgeId>, shape: Seq<usize>, h: Graph)
    ensures
        #[trigger] grown(g.plain(op, inputs, shape).0, h) ==> grown(g, h) && g.has_all(inputs) && g.plain(
            op,
            inputs,
            shape,
        ).1 < h.values.len() && h.shape(g.plain(op, inputs, shape).1) == shape && g.plain(op, inputs, shape).1
            == g.values.len(),
        g.plain(op, inputs, shape).0.nodes.len() == g.nodes.len() + 1,
        g.plain(op, inputs, shape).0.values.len() == g.values.len() + 1,
{
    reveal(Graph::plain);
    if grown(g.plain(op, inputs, shape).0, h) {
        reveal(grown);
        let g1 = g.plain(op, inputs, shape).0;
        assert forall|n: int| 0 <= n < g.nodes.len() implies #[trigger] h.nodes[n] == g.nodes[n] by {
            assert(h.nodes[n] == g1.nodes[n]);
        }
        assert forall|e: int| 0 <= e < g.values.len() implies #[trigger] h.values[e] == g.values[e] by {
            assert(h.values[e] == g1.values[e]);
        }
        assert(h.values[g.values.len() as int] == g1.values[g.values.len() as int]);
    }
}

pub broadcast proof fn grown_scale(g: Graph, a: EdgeId, i: usize, o: usize, h: Graph)
    ensures
        #[trigger] grown(g.scale(a, i, o).0, h) ==> grown(g, h) && a < g.values.len() && g.scale(a, i, o).1
            < h.values.len() && h.shape(g.scale(a, i, o).1) == h.shape(a) && h.sf(g.scale(a, i, o).1) == o
            && g.scale(a, i, o).1 == g.values.len(),
        g.scale(a, i, o).0.nodes.len() == g.nodes.len() + 1,
        g.scale(a, i, o).0.values.len() == g.values.len() + 2,
{
    reveal(Graph::scale);
    if grown(g.scale(a, i, o).0, h) {
        reveal(grown);
        let g1 = g.scale(a, i, o).0;
        assert forall|n: int| 0 <= n < g.nodes.len() implies #[trigger] h.nodes[n] == g.nodes[n] by {
            assert(h.nodes[n] == g1.nodes[n]);
        }
        assert forall|e: int| 0 <= e < g.values.len() implies #[trigger] h.values[e] == g.values[e] by {
            assert(h.values[e] == g1.values[e]);
        }
        assert(h.values[g.values.len() as int] == g1.values[g.values.len() as int]);
        assert(g.has_all(seq![a]));
        assert(seq![a][0] == a);
    }
}

pub broadcast proof fn grown_einsum_raw(g: Graph, eq: Seq<char>, inputs: Seq<EdgeId>, h: Graph)
    ensures
        #[trigger] grown(g.einsum_raw(eq, inputs).0, h) ==> grown(g, h) && g.has_all(inputs) && inputs.len() > 0
            && g.einsum_raw(eq, inputs).1 < h.values.len() && g.einsum_raw(eq, inputs).1 == g.values.len()
            && h.shape(g.einsum_raw(eq, inputs).1) == crate::dag::equation::output_shape(eq, h.shapes(inputs))
            && h.sf(g.einsum_raw(eq, inputs).1) == g.sf_sum(inputs) && 0 <= g.sf_sum(inputs) <= usize::MAX,
        g.einsum_raw(eq, inputs).0.nodes.len() == g.nodes.len() + 1,
        g.einsum_raw(eq, inputs).0.values.len() == g.values.len() + 1,
{
    reveal(Graph::einsum_raw);
    if grown(g.einsum_raw(eq, inputs).0, h) {
        reveal(grown);
        let g1 = g.einsum_raw(eq, inputs).0;
        assert forall|n: int| 0 <= n < g.nodes.len() implies #[trigger] h.nodes[n] == g.nodes[n] by {
            assert(h.nodes[n] == g1.nodes[n]);
        }
        assert forall|e: int| 0 <= e < g.values.len() implies #[trigger] h.values[e] == g.values[e] by {
            assert(h.values[e] == g1.values[e]);
        }
        assert(h.values[g.values.len() as int] == g1.values[g.values.len() as int]);
        assert(h.shapes(inputs) =~= g.shapes(inputs)) by {
            assert forall|i: int| 0 <= i < inputs.len() implies h.shape(inputs[i]) == g.shape(#[trigger] inputs[i]) by {
                assert(g.has(inputs[i]));
                assert(h.values[inputs[i] as int] == g.values[inputs[i] as int]);
            }
        }
    }
}

pub broadcast proof fn grown_einsum(g: Graph, eq: Seq<char>, inputs: Seq<EdgeId>, back: bool, h: Graph)
    ensures
        #[trigger] grown(g.einsum(eq, inputs, back).0, h) ==> grown(g, h) && g.has_all(inputs) && g.einsum(
            eq,
            inputs,
            back,
        ).1 < h.values.len() && h.shape(g.einsum(eq, inputs, back).1) == crate::dag::equation::output_shape(
            eq,
            h.shapes(inputs),
        ) && (back ==> h.sf(g.einsum(eq, inputs, back).1) == h.sf(inputs[0])) && (!back ==> h.sf(
            g.einsum(eq, inputs, back).1,
        ) == g.sf_sum(inputs)),
        g.einsum(eq, inputs, back).0.nodes.len() > g.nodes.len(),
        g.einsum(eq, inputs, back).0.values.len() > g.values.len(),
{
    reveal(Graph::einsum);
    broadcast use {grown_einsum_raw, grown_scale};

    let (g1, e) = g.einsum_raw(eq, inputs);
    let g2 = g.einsum(eq, inputs, back).0;
    assert(g2.nodes.len() > g.nodes.len() && g2.values.len() > g.values.len()) by {
        reveal(Graph::einsum_raw);
        reveal(Graph::scale);
    }
    if grown(g2, h) {
        if back {
            assert(grown(g1.scale(e, g.sf_sum(inputs) as usize, g.sf(inputs[0])).0, h));
        }
        assert(grown(g1, h));
        assert(inputs.len() > 0);
        assert(g.has(inputs[0]));
        lemma_kept(g, h, inputs[0]);
    }
}

pub broadcast group group_grown {
    grown_require,
    grown_boundary,
    grown_self_claim,
    grown_param,
    grown_pointwise,
    grown_nonneg,
    grown_change_shape,
    grown_alike,
    grown_plain,
    grown_scale,
    grown_einsum,
}

/// The numbers of a sum.
pub proof fn lemma_step_add(s: Graph, g: Graph, a: EdgeId, b: EdgeId, h: Graph, vals: Numbers)
    requires
        seen(s, g, h, vals),
        grown(g.add(a, b).0, h),
    ensures
        added(h, vals, a, b, g.add(a, b).1),
{
    reveal(Graph::pointwise);
    reveal(grown);
    let n = g.nodes.len() as int;
    let g1 = g.add(a, b).0;
    assert(h.nodes[n] == g1.nodes[n]);
    assert(does(h, vals, n));
    assert(h.nodes[n].inputs[0] == a && h.nodes[n].inputs[1] == b);
}

/// The numbers of a difference.
pub proof fn lemma_step_sub(s: Graph, g: Graph, a: EdgeId, b: EdgeId, h: Graph, vals: Numbers)
    requires
        seen(s, g, h, vals),
        grown(g.sub(a, b).0, h),
    ensures
        subtracted(h, vals, a, b, g.sub(a, b).1),
{
    reveal(Graph::pointwise);
    reveal(grown);
    let n = g.nodes.len() as int;
    let g1 = g.sub(a, b).0;
    assert(h.nodes[n] == g1.nodes[n]);
    assert(does(h, vals, n));
    assert(h.nodes[n].inputs[0] == a && h.nodes[n].inputs[1] == b);
}

/// Numbers that are checked not to be negative.
pub proof fn lemma_step_nonneg(s: Graph, g: Graph, a: EdgeId, h: Graph, vals: Numbers)
    requires
        seen(s, g, h, vals),
        grown(g.nonneg(a), h),
    ensures
        never_negative(h, vals, a),
{
    reveal(Graph::nonneg);
    reveal(grown);
    let n = g.nodes.len() as int;
    let g1 = g.nonneg(a);
    assert(h.nodes[n] == g1.nodes[n]);
    assert(does(h, vals, n));
    assert(h.nodes[n].inputs[0] == a);
}

/// Words under another shape.
pub proof fn lemma_step_change_shape(
    s: Graph,
    g: Graph,
    a: EdgeId,
    shape: Seq<usize>,
    h: Graph,
    vals: Numbers,
)
    requires
        seen(s, g, h, vals),
        grown(g.change_shape(a, shape).0, h),
    ensures
        same_words(h, vals, a, g.change_shape(a, shape).1),
{
    reveal(Graph::change_shape);
    reveal(grown);
    let n = g.nodes.len() as int;
    let g1 = g.change_shape(a, shape).0;
    assert(h.nodes[n] == g1.nodes[n]);
    assert(does(h, vals, n));
    assert(h.nodes[n].inputs[0] == a);
}

/// Numbers at another scale.
pub proof fn lemma_step_scale(s: Graph, g: Graph, a: EdgeId, i: usize, o: usize, h: Graph, vals: Numbers)
    requires
        seen(s, g, h, vals),
        grown(g.scale(a, i, o).0, h),
        h.sf(a) == i,
    ensures
        brought(h, vals, a, i as nat, o as nat, g.scale(a, i, o).1),
{
    reveal(Graph::scale);
    reveal(grown);
    let n = g.nodes.len() as int;
    let g1 = g.scale(a, i, o).0;
    let e = g.scale(a, i, o).1;
    assert(h.nodes[n] == g1.nodes[n]);
    assert(does(h, vals, n));
    assert(h.nodes[n].inputs[0] == a);
    if i > o {
        assert(divided(h, vals, a, e, pow2((i - o) as nat) as int));
    } else {
        assert(multiplied(h, vals, a, e, pow2((o - i) as nat) as int));
    }
}

/// A block that does what it says.
pub proof fn lemma_step_plain(
    s: Graph,
    g: Graph,
    op: Op,
    inputs: Seq<EdgeId>,
    shape: Seq<usize>,
    h: Graph,
    vals: Numbers,
)
    requires
        seen(s, g, h, vals),
        grown(g.plain(op, inputs, shape).0, h),
    ensures
        does(h, vals, g.nodes.len() as int),
        h.nodes[g.nodes.len() as int].kind == Block::Op(op),
        h.nodes[g.nodes.len() as int].inputs == inputs,
        h.nodes[g.nodes.len() as int].outputs[0] == g.plain(op, inputs, shape).1,
{
    reveal(Graph::plain);
    reveal(grown);
    let n = g.nodes.len() as int;
    let g1 = g.plain(op, inputs, shape).0;
    assert(h.nodes[n] == g1.nodes[n]);
}

/// The numbers of a constant.
pub proof fn lemma_step_param(s: Graph, g: Graph, t: Tensor, h: Graph, vals: Numbers)
    requires
        seen(s, g, h, vals),
        grown(g.param(t).0, h),
    ensures
        constant_held(h, vals, g.param(t).1),
{
    broadcast use grown_param;

}

/// The numbers of an Einstein summation, as it is.
pub proof fn lemma_step_einsum_raw(
    s: Graph,
    g: Graph,
    eq: Seq<char>,
    inputs: Seq<EdgeId>,
    h: Graph,
    vals: Numbers,
)
    requires
        seen(s, g, h, vals),
        grown(g.einsum_raw(eq, inputs).0, h),
    ensures
        contracted(h, vals, eq, inputs, 0, g.einsum_raw(eq, inputs).1),
{
    reveal(Graph::einsum_raw);
    reveal(grown);
    let n = g.nodes.len() as int;
    let g1 = g.einsum_raw(eq, inputs).0;
    let o = g.einsum_raw(eq, inputs).1;
    assert(h.nodes[n] == g1.nodes[n]);
    assert(does(h, vals, n));
    assert(sums_up(h, vals, h.nodes[n], eq));
    lemma2_to64();
    assert(h.nodes[n].outputs[0] == o);
    assert(h.nodes[n].inputs == inputs);
}

/// The scale of an Einstein summation beyond that of its first input.
pub open spec fn excess(h: Graph, inputs: Seq<EdgeId>) -> nat {
    if inputs.len() == 2 {
        h.sf(inputs[1]) as nat
    } else {
        0
    }
}

/// The numbers of an Einstein summation of one or two tensors.
pub proof fn lemma_step_einsum(
    s: Graph,
    g: Graph,
    eq: Seq<char>,
    inputs: Seq<EdgeId>,
    back: bool,
    h: Graph,
    vals: Numbers,
)
    requires
        seen(s, g, h, vals),
        grown(g.einsum(eq, inputs, back).0, h),
        1 <= inputs.len() <= 2,
    ensures
        contracted(
            h,
            vals,
            eq,
            inputs,
            if back {
                excess(h, inputs)
            } else {
                0
            },
            g.einsum(eq, inputs, back).1,
        ),
{
    reveal(Graph::einsum);
    broadcast use {grown_einsum_raw, grown_scale};

    let (g1, e) = g.einsum_raw(eq, inputs);
    let o = g.einsum(eq, inputs, back).1;
    if back {
        let (i, k) = (g.sf_sum(inputs) as usize, g.sf(inputs[0]));
        assert(grown(g1.scale(e, i, k).0, h));
        assert(grown(g1, h));
        lemma_step_einsum_raw(s, g, eq, inputs, h, vals);
        assert(g.has(inputs[0]));
        lemma_kept(g, h, inputs[0]);
        reveal_with_fuel(Graph::sf_sum, 3);
        if inputs.len() == 2 {
            assert(g.has(inputs[1]));
            lemma_kept(g, h, inputs[1]);
            assert(inputs.drop_last().drop_last() =~= Seq::<EdgeId>::empty());
            assert(i == h.sf(inputs[0]) + h.sf(inputs[1]));
        } else {
            assert(inputs.drop_last() =~= Seq::<EdgeId>::empty());
        }
        lemma_step_scale(s, g1, e, i, k, h, vals);
        lemma2_to64();
        let x = excess(h, inputs);
        assert forall|ins: Seq<Seq<char>>, out: Seq<char>, dims: Map<char, nat>, idx: Seq<int>|
            #![trigger spells(eq, ins, out), sized(ins, h.shapes(inputs), dims), vals(o)(idx)]
            spells(eq, ins, out) && ins.len() == inputs.len() && sized(ins, h.shapes(inputs), dims) && inside(
                h.shape(o),
                idx,
            ) implies rounded(
            einstein(vals, inputs, ins, dims, summed(symbols(ins), out), assigned(out, idx)),
            x,
            vals(o)(idx),
        ) by {
            let v = einstein(vals, inputs, ins, dims, summed(symbols(ins), out), assigned(out, idx));
            assert(inside(h.shape(e), idx));
            let w = vals(e)(idx);
            assert(rounded(v, 0, w));
            assert(w == v);
            assert(rescaled(w, i as nat, k as nat, vals(o)(idx)));
        }
    } else {
        lemma_step_einsum_raw(s, g, eq, inputs, h, vals);
    }
}

} // verus!
