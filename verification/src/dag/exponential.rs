//! What the graph of an exponential holds.
use vstd::arithmetic::power2::*;
use vstd::prelude::*;

use crate::dag::graph::Graph;
use crate::dag::types::EdgeId;
use crate::dag::witness::{in_bounds, Data, DataType, PolyType, Role, Tensor};
use crate::util::arith::num_vars;
use crate::util::shape::reversed_shape;

verus! {

/// The second graph has all tensors of the first.
pub open spec fn grows(g: Graph, h: Graph) -> bool {
    &&& g.values.len() <= h.values.len()
    &&& forall|e: int| 0 <= e < g.values.len() ==> #[trigger] h.values[e] == g.values[e]
}

/// A constant at scale `2^15` that stands under a flat shape of `flat` entries for a tensor of the
/// given shape: `v` at every entry of the tensor, zero in its padding.
pub open spec fn taylor_constant(t: Tensor, shape: Seq<usize>, v: u64) -> bool {
    &&& t.shape == seq![pow2(num_vars(shape)) as usize]
    &&& t.poly_type == PolyType::Dense
    &&& t.data_type == DataType::Float
    &&& t.sf == 15
    &&& t.role == Role::Constant
    &&& t.data matches Some(Data::Dense { values, .. }) && values.len() == pow2(num_vars(shape)) && forall|
        i: int,
    |
        0 <= i < values.len() ==> (#[trigger] values[i]).0 == if in_bounds(reversed_shape(shape), i) {
            v
        } else {
            0
        }
}

proof fn lemma_grows_change_shape(g: Graph, a: EdgeId, shape: Seq<usize>)
    ensures
        grows(g, g.change_shape(a, shape).0),
        g.change_shape(a, shape).0.sf_log == g.sf_log,
{
    reveal(Graph::change_shape);
}

proof fn lemma_grows_add(g: Graph, a: EdgeId, b: EdgeId)
    ensures
        grows(g, g.add(a, b).0),
        g.add(a, b).0.sf_log == g.sf_log,
{
    reveal(Graph::pointwise);
}

proof fn lemma_grows_scale(g: Graph, a: EdgeId, i: usize, o: usize)
    ensures
        grows(g, g.scale(a, i, o).0),
        g.scale(a, i, o).0.sf_log == g.sf_log,
        g.scale(a, i, o).0.values.len() == g.values.len() + 2,
        g.scale(a, i, o).1 == g.fresh(),
        g.scale(a, i, o).0.values[g.values.len() as int].sf == o,
        g.scale(a, i, o).0.values[g.values.len() as int].data_type == g.dtype(a),
{
    reveal(Graph::scale);
}

proof fn lemma_grows_einsum(g: Graph, eq: Seq<char>, inputs: Seq<EdgeId>, back: bool)
    ensures
        grows(g, g.einsum(eq, inputs, back).0),
        g.einsum(eq, inputs, back).0.sf_log == g.sf_log,
{
    reveal(Graph::einsum);
    reveal(Graph::einsum_raw);
    reveal(Graph::scale);
}

proof fn lemma_flat_constant(g: Graph, shape: Seq<usize>, v: u64)
    requires
        num_vars(shape) < usize::BITS,
    ensures
        ({
            let (h, e) = g.flat_constant(shape, pow2(num_vars(shape)) as usize, v);
            &&& grows(g, h)
            &&& h.sf_log == g.sf_log
            &&& h.values.len() == g.values.len() + 1
            &&& taylor_constant(h.values[g.values.len() as int], shape, v)
        }),
{
    reveal(Graph::flat_constant);
    reveal(Graph::param);
    let n = num_vars(shape);
    let flat = pow2(n) as usize;
    crate::util::arith::lemma_usize_max();
    lemma_pow2_strictly_increases(n, usize::BITS as nat);
    crate::dag::builder_ops::lemma_flat_vars(n);
    assert(num_vars(seq![flat]) == n);
}

/// Edge `e` of the graph `h`, which grew out of `g`, has the shape of `a` and the scale of the graph.
/// Of the edges that were added, the seventh to the ninth hold the constants of the Taylor polynomial
/// `1 + r + r^2 / 2 + r^3 / 6`: 1/6, 1/2 and 1, as `5461`, `16384` and `32768` at scale `2^15`.
pub open spec fn is_exp(g: Graph, a: EdgeId, h: Graph, e: EdgeId) -> bool {
    let n = g.values.len() as int;
    &&& grows(g, h)
    &&& h.values[e as int].shape == g.shape(a)
    &&& h.values[e as int].sf == g.sf_log
    &&& n + 9 <= h.values.len()
    &&& taylor_constant(h.values[n + 6], g.shape(a), 5461)
    &&& taylor_constant(h.values[n + 7], g.shape(a), 16384)
    &&& taylor_constant(h.values[n + 8], g.shape(a), 32768)
}

/// The exponential of a tensor has the shape of the tensor and the scale of the graph, and is built
/// on the Taylor polynomial of the exponential.
pub proof fn lemma_exp(g: Graph, a: EdgeId)
    requires
        g.exp(a).0.ok,
        g.exp(a).0.values.len() <= usize::MAX,
    ensures
        is_exp(g, a, g.exp(a).0, g.exp(a).1),
{
    broadcast use crate::dag::graph_ops::group_ops_ok;

    reveal(Graph::exp);
    let shape = g.shape(a);
    let dt = g.dtype(a);
    let flat = pow2(num_vars(shape)) as usize;
    let square = "a,a->a"@;
    let g0 = g.require(
        g.has(a) && num_vars(shape) < usize::BITS && forall|i: int|
            0 <= i < shape.len() ==> (#[trigger] shape[i]) <= 0x8000_0000,
    );
    let (g1, h) = g0.exp_helper(a);
    let k = (h + 1) as usize;
    let (g2, r) = g1.scale(h, g.sf_log, 15);
    let (g3, p) = g2.two_pow_of(k, shape, dt);
    let (g4, p) = g3.change_shape(p, seq![flat]);
    let (g5, sixth) = g4.flat_constant(shape, flat, 5461);
    let (g6, half) = g5.flat_constant(shape, flat, 16384);
    let (g7, one) = g6.flat_constant(shape, flat, 32768);
    let (g8, r) = g7.change_shape(r, seq![flat]);
    let (g9, r_square) = g8.einsum(square, seq![r, r], true);
    let (g10, r_sixth) = g9.einsum(square, seq![r, sixth], true);
    let (g11, t) = g10.add(r_sixth, half);
    let (g12, t) = g11.einsum(square, seq![t, r_square], true);
    let (g13, t) = g12.add(t, r);
    let (g14, exp_r) = g13.add(t, one);
    let (g15, e) = g14.einsum(square, seq![p, exp_r], false);
    let (g16, e) = g15.scale(e, 30, g.sf_log);
    let (g17, out) = g16.change_shape(e, shape);
    assert(g.exp(a) == (g17, out));
    assert(g1.values.len() == g.values.len() + 2 && g1.sf_log == g.sf_log && grows(g, g1)) by {
        reveal(Graph::exp_helper);
    }
    lemma_grows_scale(g1, h, g.sf_log, 15);
    assert(g3.values.len() == g2.values.len() + 1 && g3.sf_log == g2.sf_log && grows(g2, g3)) by {
        reveal(Graph::two_pow_of);
    }
    lemma_grows_change_shape(g3, g2.two_pow_of(k, shape, dt).1, seq![flat]);
    assert(g4.values.len() == g3.values.len() + 1) by {
        reveal(Graph::change_shape);
    }
    lemma_flat_constant(g4, shape, 5461);
    lemma_flat_constant(g5, shape, 16384);
    lemma_flat_constant(g6, shape, 32768);
    lemma_grows_change_shape(g7, g1.scale(h, g.sf_log, 15).1, seq![flat]);
    lemma_grows_einsum(g8, square, seq![r, r], true);
    lemma_grows_einsum(g9, square, seq![r, sixth], true);
    lemma_grows_add(g10, r_sixth, half);
    lemma_grows_einsum(g11, square, seq![g10.add(r_sixth, half).1, r_square], true);
    lemma_grows_add(g12, g11.einsum(square, seq![g10.add(r_sixth, half).1, r_square], true).1, r);
    lemma_grows_add(g13, t, one);
    lemma_grows_einsum(g14, square, seq![p, exp_r], false);
    lemma_grows_change_shape(g16, e, shape);
    assert(g17.values.len() == g16.values.len() + 1) by {
        reveal(Graph::change_shape);
    }
    assert(g16.values.len() == g15.values.len() + 2) by {
        reveal(Graph::scale);
    }
    lemma_grows_scale(g15, g14.einsum(square, seq![p, exp_r], false).1, 30, g.sf_log);
    assert(g17.values[out as int].shape == shape && g17.values[out as int].sf == g.sf_log) by {
        reveal(Graph::change_shape);
    }
    assert(grows(g7, g17));
}

} // verus!
