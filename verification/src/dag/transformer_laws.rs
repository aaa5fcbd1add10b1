//! What the layers of a transformer compute.
use vstd::arithmetic::power2::*;
use vstd::prelude::*;

use crate::dag::block::{Block, Op};
use crate::dag::graph::{filled, Graph};
use crate::dag::growth::{
    brought, contracted, group_grown, grown, lemma_kept, lemma_step_add, lemma_step_change_shape,
    lemma_step_einsum, lemma_step_scale, seen,
};
use crate::dag::meaning::{added, same_words, Numbers};
use crate::dag::types::EdgeId;
use crate::dag::witness::{known, DataType, Role};
use crate::field::GoldilocksField;
use crate::util::arith::num_vars;

verus! {

pub broadcast proof fn grown_constant(g: Graph, v: u64, sf: usize, h: Graph)
    ensures
        #[trigger] grown(g.constant(v, sf).0, h) ==> grown(g, h) && g.constant(v, sf).1 < h.values.len()
            && h.values[g.constant(v, sf).1 as int] == known(
            seq![1],
            seq![GoldilocksField(v)],
            DataType::Float,
            sf,
            Role::Constant,
        ),
        g.constant(v, sf).0.nodes.len() >= g.nodes.len(),
        g.constant(v, sf).0.values.len() >= g.values.len(),
{
    reveal(Graph::constant);
    reveal(Graph::param);
    broadcast use group_grown;

}

pub broadcast proof fn grown_rms_reciprocal(g: Graph, x: EdgeId, h: Graph)
    ensures
        #[trigger] grown(g.rms_reciprocal(x).0, h) ==> grown(g, h) && x < g.values.len() && h.rank(x) >= 1 && h.shape(
            g.rms_reciprocal(x).1,
        ) == h.shape(x).update(h.rank(x) - 1, 1) && h.sf(g.rms_reciprocal(x).1) == h.sf(x),
        g.rms_reciprocal(x).0.nodes.len() >= g.nodes.len(),
        g.rms_reciprocal(x).0.values.len() >= g.values.len(),
{
    reveal(Graph::rms_reciprocal);
    if grown(g.rms_reciprocal(x).0, h) {
        reveal(grown);
        let g1 = g.rms_reciprocal(x).0;
        assert forall|n: int| 0 <= n < g.nodes.len() implies #[trigger] h.nodes[n] == g.nodes[n] by {
            assert(h.nodes[n] == g1.nodes[n]);
        }
        assert forall|e: int| 0 <= e < g.values.len() implies #[trigger] h.values[e] == g.values[e] by {
            assert(h.values[e] == g1.values[e]);
        }
        assert(h.values[g.values.len() as int] == g1.values[g.values.len() as int]);
    }
}

pub broadcast proof fn grown_exp_helper(g: Graph, a: EdgeId, h: Graph)
    ensures
        #[trigger] grown(g.exp_helper(a).0, h) ==> grown(g, h) && g.exp_helper(a).1 == g.values.len()
            && g.exp_helper(a).1 + 1 < h.values.len() && h.shape(g.exp_helper(a).1) == h.shape(a) && h.sf(
            g.exp_helper(a).1,
        ) == h.sf_log && a < g.values.len(),
        g.exp_helper(a).0.nodes.len() == g.nodes.len() + 1,
        g.exp_helper(a).0.values.len() == g.values.len() + 2,
{
    reveal(Graph::exp_helper);
    if grown(g.exp_helper(a).0, h) {
        reveal(grown);
        let g1 = g.exp_helper(a).0;
        assert forall|n: int| 0 <= n < g.nodes.len() implies #[trigger] h.nodes[n] == g.nodes[n] by {
            assert(h.nodes[n] == g1.nodes[n]);
        }
        assert forall|e: int| 0 <= e < g.values.len() implies #[trigger] h.values[e] == g.values[e] by {
            assert(h.values[e] == g1.values[e]);
        }
        assert(h.values[g.values.len() as int] == g1.values[g.values.len() as int]);
        assert(g.has_all(seq![a]));
        assert(seq![a][0] == a);
    }
}

pub broadcast proof fn grown_two_pow_of(g: Graph, k: EdgeId, shape: Seq<usize>, dt: DataType, h: Graph)
    ensures
        #[trigger] grown(g.two_pow_of(k, shape, dt).0, h) ==> grown(g, h) && g.two_pow_of(k, shape, dt).1
            < h.values.len() && h.shape(g.two_pow_of(k, shape, dt).1) == shape && h.sf(
            g.two_pow_of(k, shape, dt).1,
        ) == 15,
        g.two_pow_of(k, shape, dt).0.nodes.len() == g.nodes.len() + 1,
        g.two_pow_of(k, shape, dt).0.values.len() == g.values.len() + 1,
{
    reveal(Graph::two_pow_of);
    if grown(g.two_pow_of(k, shape, dt).0, h) {
        reveal(grown);
        let g1 = g.two_pow_of(k, shape, dt).0;
        assert forall|n: int| 0 <= n < g.nodes.len() implies #[trigger] h.nodes[n] == g.nodes[n] by {
            assert(h.nodes[n] == g1.nodes[n]);
        }
        assert forall|e: int| 0 <= e < g.values.len() implies #[trigger] h.values[e] == g.values[e] by {
            assert(h.values[e] == g1.values[e]);
        }
        assert(h.values[g.values.len() as int] == g1.values[g.values.len() as int]);
    }
}

pub broadcast proof fn grown_flat_constant(g: Graph, shape: Seq<usize>, flat: usize, v: u64, h: Graph)
    ensures
        #[trigger] grown(g.flat_constant(shape, flat, v).0, h) ==> grown(g, h) && g.flat_constant(
            shape,
            flat,
            v,
        ).1 < h.values.len() && h.values[g.flat_constant(shape, flat, v).1 as int] == known(
            seq![flat],
            filled(shape, GoldilocksField(v)),
            DataType::Float,
            15,
            Role::Constant,
        ),
        g.flat_constant(shape, flat, v).0.nodes.len() >= g.nodes.len(),
        g.flat_constant(shape, flat, v).0.values.len() >= g.values.len(),
{
    reveal(Graph::flat_constant);
    reveal(Graph::param);
    broadcast use group_grown;

}

pub broadcast group group_parts {
    grown_constant,
    grown_rms_reciprocal,
    grown_exp_helper,
    grown_two_pow_of,
    grown_flat_constant,
}

/// Reads the graph of an exponential: after a helper that reads `a` and writes the remainder of the
/// exponent and a selector, the powers of two that the selector names are multiplied with
/// `1 + r + (1/2 + r/6) * r^2`, where `r` is the remainder at scale `2^15`, and the product is brought to
/// the scale of the graph.
pub open spec fn exponential(h: Graph, vals: Numbers, a: EdgeId, es: Seq<EdgeId>, o: EdgeId) -> bool {
    let sq = "a,a->a"@;
    let (r0, k, r1, p0, p, r, r2, r6) = (es[0], es[1], es[2], es[3], es[4], es[5], es[6], es[7]);
    let (sixth, half, one) = (es[8], es[9], es[10]);
    let (t1, t2, t3, t4, e0, e1) = (es[11], es[12], es[13], es[14], es[15], es[16]);
    &&& es.len() == 17
    &&& helps(h, a, r0, k)
    &&& powers(h, k, p0)
    &&& brought(h, vals, r0, h.sf_log as nat, 15, r1)
    &&& same_words(h, vals, p0, p)
    &&& same_words(h, vals, r1, r)
    &&& everywhere(h, h.shape(a), sixth, 5461)
    &&& everywhere(h, h.shape(a), half, 16384)
    &&& everywhere(h, h.shape(a), one, 32768)
    &&& contracted(h, vals, sq, seq![r, r], 15, r2)
    &&& contracted(h, vals, sq, seq![r, sixth], 15, r6)
    &&& added(h, vals, r6, half, t1)
    &&& contracted(h, vals, sq, seq![t1, r2], 15, t2)
    &&& added(h, vals, t2, r, t3)
    &&& added(h, vals, t3, one, t4)
    &&& contracted(h, vals, sq, seq![p, t4], 0, e0)
    &&& brought(h, vals, e0, 30, h.sf_log as nat, e1)
    &&& same_words(h, vals, e1, o)
    &&& h.shape(o) == h.shape(a)
}

/// A node of the graph reads `a` and writes the remainder of its exponent and the selector.
pub open spec fn helps(h: Graph, a: EdgeId, r: EdgeId, k: EdgeId) -> bool {
    exists|n: int|
        0 <= n < h.nodes.len() && (#[trigger] h.nodes[n]).kind == Block::Op(Op::ExpHelper { num_bits: 16 })
            && h.nodes[n].inputs == seq![a] && h.nodes[n].outputs == seq![r, k]
}

/// A node of the graph writes the powers of two that `k` selects.
pub open spec fn powers(h: Graph, k: EdgeId, p: EdgeId) -> bool {
    exists|n: int|
        0 <= n < h.nodes.len() && (#[trigger] h.nodes[n]).kind == Block::Op(Op::TwoPow) && h.nodes[n].inputs
            == seq![k] && h.nodes[n].outputs == seq![p]
}

/// The tensor is a constant with `v` at all entries of the given shape.
pub open spec fn everywhere(h: Graph, shape: Seq<usize>, e: EdgeId, v: u64) -> bool {
    h.values[e as int] == known(
        seq![pow2(num_vars(shape)) as usize],
        filled(shape, GoldilocksField(v)),
        DataType::Float,
        15,
        Role::Constant,
    )
}

pub broadcast proof fn grown_exp(g: Graph, a: EdgeId, h: Graph)
    ensures
        #[trigger] grown(g.exp(a).0, h) ==> grown(g, h) && a < g.values.len() && g.exp(a).1 < h.values.len() && h.shape(
            g.exp(a).1,
        ) == h.shape(a) && h.sf(g.exp(a).1) == h.sf_log && g.exp(a).0.nodes.len() >= g.nodes.len() && g.exp(
            a,
        ).0.values.len() >= g.values.len(),
{
    reveal(Graph::exp);
    broadcast use {group_grown, group_parts};

    if grown(g.exp(a).0, h) {
        assert(grown(g, h));
        lemma_kept(g, h, a);
    }
}

/// An exponential is what its graph is to compute. The tensors in between are returned.
#[verifier::rlimit(60)]
pub proof fn lemma_exp(s: Graph, g: Graph, a: EdgeId, h: Graph, vals: Numbers) -> (es: Seq<EdgeId>)
    requires
        seen(s, g, h, vals),
        grown(g.exp(a).0, h),
    ensures
        exponential(h, vals, a, es, g.exp(a).1),
{
    reveal(Graph::exp);
    broadcast use {group_grown, group_parts};

    let shape = g.shape(a);
    let dt = g.dtype(a);
    let n = num_vars(shape);
    let flat = pow2(n) as usize;
    let square = "a,a->a"@;
    let g0 = g.require(
        g.has(a) && n < usize::BITS && forall|i: int|
            0 <= i < shape.len() ==> (#[trigger] shape[i]) <= 0x8000_0000,
    );
    let (g1, r0) = g0.exp_helper(a);
    let k = (r0 + 1) as usize;
    let (g2, r1) = g1.scale(r0, g.sf_log, 15);
    let (g3, p0) = g2.two_pow_of(k, shape, dt);
    let (g4, p) = g3.change_shape(p0, seq![flat]);
    let (g5, sixth) = g4.flat_constant(shape, flat, 5461);
    let (g6, half) = g5.flat_constant(shape, flat, 16384);
    let (g7, one) = g6.flat_constant(shape, flat, 32768);
    let (g8, r) = g7.change_shape(r1, seq![flat]);
    let (g9, r2) = g8.einsum(square, seq![r, r], true);
    let (g10, r6) = g9.einsum(square, seq![r, sixth], true);
    let (g11, t1) = g10.add(r6, half);
    let (g12, t2) = g11.einsum(square, seq![t1, r2], true);
    let (g13, t3) = g12.add(t2, r);
    let (g14, t4) = g13.add(t3, one);
    let (g15, e0) = g14.einsum(square, seq![p, t4], false);
    let (g16, e1) = g15.scale(e0, 30, g.sf_log);
    let (g17, o) = g16.change_shape(e1, shape);
    assert(grown(g17, h));
    assert(grown(g16, h) && grown(g15, h) && grown(g14, h) && grown(g13, h) && grown(g12, h));
    assert(grown(g11, h) && grown(g10, h) && grown(g9, h) && grown(g8, h) && grown(g7, h));
    assert(grown(g6, h) && grown(g5, h) && grown(g4, h) && grown(g3, h) && grown(g2, h) && grown(g1, h));
    assert(grown(g0, h) && grown(g, h));
    lemma_kept(g, h, a);
    assert(helps(h, a, r0, k)) by {
        reveal(Graph::exp_helper);
        reveal(grown);
        let m = g0.nodes.len() as int;
        assert(h.nodes[m] == g1.nodes[m]);
        assert(h.nodes[m].outputs =~= seq![r0, k]);
    }
    assert(powers(h, k, p0)) by {
        reveal(Graph::two_pow_of);
        reveal(grown);
        let m = g2.nodes.len() as int;
        assert(h.nodes[m] == g3.nodes[m]);
        assert(h.nodes[m].outputs =~= seq![p0]);
    }
    lemma_step_scale(s, g1, r0, g.sf_log, 15, h, vals);
    lemma_step_change_shape(s, g3, p0, seq![flat], h, vals);
    lemma_step_change_shape(s, g7, r1, seq![flat], h, vals);
    lemma_step_einsum(s, g8, square, seq![r, r], true, h, vals);
    lemma_step_einsum(s, g9, square, seq![r, sixth], true, h, vals);
    lemma_step_add(s, g10, r6, half, h, vals);
    lemma_step_einsum(s, g11, square, seq![t1, r2], true, h, vals);
    lemma_step_add(s, g12, t2, r, h, vals);
    lemma_step_add(s, g13, t3, one, h, vals);
    lemma_step_einsum(s, g14, square, seq![p, t4], false, h, vals);
    assert(h.sf(r) == 15 && h.sf(r2) == 15 && h.sf(r6) == 15 && h.sf(sixth) == 15);
    assert(h.sf(t1) == 15 && h.sf(t2) == 15 && h.sf(t3) == 15 && h.sf(t4) == 15 && h.sf(p) == 15);
    assert(h.sf(e0) == 30) by {
        reveal_with_fuel(Graph::sf_sum, 3);
        let ps = seq![p, t4];
        assert(ps.drop_last() =~= seq![p]);
        assert(seq![p].drop_last() =~= Seq::<EdgeId>::empty());
        assert(g14.has(ps[0]) && g14.has(ps[1]));
        lemma_kept(g14, h, p);
        lemma_kept(g14, h, t4);
    }
    lemma_step_scale(s, g15, e0, 30, g.sf_log, h, vals);
    lemma_step_change_shape(s, g16, e1, shape, h, vals);
    let es = seq![r0, k, r1, p0, p, r, r2, r6, sixth, half, one, t1, t2, t3, t4, e0, e1];
    es
}

} // verus!
