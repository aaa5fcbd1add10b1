//! Graphs of pooling, padding and ReLU layers, and their round trip.
use vstd::prelude::*;

use crate::commit::basefold::{BasefoldCommitmentData, BasefoldOpeningProof};
use crate::dag::accepted::{
    lemma_compiled_provable, lemma_unread_bound, reduction_passes, truth_passes,
};
use crate::dag::backward::{started, BlockReply, Pass, Scope};
use crate::dag::block::{nested, Block, Op};
use crate::dag::builder::{empty_graph, DagBuilder};
use crate::dag::check_pass::CheckReply;
use crate::dag::compile::{compiled, lemma_readers, nonneg_inputs, readers, unread};
use crate::dag::graph::{foldable, folded, word, Graph};
use crate::dag::graph_ops::windows;
use crate::dag::lookup_model::all_bits;
use crate::dag::openings::witnesses_ok;
use crate::dag::outputs::{drawn_upto, edges_known, random_claims};
use crate::dag::pass::{is_block, runs, Event};
use crate::dag::prove::{is_whole, proof_from, DagProof};
use crate::dag::single::{
    asks_inputs, lemma_single_accepted, nonnegative_only, reduces_to_one, silent, single_outputs,
};
use crate::dag::truth::{true_block, true_openings, true_reducer};
use crate::dag::types::{node_list, Claim, Dag, EdgeId, NodeId};
use crate::dag::verify::{verifies, Checks};
use crate::dag::witness::{unknown, DataType, Role, Tensor, Witness};
use crate::field::GoldilocksExt2;
use crate::sumcheck::SumcheckProof;
use crate::transcript::Digest;
use crate::util::arith::num_vars;
use crate::util::shape::{broadcastable, joint_shape};

verus! {

/// The edge that the node of check `i` writes.
pub open spec fn check_output(g: Graph, i: int) -> EdgeId {
    g.nodes[g.range[i] as int].outputs[0]
}

/// The edge that check `i` is about.
pub open spec fn check_input(g: Graph, i: int) -> EdgeId {
    g.nodes[g.range[i] as int].inputs[0]
}

/// The edge exists and holds no bits of a check.
pub open spec fn usable(g: Graph, e: EdgeId) -> bool {
    e < g.values.len() && forall|i: int| 0 <= i < g.range.len() ==> #[trigger] check_output(g, i) != e
}

/// No check is about the edge.
pub open spec fn unchecked(g: Graph, e: EdgeId) -> bool {
    forall|i: int| 0 <= i < g.range.len() ==> #[trigger] check_input(g, i) != e
}

/// Every node reads usable edges and writes one edge; the only lookups are checks that numbers are not
/// negative, no two of them about one edge; no writer makes claims about the bits of a check.
pub open spec fn tidy(g: Graph) -> bool {
    &&& g.two_pow.len() == 0
    &&& g.nodes.len() <= g.values.len() <= usize::MAX
    &&& forall|n: int|
        0 <= n < g.nodes.len() ==> (#[trigger] g.nodes[n]).outputs.len() == 1 && g.nodes[n].outputs[0]
            < g.values.len()
    &&& forall|n: int, k: int|
        0 <= n < g.nodes.len() && 0 <= k < g.nodes[n].inputs.len() ==> usable(
            g,
            #[trigger] g.nodes[n].inputs[k],
        )
    &&& forall|i: int|
        0 <= i < g.range.len() ==> (#[trigger] g.range[i]) < g.nodes.len()
            && g.nodes[g.range[i] as int].kind == Block::Op(Op::NonNegative)
            && g.nodes[g.range[i] as int].inputs.len() == 1
    &&& forall|i: int, j: int|
        0 <= i < j < g.range.len() ==> #[trigger] check_input(g, i) != #[trigger] check_input(g, j)
    &&& forall|i: int| 0 <= i < g.self_claims.len() ==> usable(g, #[trigger] g.self_claims[i])
}

/// What was usable in the first graph is usable in the second.
pub open spec fn keeps_usable(g: Graph, h: Graph) -> bool {
    &&& g.values.len() <= h.values.len()
    &&& forall|e: EdgeId| #[trigger] usable(g, e) ==> usable(h, e)
}

/// A node that reads usable edges leaves a tidy graph tidy, and writes an edge that is usable and that
/// no check is about.
proof fn lemma_emit_tidy(g: Graph, inputs: Seq<EdgeId>, kind: Block, out: Tensor)
    requires
        tidy(g),
        g.values.len() < usize::MAX,
        forall|k: int| 0 <= k < inputs.len() ==> usable(g, #[trigger] inputs[k]),
    ensures
        ({
            let (h, e) = g.emit1(inputs, kind, out);
            &&& tidy(h)
            &&& h.values.len() == g.values.len() + 1
            &&& usable(h, e)
            &&& unchecked(h, e)
            &&& keeps_usable(g, h)
            &&& forall|e: EdgeId| #[trigger] unchecked(g, e) ==> unchecked(h, e)
        }),
{
    let (h, e) = g.emit1(inputs, kind, out);
    assert forall|i: int| 0 <= i < g.range.len() implies #[trigger] check_output(h, i) == check_output(g, i)
        && check_input(h, i) == check_input(g, i) && check_output(g, i) < g.values.len() && check_input(
        g,
        i,
    ) < g.values.len() by {
        assert(g.range[i] < g.nodes.len());
        let n = g.range[i] as int;
        assert(h.nodes[n] == g.nodes[n]);
        assert(usable(g, g.nodes[n].inputs[0]));
    }
    assert forall|x: EdgeId| #[trigger] usable(g, x) implies usable(h, x) by {
        assert forall|i: int| 0 <= i < h.range.len() implies #[trigger] check_output(h, i) != x by {
            assert(check_output(g, i) != x);
        }
    }
    assert(usable(h, e)) by {
        assert forall|i: int| 0 <= i < h.range.len() implies #[trigger] check_output(h, i) != e by {
            assert(check_output(h, i) == check_output(g, i));
        }
    }
    assert forall|x: EdgeId| #[trigger] unchecked(g, x) implies unchecked(h, x) by {
        assert forall|i: int| 0 <= i < h.range.len() implies #[trigger] check_input(h, i) != x by {
            assert(check_output(h, i) == check_output(g, i));
            assert(check_input(g, i) != x);
        }
    }
    assert(unchecked(h, e)) by {
        assert forall|i: int| 0 <= i < h.range.len() implies #[trigger] check_input(h, i) != e by {
            assert(check_output(h, i) == check_output(g, i));
        }
    }
    assert forall|n: int| 0 <= n < h.nodes.len() implies (#[trigger] h.nodes[n]).outputs.len() == 1
        && h.nodes[n].outputs[0] < h.values.len() by {
        if n < g.nodes.len() {
            assert(h.nodes[n] == g.nodes[n]);
        }
    }
    assert forall|n: int, k: int| 0 <= n < h.nodes.len() && 0 <= k < h.nodes[n].inputs.len() implies usable(
        h,
        #[trigger] h.nodes[n].inputs[k],
    ) by {
        if n < g.nodes.len() {
            assert(h.nodes[n] == g.nodes[n]);
            assert(usable(g, g.nodes[n].inputs[k]));
        } else {
            assert(usable(g, inputs[k]));
        }
    }
    assert forall|i: int| 0 <= i < h.range.len() implies (#[trigger] h.range[i]) < h.nodes.len()
        && h.nodes[h.range[i] as int].kind == Block::Op(Op::NonNegative)
        && h.nodes[h.range[i] as int].inputs.len() == 1 by {
        assert(g.range[i] < g.nodes.len());
        assert(h.nodes[g.range[i] as int] == g.nodes[g.range[i] as int]);
    }
    assert forall|i: int, j: int| 0 <= i < j < h.range.len() implies #[trigger] check_input(h, i)
        != #[trigger] check_input(h, j) by {
        assert(check_output(h, i) == check_output(g, i));
        assert(check_output(h, j) == check_output(g, j));
        assert(check_input(g, i) != check_input(g, j));
    }
    assert forall|i: int| 0 <= i < h.self_claims.len() implies usable(h, #[trigger] h.self_claims[i]) by {
        assert(usable(g, g.self_claims[i]));
    }
}

/// A check about a usable edge that no check is about leaves a tidy graph tidy.
proof fn lemma_nonneg_tidy(g: Graph, a: EdgeId)
    requires
        tidy(g),
        g.values.len() < usize::MAX,
        usable(g, a),
        unchecked(g, a),
    ensures
        tidy(g.nonneg(a)),
        g.nonneg(a).values.len() == g.values.len() + 1,
        keeps_usable(g, g.nonneg(a)),
        forall|e: EdgeId| #[trigger] unchecked(g, e) && e != a ==> unchecked(g.nonneg(a), e),
{
    reveal(Graph::nonneg);
    let h = g.nonneg(a);
    let m = g.nodes.len() as int;
    let last = g.range.len() as int;
    assert(h.nodes[m].inputs == seq![a]);
    assert(check_input(h, last) == a);
    assert(check_output(h, last) == g.values.len());
    assert forall|i: int| 0 <= i < g.range.len() implies #[trigger] check_output(h, i) == check_output(g, i)
        && check_input(h, i) == check_input(g, i) && check_output(g, i) < g.values.len() by {
        assert(g.range[i] < g.nodes.len());
        assert(h.range[i] == g.range[i]);
        assert(h.nodes[g.range[i] as int] == g.nodes[g.range[i] as int]);
    }
    assert forall|x: EdgeId| #[trigger] usable(g, x) implies usable(h, x) by {
        assert forall|i: int| 0 <= i < h.range.len() implies #[trigger] check_output(h, i) != x by {
            if i < last {
                assert(check_output(g, i) != x);
            }
        }
    }
    assert forall|x: EdgeId| #[trigger] unchecked(g, x) && x != a implies unchecked(h, x) by {
        assert forall|i: int| 0 <= i < h.range.len() implies #[trigger] check_input(h, i) != x by {
            if i < last {
                assert(check_output(h, i) == check_output(g, i));
                assert(check_input(g, i) != x);
            }
        }
    }
    assert forall|n: int| 0 <= n < h.nodes.len() implies (#[trigger] h.nodes[n]).outputs.len() == 1
        && h.nodes[n].outputs[0] < h.values.len() by {
        if n < g.nodes.len() {
            assert(h.nodes[n] == g.nodes[n]);
        }
    }
    assert forall|n: int, k: int| 0 <= n < h.nodes.len() && 0 <= k < h.nodes[n].inputs.len() implies usable(
        h,
        #[trigger] h.nodes[n].inputs[k],
    ) by {
        if n < g.nodes.len() {
            assert(h.nodes[n] == g.nodes[n]);
            assert(usable(g, g.nodes[n].inputs[k]));
        } else {
            assert(h.nodes[n].inputs[k] == a);
        }
    }
    assert forall|i: int| 0 <= i < h.range.len() implies (#[trigger] h.range[i]) < h.nodes.len()
        && h.nodes[h.range[i] as int].kind == Block::Op(Op::NonNegative)
        && h.nodes[h.range[i] as int].inputs.len() == 1 by {
        if i < last {
            assert(g.range[i] < g.nodes.len());
            assert(h.range[i] == g.range[i]);
            assert(h.nodes[g.range[i] as int] == g.nodes[g.range[i] as int]);
        }
    }
    assert forall|i: int, j: int| 0 <= i < j < h.range.len() implies #[trigger] check_input(h, i)
        != #[trigger] check_input(h, j) by {
        assert(check_output(h, i) == check_output(g, i));
        if j < last {
            assert(check_output(h, j) == check_output(g, j));
            assert(check_input(g, i) != check_input(g, j));
        } else {
            assert(check_input(g, i) != a);
        }
    }
    assert forall|i: int| 0 <= i < h.self_claims.len() implies usable(h, #[trigger] h.self_claims[i]) by {
        assert(usable(g, g.self_claims[i]));
    }
}

/// A condition changes nothing else.
proof fn lemma_require_tidy(g: Graph, c: bool)
    requires
        tidy(g),
    ensures
        tidy(g.require(c)),
        keeps_usable(g, g.require(c)),
        keeps_usable(g.require(c), g),
        forall|e: EdgeId| #[trigger] unchecked(g, e) ==> unchecked(g.require(c), e),
{
    let h = g.require(c);
    assert forall|i: int| #[trigger] check_output(h, i) == check_output(g, i) by {}
    assert forall|i: int| #[trigger] check_input(h, i) == check_input(g, i) by {}
    assert forall|e: EdgeId| #[trigger] usable(g, e) implies usable(h, e) by {
        assert forall|i: int| 0 <= i < h.range.len() implies #[trigger] check_output(h, i) != e by {
            assert(check_output(g, i) != e);
        }
    }
    assert forall|e: EdgeId| #[trigger] usable(h, e) implies usable(g, e) by {
        assert forall|i: int| 0 <= i < g.range.len() implies #[trigger] check_output(g, i) != e by {
            assert(check_output(h, i) != e);
        }
    }
    assert forall|e: EdgeId| #[trigger] unchecked(g, e) implies unchecked(h, e) by {
        assert forall|i: int| 0 <= i < h.range.len() implies #[trigger] check_input(h, i) != e by {
            assert(check_input(g, i) != e);
        }
    }
    assert forall|n: int, k: int| 0 <= n < h.nodes.len() && 0 <= k < h.nodes[n].inputs.len() implies usable(
        h,
        #[trigger] h.nodes[n].inputs[k],
    ) by {
        assert(usable(g, g.nodes[n].inputs[k]));
    }
    assert forall|i: int, j: int| 0 <= i < j < h.range.len() implies #[trigger] check_input(h, i)
        != #[trigger] check_input(h, j) by {
        assert(check_input(g, i) != check_input(g, j));
    }
    assert forall|i: int| 0 <= i < h.self_claims.len() implies usable(h, #[trigger] h.self_claims[i]) by {
        assert(usable(g, g.self_claims[i]));
    }
}

/// Claims by the writer of a usable edge leave a tidy graph tidy.
proof fn lemma_self_claim_tidy(g: Graph, e: EdgeId)
    requires
        tidy(g),
        usable(g, e),
    ensures
        tidy(g.self_claim(e)),
        keeps_usable(g, g.self_claim(e)),
{
    let h = g.self_claim(e);
    assert forall|i: int| #[trigger] check_output(h, i) == check_output(g, i) by {}
    assert forall|i: int| #[trigger] check_input(h, i) == check_input(g, i) by {}
    assert forall|x: EdgeId| #[trigger] usable(g, x) implies usable(h, x) by {
        assert forall|i: int| 0 <= i < h.range.len() implies #[trigger] check_output(h, i) != x by {
            assert(check_output(g, i) != x);
        }
    }
    assert forall|n: int, k: int| 0 <= n < h.nodes.len() && 0 <= k < h.nodes[n].inputs.len() implies usable(
        h,
        #[trigger] h.nodes[n].inputs[k],
    ) by {
        assert(usable(g, g.nodes[n].inputs[k]));
    }
    assert forall|i: int, j: int| 0 <= i < j < h.range.len() implies #[trigger] check_input(h, i)
        != #[trigger] check_input(h, j) by {
        assert(check_input(g, i) != check_input(g, j));
    }
    assert forall|i: int| 0 <= i < h.self_claims.len() implies usable(h, #[trigger] h.self_claims[i]) by {
        if i < g.self_claims.len() {
            assert(usable(g, g.self_claims[i]));
        }
    }
}

/// A new input leaves a tidy graph tidy.
pub proof fn lemma_input_tidy(g: Graph, shape: Seq<usize>, data_type: DataType)
    requires
        tidy(g),
        g.values.len() < usize::MAX,
    ensures
        tidy(g.input(shape, data_type).0),
        usable(g.input(shape, data_type).0, g.input(shape, data_type).1),
        g.input(shape, data_type).0.values.len() == g.values.len() + 1,
{
    reveal(Graph::input);
    let (h, e) = g.input(shape, data_type);
    assert forall|i: int| 0 <= i < g.range.len() implies #[trigger] check_output(h, i) == check_output(g, i)
        && check_input(h, i) == check_input(g, i) && check_output(g, i) < g.values.len() by {
        assert(g.range[i] < g.nodes.len());
        let n = g.range[i] as int;
        assert(g.nodes[n].outputs[0] < g.values.len());
    }
    assert forall|x: EdgeId| #[trigger] usable(g, x) implies usable(h, x) by {
        assert forall|i: int| 0 <= i < h.range.len() implies #[trigger] check_output(h, i) != x by {
            assert(check_output(g, i) != x);
        }
    }
    assert forall|n: int, k: int| 0 <= n < h.nodes.len() && 0 <= k < h.nodes[n].inputs.len() implies usable(
        h,
        #[trigger] h.nodes[n].inputs[k],
    ) by {
        assert(usable(g, g.nodes[n].inputs[k]));
    }
    assert forall|i: int, j: int| 0 <= i < j < h.range.len() implies #[trigger] check_input(h, i)
        != #[trigger] check_input(h, j) by {
        assert(check_output(h, i) == check_output(g, i));
        assert(check_output(h, j) == check_output(g, j));
        assert(check_input(g, i) != check_input(g, j));
    }
    assert forall|i: int| 0 <= i < h.self_claims.len() implies usable(h, #[trigger] h.self_claims[i]) by {
        assert(usable(g, g.self_claims[i]));
    }
    assert(usable(h, e)) by {
        assert forall|i: int| 0 <= i < h.range.len() implies #[trigger] check_output(h, i) != e by {
            assert(check_output(h, i) == check_output(g, i));
        }
    }
}

/// An empty graph is tidy.
pub proof fn lemma_empty_tidy(sf_log: usize)
    ensures
        tidy(empty_graph(sf_log)),
{
}

/// A sum or difference of usable edges.
proof fn lemma_pointwise_tidy(g: Graph, op: Op, a: EdgeId, b: EdgeId)
    requires
        tidy(g),
        g.values.len() < usize::MAX,
        usable(g, a),
        usable(g, b),
    ensures
        ({
            let (h, e) = g.pointwise(op, a, b);
            &&& tidy(h)
            &&& h.values.len() == g.values.len() + 1
            &&& usable(h, e)
            &&& unchecked(h, e)
            &&& keeps_usable(g, h)
            &&& forall|e: EdgeId| #[trigger] unchecked(g, e) ==> unchecked(h, e)
        }),
{
    reveal(Graph::pointwise);
    let (h, e) = g.pointwise(op, a, b);
    let (x, y) = (g.values[a as int], g.values[b as int]);
    let shape = joint_shape(x.shape, y.shape);
    let out = if x.data is None || y.data is None {
        unknown(shape, x.data_type, x.sf, Role::Output)
    } else {
        folded(op, x, y)
    };
    let c = g.has(a) && g.has(b) && broadcastable(x.shape, y.shape) && (x.data is Some && y.data is Some
        ==> foldable(x) && foldable(y) && num_vars(shape) < usize::BITS);
    lemma_require_tidy(g, c);
    lemma_emit_tidy(g.require(c), seq![a, b], Block::Op(op), out);
    assert forall|x: EdgeId| #[trigger] usable(g, x) implies usable(h, x) by {
        assert(usable(g.require(c), x));
    }
    assert forall|x: EdgeId| #[trigger] unchecked(g, x) implies unchecked(h, x) by {
        assert(unchecked(g.require(c), x));
    }
}

/// A block on usable edges with a plain output.
proof fn lemma_plain_tidy(g: Graph, c: bool, op: Op, inputs: Seq<EdgeId>, shape: Seq<usize>)
    requires
        tidy(g),
        g.values.len() < usize::MAX,
        forall|k: int| 0 <= k < inputs.len() ==> usable(g, #[trigger] inputs[k]),
    ensures
        ({
            let (h, e) = g.require(c).plain(op, inputs, shape);
            &&& tidy(h)
            &&& h.values.len() == g.values.len() + 1
            &&& usable(h, e)
            &&& unchecked(h, e)
            &&& keeps_usable(g, h)
            &&& forall|e: EdgeId| #[trigger] unchecked(g, e) ==> unchecked(h, e)
        }),
{
    reveal(Graph::plain);
    let (h, e) = g.require(c).plain(op, inputs, shape);
    lemma_require_tidy(g, c);
    assert forall|k: int| 0 <= k < inputs.len() implies usable(g.require(c), #[trigger] inputs[k]) by {
        assert(usable(g, inputs[k]));
    }
    lemma_emit_tidy(
        g.require(c),
        inputs,
        Block::Op(op),
        unknown(shape, DataType::Uint, 0, Role::Output),
    );
    assert forall|x: EdgeId| #[trigger] usable(g, x) implies usable(h, x) by {
        assert(usable(g.require(c), x));
    }
    assert forall|x: EdgeId| #[trigger] unchecked(g, x) implies unchecked(h, x) by {
        assert(unchecked(g.require(c), x));
    }
}

/// Padding leaves a tidy graph tidy.
pub proof fn lemma_pad_tidy(g: Graph, x: EdgeId, top: usize, bottom: usize, left: usize, right: usize)
    requires
        tidy(g),
        usable(g, x),
        g.values.len() < usize::MAX,
    ensures
        tidy(g.pad_asym(x, top, bottom, left, right).0),
        usable(
            g.pad_asym(x, top, bottom, left, right).0,
            g.pad_asym(x, top, bottom, left, right).1,
        ),
        g.pad_asym(x, top, bottom, left, right).0.values.len() == g.values.len() + 1,
{
    reveal(Graph::pad_asym);
    let (c, h, w) = (g.shape(x)[0], g.shape(x)[1], g.shape(x)[2]);
    lemma_plain_tidy(
        g,
        g.has_rank(x, 3) && word(h + top + bottom) && word(
            w + left + right,
        ),
        Op::ZeroPadAsym {
            channels: c,
            input_h: h,
            input_w: w,
            pad_h_top: top,
            pad_h_bottom: bottom,
            pad_w_left: left,
            pad_w_right: right,
        },
        seq![x],
        seq![c, (h + top + bottom) as usize, (w + left + right) as usize],
    );
}

/// A ReLU leaves a tidy graph tidy.
pub proof fn lemma_relu_tidy(g: Graph, x: EdgeId)
    requires
        tidy(g),
        usable(g, x),
        g.values.len() + 5 <= usize::MAX,
    ensures
        tidy(g.relu(x).0),
        usable(g.relu(x).0, g.relu(x).1),
        g.relu(x).0.values.len() == g.values.len() + 5,
{
    reveal(Graph::relu);
    reveal(Graph::alike);
    let (g1, neg) = g.alike(Op::ReLUHelper, x);
    lemma_emit_tidy(
        g,
        seq![x],
        Block::Op(Op::ReLUHelper),
        unknown(g.shape(x), g.dtype(x), g.sf(x), Role::Output),
    );
    assert(usable(g1, x));
    let (g2, y) = g1.add(x, neg);
    lemma_pointwise_tidy(g1, Op::Add, x, neg);
    assert(usable(g2, neg) && unchecked(g2, neg));
    assert(y == g1.values.len()) by {
        reveal(Graph::pointwise);
    }
    let g3 = g2.nonneg(y);
    lemma_nonneg_tidy(g2, y);
    assert(usable(g3, neg) && unchecked(g3, neg) && usable(g3, y));
    let g4 = g3.nonneg(neg);
    lemma_nonneg_tidy(g3, neg);
    assert(usable(g4, neg) && usable(g4, y));
    let (g5, cert) = g4.plain(Op::ProductZeroCheck, seq![neg, y], g.shape(x));
    assert(g4.require(true) == g4);
    lemma_plain_tidy(g4, true, Op::ProductZeroCheck, seq![neg, y], g.shape(x));
    assert(usable(g5, y));
    lemma_self_claim_tidy(g5, cert);
}

/// A comparison of usable edges leaves a tidy graph tidy.
proof fn lemma_dominate_tidy(
    g: Graph,
    x: EdgeId,
    y: EdgeId,
    stride: (usize, usize),
    offset: (usize, usize),
    out: (usize, usize),
)
    requires
        tidy(g),
        usable(g, x),
        usable(g, y),
        g.values.len() + 3 <= usize::MAX,
    ensures
        tidy(g.dominate(x, y, stride, offset, out)),
        keeps_usable(g, g.dominate(x, y, stride, offset, out)),
        g.dominate(x, y, stride, offset, out).values.len() == g.values.len() + 3,
{
    reveal(Graph::dominate);
    reveal(Graph::subsample_sized);
    let (c, h, w) = (g.shape(x)[0], g.shape(x)[1], g.shape(x)[2]);
    let op = Op::SubSample2D {
        channels: c,
        input_h: h,
        input_w: w,
        stride_h: stride.0,
        stride_w: stride.1,
        offset_h: offset.0,
        offset_w: offset.1,
        out_h: out.0,
        out_w: out.1,
    };
    lemma_plain_tidy(g, g.has_rank(x, 3), op, seq![x], seq![c, out.0, out.1]);
    let (g1, sv) = g.subsample_sized(x, stride, offset, out);
    assert(usable(g1, y));
    let (g2, diff) = g1.sub(y, sv);
    lemma_pointwise_tidy(g1, Op::Sub, y, sv);
    lemma_nonneg_tidy(g2, diff);
    let r = g.dominate(x, y, stride, offset, out);
    assert forall|e: EdgeId| #[trigger] usable(g, e) implies usable(r, e) by {
        assert(usable(g1, e));
        assert(usable(g2, e));
    }
}

proof fn lemma_row_tidy(
    g: Graph,
    x: EdgeId,
    y: EdgeId,
    stride: (usize, usize),
    row: usize,
    k: nat,
    out: (usize, usize),
)
    requires
        tidy(g),
        usable(g, x),
        usable(g, y),
        g.values.len() + 3 * k <= usize::MAX,
    ensures
        tidy(g.dominate_row(x, y, stride, row, k, out)),
        keeps_usable(g, g.dominate_row(x, y, stride, row, k, out)),
        g.dominate_row(x, y, stride, row, k, out).values.len() == g.values.len() + 3 * k,
    decreases k,
{
    if k > 0 {
        lemma_row_tidy(g, x, y, stride, row, (k - 1) as nat, out);
        let mid = g.dominate_row(x, y, stride, row, (k - 1) as nat, out);
        assert(usable(mid, x) && usable(mid, y));
        lemma_dominate_tidy(mid, x, y, stride, (row, (k - 1) as usize), out);
        let r = g.dominate_row(x, y, stride, row, k, out);
        assert forall|e: EdgeId| #[trigger] usable(g, e) implies usable(r, e) by {
            assert(usable(mid, e));
        }
    }
}

proof fn lemma_rows_tidy(
    g: Graph,
    x: EdgeId,
    y: EdgeId,
    stride: (usize, usize),
    rows: nat,
    cols: nat,
    out: (usize, usize),
)
    requires
        tidy(g),
        usable(g, x),
        usable(g, y),
        g.values.len() + 3 * (rows * cols) <= usize::MAX,
    ensures
        tidy(g.dominate_rows(x, y, stride, rows, cols, out)),
        keeps_usable(g, g.dominate_rows(x, y, stride, rows, cols, out)),
        g.dominate_rows(x, y, stride, rows, cols, out).values.len() == g.values.len() + 3 * (rows * cols),
    decreases rows,
{
    if rows > 0 {
        let m = (rows - 1) as nat;
        assert(rows * cols == m * cols + cols) by (nonlinear_arith)
            requires
                rows == m + 1,
        ;
        lemma_rows_tidy(g, x, y, stride, m, cols, out);
        let mid = g.dominate_rows(x, y, stride, m, cols, out);
        assert(usable(mid, x) && usable(mid, y));
        lemma_row_tidy(mid, x, y, stride, m as usize, cols, out);
        let r = g.dominate_rows(x, y, stride, rows, cols, out);
        assert forall|e: EdgeId| #[trigger] usable(g, e) implies usable(r, e) by {
            assert(usable(mid, e));
        }
    } else {
        assert(rows * cols == 0) by (nonlinear_arith)
            requires
                rows == 0,
        ;
    }
}

/// Max pooling leaves a tidy graph tidy.
pub proof fn lemma_maxpool_tidy(g: Graph, x: EdgeId, kernel: (usize, usize), stride: (usize, usize))
    requires
        tidy(g),
        usable(g, x),
        g.values.len() + 1 + 3 * (kernel.0 * kernel.1) <= usize::MAX,
    ensures
        tidy(g.maxpool_general(x, kernel, stride).0),
        usable(g.maxpool_general(x, kernel, stride).0, g.maxpool_general(x, kernel, stride).1),
        g.maxpool_general(x, kernel, stride).0.values.len() == g.values.len() + 1 + 3 * (kernel.0
            * kernel.1),
{
    reveal(Graph::maxpool_general);
    let (c, h, w) = (g.shape(x)[0], g.shape(x)[1], g.shape(x)[2]);
    let out = (
        windows(h as int, kernel.0 as int, stride.0 as int) as usize,
        windows(w as int, kernel.1 as int, stride.1 as int) as usize,
    );
    let ready = g.has_rank(x, 3) && kernel.0 <= h && kernel.1 <= w && stride.0 > 0 && stride.1 > 0
        && word(
        windows(h as int, kernel.0 as int, stride.0 as int),
    ) && word(
        windows(w as int, kernel.1 as int, stride.1 as int),
    );
    let op = Op::GeneralMaxPoolHelper {
        channels: c,
        input_h: h,
        input_w: w,
        kernel_h: kernel.0,
        kernel_w: kernel.1,
        stride_h: stride.0,
        stride_w: stride.1,
    };
    assert(0 <= kernel.0 * kernel.1) by (nonlinear_arith)
        requires
            0 <= kernel.0,
            0 <= kernel.1,
    ;
    lemma_plain_tidy(g, ready, op, seq![x], seq![c, out.0, out.1]);
    let (g1, y) = g.require(ready).plain(op, seq![x], seq![c, out.0, out.1]);
    assert(usable(g1, x));
    lemma_rows_tidy(g1, x, y, stride, kernel.0 as nat, kernel.1 as nat, out);
}

/// An edge that nobody reads has no readers.
proof fn lemma_unread_readers(consumers: Seq<Seq<NodeId>>, k: nat)
    requires
        k <= usize::MAX,
    ensures
        unread(consumers, k).no_duplicates(),
        forall|i: int|
            0 <= i < unread(consumers, k).len() ==> consumers[(#[trigger] unread(consumers, k)[i]) as int].len()
                == 0,
    decreases k,
{
    if k > 0 {
        lemma_unread_readers(consumers, (k - 1) as nat);
        lemma_unread_bound(consumers, (k - 1) as nat);
        let rest = unread(consumers, (k - 1) as nat);
        let all = unread(consumers, k);
        assert forall|i: int| 0 <= i < all.len() implies consumers[(#[trigger] all[i]) as int].len() == 0 by {
            if i < rest.len() {
                assert(all[i] == rest[i]);
            }
        }
        assert forall|i: int, j: int| 0 <= i < j < all.len() implies all[i] != all[j] by {
            assert(all[i] == rest[i]);
            if j < rest.len() {
                assert(all[j] == rest[j]);
            } else {
                assert(rest[i] < k - 1);
            }
        }
    }
}

/// The checked edges of a tidy graph, in order.
proof fn lemma_checked_inputs(g: Graph, k: nat)
    requires
        tidy(g),
        k <= g.range.len(),
    ensures
        nonneg_inputs(g.nodes, g.range, k) == Seq::new(k, |i: int| check_input(g, i)),
    decreases k,
{
    if k > 0 {
        lemma_checked_inputs(g, (k - 1) as nat);
        assert(g.range[k - 1] < g.nodes.len());
    }
    assert(nonneg_inputs(g.nodes, g.range, k) =~= Seq::new(k, |i: int| check_input(g, i)));
}

/// The output ports of a tidy graph are listed once.
proof fn lemma_ports_once(g: Graph, dag: Dag)
    requires
        g.wf(),
        tidy(g),
        compiled(g, dag),
    ensures
        dag.output_ports@.no_duplicates(),
{
    let consumers = nested(dag.consumers@);
    let a = unread(consumers, g.values.len());
    let b = nonneg_inputs(g.nodes, g.range, g.range.len());
    lemma_unread_readers(consumers, g.values.len());
    lemma_unread_bound(consumers, g.values.len());
    lemma_checked_inputs(g, g.range.len());
    assert forall|i: int, j: int| 0 <= i < a.len() && 0 <= j < b.len() implies a[i] != b[j] by {
        let e = b[j];
        assert(e == check_input(g, j));
        assert(g.range[j] < g.nodes.len());
        let v = g.range[j] as int;
        assert(g.nodes[v].inputs[0] == e);
        assert(g.nodes[v].inputs.contains(e));
        assert(usable(g, g.nodes[v].inputs[0]));
        assert forall|n: int| 0 <= n < g.nodes.len() implies (#[trigger] g.nodes[n]).id == n by {
            assert(crate::dag::graph::node_in_order(
                g.nodes[n],
                n,
                g.first_output(n),
                g.values.len(),
            ));
        }
        lemma_readers(g.nodes, e, g.nodes.len());
        assert(readers(g.nodes, e, g.nodes.len()).contains(v as usize));
        assert(dag.consumers[e as int]@ == readers(g.nodes, e, g.nodes.len()));
        assert(consumers[e as int] == dag.consumers[e as int]@);
        if a[i] == e {
            assert(consumers[a[i] as int].len() == 0);
        }
    }
    let all = dag.output_ports@;
    assert(all == a + b);
    assert forall|i: int, j: int| 0 <= i < j < all.len() implies all[i] != all[j] by {
        if j < a.len() {
            assert(all[i] == a[i] && all[j] == a[j]);
        } else if i < a.len() {
            assert(all[i] == a[i] && all[j] == b[j - a.len()]);
        } else {
            let (k, l) = (i - a.len(), j - a.len());
            assert(all[i] == b[k] && all[j] == b[l]);
            assert(check_input(g, k) != check_input(g, l));
        }
    }
}

/// Ports that are listed once are claimed once.
proof fn lemma_claimed_once(dag: Dag, ws: Seq<Vec<Witness>>, k: nat)
    requires
        k <= dag.output_ports.len(),
        dag.output_ports@.no_duplicates(),
    ensures
        dag.outputs_upto(ws, k).no_duplicates(),
        forall|i: int|
            0 <= i < dag.outputs_upto(ws, k).len() ==> exists|j: int|
                0 <= j < k && #[trigger] dag.output_ports@[j] == #[trigger] dag.outputs_upto(ws, k)[i],
    decreases k,
{
    if k > 0 {
        let m = (k - 1) as nat;
        lemma_claimed_once(dag, ws, m);
        let rest = dag.outputs_upto(ws, m);
        let all = dag.outputs_upto(ws, k);
        assert forall|i: int| 0 <= i < all.len() implies exists|j: int|
            0 <= j < k && #[trigger] dag.output_ports@[j] == #[trigger] all[i] by {
            if i < rest.len() {
                assert(all[i] == rest[i]);
                let j = choose|j: int| 0 <= j < m && #[trigger] dag.output_ports@[j] == rest[i];
                assert(dag.output_ports@[j] == all[i]);
            } else {
                assert(dag.output_ports@[m as int] == all[i]);
            }
        }
        assert forall|i: int, j: int| 0 <= i < j < all.len() implies all[i] != all[j] by {
            assert(all[i] == rest[i]);
            if j < rest.len() {
                assert(all[j] == rest[j]);
            } else {
                let l = choose|l: int| 0 <= l < m && #[trigger] dag.output_ports@[l] == rest[i];
                assert(dag.output_ports@[l] != dag.output_ports@[m as int]);
            }
        }
    }
}

/// The bits of the checks are bits, and no outputs.
pub open spec fn bits_held(dag: Dag, ws: Seq<Vec<Witness>>) -> bool {
    forall|i: int|
        0 <= i < dag.range.len() ==> {
            let w = ws[(#[trigger] dag.range_aux(i)) as int][0];
            w.role != Role::Output && all_bits(w.data->0->Dense_0.evaluations@)
        }
}

/// A tidy graph compiles to one whose nodes write one edge each and whose only lookups are checks that
/// numbers are not negative.
proof fn lemma_tidy_compiled(g: Graph, dag: Dag, ws: Seq<Vec<Witness>>)
    requires
        g.wf(),
        tidy(g),
        compiled(g, dag),
        bits_held(dag, ws),
    ensures
        single_outputs(dag),
        nonnegative_only(dag, ws),
{
    reveal(single_outputs);
    reveal(silent);
    assert forall|v: int| 0 <= v < dag.nodes.len() implies dag.nodes[v]@ == g.nodes[v] && (
    #[trigger] dag.nodes[v]).outputs.len() == 1 by {
        assert(node_list(dag.nodes@)[v] == dag.nodes[v]@);
        assert(g.nodes[v].outputs.len() == 1);
    }
    assert forall|i: int| 0 <= i < dag.range.len() implies {
        &&& dag.nodes[(#[trigger] dag.range[i]) as int].kind@ == Block::Op(Op::NonNegative)
        &&& silent(dag, ws, dag.range_aux(i))
        &&& all_bits(ws[dag.range_aux(i) as int][0].data->0->Dense_0.evaluations@)
    } by {
        assert(g.range[i] == dag.range[i]);
        assert(g.range[i] < g.nodes.len());
        let n = g.range[i] as int;
        assert(dag.nodes[n]@ == g.nodes[n]);
        let e = dag.range_aux(i);
        assert(e == check_output(g, i));
        assert forall|v: int| 0 <= v < dag.nodes.len() implies !(#[trigger] dag.nodes[v]).inputs@.contains(
            e,
        ) by {
            assert(dag.nodes[v]@ == g.nodes[v]);
            if dag.nodes[v].inputs@.contains(e) {
                let k = choose|k: int| 0 <= k < dag.nodes[v].inputs.len() && dag.nodes[v].inputs@[k] == e;
                assert(usable(g, g.nodes[v].inputs[k]));
                assert(check_output(g, i) != e);
            }
        }
        assert(!dag.self_claim_edges@.contains(e)) by {
            if dag.self_claim_edges@.contains(e) {
                assert(g.self_claims.contains(e));
                let k = choose|k: int| 0 <= k < g.self_claims.len() && g.self_claims[k] == e;
                assert(usable(g, g.self_claims[k]));
                assert(check_output(g, i) != e);
            }
        }
    }
}

/// The round trip of tidy graphs, whatever their tensors hold: where the blocks, reducers and openings
/// tell the truth about the tensors, the blocks ask about what they read, and the given checks accept
/// true replies, every verdict on a proof from any run is that it is right, at the prover's digest.
pub proof fn lemma_tidy_accepted<
    B: Fn(NodeId, &Vec<EdgeId>, &Vec<Claim>, Digest) -> BlockReply,
    R: Fn(NodeId, &Vec<EdgeId>, &Vec<Claim>, Digest) -> BlockReply,
    O: Fn(usize, EdgeId, &Claim, GoldilocksExt2) -> BasefoldOpeningProof,
    V: Fn(NodeId, &Vec<Claim>, &Vec<SumcheckProof>, Digest) -> CheckReply,
    W: Fn(NodeId, &Vec<Claim>, &Vec<SumcheckProof>, Digest) -> CheckReply,
    P: Fn(usize, &BasefoldCommitmentData, &Claim, &BasefoldOpeningProof, GoldilocksExt2) -> bool,
>(
    builder: DagBuilder,
    dag: Dag,
    h: spec_fn(Digest, Digest) -> Digest,
    s: Digest,
    ws: Seq<Vec<Witness>>,
    com: Seq<Option<BasefoldCommitmentData>>,
    block: B,
    reduce: R,
    open: O,
    scope: Scope,
    evs: Seq<Event>,
    q: Pass,
    t: Digest,
    p: DagProof,
    end: Digest,
    checks: Checks<V, W, P>,
    r: Option<bool>,
    vend: Digest,
)
    requires
        builder.wf(),
        tidy(builder@),
        compiled(builder@, dag),
        witnesses_ok(ws, dag.num_edges as nat),
        com.len() == dag.num_edges,
        edges_known(ws, dag.claimed_outputs(ws)),
        bits_held(dag, ws),
        is_block(dag, block),
        asks_inputs(dag, block),
        reduces_to_one(dag, reduce),
        true_block(dag, ws, block),
        true_reducer(dag, ws, reduce),
        true_openings(ws, dag.openable(ws, com, Seq::empty()), open, checks.opening),
        truth_passes(dag, ws, block, checks.block),
        reduction_passes(dag, ws, reduce, checks.reducer),
        is_whole(dag, scope),
        ({
            let outs = dag.claimed_outputs(ws);
            let init = random_claims(h, s, ws, outs);
            runs(
                dag,
                scope,
                block,
                reduce,
                started(dag, scope, init, init.len()),
                drawn_upto(h, s, ws, outs, outs.len()),
                evs,
                q,
                t,
            )
        }),
        proof_from(dag, h, ws, com, open, q, t, Some(p), end),
        verifies(dag, h, s, ws, com, p.0@, p.1@, p.2, p.3, p.4@, checks, r, vend),
    ensures
        r == Some(true),
        vend == end,
{
    lemma_compiled_provable(builder@, dag, ws, com);
    lemma_tidy_compiled(builder@, dag, ws);
    lemma_ports_once(builder@, dag);
    lemma_claimed_once(dag, ws, dag.output_ports.len() as nat);
    lemma_single_accepted(
        dag,
        h,
        s,
        ws,
        com,
        block,
        reduce,
        open,
        scope,
        evs,
        q,
        t,
        p,
        end,
        checks,
        r,
        vend,
    );
}

/// An image of one channel, eight by eight.
pub open spec fn small_image() -> (Graph, EdgeId) {
    empty_graph(0).input(seq![1usize, 8usize, 8usize], DataType::Uint)
}

/// The largest entries of its windows of three by three, two apart.
pub open spec fn pooled_image() -> Graph {
    let (g, x) = small_image();
    g.maxpool_general(x, (3, 3), (2, 2)).0
}

/// The same after a row and a column of zeros were added.
pub open spec fn padded_image() -> Graph {
    let (g, x) = small_image();
    let (g, x) = g.pad_asym(x, 0, 1, 0, 1);
    g.maxpool_general(x, (3, 3), (2, 2)).0
}

/// The same after negative entries were set to zero before that.
pub open spec fn rectified_image() -> Graph {
    let (g, x) = small_image();
    let (g, x) = g.relu(x);
    let (g, x) = g.pad_asym(x, 0, 1, 0, 1);
    g.maxpool_general(x, (3, 3), (2, 2)).0
}

/// Pooling of an image, also after padding, also after a ReLU before that, gives tidy graphs.
proof fn lemma_images_tidy()
    ensures
        tidy(pooled_image()),
        tidy(padded_image()),
        tidy(rectified_image()),
{
    let kernel: (usize, usize) = (3, 3);
    assert(kernel.0 * kernel.1 == 9) by (nonlinear_arith)
        requires
            kernel.0 == 3,
            kernel.1 == 3,
    ;
    assert(usize::MAX >= 0xffff_ffff);
    lemma_empty_tidy(0);
    lemma_input_tidy(empty_graph(0), seq![1usize, 8usize, 8usize], DataType::Uint);
    let (g, x) = small_image();
    lemma_maxpool_tidy(g, x, kernel, (2, 2));
    lemma_pad_tidy(g, x, 0, 1, 0, 1);
    let (g1, x1) = g.pad_asym(x, 0, 1, 0, 1);
    lemma_maxpool_tidy(g1, x1, kernel, (2, 2));
    lemma_relu_tidy(g, x);
    let (g2, x2) = g.relu(x);
    lemma_pad_tidy(g2, x2, 0, 1, 0, 1);
    let (g3, x3) = g2.pad_asym(x2, 0, 1, 0, 1);
    lemma_maxpool_tidy(g3, x3, kernel, (2, 2));
}

/// The round trip of pooling an image, also after padding, also after a ReLU before that, whatever the
/// image holds: a proof of the run is found right, where the blocks, reducers and openings tell the
/// truth about the tensors and the given checks accept that.
pub proof fn lemma_images_accepted<
    B: Fn(NodeId, &Vec<EdgeId>, &Vec<Claim>, Digest) -> BlockReply,
    R: Fn(NodeId, &Vec<EdgeId>, &Vec<Claim>, Digest) -> BlockReply,
    O: Fn(usize, EdgeId, &Claim, GoldilocksExt2) -> BasefoldOpeningProof,
    V: Fn(NodeId, &Vec<Claim>, &Vec<SumcheckProof>, Digest) -> CheckReply,
    W: Fn(NodeId, &Vec<Claim>, &Vec<SumcheckProof>, Digest) -> CheckReply,
    P: Fn(usize, &BasefoldCommitmentData, &Claim, &BasefoldOpeningProof, GoldilocksExt2) -> bool,
>(
    builder: DagBuilder,
    dag: Dag,
    h: spec_fn(Digest, Digest) -> Digest,
    s: Digest,
    ws: Seq<Vec<Witness>>,
    com: Seq<Option<BasefoldCommitmentData>>,
    block: B,
    reduce: R,
    open: O,
    scope: Scope,
    evs: Seq<Event>,
    q: Pass,
    t: Digest,
    p: DagProof,
    end: Digest,
    checks: Checks<V, W, P>,
    r: Option<bool>,
    vend: Digest,
)
    requires
        builder.wf(),
        builder@ == pooled_image() || builder@ == padded_image() || builder@ == rectified_image(),
        compiled(builder@, dag),
        witnesses_ok(ws, dag.num_edges as nat),
        com.len() == dag.num_edges,
        edges_known(ws, dag.claimed_outputs(ws)),
        bits_held(dag, ws),
        is_block(dag, block),
        asks_inputs(dag, block),
        reduces_to_one(dag, reduce),
        true_block(dag, ws, block),
        true_reducer(dag, ws, reduce),
        true_openings(ws, dag.openable(ws, com, Seq::empty()), open, checks.opening),
        truth_passes(dag, ws, block, checks.block),
        reduction_passes(dag, ws, reduce, checks.reducer),
        is_whole(dag, scope),
        ({
            let outs = dag.claimed_outputs(ws);
            let init = random_claims(h, s, ws, outs);
            runs(
                dag,
                scope,
                block,
                reduce,
                started(dag, scope, init, init.len()),
                drawn_upto(h, s, ws, outs, outs.len()),
                evs,
                q,
                t,
            )
        }),
        proof_from(dag, h, ws, com, open, q, t, Some(p), end),
        verifies(dag, h, s, ws, com, p.0@, p.1@, p.2, p.3, p.4@, checks, r, vend),
    ensures
        r == Some(true),
        vend == end,
{
    lemma_images_tidy();
    lemma_tidy_accepted(
        builder,
        dag,
        h,
        s,
        ws,
        com,
        block,
        reduce,
        open,
        scope,
        evs,
        q,
        t,
        p,
        end,
        checks,
        r,
        vend,
    );
}

} // verus!
