//! The forward pass: from inputs to all tensors of a graph.
use vstd::prelude::*;

use crate::dag::block::{nested, BasicBlockType, Op};
use crate::dag::builder::fold_constants;
use crate::dag::compile::compiled;
use crate::dag::graph::{foldable, folded, node_in_order, Graph};
use crate::dag::kahn::level_start;
use crate::dag::types::{Dag, EdgeId, NodeId};
use crate::dag::witness::{Role, Tensor, Witness};
use crate::util::arith::num_vars;
use crate::util::shape::{broadcastable, joint_shape};

verus! {

/// The values of the tensors of one edge.
pub open spec fn tensors(ws: Seq<Witness>) -> Seq<Tensor> {
    ws.map_values(|w: Witness| w@)
}

/// The tensors of an edge after the first `k` inputs were fed.
pub open spec fn fed(
    before: Seq<Tensor>,
    feed: Seq<(EdgeId, Witness)>,
    e: EdgeId,
    k: nat,
) -> Seq<Tensor>
    decreases k,
{
    if k == 0 {
        before
    } else if feed[k - 1].0 == e {
        seq![feed[k - 1].1@]
    } else {
        fed(before, feed, e, (k - 1) as nat)
    }
}

/// Entry `k` of a list of results is on the edge that is written.
pub open spec fn written(ws: Seq<Vec<Witness>>, e: EdgeId, out: Witness) -> bool {
    tensors(ws[e as int]@) == seq![out@]
}

/// The outputs of a node are what its block makes of `ins`, its inputs.
pub open spec fn node_result<E: Fn(&BasicBlockType, &Vec<Witness>) -> Vec<Witness>>(
    eval: E,
    dag: Dag,
    ws: Seq<Vec<Witness>>,
    v: int,
    kind: &BasicBlockType,
    ins: &Vec<Witness>,
    outs: Vec<Witness>,
) -> bool {
    let node = dag.nodes[v];
    &&& *kind == node.kind
    &&& ins.len() == node.inputs.len()
    &&& forall|k: int|
        0 <= k < node.inputs.len() ==> ws[#[trigger] node.inputs[k] as int].len() > 0
            && ws[node.inputs[k] as int][0]@ == ins[k]@
    &&& call_ensures(eval, (kind, ins), outs)
    &&& outs.len() == node.outputs.len()
    &&& forall|k: int|
        0 <= k < node.outputs.len() ==> written(ws, #[trigger] node.outputs[k], outs[k])
}

/// The outputs of node `v` are what its block makes of its inputs.
pub open spec fn node_ran<E: Fn(&BasicBlockType, &Vec<Witness>) -> Vec<Witness>>(
    eval: E,
    dag: Dag,
    ws: Seq<Vec<Witness>>,
    v: int,
) -> bool {
    exists|kind: &BasicBlockType, ins: &Vec<Witness>, outs: Vec<Witness>|
        #[trigger] node_result(eval, dag, ws, v, kind, ins, outs)
}

/// The evaluator accepts the inputs of every node and gives as many results as it has outputs.
pub open spec fn is_evaluator<E: Fn(&BasicBlockType, &Vec<Witness>) -> Vec<Witness>>(
    eval: E,
    dag: Dag,
) -> bool {
    &&& forall|v: int, kind: &BasicBlockType, ins: &Vec<Witness>|
        0 <= v < dag.nodes.len() && *kind == (#[trigger] dag.nodes[v]).kind && ins.len()
            == dag.nodes[v].inputs.len() ==> #[trigger] call_requires(eval, (kind, ins))
    &&& forall|v: int, kind: &BasicBlockType, ins: &Vec<Witness>, outs: Vec<Witness>|
        0 <= v < dag.nodes.len() && *kind == (#[trigger] dag.nodes[v]).kind && ins.len()
            == dag.nodes[v].inputs.len() && #[trigger] call_ensures(eval, (kind, ins), outs)
            ==> outs.len() == dag.nodes[v].outputs.len()
}

impl Dag {
    /// The levels cut the order of the nodes, and a node writes an edge at most once.
    pub open spec fn runnable(&self) -> bool {
        let levels = nested(self.topo_levels@);
        &&& self.linked()
        &&& level_start(levels, levels.len()) == self.topo.len()
        &&& forall|l: int, k: int|
            0 <= l < levels.len() && 0 <= k < levels[l].len() ==> #[trigger] levels[l][k]
                == self.topo[level_start(levels, l as nat) + k]
        &&& forall|v: int|
            0 <= v < self.nodes.len() ==> (#[trigger] self.nodes[v]).outputs@.no_duplicates()
    }
}

/// A compiled graph can be run.
pub proof fn lemma_compiled_runnable(g: Graph, dag: Dag)
    requires
        g.wf(),
        compiled(g, dag),
    ensures
        dag.runnable(),
{
    crate::dag::partition::lemma_compiled_linked(g, dag);
    assert forall|v: int| 0 <= v < dag.nodes.len() implies (
    #[trigger] dag.nodes[v]).outputs@.no_duplicates() by {
        assert(crate::dag::types::node_list(dag.nodes@)[v] == dag.nodes[v]@);
        assert(node_in_order(g.nodes[v], v, g.first_output(v), g.values.len()));
    }
}

/// The first levels hold no more nodes than all of them.
proof fn lemma_level_bound(levels: Seq<Seq<usize>>, a: nat, b: nat)
    requires
        a <= b <= levels.len(),
    ensures
        level_start(levels, a) <= level_start(levels, b),
    decreases b,
{
    if a < b {
        lemma_level_bound(levels, a, (b - 1) as nat);
    }
}

/// The state of a run before the node at position `p`.
spec fn running<E: Fn(&BasicBlockType, &Vec<Witness>) -> Vec<Witness>>(
    eval: E,
    dag: Dag,
    ws: Seq<Vec<Witness>>,
    start: Seq<Vec<Witness>>,
    p: int,
) -> bool {
    &&& ws.len() == dag.num_edges
    &&& start.len() == dag.num_edges
    &&& forall|q: int| 0 <= q < p ==> node_ran(eval, dag, ws, #[trigger] dag.topo[q] as int)
    &&& forall|e: int|
        0 <= e < dag.num_edges && dag.producers[e] is None ==> #[trigger] ws[e] == start[e]
}

/// Writing the outputs of a node does not disturb the nodes before it.
proof fn lemma_keep_ran<E: Fn(&BasicBlockType, &Vec<Witness>) -> Vec<Witness>>(
    eval: E,
    dag: Dag,
    ws: Seq<Vec<Witness>>,
    after: Seq<Vec<Witness>>,
    p: int,
    q: int,
)
    requires
        dag.linked(),
        0 <= q < p < dag.topo.len(),
        ws.len() == dag.num_edges,
        after.len() == dag.num_edges,
        node_ran(eval, dag, ws, dag.topo[q] as int),
        forall|e: int|
            0 <= e < dag.num_edges && !dag.nodes[dag.topo[p] as int].outputs@.contains(e as usize)
                ==> #[trigger] after[e] == ws[e],
    ensures
        node_ran(eval, dag, after, dag.topo[q] as int),
{
    let v = dag.topo[q] as int;
    let w = dag.topo[p] as int;
    assert(dag.topo@[p] < dag.nodes.len() && dag.topo@[q] < dag.nodes.len());
    assert(dag.topo@[p] != dag.topo@[q]);
    let (kind, ins, outs) = choose|kind: &BasicBlockType, ins: &Vec<Witness>, outs: Vec<Witness>|
        #[trigger] node_result(eval, dag, ws, v, kind, ins, outs);
    let node = dag.nodes[v];
    assert forall|k: int| 0 <= k < node.inputs.len() implies after[#[trigger] node.inputs[k] as int]
        == ws[node.inputs[k] as int] by {
        let e = node.inputs[k] as int;
        assert(node.inputs[k] < dag.num_edges);
        assert(node.inputs@.contains(node.inputs[k]));
        let r = dag.reads(dag.topo[q] as int, e);
        let wr = dag.writes(dag.topo[p] as int, e);
        assert(r);
        assert(!wr);
        assert(after[e] == ws[e]);
    }
    assert forall|k: int| 0 <= k < node.outputs.len() implies written(
        after,
        #[trigger] node.outputs[k],
        outs[k],
    ) by {
        let e = node.outputs[k] as int;
        assert(node.outputs[k] < dag.num_edges);
        assert(node.outputs@.contains(node.outputs[k]));
        assert(written(ws, node.outputs[k], outs[k]));
        let wq = dag.writes(v, e);
        let wp = dag.writes(w, e);
        assert(wq);
        assert(!wp);
        assert(after[e] == ws[e]);
    }
    assert(node_result(eval, dag, after, v, kind, ins, outs));
}

impl Dag {
    /// The inputs of a node have tensors.
    proof fn lemma_inputs_there<E: Fn(&BasicBlockType, &Vec<Witness>) -> Vec<Witness>>(
        &self,
        eval: E,
        ws: Seq<Vec<Witness>>,
        start: Seq<Vec<Witness>>,
        p: int,
        k: int,
    )
        requires
            self.linked(),
            running(eval, *self, ws, start, p),
            0 <= p < self.topo.len(),
            0 <= k < self.nodes[self.topo[p] as int].inputs.len(),
            forall|e: int|
                0 <= e < self.num_edges && self.producers[e] is None && self.consumers[e].len() > 0
                    ==> (#[trigger] start[e]).len() > 0,
        ensures
            ws[self.nodes[self.topo[p] as int].inputs[k] as int].len() > 0,
    {
        let v = self.topo[p] as int;
        assert(self.topo@[p] < self.nodes.len());
        let e = self.nodes[v].inputs[k] as int;
        assert(self.nodes[v].inputs[k] < self.num_edges);
        assert(self.nodes[v].inputs@.contains(self.nodes[v].inputs[k]));
        let r = self.reads(self.topo[p] as int, e);
        assert(r);
        assert(self.consumers[e]@.contains(v as usize));
        match self.producers[e] {
            Some(u) => {
                assert(u < self.nodes.len());
                assert(self.topo@.contains((u as int) as usize));
                let q = choose|q: int| 0 <= q < self.topo.len() && self.topo@[q] == u;
                let w = self.writes(self.topo[q] as int, e);
                assert(w);
                assert(q < p);
                assert(node_ran(eval, *self, ws, self.topo[q] as int));
                let (kind, ins, outs) = choose|
                    kind: &BasicBlockType,
                    ins: &Vec<Witness>,
                    outs: Vec<Witness>,
                | #[trigger] node_result(eval, *self, ws, u as int, kind, ins, outs);
                let outputs = self.nodes[u as int].outputs;
                let j = choose|j: int| 0 <= j < outputs.len() && outputs@[j] == e;
                assert(written(ws, outputs[j], outs[j]));
                assert(tensors(ws[e]@).len() == 1);
            },
            None => {
                assert(ws[e] == start[e]);
                assert(start[e].len() > 0);
            },
        }
    }

    /// Runs one node.
    fn run_node<E: Fn(&BasicBlockType, &Vec<Witness>) -> Vec<Witness>>(
        &self,
        witnesses: &mut Vec<Vec<Witness>>,
        eval: &E,
        p: usize,
        Ghost(start): Ghost<Seq<Vec<Witness>>>,
    )
        requires
            self.runnable(),
            is_evaluator(*eval, *self),
            p < self.topo.len(),
            running(*eval, *self, old(witnesses)@, start, p as int),
            forall|e: int|
                0 <= e < self.num_edges && self.producers[e] is None && self.consumers[e].len() > 0
                    ==> (#[trigger] start[e]).len() > 0,
        ensures
            running(*eval, *self, final(witnesses)@, start, p + 1),
    {
        let ghost ws = witnesses@;
        let v: usize = self.topo[p];
        assert(self.topo@[p as int] < self.nodes.len());
        let node = &self.nodes[v];
        let mut ins: Vec<Witness> = Vec::new();
        let mut k: usize = 0;
        while k < node.inputs.len()
            invariant
                k <= node.inputs.len(),
                self.runnable(),
                p < self.topo.len(),
                v == self.topo[p as int],
                v < self.nodes.len(),
                *node == self.nodes[v as int],
                ws == witnesses@,
                running(*eval, *self, ws, start, p as int),
                forall|e: int|
                    0 <= e < self.num_edges && self.producers[e] is None && self.consumers[e].len() > 0
                        ==> (#[trigger] start[e]).len() > 0,
                ins.len() == k,
                forall|j: int|
                    0 <= j < k ==> ws[#[trigger] node.inputs[j] as int].len() > 0
                        && ws[node.inputs[j] as int][0]@ == ins[j]@,
            decreases node.inputs.len() - k,
        {
            let e: usize = node.inputs[k];
            proof {
                assert(self.nodes[v as int].inputs[k as int] < self.num_edges);
                self.lemma_inputs_there(*eval, ws, start, p as int, k as int);
            }
            let ghost before = ins@;
            ins.push(witnesses[e][0].clone());
            k = k + 1;
        }
        let mut outs: Vec<Witness> = eval(&node.kind, &ins);
        let ghost all = outs;
        let ghost given = outs@;
        assert(call_ensures(*eval, (&node.kind, &ins), outs));
        assert(outs.len() == self.nodes[v as int].outputs.len());
        let ghost outputs = node.outputs@;
        let mut k: usize = node.outputs.len();
        while k > 0
            invariant
                k <= node.outputs.len(),
                self.runnable(),
                v < self.nodes.len(),
                *node == self.nodes[v as int],
                outputs == node.outputs@,
                outputs.no_duplicates(),
                witnesses.len() == self.num_edges,
                ws.len() == self.num_edges,
                outs@ == given.take(k as int),
                given.len() == outputs.len(),
                forall|j: int|
                    k <= j < outputs.len() ==> written(witnesses@, #[trigger] outputs[j], given[j]),
                forall|e: int|
                    0 <= e < self.num_edges && !outputs.contains(e as usize)
                        ==> #[trigger] witnesses@[e] == ws[e],
            decreases k,
        {
            k = k - 1;
            let e: usize = node.outputs[k];
            assert(self.nodes[v as int].outputs[k as int] < self.num_edges);
            assert(outputs.contains(e));
            let ghost last = outs@.last();
            let ghost mid = witnesses@;
            match outs.pop() {
                Some(out) => {
                    let mut list: Vec<Witness> = Vec::new();
                    list.push(out);
                    assert(tensors(list@) =~= seq![out@]);
                    witnesses.set(e, list);
                },
                None => {
                    assert(false);
                },
            }
            proof {
                assert(outs@ =~= given.take(k as int));
                assert forall|j: int| k <= j < outputs.len() implies written(
                    witnesses@,
                    #[trigger] outputs[j],
                    given[j],
                ) by {
                    if j > k {
                        assert(written(mid, outputs[j], given[j]));
                        assert(outputs[j] != outputs[k as int]);
                    }
                }
            }
        }
        proof {
            let after = witnesses@;
            let vi = v as int;
            assert forall|j: int| 0 <= j < node.inputs.len() implies after[#[trigger] node.inputs[j] as int]
                == ws[node.inputs[j] as int] by {
                let e = node.inputs[j] as int;
                assert(self.nodes[vi].inputs[j] < self.num_edges);
                assert(node.inputs@.contains(node.inputs[j]));
                let r = self.reads(self.topo[p as int] as int, e);
                let w = self.writes(self.topo[p as int] as int, e);
                assert(r);
                assert(!w);
            }
            assert(node_result(*eval, *self, after, vi, &node.kind, &ins, all));
            assert(node_ran(*eval, *self, after, vi));
            assert forall|q: int| 0 <= q < p + 1 implies node_ran(
                *eval,
                *self,
                after,
                #[trigger] self.topo[q] as int,
            ) by {
                if q < p {
                    lemma_keep_ran(*eval, *self, ws, after, p as int, q);
                }
            }
            assert forall|e: int| 0 <= e < self.num_edges && self.producers[e] is None implies
                #[trigger] after[e] == start[e] by {
                let w = self.writes(vi, e);
                assert(!w);
                assert(ws[e] == start[e]);
            }
        }
    }

    /// Feeds the inputs and runs all nodes, level by level. Afterwards the outputs of every node
    /// are what its block makes of its inputs, and the edges that no node writes hold what was fed
    /// or was there.
    pub fn run<E: Fn(&BasicBlockType, &Vec<Witness>) -> Vec<Witness>>(
        &self,
        witnesses: &mut Vec<Vec<Witness>>,
        feed: &[(EdgeId, Witness)],
        eval: &E,
    )
        requires
            self.runnable(),
            is_evaluator(*eval, *self),
            old(witnesses).len() == self.num_edges,
            forall|i: int| 0 <= i < feed.len() ==> (#[trigger] feed[i]).0 < self.num_edges,
            forall|e: int|
                0 <= e < self.num_edges && self.producers[e] is None && self.consumers[e].len() > 0
                    ==> #[trigger] fed(
                    tensors(old(witnesses)[e]@),
                    feed@,
                    e as usize,
                    feed.len() as nat,
                ).len() > 0,
        ensures
            final(witnesses).len() == self.num_edges,
            forall|v: int|
                0 <= v < self.nodes.len() ==> #[trigger] node_ran(*eval, *self, final(witnesses)@, v),
            forall|e: int|
                0 <= e < self.num_edges && self.producers[e] is None ==> tensors(
                    (#[trigger] final(witnesses)[e])@,
                ) == fed(tensors(old(witnesses)[e]@), feed@, e as usize, feed.len() as nat),
    {
        let ghost before = witnesses@;
        let mut i: usize = 0;
        while i < feed.len()
            invariant
                i <= feed.len(),
                witnesses.len() == self.num_edges,
                before.len() == self.num_edges,
                forall|i: int| 0 <= i < feed.len() ==> (#[trigger] feed[i]).0 < self.num_edges,
                forall|e: int|
                    0 <= e < self.num_edges ==> tensors((#[trigger] witnesses[e])@) == fed(
                        tensors(before[e]@),
                        feed@,
                        e as usize,
                        i as nat,
                    ),
            decreases feed.len() - i,
        {
            let e: usize = feed[i].0;
            let mut list: Vec<Witness> = Vec::new();
            list.push(feed[i].1.clone());
            assert(tensors(list@) =~= seq![feed[i as int].1@]);
            witnesses.set(e, list);
            i = i + 1;
        }
        let ghost start = witnesses@;
        proof {
            assert forall|e: int|
                0 <= e < self.num_edges && self.producers[e] is None && self.consumers[e].len() > 0
            implies (#[trigger] start[e]).len() > 0 by {
                assert(fed(tensors(before[e]@), feed@, e as usize, feed.len() as nat).len() > 0);
                assert(tensors(start[e]@).len() == start[e].len());
            }
        }
        let ghost levels = nested(self.topo_levels@);
        let mut p: usize = 0;
        let mut l: usize = 0;
        while l < self.topo_levels.len()
            invariant
                l <= self.topo_levels.len(),
                self.runnable(),
                is_evaluator(*eval, *self),
                levels == nested(self.topo_levels@),
                p == level_start(levels, l as nat),
                running(*eval, *self, witnesses@, start, p as int),
                forall|e: int|
                    0 <= e < self.num_edges && self.producers[e] is None && self.consumers[e].len() > 0
                        ==> (#[trigger] start[e]).len() > 0,
            decreases self.topo_levels.len() - l,
        {
            let level: &Vec<NodeId> = &self.topo_levels[l];
            assert(levels[l as int] == level@);
            let mut k: usize = 0;
            while k < level.len()
                invariant
                    k <= level.len(),
                    l < self.topo_levels.len(),
                    level@ == levels[l as int],
                    self.runnable(),
                    is_evaluator(*eval, *self),
                    levels == nested(self.topo_levels@),
                    p == level_start(levels, l as nat) + k,
                    running(*eval, *self, witnesses@, start, p as int),
                    forall|e: int|
                        0 <= e < self.num_edges && self.producers[e] is None && self.consumers[e].len()
                            > 0 ==> (#[trigger] start[e]).len() > 0,
                decreases level.len() - k,
            {
                proof {
                    lemma_level_bound(levels, (l + 1) as nat, levels.len());
                    assert(levels[l as int][k as int] == self.topo[p as int]);
                }
                self.run_node(witnesses, eval, p, Ghost(start));
                p = p + 1;
                k = k + 1;
            }
            l = l + 1;
        }
        proof {
            assert forall|v: int| 0 <= v < self.nodes.len() implies #[trigger] node_ran(
                *eval,
                *self,
                witnesses@,
                v,
            ) by {
                assert(self.topo@.contains(v as usize));
                let q = choose|q: int| 0 <= q < self.topo.len() && self.topo@[q] == v as usize;
                assert(node_ran(*eval, *self, witnesses@, self.topo[q] as int));
            }
        }
    }
}

/// The entrywise sum or difference of two tensors, as an output.
pub fn run_pointwise(op: Op, x: &Witness, y: &Witness) -> (r: Witness)
    requires
        op == Op::Add || op == Op::Sub,
        x.data is Some,
        y.data is Some,
        foldable(x@),
        foldable(y@),
        broadcastable(x.shape@, y.shape@),
        num_vars(joint_shape(x.shape@, y.shape@)) < usize::BITS,
    ensures
        r@ == (Tensor { role: Role::Output, ..folded(op, x@, y@) }),
{
    let mut r: Witness = fold_constants(op, x, y);
    r.role = Role::Output;
    r
}

} // verus!
