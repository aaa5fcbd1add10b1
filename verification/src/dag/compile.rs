//! Turning a finished graph into one that can be run and proved.
use std::collections::HashSet;

use vstd::prelude::*;

use crate::dag::block::{nested, Block, Op};
use crate::dag::builder::{tensor_list, DagBuilder};
use crate::dag::graph::{node_in_order, Graph};
use crate::dag::kahn::{
    acyclic, by_levels, feeds, in_level, is_permutation, kahn, last_feed, level_order, level_start, no_later,
};
use crate::dag::types::{node_list, AliasId, Dag, EdgeId, Node, NodeId, NodeSpec};
use crate::dag::witness::{Role, Tensor, Witness};

verus! {

broadcast use vstd::std_specs::hash::group_hash_axioms;

/// `id`, once for each of the first `k` inputs that is `e`.
pub open spec fn reads(inputs: Seq<EdgeId>, e: EdgeId, id: NodeId, k: nat) -> Seq<NodeId>
    decreases k,
{
    if k == 0 {
        Seq::empty()
    } else {
        let rest = reads(inputs, e, id, (k - 1) as nat);
        if inputs[k - 1] == e {
            rest.push(id)
        } else {
            rest
        }
    }
}

/// The nodes among the first `n` that read `e`, once per input.
pub open spec fn readers(nodes: Seq<NodeSpec>, e: EdgeId, n: nat) -> Seq<NodeId>
    decreases n,
{
    if n == 0 {
        Seq::empty()
    } else {
        readers(nodes, e, (n - 1) as nat) + reads(
            nodes[n - 1].inputs,
            e,
            nodes[n - 1].id,
            nodes[n - 1].inputs.len(),
        )
    }
}

/// Node `n` writes edge `e`.
pub open spec fn writes(nodes: Seq<NodeSpec>, n: int, e: EdgeId) -> bool {
    0 <= n < nodes.len() && nodes[n].outputs.contains(e)
}

/// The edges below `k` that no node writes and that hold inputs.
pub open spec fn free_inputs(values: Seq<Tensor>, producers: Seq<Option<NodeId>>, k: nat) -> Seq<
    EdgeId,
>
    decreases k,
{
    if k == 0 {
        Seq::empty()
    } else {
        let rest = free_inputs(values, producers, (k - 1) as nat);
        if producers[k - 1] is None && values[k - 1].role == Role::Input {
            rest.push((k - 1) as usize)
        } else {
            rest
        }
    }
}

/// The edges below `k` that no node reads.
pub open spec fn unread(consumers: Seq<Seq<NodeId>>, k: nat) -> Seq<EdgeId>
    decreases k,
{
    if k == 0 {
        Seq::empty()
    } else {
        let rest = unread(consumers, (k - 1) as nat);
        if consumers[k - 1].len() == 0 {
            rest.push((k - 1) as usize)
        } else {
            rest
        }
    }
}

/// The edges whose nonnegativity the first `k` checked nodes prove.
pub open spec fn nonneg_inputs(nodes: Seq<NodeSpec>, range: Seq<NodeId>, k: nat) -> Seq<EdgeId>
    decreases k,
{
    if k == 0 {
        Seq::empty()
    } else {
        let rest = nonneg_inputs(nodes, range, (k - 1) as nat);
        let node = nodes[range[k - 1] as int];
        if node.kind == Block::Op(Op::NonNegative) {
            rest.push(node.inputs[0])
        } else {
            rest
        }
    }
}

/// The readers of the first `k` outputs, one output after the other.
pub open spec fn fed_by(outputs: Seq<EdgeId>, consumers: Seq<Seq<NodeId>>, k: nat) -> Seq<NodeId>
    decreases k,
{
    if k == 0 {
        Seq::empty()
    } else {
        fed_by(outputs, consumers, (k - 1) as nat) + consumers[outputs[k - 1] as int]
    }
}

/// For every node the nodes that read its outputs.
pub open spec fn connections(nodes: Seq<NodeSpec>, consumers: Seq<Seq<NodeId>>) -> Seq<Seq<NodeId>> {
    Seq::new(
        nodes.len(),
        |n: int| fed_by(nodes[n].outputs, consumers, nodes[n].outputs.len()),
    )
}

/// One use of an edge: the edge, the node that reads it, and which of its inputs it is.
pub struct Use {
    pub edge: EdgeId,
    pub node: NodeId,
    pub slot: usize,
}

/// The uses of edges by the first `n` nodes, in order.
pub open spec fn uses(nodes: Seq<NodeSpec>, n: nat) -> Seq<Use>
    decreases n,
{
    if n == 0 {
        Seq::empty()
    } else {
        let inputs = nodes[n - 1].inputs;
        uses(nodes, (n - 1) as nat) + Seq::new(
            inputs.len(),
            |k: int| Use { edge: inputs[k], node: (n - 1) as usize, slot: k as usize },
        )
    }
}

/// The numbers of those of the first `k` uses that are of edge `e`.
pub open spec fn uses_of(us: Seq<Use>, e: EdgeId, k: nat) -> Seq<AliasId>
    decreases k,
{
    if k == 0 {
        Seq::empty()
    } else {
        let rest = uses_of(us, e, (k - 1) as nat);
        if us[k - 1].edge == e {
            rest.push(AliasId((k - 1) as usize))
        } else {
            rest
        }
    }
}

/// The lists of uses agree with the nodes.
pub open spec fn aliases_ok(nodes: Seq<NodeSpec>, dag: Dag) -> bool {
    let us = uses(nodes, nodes.len());
    &&& dag.alias_to_edge.len() == us.len()
    &&& dag.alias_to_consumer.len() == us.len()
    &&& dag.alias_input_slot.len() == us.len()
    &&& forall|a: int|
        0 <= a < us.len() ==> (#[trigger] us[a]).edge == dag.alias_to_edge[a] && us[a].node
            == dag.alias_to_consumer[a] && us[a].slot == dag.alias_input_slot[a]
    &&& dag.edge_aliases.len() == dag.num_edges
    &&& forall|e: int|
        0 <= e < dag.num_edges ==> (#[trigger] dag.edge_aliases[e])@ == uses_of(
            us,
            e as usize,
            us.len(),
        )
}

/// `dag` is the graph `g`, ready to be run and proved.
pub open spec fn compiled(g: Graph, dag: Dag) -> bool {
    let consumers = nested(dag.consumers@);
    &&& node_list(dag.nodes@) == g.nodes
    &&& dag.num_edges == g.values.len()
    &&& dag.range@ == g.range
    &&& dag.two_pow@ == g.two_pow
    &&& dag.layer_boundaries@ == g.layer_boundaries
    &&& dag.boundary_edges.len() == 0
    &&& dag.self_claim_edges@ == g.self_claims.to_set()
    &&& dag.consumers.len() == dag.num_edges
    &&& forall|e: int|
        0 <= e < dag.num_edges ==> (#[trigger] dag.consumers[e])@ == readers(
            g.nodes,
            e as usize,
            g.nodes.len(),
        )
    &&& dag.producers.len() == dag.num_edges
    &&& forall|e: int, n: int|
        0 <= e < dag.num_edges && 0 <= n < g.nodes.len() ==> (#[trigger] writes(
            g.nodes,
            n,
            e as usize,
        ) <==> dag.producers[e] == Some(n as usize))
    &&& forall|e: int|
        0 <= e < dag.num_edges ==> (#[trigger] dag.producers[e] matches Some(n) ==> n
            < g.nodes.len())
    &&& dag.input_ports@ == free_inputs(g.values, dag.producers@, g.values.len())
    &&& dag.output_ports@ == unread(consumers, g.values.len()) + nonneg_inputs(
        g.nodes,
        g.range,
        g.range.len(),
    )
    &&& is_permutation(dag.topo@, g.nodes.len())
    &&& by_levels(connections(g.nodes, consumers), dag.topo@, nested(dag.topo_levels@))
    &&& aliases_ok(g.nodes, dag)
}

/// Whoever reads an edge is among its readers, and nobody else is.
pub proof fn lemma_readers(nodes: Seq<NodeSpec>, e: EdgeId, n: nat)
    requires
        n <= nodes.len() <= usize::MAX,
        forall|i: int| 0 <= i < nodes.len() ==> (#[trigger] nodes[i]).id == i,
    ensures
        forall|k: int|
            0 <= k < readers(nodes, e, n).len() ==> (#[trigger] readers(nodes, e, n)[k]) < n
                && nodes[readers(nodes, e, n)[k] as int].inputs.contains(e),
        forall|v: int|
            0 <= v < n && (#[trigger] nodes[v]).inputs.contains(e) ==> readers(nodes, e, n).contains(
                v as usize,
            ),
    decreases n,
{
    if n > 0 {
        let m = (n - 1) as nat;
        lemma_readers(nodes, e, m);
        let node = nodes[m as int];
        let tail = reads(node.inputs, e, node.id, node.inputs.len());
        lemma_reads(node.inputs, e, node.id, node.inputs.len());
        let head = readers(nodes, e, m);
        let all = readers(nodes, e, n);
        assert forall|k: int| 0 <= k < all.len() implies (#[trigger] all[k]) < n && nodes[all[k] as int].inputs.contains(
            e,
        ) by {
            if k < head.len() {
                assert(all[k] == head[k]);
            } else {
                assert(all[k] == tail[k - head.len()]);
            }
        }
        assert forall|v: int| 0 <= v < n && (#[trigger] nodes[v]).inputs.contains(
            e,
        ) implies all.contains(v as usize) by {
            if v < m {
                assert(head.contains(v as usize));
                let k = choose|k: int| 0 <= k < head.len() && head[k] == v as usize;
                assert(all[k] == v as usize);
            } else {
                assert(tail.contains(node.id));
                let k = choose|k: int| 0 <= k < tail.len() && tail[k] == node.id;
                assert(all[head.len() + k] == node.id);
            }
        }
    }
}

proof fn lemma_reads(inputs: Seq<EdgeId>, e: EdgeId, id: NodeId, k: nat)
    requires
        k <= inputs.len(),
    ensures
        forall|j: int| 0 <= j < reads(inputs, e, id, k).len() ==> #[trigger] reads(inputs, e, id, k)[j] == id,
        reads(inputs, e, id, k).len() > 0 ==> inputs.contains(e),
        (exists|j: int| 0 <= j < k && inputs[j] == e) ==> reads(inputs, e, id, k).contains(id),
    decreases k,
{
    if k > 0 {
        let m = (k - 1) as nat;
        lemma_reads(inputs, e, id, m);
        let rest = reads(inputs, e, id, m);
        if inputs[k - 1] == e {
            assert(rest.push(id)[rest.len() as int] == id);
        } else if exists|j: int| 0 <= j < k && inputs[j] == e {
            let j = choose|j: int| 0 <= j < k && inputs[j] == e;
            assert(j < m);
        }
    }
}

/// What a node feeds reads one of its outputs, and what reads an output is fed.
proof fn lemma_fed_by(outputs: Seq<EdgeId>, consumers: Seq<Seq<NodeId>>, k: nat)
    requires
        k <= outputs.len(),
    ensures
        forall|j: int|
            0 <= j < fed_by(outputs, consumers, k).len() ==> exists|i: int|
                0 <= i < k && consumers[(#[trigger] outputs[i]) as int].contains(
                    #[trigger] fed_by(outputs, consumers, k)[j],
                ),
        forall|i: int, v: NodeId|
            0 <= i < k && consumers[(#[trigger] outputs[i]) as int].contains(v) ==> #[trigger] fed_by(
                outputs,
                consumers,
                k,
            ).contains(v),
    decreases k,
{
    if k > 0 {
        let m = (k - 1) as nat;
        lemma_fed_by(outputs, consumers, m);
        let head = fed_by(outputs, consumers, m);
        let tail = consumers[outputs[k - 1] as int];
        let all = fed_by(outputs, consumers, k);
        assert forall|j: int| 0 <= j < all.len() implies exists|i: int|
            0 <= i < k && consumers[(#[trigger] outputs[i]) as int].contains(#[trigger] all[j]) by {
            if j < head.len() {
                assert(all[j] == head[j]);
                let i = choose|i: int|
                    0 <= i < m && consumers[(#[trigger] outputs[i]) as int].contains(head[j]);
                assert(consumers[outputs[i] as int].contains(all[j]));
            } else {
                assert(all[j] == tail[j - head.len()]);
                assert(consumers[outputs[k - 1] as int].contains(all[j]));
            }
        }
        assert forall|i: int, v: NodeId| 0 <= i < k && consumers[(
        #[trigger] outputs[i]) as int].contains(v) implies #[trigger] all.contains(v) by {
            if i < m {
                assert(head.contains(v));
                let j = choose|j: int| 0 <= j < head.len() && head[j] == v;
                assert(all[j] == v);
            } else {
                let j = choose|j: int| 0 <= j < tail.len() && tail[j] == v;
                assert(all[head.len() + j] == v);
            }
        }
    }
}

/// Whoever reads an edge has a higher rank than whoever writes it.
pub open spec fn nodes_ranked(nodes: Seq<NodeSpec>, rank: spec_fn(int) -> nat) -> bool {
    forall|u: int, v: int, e: EdgeId|
        0 <= v < nodes.len() && #[trigger] writes(nodes, u, e) && #[trigger] nodes[v].inputs.contains(e)
            ==> rank(u) < rank(v)
}

/// A graph that can be compiled: nodes are numbered, read and write edges of the graph, no edge has
/// two writers, and no node depends on itself. The nodes may stand in any order.
pub open spec fn compilable(g: Graph) -> bool {
    &&& g.values.len() <= usize::MAX
    &&& g.nodes.len() <= usize::MAX
    &&& forall|n: int| 0 <= n < g.nodes.len() ==> (#[trigger] g.nodes[n]).id == n
    &&& forall|n: int, k: int|
        0 <= n < g.nodes.len() && 0 <= k < g.nodes[n].inputs.len() ==> (
        #[trigger] g.nodes[n].inputs[k]) < g.values.len()
    &&& forall|n: int, k: int|
        0 <= n < g.nodes.len() && 0 <= k < g.nodes[n].outputs.len() ==> (
        #[trigger] g.nodes[n].outputs[k]) < g.values.len()
    &&& forall|m: int, n: int, e: EdgeId| #[trigger]
        writes(g.nodes, m, e) && #[trigger] writes(g.nodes, n, e) ==> m == n
    &&& forall|i: int|
        0 <= i < g.range.len() ==> (#[trigger] g.range[i]) < g.nodes.len()
            && g.nodes[g.range[i] as int].inputs.len() > 0
    &&& exists|rank: spec_fn(int) -> nat| #[trigger] nodes_ranked(g.nodes, rank)
}

/// A graph whose nodes stand in the order of their making can be compiled.
pub proof fn lemma_wf_compilable(g: Graph)
    requires
        g.wf(),
    ensures
        compilable(g),
{
    assert forall|n: int| 0 <= n < g.nodes.len() implies node_in_order(
        #[trigger] g.nodes[n],
        n,
        g.first_output(n),
        g.values.len(),
    ) && g.nodes[n].id == n by {}
    assert forall|n: int, k: int| 0 <= n < g.nodes.len() && 0 <= k < g.nodes[n].inputs.len() implies (
    #[trigger] g.nodes[n].inputs[k]) < g.values.len() by {
        assert(g.nodes[n].id == n);
        assert(g.nodes[n].outputs[0] == g.first_output(n) + 0);
    }
    assert forall|n: int, k: int| 0 <= n < g.nodes.len() && 0 <= k < g.nodes[n].outputs.len() implies (
    #[trigger] g.nodes[n].outputs[k]) < g.values.len() by {
        assert(g.nodes[n].id == n);
    }
    assert forall|m: int, n: int, e: EdgeId| #[trigger]
        writes(g.nodes, m, e) && #[trigger] writes(g.nodes, n, e) implies m == n by {
        lemma_one_writer(g, m, n, e);
    }
    let rank = |n: int| n as nat;
    assert forall|u: int, v: int, e: EdgeId|
        0 <= v < g.nodes.len() && #[trigger] writes(g.nodes, u, e) && #[trigger] g.nodes[v].inputs.contains(
            e,
        ) implies rank(u) < rank(v) by {
        assert(g.nodes[u].id == u && g.nodes[v].id == v);
        let j = choose|j: int| 0 <= j < g.nodes[u].outputs.len() && g.nodes[u].outputs[j] == e;
        assert(g.nodes[u].outputs[j] == g.first_output(u) + j);
        let k = choose|k: int| 0 <= k < g.nodes[v].inputs.len() && g.nodes[v].inputs[k] == e;
        assert(g.nodes[v].inputs[k] < g.first_output(v));
        if v < u {
            assert(g.first_output(v) + g.nodes[v].outputs.len() <= g.first_output(u));
        }
    }
    assert(nodes_ranked(g.nodes, rank));
}

/// In a graph that can be compiled, no connections lead around.
proof fn lemma_acyclic(g: Graph, consumers: Seq<Seq<NodeId>>)
    requires
        compilable(g),
        consumers.len() == g.values.len(),
        forall|e: int|
            0 <= e < consumers.len() ==> #[trigger] consumers[e] == readers(
                g.nodes,
                e as usize,
                g.nodes.len(),
            ),
    ensures
        acyclic(connections(g.nodes, consumers)),
{
    let out = connections(g.nodes, consumers);
    let rank = choose|rank: spec_fn(int) -> nat| #[trigger] nodes_ranked(g.nodes, rank);
    assert forall|u: int, j: int| 0 <= u < out.len() && 0 <= j < out[u].len() implies (
    #[trigger] out[u][j]) < out.len() && rank(u) < rank(out[u][j] as int) by {
        let node = g.nodes[u];
        lemma_fed_by(node.outputs, consumers, node.outputs.len());
        let v = out[u][j];
        assert(out[u] == fed_by(node.outputs, consumers, node.outputs.len()));
        let i = choose|i: int|
            0 <= i < node.outputs.len() && consumers[(#[trigger] node.outputs[i]) as int].contains(v);
        let e = node.outputs[i];
        assert(g.nodes[u].outputs[i] < g.values.len());
        lemma_readers(g.nodes, e, g.nodes.len());
        let rs = readers(g.nodes, e, g.nodes.len());
        assert(consumers[e as int] == rs);
        let k = choose|k: int| 0 <= k < rs.len() && rs[k] == v;
        assert(rs[k] < g.nodes.len() && g.nodes[rs[k] as int].inputs.contains(e));
        assert(node.outputs.contains(e));
        assert(writes(g.nodes, u, e));
        assert(g.nodes[v as int].inputs.contains(e));
    }
    assert(crate::dag::kahn::ranked(out, rank));
}

/// Every node comes after the nodes whose outputs it reads.
pub proof fn lemma_topological(g: Graph, dag: Dag, p: int, q: int, e: EdgeId)
    requires
        compilable(g),
        compiled(g, dag),
        0 <= p < dag.topo.len(),
        0 <= q < dag.topo.len(),
        e < dag.num_edges,
        dag.producers[e as int] == Some(dag.topo[p]),
        g.nodes[dag.topo[q] as int].inputs.contains(e),
    ensures
        p < q,
{
    let consumers = nested(dag.consumers@);
    let out = connections(g.nodes, consumers);
    let levels = nested(dag.topo_levels@);
    let (u, v) = (dag.topo[p] as int, dag.topo[q] as int);
    assert(dag.topo@[p] < g.nodes.len() && dag.topo@[q] < g.nodes.len());
    lemma_readers(g.nodes, e, g.nodes.len());
    assert(consumers[e as int] == dag.consumers[e as int]@);
    assert(g.nodes[v].inputs.contains(e));
    assert(consumers[e as int].contains(v as usize));
    assert(writes(g.nodes, u, e));
    let node = g.nodes[u];
    lemma_fed_by(node.outputs, consumers, node.outputs.len());
    let i = choose|i: int| 0 <= i < node.outputs.len() && node.outputs[i] == e;
    assert(consumers[node.outputs[i] as int].contains(v as usize));
    assert(fed_by(node.outputs, consumers, node.outputs.len()).contains(v as usize));
    let j = choose|j: int| 0 <= j < out[u].len() && out[u][j] == v as usize;
    let fed = feeds(out, u, j, v);
    assert(fed);
    let found = choose|found: Seq<(int, int)>| #[trigger]
        level_order(out, dag.topo@, levels, found);
    lemma_in_some_level(levels, q, levels.len());
    let l = choose|l: int| 0 <= l < levels.len() && #[trigger] in_level(levels, l, q);
    if l == 0 {
        assert(level_start(levels, 1) == level_start(levels, 0) + levels[0].len());
        assert(levels[0][q] == dag.topo@[level_start(levels, 0) + q]);
        assert(levels[0].contains(v as usize));
        assert(crate::dag::kahn::is_source(out, v));
        assert(false);
    }
    assert(last_feed(out, dag.topo@, q, found[q]));
    let f2 = feeds(out, dag.topo@[p] as int, j, dag.topo@[q] as int);
    assert(f2);
    assert(no_later((p, j), found[q]));
    assert(found[q].0 < level_start(levels, l as nat));
}

/// Every position lies in some level.
proof fn lemma_in_some_level(levels: Seq<Seq<usize>>, p: int, n: nat)
    requires
        0 <= p < level_start(levels, n),
        n <= levels.len(),
    ensures
        exists|l: int| 0 <= l < n && #[trigger] in_level(levels, l, p),
    decreases n,
{
    if n > 0 {
        let m = (n - 1) as nat;
        if p < level_start(levels, m) {
            lemma_in_some_level(levels, p, m);
            let l = choose|l: int| 0 <= l < m && #[trigger] in_level(levels, l, p);
            assert(in_level(levels, l, p));
        } else {
            assert(in_level(levels, m as int, p));
        }
    }
}

/// `n` empty lists.
fn empty_lists(n: usize) -> (r: Vec<Vec<usize>>)
    ensures
        r.len() == n,
        forall|e: int| 0 <= e < n ==> (#[trigger] r[e])@ == Seq::<usize>::empty(),
{
    let mut r: Vec<Vec<usize>> = Vec::new();
    while r.len() < n
        invariant
            r.len() <= n,
            forall|e: int| 0 <= e < r.len() ==> (#[trigger] r[e])@ == Seq::<usize>::empty(),
        decreases n - r.len(),
    {
        r.push(Vec::new());
    }
    r
}

/// For every edge the nodes that read it.
fn find_consumers(nodes: &Vec<Node>, num_edges: usize) -> (r: Vec<Vec<NodeId>>)
    requires
        forall|n: int, k: int|
            0 <= n < nodes.len() && 0 <= k < nodes[n].inputs.len() ==> #[trigger] nodes[n].inputs[k]
                < num_edges,
    ensures
        r.len() == num_edges,
        forall|e: int|
            0 <= e < num_edges ==> (#[trigger] r[e])@ == readers(
                node_list(nodes@),
                e as usize,
                nodes.len() as nat,
            ),
{
    let ghost ns = node_list(nodes@);
    let mut r: Vec<Vec<NodeId>> = empty_lists(num_edges);
    let mut n: usize = 0;
    while n < nodes.len()
        invariant
            n <= nodes.len(),
            ns == node_list(nodes@),
            r.len() == num_edges,
            forall|n: int, k: int|
                0 <= n < nodes.len() && 0 <= k < nodes[n].inputs.len()
                    ==> #[trigger] nodes[n].inputs[k] < num_edges,
            forall|e: int|
                0 <= e < num_edges ==> (#[trigger] r[e])@ == readers(ns, e as usize, n as nat),
        decreases nodes.len() - n,
    {
        let id: usize = nodes[n].id;
        let mut k: usize = 0;
        assert forall|e: int| 0 <= e < num_edges implies (#[trigger] r[e])@ =~= readers(
            ns,
            e as usize,
            n as nat,
        ) + reads(ns[n as int].inputs, e as usize, id, 0) by {}
        while k < nodes[n].inputs.len()
            invariant
                n < nodes.len(),
                k <= nodes[n as int].inputs.len(),
                ns == node_list(nodes@),
                id == ns[n as int].id,
                r.len() == num_edges,
                forall|n: int, k: int|
                    0 <= n < nodes.len() && 0 <= k < nodes[n].inputs.len()
                        ==> #[trigger] nodes[n].inputs[k] < num_edges,
                forall|e: int|
                    0 <= e < num_edges ==> (#[trigger] r[e])@ == readers(
                        ns,
                        e as usize,
                        n as nat,
                    ) + reads(ns[n as int].inputs, e as usize, id, k as nat),
            decreases nodes[n as int].inputs.len() - k,
        {
            let e: usize = nodes[n].inputs[k];
            assert(nodes[n as int].inputs[k as int] < num_edges);
            let ghost before = r@;
            r[e].push(id);
            proof {
                assert forall|f: int| 0 <= f < num_edges implies (#[trigger] r[f])@ == readers(
                    ns,
                    f as usize,
                    n as nat,
                ) + reads(ns[n as int].inputs, f as usize, id, (k + 1) as nat) by {
                    let head = readers(ns, f as usize, n as nat);
                    let tail = reads(ns[n as int].inputs, f as usize, id, k as nat);
                    assert(before[f]@ == head + tail);
                    assert(ns[n as int].inputs[k as int] == e);
                    if f == e {
                        assert((head + tail).push(id) =~= head + tail.push(id));
                    } else {
                        assert(r[f] == before[f]);
                    }
                }
            }
            k = k + 1;
        }
        n = n + 1;
    }
    r
}

/// No edge is written twice.
proof fn lemma_one_writer(g: Graph, m: int, n: int, e: EdgeId)
    requires
        g.wf(),
        writes(g.nodes, m, e),
        writes(g.nodes, n, e),
    ensures
        m == n,
{
    assert(node_in_order(g.nodes[m], m, g.first_output(m), g.values.len()));
    assert(node_in_order(g.nodes[n], n, g.first_output(n), g.values.len()));
    let i = choose|i: int| 0 <= i < g.nodes[m].outputs.len() && g.nodes[m].outputs[i] == e;
    let j = choose|j: int| 0 <= j < g.nodes[n].outputs.len() && g.nodes[n].outputs[j] == e;
    assert(g.nodes[m].outputs[i] == g.first_output(m) + i);
    assert(g.nodes[n].outputs[j] == g.first_output(n) + j);
    if m < n {
        assert(g.first_output(m) + g.nodes[m].outputs.len() <= g.first_output(n));
    } else if n < m {
        assert(g.first_output(n) + g.nodes[n].outputs.len() <= g.first_output(m));
    }
}

/// For every edge the node that writes it.
fn find_producers(nodes: &Vec<Node>, num_edges: usize, Ghost(g): Ghost<Graph>) -> (r: Vec<
    Option<NodeId>,
>)
    requires
        compilable(g),
        node_list(nodes@) == g.nodes,
        num_edges == g.values.len(),
    ensures
        r.len() == num_edges,
        forall|e: int, n: int|
            0 <= e < num_edges && 0 <= n < g.nodes.len() ==> (#[trigger] writes(
                g.nodes,
                n,
                e as usize,
            ) <==> r[e] == Some(n as usize)),
        forall|e: int| 0 <= e < num_edges ==> (#[trigger] r[e] matches Some(n) ==> n < g.nodes.len()),
{
    let mut r: Vec<Option<NodeId>> = Vec::new();
    while r.len() < num_edges
        invariant
            r.len() <= num_edges,
            forall|e: int| 0 <= e < r.len() ==> (#[trigger] r[e]) is None,
        decreases num_edges - r.len(),
    {
        r.push(None);
    }
    let mut n: usize = 0;
    while n < nodes.len()
        invariant
            n <= nodes.len(),
            compilable(g),
            node_list(nodes@) == g.nodes,
            num_edges == g.values.len(),
            r.len() == num_edges,
            forall|e: int, m: int|
                0 <= e < num_edges && 0 <= m < n ==> (#[trigger] writes(g.nodes, m, e as usize)
                    <==> r[e] == Some(m as usize)),
            forall|e: int| 0 <= e < num_edges ==> (#[trigger] r[e] matches Some(m) ==> m < n),
        decreases nodes.len() - n,
    {
        let ghost node = g.nodes[n as int];
        assert(nodes[n as int].id == n) by {
            assert(node_list(nodes@)[n as int] == nodes[n as int]@);
        }
        let mut k: usize = 0;
        let ghost start = r@;
        while k < nodes[n].outputs.len()
            invariant
                n < nodes.len(),
                k <= nodes[n as int].outputs.len(),
                compilable(g),
                node_list(nodes@) == g.nodes,
                node == g.nodes[n as int],
                nodes[n as int].id == n,
                num_edges == g.values.len(),
                r.len() == num_edges,
                start.len() == num_edges,
                forall|e: int|
                    0 <= e < num_edges ==> #[trigger] r[e] == (if exists|j: int|
                        0 <= j < k && node.outputs[j] == e {
                        Some(n)
                    } else {
                        start[e]
                    }),
            decreases nodes[n as int].outputs.len() - k,
        {
            let e: usize = nodes[n].outputs[k];
            assert(node.outputs[k as int] == e);
            assert(g.nodes[n as int].outputs[k as int] < g.values.len());
            let ghost before = r@;
            r.set(e, Some(nodes[n].id));
            proof {
                assert forall|f: int| 0 <= f < num_edges implies #[trigger] r[f] == (if exists|j: int|
                    0 <= j < k + 1 && node.outputs[j] == f {
                    Some(n)
                } else {
                    start[f]
                }) by {
                    assert(before[f] == (if exists|j: int| 0 <= j < k && node.outputs[j] == f {
                        Some(n)
                    } else {
                        start[f]
                    }));
                    if f != e {
                        if exists|j: int| 0 <= j < k + 1 && node.outputs[j] == f {
                            let j = choose|j: int| 0 <= j < k + 1 && node.outputs[j] == f;
                            assert(j < k);
                        }
                    }
                }
            }
            k = k + 1;
        }
        proof {
            assert forall|e: int, m: int| 0 <= e < num_edges && 0 <= m < n + 1 implies (
            #[trigger] writes(g.nodes, m, e as usize) <==> r[e] == Some(m as usize)) by {
                assert(r[e] == (if exists|j: int| 0 <= j < k && node.outputs[j] == e {
                    Some(n)
                } else {
                    start[e]
                }));
                if writes(g.nodes, n as int, e as usize) {
                    let j = choose|j: int| 0 <= j < node.outputs.len() && node.outputs[j] == e as usize;
                    assert(node.outputs[j] == e);
                } else {
                    if exists|j: int| 0 <= j < k && node.outputs[j] == e {
                        let j = choose|j: int| 0 <= j < k && node.outputs[j] == e;
                        assert(node.outputs[j] == e as usize);
                        assert(node.outputs.contains(e as usize));
                    }
                    assert(r[e] == start[e]);
                }
            }
        }
        n = n + 1;
    }
    r
}

/// For every node the nodes that read its outputs.
fn find_connections(nodes: &Vec<Node>, consumers: &Vec<Vec<NodeId>>) -> (r: Vec<Vec<NodeId>>)
    requires
        forall|n: int, k: int|
            0 <= n < nodes.len() && 0 <= k < nodes[n].outputs.len()
                ==> #[trigger] nodes[n].outputs[k] < consumers.len(),
    ensures
        nested(r@) == connections(node_list(nodes@), nested(consumers@)),
{
    let ghost ns = node_list(nodes@);
    let ghost cs = nested(consumers@);
    let mut r: Vec<Vec<NodeId>> = Vec::new();
    let mut n: usize = 0;
    while n < nodes.len()
        invariant
            n <= nodes.len(),
            ns == node_list(nodes@),
            cs == nested(consumers@),
            forall|n: int, k: int|
                0 <= n < nodes.len() && 0 <= k < nodes[n].outputs.len()
                    ==> #[trigger] nodes[n].outputs[k] < consumers.len(),
            r.len() == n,
            forall|m: int|
                0 <= m < n ==> (#[trigger] r[m])@ == fed_by(
                    ns[m].outputs,
                    cs,
                    ns[m].outputs.len(),
                ),
        decreases nodes.len() - n,
    {
        let mut row: Vec<NodeId> = Vec::new();
        let mut k: usize = 0;
        while k < nodes[n].outputs.len()
            invariant
                n < nodes.len(),
                k <= nodes[n as int].outputs.len(),
                ns == node_list(nodes@),
                cs == nested(consumers@),
                forall|n: int, k: int|
                    0 <= n < nodes.len() && 0 <= k < nodes[n].outputs.len()
                        ==> #[trigger] nodes[n].outputs[k] < consumers.len(),
                row@ == fed_by(ns[n as int].outputs, cs, k as nat),
            decreases nodes[n as int].outputs.len() - k,
        {
            let e: usize = nodes[n].outputs[k];
            assert(nodes[n as int].outputs[k as int] < consumers.len());
            let ghost before = row@;
            let mut j: usize = 0;
            assert(row@ =~= before + consumers[e as int]@.take(0));
            while j < consumers[e].len()
                invariant
                    e < consumers.len(),
                    j <= consumers[e as int].len(),
                    row@ == before + consumers[e as int]@.take(j as int),
                decreases consumers[e as int].len() - j,
            {
                row.push(consumers[e][j]);
                j = j + 1;
                assert(row@ =~= before + consumers[e as int]@.take(j as int));
            }
            assert(consumers[e as int]@.take(j as int) =~= consumers[e as int]@);
            assert(cs[e as int] == consumers[e as int]@);
            k = k + 1;
        }
        r.push(row);
        n = n + 1;
    }
    assert(nested(r@) =~= connections(ns, cs));
    r
}

/// The edges that hold inputs and are written by no node.
fn find_inputs(values: &Vec<Option<Witness>>, producers: &Vec<Option<NodeId>>) -> (r: Vec<EdgeId>)
    requires
        values.len() == producers.len(),
        forall|e: int| 0 <= e < values.len() ==> (#[trigger] values[e]) is Some,
    ensures
        r@ == free_inputs(tensor_list(values@), producers@, values.len() as nat),
{
    let ghost ts = tensor_list(values@);
    let mut r: Vec<EdgeId> = Vec::new();
    let mut e: usize = 0;
    while e < values.len()
        invariant
            e <= values.len() == producers.len(),
            ts == tensor_list(values@),
            forall|e: int| 0 <= e < values.len() ==> (#[trigger] values[e]) is Some,
            r@ == free_inputs(ts, producers@, e as nat),
        decreases values.len() - e,
    {
        assert(values[e as int] is Some);
        assert(ts[e as int] == values[e as int]->0@);
        let is_input: bool = match &values[e] {
            Some(w) => w.role == Role::Input,
            None => false,
        };
        if producers[e].is_none() && is_input {
            r.push(e);
        }
        e = e + 1;
    }
    r
}

/// The edges that no node reads, then those that are proved nonnegative.
fn find_outputs(nodes: &Vec<Node>, consumers: &Vec<Vec<NodeId>>, range: &Vec<NodeId>) -> (r: Vec<
    EdgeId,
>)
    requires
        forall|i: int|
            0 <= i < range.len() ==> (#[trigger] range[i]) < nodes.len() && nodes[range[i] as int].inputs.len()
                > 0,
    ensures
        r@ == unread(nested(consumers@), consumers.len() as nat) + nonneg_inputs(
            node_list(nodes@),
            range@,
            range.len() as nat,
        ),
{
    let ghost cs = nested(consumers@);
    let ghost ns = node_list(nodes@);
    let mut r: Vec<EdgeId> = Vec::new();
    let mut e: usize = 0;
    while e < consumers.len()
        invariant
            e <= consumers.len(),
            cs == nested(consumers@),
            r@ == unread(cs, e as nat),
        decreases consumers.len() - e,
    {
        assert(cs[e as int] == consumers[e as int]@);
        if consumers[e].len() == 0 {
            r.push(e);
        }
        e = e + 1;
    }
    let ghost head = r@;
    let mut i: usize = 0;
    assert(r@ =~= head + nonneg_inputs(ns, range@, 0));
    while i < range.len()
        invariant
            i <= range.len(),
            ns == node_list(nodes@),
            forall|i: int|
                0 <= i < range.len() ==> (#[trigger] range[i]) < nodes.len()
                    && nodes[range[i] as int].inputs.len() > 0,
            r@ == head + nonneg_inputs(ns, range@, i as nat),
        decreases range.len() - i,
    {
        let n: usize = range[i];
        let ghost tail = nonneg_inputs(ns, range@, i as nat);
        assert(ns[n as int] == nodes[n as int]@);
        if nodes[n].kind.is_nonnegative() {
            let e: usize = nodes[n].inputs[0];
            r.push(e);
            assert(r@ =~= head + tail.push(e));
        }
        i = i + 1;
    }
    r
}

/// The uses of all edges.
struct Aliases {
    pub edge_aliases: Vec<Vec<AliasId>>,
    pub to_edge: Vec<EdgeId>,
    pub to_consumer: Vec<NodeId>,
    pub input_slot: Vec<usize>,
}

/// The first uses have been listed.
spec fn listed(a: Aliases, us: Seq<Use>, num_edges: usize) -> bool {
    &&& a.to_edge.len() == us.len()
    &&& a.to_consumer.len() == us.len()
    &&& a.input_slot.len() == us.len()
    &&& forall|i: int|
        0 <= i < us.len() ==> (#[trigger] us[i]).edge == a.to_edge[i] && us[i].node
            == a.to_consumer[i] && us[i].slot == a.input_slot[i]
    &&& a.edge_aliases.len() == num_edges
    &&& forall|e: int|
        0 <= e < num_edges ==> (#[trigger] a.edge_aliases[e])@ == uses_of(us, e as usize, us.len())
}

/// Earlier uses do not depend on later ones.
proof fn lemma_uses_of_prefix(us: Seq<Use>, u: Use, e: EdgeId, k: nat)
    requires
        k <= us.len(),
    ensures
        uses_of(us.push(u), e, k) == uses_of(us, e, k),
    decreases k,
{
    if k > 0 {
        lemma_uses_of_prefix(us, u, e, (k - 1) as nat);
    }
}

/// Lists the uses of all edges.
fn find_aliases(nodes: &Vec<Node>, num_edges: usize) -> (r: Aliases)
    requires
        forall|n: int, k: int|
            0 <= n < nodes.len() && 0 <= k < nodes[n].inputs.len() ==> #[trigger] nodes[n].inputs[k]
                < num_edges,
    ensures
        listed(r, uses(node_list(nodes@), nodes.len() as nat), num_edges),
{
    let ghost ns = node_list(nodes@);
    let mut edge_aliases: Vec<Vec<AliasId>> = Vec::new();
    while edge_aliases.len() < num_edges
        invariant
            edge_aliases.len() <= num_edges,
            forall|e: int|
                0 <= e < edge_aliases.len() ==> (#[trigger] edge_aliases[e])@ == Seq::<
                    AliasId,
                >::empty(),
        decreases num_edges - edge_aliases.len(),
    {
        edge_aliases.push(Vec::new());
    }
    let mut r: Aliases = Aliases {
        edge_aliases,
        to_edge: Vec::new(),
        to_consumer: Vec::new(),
        input_slot: Vec::new(),
    };
    let mut n: usize = 0;
    while n < nodes.len()
        invariant
            n <= nodes.len(),
            ns == node_list(nodes@),
            forall|n: int, k: int|
                0 <= n < nodes.len() && 0 <= k < nodes[n].inputs.len()
                    ==> #[trigger] nodes[n].inputs[k] < num_edges,
            listed(r, uses(ns, n as nat), num_edges),
        decreases nodes.len() - n,
    {
        let ghost head = uses(ns, n as nat);
        let ghost inputs = ns[n as int].inputs;
        let ghost more = Seq::new(
            inputs.len(),
            |k: int| Use { edge: inputs[k], node: n, slot: k as usize },
        );
        let mut k: usize = 0;
        assert(head + more.take(0) =~= head);
        while k < nodes[n].inputs.len()
            invariant
                n < nodes.len(),
                k <= nodes[n as int].inputs.len(),
                ns == node_list(nodes@),
                inputs == ns[n as int].inputs,
                more == Seq::new(
                    inputs.len(),
                    |k: int| Use { edge: inputs[k], node: n, slot: k as usize },
                ),
                forall|n: int, k: int|
                    0 <= n < nodes.len() && 0 <= k < nodes[n].inputs.len()
                        ==> #[trigger] nodes[n].inputs[k] < num_edges,
                listed(r, head + more.take(k as int), num_edges),
            decreases nodes[n as int].inputs.len() - k,
        {
            let e: usize = nodes[n].inputs[k];
            assert(nodes[n as int].inputs[k as int] < num_edges);
            let ghost us = head + more.take(k as int);
            let ghost before = r;
            let aid: AliasId = AliasId(r.to_edge.len());
            r.to_edge.push(e);
            r.to_consumer.push(n);
            r.input_slot.push(k);
            r.edge_aliases[e].push(aid);
            proof {
                let u = more[k as int];
                assert(head + more.take(k + 1) =~= us.push(u));
                let nu = us.push(u);
                assert forall|i: int| 0 <= i < nu.len() implies (#[trigger] nu[i]).edge
                    == r.to_edge[i] && nu[i].node == r.to_consumer[i] && nu[i].slot
                    == r.input_slot[i] by {
                    if i < us.len() {
                        assert(nu[i] == us[i]);
                    }
                }
                assert forall|f: int| 0 <= f < num_edges implies (
                #[trigger] r.edge_aliases[f])@ == uses_of(nu, f as usize, nu.len()) by {
                    lemma_uses_of_prefix(us, u, f as usize, us.len());
                    assert(before.edge_aliases[f]@ == uses_of(us, f as usize, us.len()));
                    assert(nu[nu.len() - 1] == u);
                    if f == e {
                        assert(r.edge_aliases[f]@ =~= before.edge_aliases[f]@.push(aid));
                    } else {
                        assert(r.edge_aliases[f] == before.edge_aliases[f]);
                    }
                }
            }
            k = k + 1;
        }
        assert(more.take(k as int) =~= more);
        n = n + 1;
    }
    r
}

/// The set of the listed edges.
fn edge_set(edges: &Vec<EdgeId>) -> (r: HashSet<EdgeId>)
    ensures
        r@ == edges@.to_set(),
{
    let mut r: HashSet<EdgeId> = HashSet::new();
    let mut i: usize = 0;
    assert(edges@.take(0).to_set() =~= Set::<EdgeId>::empty());
    while i < edges.len()
        invariant
            i <= edges.len(),
            r@ == edges@.take(i as int).to_set(),
        decreases edges.len() - i,
    {
        r.insert(edges[i]);
        proof {
            let t = edges@.take(i as int);
            let u = edges@.take(i as int + 1);
            assert(u.to_set() =~= t.to_set().insert(edges[i as int])) by {
                assert forall|x: EdgeId| u.to_set().contains(x) == t.to_set().insert(
                    edges[i as int],
                ).contains(x) by {
                    if u.contains(x) {
                        let k = choose|k: int| 0 <= k < u.len() && u[k] == x;
                        if k < i {
                            assert(t[k] == x);
                        }
                    }
                    if t.contains(x) {
                        let k = choose|k: int| 0 <= k < t.len() && t[k] == x;
                        assert(u[k] == x);
                    }
                    if x == edges[i as int] {
                        assert(u[i as int] == x);
                    }
                }
            }
        }
        i = i + 1;
    }
    assert(edges@.take(i as int) =~= edges@);
    r
}

impl DagBuilder {
    /// Finds who writes and reads the edges, what goes in and out, and the order of the nodes.
    /// Returns the graph and the tensors on its edges.
    #[verifier::rlimit(40)]
    pub fn compile(self) -> (r: (Dag, Vec<Vec<Witness>>))
        requires
            self.loaded(),
            compilable(self@),
        ensures
            compiled(self@, r.0),
            r.0.edges_ok(),
            r.1.len() == r.0.num_edges,
            forall|e: int|
                0 <= e < r.1.len() ==> (#[trigger] r.1[e]).len() == 1 && r.1[e][0]@
                    == self@.values[e],
    {
        let ghost g = self@;
        let num_edges: usize = self.num_edges;
        proof {
            assert forall|n: int, k: int|
                0 <= n < self.nodes.len() && 0 <= k < self.nodes[n].inputs.len() implies (
            #[trigger] self.nodes[n].inputs[k]) < num_edges by {
                assert(g.nodes[n] == self.nodes[n]@);
                assert(g.nodes[n].inputs[k] < g.values.len());
            }
            assert forall|n: int, k: int|
                0 <= n < self.nodes.len() && 0 <= k < self.nodes[n].outputs.len() implies (
            #[trigger] self.nodes[n].outputs[k]) < num_edges by {
                assert(g.nodes[n] == self.nodes[n]@);
                assert(g.nodes[n].outputs[k] < g.values.len());
            }
            assert forall|n: int| 0 <= n < self.nodes.len() implies (#[trigger] self.nodes[n]).id
                == n by {
                assert(g.nodes[n] == self.nodes[n]@);
                assert(g.nodes[n].id == n);
            }
            assert forall|i: int| 0 <= i < self.range.len() implies (#[trigger] self.range[i])
                < self.nodes.len() && self.nodes[self.range[i] as int].inputs.len() > 0 by {
                assert(g.range[i] < g.nodes.len());
                assert(g.nodes[g.range[i] as int] == self.nodes[self.range[i] as int]@);
            }
        }
        let consumers: Vec<Vec<NodeId>> = find_consumers(&self.nodes, num_edges);
        let producers: Vec<Option<NodeId>> = find_producers(&self.nodes, num_edges, Ghost(g));
        let input_ports: Vec<EdgeId> = find_inputs(&self.init_values, &producers);
        let output_ports: Vec<EdgeId> = find_outputs(&self.nodes, &consumers, &self.range);
        let outgoing: Vec<Vec<NodeId>> = find_connections(&self.nodes, &consumers);
        proof {
            let cs = nested(consumers@);
            assert forall|e: int| 0 <= e < cs.len() implies #[trigger] cs[e] == readers(
                g.nodes,
                e as usize,
                g.nodes.len(),
            ) by {
                assert(cs[e] == consumers[e]@);
            }
            lemma_acyclic(g, cs);
            assert(nested(outgoing@).len() == outgoing.len());
        }
        let (topo, topo_levels) = kahn(&outgoing);
        let aliases: Aliases = find_aliases(&self.nodes, num_edges);
        let self_claim_edges: HashSet<EdgeId> = edge_set(&self.self_claim_edges);
        let witnesses: Vec<Vec<Witness>> = wrap_values(&self.init_values);
        let dag: Dag = Dag {
            nodes: self.nodes,
            num_edges,
            topo,
            topo_levels,
            range: self.range,
            two_pow: self.two_pow,
            consumers,
            producers,
            input_ports,
            output_ports,
            layer_boundaries: self.layer_boundaries,
            boundary_edges: Vec::new(),
            self_claim_edges,
            edge_aliases: aliases.edge_aliases,
            alias_to_edge: aliases.to_edge,
            alias_to_consumer: aliases.to_consumer,
            alias_input_slot: aliases.input_slot,
        };
        (dag, witnesses)
    }
}

/// Every tensor in a list of its own.
fn wrap_values(values: &Vec<Option<Witness>>) -> (r: Vec<Vec<Witness>>)
    requires
        forall|e: int| 0 <= e < values.len() ==> (#[trigger] values[e]) is Some,
    ensures
        r.len() == values.len(),
        forall|e: int|
            0 <= e < r.len() ==> (#[trigger] r[e]).len() == 1 && r[e][0]@ == tensor_list(values@)[e],
{
    let mut r: Vec<Vec<Witness>> = Vec::new();
    let mut e: usize = 0;
    while e < values.len()
        invariant
            e <= values.len(),
            forall|e: int| 0 <= e < values.len() ==> (#[trigger] values[e]) is Some,
            r.len() == e,
            forall|k: int|
                0 <= k < e ==> (#[trigger] r[k]).len() == 1 && r[k][0]@ == tensor_list(values@)[k],
        decreases values.len() - e,
    {
        assert(values[e as int] is Some);
        let mut row: Vec<Witness> = Vec::new();
        match &values[e] {
            Some(w) => {
                row.push(w.clone());
            },
            None => {},
        }
        r.push(row);
        e = e + 1;
    }
    r
}

} // verus!
