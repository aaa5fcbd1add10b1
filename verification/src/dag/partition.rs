//! Cutting a graph into partitions that can be proved independently.
//!
//! The graph is cut at boundary edges. Every partition is proved on its own;
//! commitments at the boundaries tie the partitions together.
use vstd::prelude::*;

use crate::dag::compile::{
    compiled, lemma_readers, readers, writes,
};
use crate::dag::graph::{node_in_order, Graph};
use crate::dag::kahn::is_permutation;
use crate::dag::types::{node_list, Dag, EdgeId, Node, NodeId};
use crate::dag::witness::clone_words;

verus! {

/// One partition of a graph.
#[derive(Debug)]
pub struct PartitionDesc {
    pub partition_id: usize,
    /// The nodes of the partition, in topological order.
    pub node_ids: Vec<NodeId>,
    /// Edges that the partition reads and does not write.
    pub input_edges: Vec<EdgeId>,
    /// Edges that the partition writes and that are read elsewhere or nowhere.
    pub output_edges: Vec<EdgeId>,
    /// The boundary edges among the inputs.
    pub boundary_input_edges: Vec<EdgeId>,
    /// The boundary edges among the outputs.
    pub boundary_output_edges: Vec<EdgeId>,
}

impl Dag {
    /// Node `v` reads edge `e`.
    pub open spec fn reads(&self, v: int, e: int) -> bool {
        0 <= v < self.nodes.len() && 0 <= e < self.num_edges && self.nodes[v].inputs@.contains(e as usize)
    }

    /// Node `u` writes edge `e`.
    pub open spec fn writes(&self, u: int, e: int) -> bool {
        0 <= u < self.nodes.len() && 0 <= e < self.num_edges && self.nodes[u].outputs@.contains(e as usize)
    }

    /// The lists of readers and writers agree with the nodes, and the order of the nodes is
    /// topological.
    pub open spec fn linked(&self) -> bool {
        &&& self.edges_ok()
        &&& forall|e: int, v: int|
            0 <= e < self.num_edges && 0 <= v < self.nodes.len() ==> (#[trigger] self.reads(v, e)
                <==> self.consumers[e]@.contains(v as usize))
        &&& forall|e: int, k: int|
            0 <= e < self.num_edges && 0 <= k < self.consumers[e].len()
                ==> #[trigger] self.consumers[e][k] < self.nodes.len()
        &&& forall|e: int, u: int|
            0 <= e < self.num_edges && 0 <= u < self.nodes.len() ==> (#[trigger] self.writes(u, e)
                <==> self.producers[e] == Some(u as usize))
        &&& forall|e: int|
            0 <= e < self.num_edges ==> (#[trigger] self.producers[e] matches Some(u) ==> u
                < self.nodes.len())
        &&& is_permutation(self.topo@, self.nodes.len() as nat)
        &&& forall|p: int, q: int, e: int|
            0 <= p < self.topo.len() && 0 <= q < self.topo.len() && #[trigger] self.writes(
                self.topo[p] as int,
                e,
            ) && #[trigger] self.reads(self.topo[q] as int, e) ==> p < q
    }
}

/// A compiled graph is linked.
pub proof fn lemma_compiled_linked(g: Graph, dag: Dag)
    requires
        g.wf(),
        compiled(g, dag),
    ensures
        dag.linked(),
{
    let ns = g.nodes;
    assert forall|n: int| 0 <= n < dag.nodes.len() implies dag.nodes[n]@ == ns[n] && node_in_order(
        ns[n],
        n,
        g.first_output(n),
        g.values.len(),
    ) && (#[trigger] dag.nodes[n]).id == n by {
        assert(node_list(dag.nodes@)[n] == dag.nodes[n]@);
        assert(node_in_order(g.nodes[n], n, g.first_output(n), g.values.len()));
    }
    assert forall|i: int| 0 <= i < ns.len() implies (#[trigger] ns[i]).id == i by {
        assert(dag.nodes[i].id == i);
    }
    assert(dag.edges_ok()) by {
        assert forall|n: int, k: int|
            0 <= n < dag.nodes.len() && 0 <= k < dag.nodes[n].inputs.len() implies (
        #[trigger] dag.nodes[n].inputs[k]) < dag.num_edges by {
            assert(dag.nodes[n].id == n);
            assert(ns[n].inputs[k] < g.first_output(n));
            assert(ns[n].outputs[0] == g.first_output(n) + 0);
        }
        assert forall|n: int, k: int|
            0 <= n < dag.nodes.len() && 0 <= k < dag.nodes[n].outputs.len() implies (
        #[trigger] dag.nodes[n].outputs[k]) < dag.num_edges by {
            assert(dag.nodes[n].id == n);
            assert(ns[n].outputs[k] == g.first_output(n) + k);
        }
    }
    assert forall|e: int, v: int| 0 <= e < dag.num_edges && 0 <= v < dag.nodes.len() implies (
    #[trigger] dag.reads(v, e) <==> dag.consumers[e]@.contains(v as usize)) by {
        assert(dag.nodes[v].id == v);
        let rs = readers(ns, e as usize, ns.len());
        assert(dag.consumers[e]@ == rs);
        lemma_readers(ns, e as usize, ns.len());
        if dag.reads(v, e) {
            assert(ns[v].inputs.contains(e as usize));
        }
        if rs.contains(v as usize) {
            let k = choose|k: int| 0 <= k < rs.len() && rs[k] == v as usize;
            assert(ns[rs[k] as int].inputs.contains(e as usize));
        }
    }
    assert forall|e: int, k: int| 0 <= e < dag.num_edges && 0 <= k < dag.consumers[e].len() implies (
    #[trigger] dag.consumers[e][k]) < dag.nodes.len() by {
        let rs = readers(ns, e as usize, ns.len());
        assert(dag.consumers[e]@ == rs);
        lemma_readers(ns, e as usize, ns.len());
        assert(rs[k] < ns.len());
    }
    assert forall|e: int, u: int| 0 <= e < dag.num_edges && 0 <= u < dag.nodes.len() implies (
    #[trigger] dag.writes(u, e) <==> dag.producers[e] == Some(u as usize)) by {
        assert(dag.nodes[u].id == u);
        let w = writes(ns, u, e as usize);
        assert(w <==> dag.producers[e] == Some(u as usize));
    }
    assert forall|p: int, q: int, e: int|
        0 <= p < dag.topo.len() && 0 <= q < dag.topo.len() && #[trigger] dag.writes(
            dag.topo[p] as int,
            e,
        ) && #[trigger] dag.reads(dag.topo[q] as int, e) implies p < q by {
        let (u, v) = (dag.topo[p] as int, dag.topo[q] as int);
        assert(dag.topo@[p] < ns.len() && dag.topo@[q] < ns.len());
        assert(dag.nodes[u].id == u && dag.nodes[v].id == v);
        let w = dag.writes(u, e);
        assert(w <==> dag.producers[e] == Some(u as usize));
        crate::dag::compile::lemma_wf_compilable(g);
        crate::dag::compile::lemma_topological(g, dag, p, q, e as usize);
    }
}

/// The last position of `e` in the list of boundaries.
pub open spec fn boundary_index(boundaries: Seq<EdgeId>, e: EdgeId) -> Option<int>
    decreases boundaries.len(),
{
    if boundaries.len() == 0 {
        None
    } else if boundaries.last() == e {
        Some(boundaries.len() - 1)
    } else {
        boundary_index(boundaries.drop_last(), e)
    }
}

/// The first partition that may read `e`: the one after the boundary, where `e` is one.
pub open spec fn opens(boundaries: Seq<EdgeId>, e: EdgeId) -> int {
    match boundary_index(boundaries, e) {
        Some(k) => k + 1,
        None => 0,
    }
}

/// The first partition that may read all of the first `k` inputs.
pub open spec fn base_partition(boundaries: Seq<EdgeId>, inputs: Seq<EdgeId>, k: nat) -> int
    decreases k,
{
    if k == 0 {
        0
    } else {
        let rest = base_partition(boundaries, inputs, (k - 1) as nat);
        let o = opens(boundaries, inputs[k - 1]);
        if o > rest {
            o
        } else {
            rest
        }
    }
}

/// Node `u` hands its partition on to node `v` over edge `e`, which is no boundary.
pub open spec fn hands_on(dag: Dag, boundaries: Seq<EdgeId>, u: int, v: int, e: int) -> bool {
    dag.writes(u, e) && dag.reads(v, e) && !boundaries.contains(e as usize)
}

/// Every node is in the first partition that its boundary inputs and the nodes before it allow.
pub open spec fn assigned(dag: Dag, boundaries: Seq<EdgeId>, np: Seq<usize>) -> bool {
    let base = |v: int|
        base_partition(boundaries, dag.nodes[v].inputs@, dag.nodes[v].inputs@.len());
    &&& np.len() == dag.nodes.len()
    &&& forall|v: int| 0 <= v < np.len() ==> #[trigger] np[v] >= base(v)
    &&& forall|u: int, v: int, e: int|
        #[trigger] hands_on(dag, boundaries, u, v, e) ==> np[u] <= np[v]
    &&& forall|v: int|
        0 <= v < np.len() && #[trigger] np[v] != base(v) ==> exists|u: int, e: int| #[trigger]
            hands_on(dag, boundaries, u, v, e) && np[u] == np[v]
}

/// The nodes among the first `n` of the order that are in partition `k`.
pub open spec fn nodes_in(topo: Seq<NodeId>, np: Seq<usize>, k: usize, n: nat) -> Seq<NodeId>
    decreases n,
{
    if n == 0 {
        Seq::empty()
    } else {
        let rest = nodes_in(topo, np, k, (n - 1) as nat);
        if np[topo[n - 1] as int] == k {
            rest.push(topo[n - 1])
        } else {
            rest
        }
    }
}

/// Partition `k` reads edge `e` and does not write it.
pub open spec fn enters(dag: Dag, np: Seq<usize>, k: usize, e: int) -> bool {
    &&& exists|v: int| #[trigger] dag.reads(v, e) && np[v] == k
    &&& !(dag.producers[e] matches Some(u) && np[u as int] == k)
}

/// Partition `k` writes edge `e`, which is read elsewhere or nowhere.
pub open spec fn leaves(dag: Dag, np: Seq<usize>, k: usize, e: int) -> bool {
    &&& (dag.producers[e] matches Some(u) && np[u as int] == k)
    &&& dag.consumers[e].len() == 0 || exists|v: int| #[trigger] dag.reads(v, e) && np[v] != k
}

/// The edges below `n` that enter partition `k`, in increasing order.
pub open spec fn entering(dag: Dag, np: Seq<usize>, k: usize, n: nat) -> Seq<EdgeId>
    decreases n,
{
    if n == 0 {
        Seq::empty()
    } else {
        let rest = entering(dag, np, k, (n - 1) as nat);
        if enters(dag, np, k, n - 1) {
            rest.push((n - 1) as usize)
        } else {
            rest
        }
    }
}

/// The edges below `n` that leave partition `k`, in increasing order.
pub open spec fn leaving(dag: Dag, np: Seq<usize>, k: usize, n: nat) -> Seq<EdgeId>
    decreases n,
{
    if n == 0 {
        Seq::empty()
    } else {
        let rest = leaving(dag, np, k, (n - 1) as nat);
        if leaves(dag, np, k, n - 1) {
            rest.push((n - 1) as usize)
        } else {
            rest
        }
    }
}

/// The listed edges that are boundaries.
pub open spec fn among(edges: Seq<EdgeId>, boundaries: Seq<EdgeId>) -> Seq<EdgeId>
    decreases edges.len(),
{
    if edges.len() == 0 {
        Seq::empty()
    } else {
        let rest = among(edges.drop_last(), boundaries);
        if boundaries.contains(edges.last()) {
            rest.push(edges.last())
        } else {
            rest
        }
    }
}

/// `desc` is partition `k` under the given assignment of nodes.
pub open spec fn describes(
    dag: Dag,
    boundaries: Seq<EdgeId>,
    np: Seq<usize>,
    k: usize,
    desc: PartitionDesc,
) -> bool {
    &&& desc.partition_id == k
    &&& desc.node_ids@ == nodes_in(dag.topo@, np, k, dag.topo.len() as nat)
    &&& desc.input_edges@ == entering(dag, np, k, dag.num_edges as nat)
    &&& desc.output_edges@ == leaving(dag, np, k, dag.num_edges as nat)
    &&& desc.boundary_input_edges@ == among(desc.input_edges@, boundaries)
    &&& desc.boundary_output_edges@ == among(desc.output_edges@, boundaries)
}

/// The partitions of a graph under some assignment of nodes.
pub open spec fn partitioned(
    dag: Dag,
    boundaries: Seq<EdgeId>,
    np: Seq<usize>,
    parts: Seq<PartitionDesc>,
) -> bool {
    &&& assigned(dag, boundaries, np)
    &&& parts.len() == boundaries.len() + 1
    &&& forall|k: int|
        0 <= k < parts.len() ==> describes(dag, boundaries, np, k as usize, #[trigger] parts[k])
}

/// The graph as one partition.
pub open spec fn whole(dag: Dag, desc: PartitionDesc) -> bool {
    &&& desc.partition_id == 0
    &&& desc.node_ids@ == dag.topo@
    &&& desc.input_edges@ == dag.input_ports@
    &&& desc.output_edges@ == dag.output_ports@
    &&& desc.boundary_input_edges.len() == 0
    &&& desc.boundary_output_edges.len() == 0
}

/// What partitioning yields.
pub open spec fn partitions_of(dag: Dag, boundaries: Seq<EdgeId>, parts: Seq<PartitionDesc>) -> bool {
    if boundaries.len() == 0 {
        parts.len() == 1 && whole(dag, parts[0])
    } else {
        exists|np: Seq<usize>| #[trigger] partitioned(dag, boundaries, np, parts)
    }
}

/// Finds the last position of an edge in the list of boundaries.
fn find_boundary(boundaries: &[EdgeId], e: EdgeId) -> (r: Option<usize>)
    ensures
        match r {
            Some(k) => boundary_index(boundaries@, e) == Some(k as int) && k < boundaries.len(),
            None => boundary_index(boundaries@, e) is None,
        },
        r is Some <==> boundaries@.contains(e),
{
    let mut i: usize = boundaries.len();
    assert(boundaries@.take(i as int) =~= boundaries@);
    while i > 0
        invariant
            i <= boundaries.len(),
            boundary_index(boundaries@, e) == boundary_index(boundaries@.take(i as int), e),
            forall|k: int| i <= k < boundaries.len() ==> #[trigger] boundaries@[k] != e,
        decreases i,
    {
        proof {
            assert(boundaries@.take(i as int).drop_last() =~= boundaries@.take(i - 1));
            assert(boundaries@.take(i as int).last() == boundaries[i - 1]);
        }
        i = i - 1;
        if boundaries[i] == e {
            assert(boundaries@[i as int] == e);
            return Some(i);
        }
    }
    None
}

/// The partition of every node by its boundary inputs alone.
fn base_partitions(nodes: &Vec<Node>, boundaries: &[EdgeId]) -> (r: Vec<usize>)
    requires
        boundaries.len() < usize::MAX,
    ensures
        r.len() == nodes.len(),
        forall|v: int|
            0 <= v < r.len() ==> #[trigger] r[v] == base_partition(
                boundaries@,
                nodes[v].inputs@,
                nodes[v].inputs@.len(),
            ) && r[v] <= boundaries.len(),
{
    let mut r: Vec<usize> = Vec::new();
    let mut v: usize = 0;
    while v < nodes.len()
        invariant
            v <= nodes.len(),
            boundaries.len() < usize::MAX,
            r.len() == v,
            forall|w: int|
                0 <= w < v ==> #[trigger] r[w] == base_partition(
                    boundaries@,
                    nodes[w].inputs@,
                    nodes[w].inputs@.len(),
                ) && r[w] <= boundaries.len(),
        decreases nodes.len() - v,
    {
        let mut first: usize = 0;
        let mut k: usize = 0;
        while k < nodes[v].inputs.len()
            invariant
                v < nodes.len(),
                k <= nodes[v as int].inputs.len(),
                boundaries.len() < usize::MAX,
                first == base_partition(boundaries@, nodes[v as int].inputs@, k as nat),
                first <= boundaries.len(),
            decreases nodes[v as int].inputs.len() - k,
        {
            match find_boundary(boundaries, nodes[v].inputs[k]) {
                Some(b) => {
                    if b + 1 > first {
                        first = b + 1;
                    }
                },
                None => {},
            }
            k = k + 1;
        }
        r.push(first);
        v = v + 1;
    }
    r
}

/// The assignment after the first `t` nodes of the order have handed their partitions on.
spec fn propagated(dag: Dag, boundaries: Seq<EdgeId>, np: Seq<usize>, t: int) -> bool {
    let base = |v: int|
        base_partition(boundaries, dag.nodes[v].inputs@, dag.nodes[v].inputs@.len());
    &&& np.len() == dag.nodes.len()
    &&& forall|v: int| 0 <= v < np.len() ==> #[trigger] np[v] >= base(v)
    &&& forall|p: int, v: int, e: int|
        0 <= p < t && #[trigger] hands_on(dag, boundaries, dag.topo[p] as int, v, e)
            ==> np[dag.topo[p] as int] <= np[v]
    &&& forall|v: int|
        0 <= v < np.len() && #[trigger] np[v] != base(v) ==> exists|p: int, e: int|
            0 <= p < t && #[trigger] hands_on(dag, boundaries, dag.topo[p] as int, v, e)
                && np[dag.topo[p] as int] == np[v]
}

/// The assignment after node `topo[t]` has handed its partition on to the readers of its first `j`
/// outputs and to the first `c` readers of the next one.
spec fn handing_on(
    dag: Dag,
    boundaries: Seq<EdgeId>,
    before: Seq<usize>,
    np: Seq<usize>,
    t: int,
    j: int,
    c: int,
) -> bool {
    let u = dag.topo[t] as int;
    let outs = dag.nodes[u].outputs@;
    &&& np.len() == before.len()
    &&& forall|v: int|
        0 <= v < np.len() ==> #[trigger] np[v] >= before[v] && (np[v] != before[v] ==> np[v]
            == before[u] && exists|e: int| #[trigger] hands_on(dag, boundaries, u, v, e))
    &&& forall|i: int, k: int|
        0 <= i < outs.len() && !boundaries.contains(outs[i]) && 0 <= k
            < dag.consumers[outs[i] as int].len() && (i < j || (i == j && k < c))
            ==> np[#[trigger] dag.consumers[outs[i] as int][k] as int] >= before[u]
}

/// Only later nodes are changed.
proof fn lemma_handed(
    dag: Dag,
    boundaries: Seq<EdgeId>,
    before: Seq<usize>,
    np: Seq<usize>,
    t: int,
)
    requires
        dag.linked(),
        0 <= t < dag.topo.len(),
        propagated(dag, boundaries, before, t),
        handing_on(
            dag,
            boundaries,
            before,
            np,
            t,
            dag.nodes[dag.topo[t] as int].outputs.len() as int,
            0,
        ),
    ensures
        propagated(dag, boundaries, np, t + 1),
{
    let u = dag.topo[t] as int;
    assert(dag.topo@[t] < dag.nodes.len());
    let outs = dag.nodes[u].outputs@;
    // a changed node comes after position t
    assert forall|p: int| 0 <= p <= t implies np[(#[trigger] dag.topo[p]) as int]
        == before[dag.topo[p] as int] by {
        let v = dag.topo[p] as int;
        assert(dag.topo@[p] < dag.nodes.len());
        if np[v] != before[v] {
            let e = choose|e: int| #[trigger] hands_on(dag, boundaries, u, v, e);
            assert(dag.writes(dag.topo[t] as int, e) && dag.reads(dag.topo[p] as int, e));
        }
    }
    assert forall|p: int, v: int, e: int|
        0 <= p < t + 1 && #[trigger] hands_on(dag, boundaries, dag.topo[p] as int, v, e) implies
        np[dag.topo[p] as int] <= np[v] by {
        let w = dag.topo[p] as int;
        assert(np[w] == before[w]);
        assert(0 <= v < np.len());
        assert(np[v] >= before[v]);
        if p < t {
            assert(before[w] <= before[v]);
        } else {
            assert(dag.writes(u, e) && dag.reads(v, e));
            let i = choose|i: int| 0 <= i < outs.len() && outs[i] == e as usize;
            let cs = dag.consumers[e]@;
            assert(cs.contains(v as usize));
            let k = choose|k: int| 0 <= k < cs.len() && cs[k] == v as usize;
            assert(dag.consumers[outs[i] as int][k] == v);
        }
    }
    let base = |v: int|
        base_partition(boundaries, dag.nodes[v].inputs@, dag.nodes[v].inputs@.len());
    assert forall|v: int| 0 <= v < np.len() && #[trigger] np[v] != base(v) implies exists|p: int, e: int|
        0 <= p < t + 1 && #[trigger] hands_on(dag, boundaries, dag.topo[p] as int, v, e)
            && np[dag.topo[p] as int] == np[v] by {
        if np[v] != before[v] {
            let e = choose|e: int| #[trigger] hands_on(dag, boundaries, u, v, e);
            assert(hands_on(dag, boundaries, dag.topo[t] as int, v, e) && np[dag.topo[t] as int]
                == np[v]);
        } else {
            let (p, e) = choose|p: int, e: int|
                0 <= p < t && #[trigger] hands_on(dag, boundaries, dag.topo[p] as int, v, e)
                    && before[dag.topo[p] as int] == before[v];
            assert(np[dag.topo[p] as int] == before[dag.topo[p] as int]);
            assert(hands_on(dag, boundaries, dag.topo[p] as int, v, e));
        }
    }
    assert forall|v: int| 0 <= v < np.len() implies #[trigger] np[v] >= base(v) by {
        assert(before[v] >= base(v));
    }
}

/// Assigns every node to a partition.
#[verifier::rlimit(40)]
fn assign(dag: &Dag, boundaries: &[EdgeId]) -> (np: Vec<usize>)
    requires
        dag.linked(),
        boundaries.len() < usize::MAX,
    ensures
        assigned(*dag, boundaries@, np@),
        forall|v: int| 0 <= v < np.len() ==> #[trigger] np[v] <= boundaries.len(),
{
    let mut np: Vec<usize> = base_partitions(&dag.nodes, boundaries);
    let ghost bs = boundaries@;
    let mut t: usize = 0;
    while t < dag.topo.len()
        invariant
            t <= dag.topo.len(),
            dag.linked(),
            bs == boundaries@,
            propagated(*dag, bs, np@, t as int),
            forall|v: int| 0 <= v < np.len() ==> #[trigger] np[v] <= boundaries.len(),
        decreases dag.topo.len() - t,
    {
        let nid: usize = dag.topo[t];
        assert(dag.topo@[t as int] < dag.nodes.len());
        let my: usize = np[nid];
        let ghost before = np@;
        let mut j: usize = 0;
        while j < dag.nodes[nid].outputs.len()
            invariant
                t < dag.topo.len(),
                nid == dag.topo[t as int],
                nid < dag.nodes.len(),
                j <= dag.nodes[nid as int].outputs.len(),
                dag.linked(),
                bs == boundaries@,
                before.len() == dag.nodes.len(),
                my == before[nid as int],
                my <= boundaries.len(),
                handing_on(*dag, bs, before, np@, t as int, j as int, 0),
                forall|v: int| 0 <= v < np.len() ==> #[trigger] np[v] <= boundaries.len(),
            decreases dag.nodes[nid as int].outputs.len() - j,
        {
            let e: usize = dag.nodes[nid].outputs[j];
            assert(dag.nodes[nid as int].outputs[j as int] < dag.num_edges);
            let ghost outs = dag.nodes[nid as int].outputs@;
            if find_boundary(boundaries, e).is_none() {
                let mut c: usize = 0;
                while c < dag.consumers[e].len()
                    invariant
                        t < dag.topo.len(),
                        nid == dag.topo[t as int],
                        nid < dag.nodes.len(),
                        j < dag.nodes[nid as int].outputs.len(),
                        outs == dag.nodes[nid as int].outputs@,
                        e == outs[j as int],
                        e < dag.num_edges,
                        !bs.contains(e),
                        c <= dag.consumers[e as int].len(),
                        dag.linked(),
                        bs == boundaries@,
                        before.len() == dag.nodes.len(),
                        my == before[nid as int],
                        my <= boundaries.len(),
                        handing_on(*dag, bs, before, np@, t as int, j as int, c as int),
                        forall|v: int| 0 <= v < np.len() ==> #[trigger] np[v] <= boundaries.len(),
                    decreases dag.consumers[e as int].len() - c,
                {
                    let v: usize = dag.consumers[e][c];
                    assert(dag.consumers[e as int][c as int] < dag.nodes.len());
                    let ghost prev = np@;
                    proof {
                        assert(dag.consumers[e as int]@[c as int] == v);
                        assert(dag.consumers[e as int]@.contains(v));
                        assert(dag.reads(v as int, e as int));
                        assert(dag.nodes[nid as int].outputs@[j as int] == e);
                        assert(dag.writes(nid as int, e as int));
                        assert(hands_on(*dag, bs, nid as int, v as int, e as int));
                    }
                    if np[v] < my {
                        np.set(v, my);
                    }
                    proof {
                        assert forall|w: int| 0 <= w < np.len() implies #[trigger] np[w] >= before[w]
                            && (np[w] != before[w] ==> np[w] == before[nid as int] && exists|
                            e: int,
                        | #[trigger] hands_on(*dag, bs, nid as int, w, e)) by {
                            assert(prev[w] >= before[w]);
                        }
                        assert forall|i: int, k: int|
                            0 <= i < outs.len() && !bs.contains(outs[i]) && 0 <= k
                                < dag.consumers[outs[i] as int].len() && (i < j || (i == j && k < c
                                + 1)) implies np[#[trigger] dag.consumers[outs[i] as int][k] as int]
                            >= before[nid as int] by {
                            let w = dag.consumers[outs[i] as int][k];
                            assert(dag.nodes[nid as int].outputs[i] < dag.num_edges);
                            assert(w < dag.nodes.len());
                            if !(i == j && k == c) {
                                assert(prev[dag.consumers[outs[i] as int][k] as int]
                                    >= before[nid as int]);
                            }
                        }
                    }
                    c = c + 1;
                }
            }
            j = j + 1;
        }
        proof {
            lemma_handed(*dag, bs, before, np@, t as int);
        }
        t = t + 1;
    }
    proof {
        lemma_assigned(*dag, bs, np@);
    }
    np
}

/// When all nodes have handed their partitions on, the assignment is settled.
proof fn lemma_assigned(dag: Dag, boundaries: Seq<EdgeId>, np: Seq<usize>)
    requires
        dag.linked(),
        propagated(dag, boundaries, np, dag.topo.len() as int),
    ensures
        assigned(dag, boundaries, np),
{
    let base = |v: int|
        base_partition(boundaries, dag.nodes[v].inputs@, dag.nodes[v].inputs@.len());
    assert forall|u: int, v: int, e: int| #[trigger] hands_on(dag, boundaries, u, v, e) implies np[u]
        <= np[v] by {
        assert(0 <= u < dag.nodes.len());
        assert(dag.topo@.contains(u as usize));
        let p = choose|p: int| 0 <= p < dag.topo.len() && dag.topo@[p] == u as usize;
        assert(hands_on(dag, boundaries, dag.topo[p] as int, v, e));
    }
    assert forall|v: int| 0 <= v < np.len() && #[trigger] np[v] != base(v) implies exists|u: int, e: int|
        #[trigger] hands_on(dag, boundaries, u, v, e) && np[u] == np[v] by {
        let (p, e) = choose|p: int, e: int|
            0 <= p < dag.topo.len() && #[trigger] hands_on(
                dag,
                boundaries,
                dag.topo[p] as int,
                v,
                e,
            ) && np[dag.topo[p] as int] == np[v];
        assert(hands_on(dag, boundaries, dag.topo[p] as int, v, e));
    }
}

/// The nodes of one partition, in order.
fn collect_nodes(dag: &Dag, np: &Vec<usize>, k: usize) -> (r: Vec<NodeId>)
    requires
        dag.linked(),
        np.len() == dag.nodes.len(),
    ensures
        r@ == nodes_in(dag.topo@, np@, k, dag.topo.len() as nat),
{
    let mut r: Vec<NodeId> = Vec::new();
    let mut t: usize = 0;
    while t < dag.topo.len()
        invariant
            t <= dag.topo.len(),
            dag.linked(),
            np.len() == dag.nodes.len(),
            r@ == nodes_in(dag.topo@, np@, k, t as nat),
        decreases dag.topo.len() - t,
    {
        let nid: usize = dag.topo[t];
        assert(dag.topo@[t as int] < dag.nodes.len());
        if np[nid] == k {
            r.push(nid);
        }
        t = t + 1;
    }
    r
}

/// Whether some reader of an edge is in partition `k`, and whether some reader is not.
fn reader_partitions(dag: &Dag, np: &Vec<usize>, k: usize, e: usize) -> (r: (bool, bool))
    requires
        dag.linked(),
        np.len() == dag.nodes.len(),
        e < dag.num_edges,
    ensures
        r.0 <==> exists|v: int| #[trigger] dag.reads(v, e as int) && np[v] == k,
        r.1 <==> exists|v: int| #[trigger] dag.reads(v, e as int) && np[v] != k,
{
    let mut inside: bool = false;
    let mut outside: bool = false;
    let mut c: usize = 0;
    while c < dag.consumers[e].len()
        invariant
            e < dag.num_edges,
            c <= dag.consumers[e as int].len(),
            dag.linked(),
            np.len() == dag.nodes.len(),
            inside <==> exists|i: int|
                0 <= i < c && np[(#[trigger] dag.consumers[e as int][i]) as int] == k,
            outside <==> exists|i: int|
                0 <= i < c && np[(#[trigger] dag.consumers[e as int][i]) as int] != k,
        decreases dag.consumers[e as int].len() - c,
    {
        let v: usize = dag.consumers[e][c];
        assert(dag.consumers[e as int][c as int] < dag.nodes.len());
        if np[v] == k {
            inside = true;
        } else {
            outside = true;
        }
        c = c + 1;
    }
    proof {
        let cs = dag.consumers[e as int]@;
        assert forall|i: int| 0 <= i < cs.len() implies dag.reads(
            (#[trigger] dag.consumers[e as int][i]) as int,
            e as int,
        ) by {
            let v = dag.consumers[e as int][i];
            assert(v < dag.nodes.len());
            assert(cs[i] == v);
            assert(cs.contains(v));
        }
        assert forall|v: int| #[trigger] dag.reads(v, e as int) implies exists|i: int|
            0 <= i < cs.len() && #[trigger] dag.consumers[e as int][i] == v by {
            assert(cs.contains(v as usize));
            let i = choose|i: int| 0 <= i < cs.len() && cs[i] == v as usize;
            assert(dag.consumers[e as int][i] == v);
        }
    }
    (inside, outside)
}

/// The edges that enter and the edges that leave partition `k`.
fn collect_edges(dag: &Dag, np: &Vec<usize>, k: usize) -> (r: (Vec<EdgeId>, Vec<EdgeId>))
    requires
        dag.linked(),
        np.len() == dag.nodes.len(),
    ensures
        r.0@ == entering(*dag, np@, k, dag.num_edges as nat),
        r.1@ == leaving(*dag, np@, k, dag.num_edges as nat),
{
    let mut inputs: Vec<EdgeId> = Vec::new();
    let mut outputs: Vec<EdgeId> = Vec::new();
    let mut e: usize = 0;
    while e < dag.num_edges
        invariant
            e <= dag.num_edges,
            dag.linked(),
            np.len() == dag.nodes.len(),
            inputs@ == entering(*dag, np@, k, e as nat),
            outputs@ == leaving(*dag, np@, k, e as nat),
        decreases dag.num_edges - e,
    {
        let (inside, outside) = reader_partitions(dag, np, k, e);
        let written: bool = match dag.producers[e] {
            Some(u) => {
                assert(u < dag.nodes.len());
                np[u] == k
            },
            None => false,
        };
        if inside && !written {
            inputs.push(e);
        }
        if written && (outside || dag.consumers[e].len() == 0) {
            outputs.push(e);
        }
        e = e + 1;
    }
    (inputs, outputs)
}

/// The listed edges that are boundaries.
fn select_boundaries(edges: &Vec<EdgeId>, boundaries: &[EdgeId]) -> (r: Vec<EdgeId>)
    ensures
        r@ == among(edges@, boundaries@),
{
    let mut r: Vec<EdgeId> = Vec::new();
    let mut i: usize = 0;
    assert(edges@.take(0) =~= Seq::<EdgeId>::empty());
    while i < edges.len()
        invariant
            i <= edges.len(),
            r@ == among(edges@.take(i as int), boundaries@),
        decreases edges.len() - i,
    {
        proof {
            assert(edges@.take(i as int + 1).drop_last() =~= edges@.take(i as int));
            assert(edges@.take(i as int + 1).last() == edges[i as int]);
        }
        if find_boundary(boundaries, edges[i]).is_some() {
            r.push(edges[i]);
        }
        i = i + 1;
    }
    assert(edges@.take(i as int) =~= edges@);
    r
}

/// Cuts a graph at the given edges, into one partition more than there are edges. Whatever reads
/// boundary `k` is in a partition after `k`.
pub fn partition_dag(dag: &Dag, boundary_edges: &[EdgeId]) -> (parts: Vec<PartitionDesc>)
    requires
        dag.linked(),
        boundary_edges.len() < usize::MAX,
    ensures
        partitions_of(*dag, boundary_edges@, parts@),
{
    if boundary_edges.len() == 0 {
        let desc: PartitionDesc = PartitionDesc {
            partition_id: 0,
            node_ids: clone_words(dag.topo.as_slice()),
            input_edges: clone_words(dag.input_ports.as_slice()),
            output_edges: clone_words(dag.output_ports.as_slice()),
            boundary_input_edges: Vec::new(),
            boundary_output_edges: Vec::new(),
        };
        let mut parts: Vec<PartitionDesc> = Vec::new();
        parts.push(desc);
        return parts;
    }
    let np: Vec<usize> = assign(dag, boundary_edges);
    let mut parts: Vec<PartitionDesc> = Vec::new();
    let mut k: usize = 0;
    while k < boundary_edges.len() + 1
        invariant
            k <= boundary_edges.len() + 1,
            boundary_edges.len() < usize::MAX,
            dag.linked(),
            np.len() == dag.nodes.len(),
            parts.len() == k,
            forall|i: int|
                0 <= i < k ==> describes(
                    *dag,
                    boundary_edges@,
                    np@,
                    i as usize,
                    #[trigger] parts[i],
                ),
        decreases boundary_edges.len() + 1 - k,
    {
        let node_ids: Vec<NodeId> = collect_nodes(dag, &np, k);
        let (input_edges, output_edges) = collect_edges(dag, &np, k);
        let boundary_input_edges: Vec<EdgeId> = select_boundaries(&input_edges, boundary_edges);
        let boundary_output_edges: Vec<EdgeId> = select_boundaries(&output_edges, boundary_edges);
        parts.push(
            PartitionDesc {
                partition_id: k,
                node_ids,
                input_edges,
                output_edges,
                boundary_input_edges,
                boundary_output_edges,
            },
        );
        k = k + 1;
    }
    proof {
        lemma_partitioned(*dag, boundary_edges@, np@, parts@);
    }
    parts
}

proof fn lemma_partitioned(
    dag: Dag,
    boundaries: Seq<EdgeId>,
    np: Seq<usize>,
    parts: Seq<PartitionDesc>,
)
    requires
        boundaries.len() > 0,
        partitioned(dag, boundaries, np, parts),
    ensures
        partitions_of(dag, boundaries, parts),
{
}

/// The nodes of a partition are those assigned to it, each once.
pub proof fn lemma_nodes_in(topo: Seq<NodeId>, np: Seq<usize>, k: usize, n: nat, v: NodeId)
    requires
        n <= topo.len(),
    ensures
        nodes_in(topo, np, k, n).contains(v) <==> np[v as int] == k && (exists|p: int|
            0 <= p < n && topo[p] == v),
    decreases n,
{
    if n > 0 {
        let m = (n - 1) as nat;
        lemma_nodes_in(topo, np, k, m, v);
        let rest = nodes_in(topo, np, k, m);
        let all = nodes_in(topo, np, k, n);
        if all.contains(v) {
            let i = choose|i: int| 0 <= i < all.len() && all[i] == v;
            if i < rest.len() {
                assert(rest[i] == v);
                assert(rest.contains(v));
                let p = choose|p: int| 0 <= p < m && topo[p] == v;
                assert(topo[p] == v);
            } else {
                assert(topo[n - 1] == v);
            }
        }
        if np[v as int] == k && exists|p: int| 0 <= p < n && topo[p] == v {
            let p = choose|p: int| 0 <= p < n && topo[p] == v;
            if p < m {
                assert(topo[p] == v);
                assert(rest.contains(v));
                let i = choose|i: int| 0 <= i < rest.len() && rest[i] == v;
                assert(all[i] == v);
            } else {
                assert(all[rest.len() as int] == v);
            }
        }
    }
}

/// Every node is in exactly one partition.
pub proof fn lemma_one_partition(
    dag: Dag,
    boundaries: Seq<EdgeId>,
    np: Seq<usize>,
    parts: Seq<PartitionDesc>,
    v: int,
)
    requires
        dag.linked(),
        boundaries.len() < usize::MAX,
        partitioned(dag, boundaries, np, parts),
        0 <= v < dag.nodes.len(),
    ensures
        forall|k: int|
            0 <= k < parts.len() ==> ((#[trigger] parts[k]).node_ids@.contains(v as usize) <==> k
                == np[v]),
{
    assert(dag.topo@.contains(v as usize));
    let p = choose|p: int| 0 <= p < dag.topo.len() && dag.topo@[p] == v as usize;
    assert forall|k: int| 0 <= k < parts.len() implies ((#[trigger] parts[k]).node_ids@.contains(
        v as usize,
    ) <==> k == np[v]) by {
        assert(describes(dag, boundaries, np, k as usize, parts[k]));
        lemma_nodes_in(dag.topo@, np, k as usize, dag.topo.len() as nat, v as usize);
        assert(dag.topo@[p] == v as usize);
    }
}

proof fn lemma_base_opens(boundaries: Seq<EdgeId>, inputs: Seq<EdgeId>, k: nat, j: int)
    requires
        0 <= j < k <= inputs.len(),
    ensures
        base_partition(boundaries, inputs, k) >= opens(boundaries, inputs[j]),
    decreases k,
{
    if j < k - 1 {
        lemma_base_opens(boundaries, inputs, (k - 1) as nat, j);
    }
}

/// Partitions follow the edges: a reader is in no earlier partition than the writer, and what
/// reads boundary `k` is in a partition after `k`.
pub proof fn lemma_partitions_forward(
    dag: Dag,
    boundaries: Seq<EdgeId>,
    np: Seq<usize>,
    v: int,
    e: int,
)
    requires
        dag.linked(),
        assigned(dag, boundaries, np),
        dag.reads(v, e),
    ensures
        boundary_index(boundaries, e as usize) matches Some(k) ==> np[v] > k,
        !boundaries.contains(e as usize) && dag.producers[e] is Some ==> np[dag.producers[e]->0 as int]
            <= np[v],
{
    let inputs = dag.nodes[v].inputs@;
    let j = choose|j: int| 0 <= j < inputs.len() && inputs[j] == e as usize;
    lemma_base_opens(boundaries, inputs, inputs.len(), j);
    assert(np[v] >= base_partition(boundaries, inputs, inputs.len()));
    if !boundaries.contains(e as usize) && dag.producers[e] is Some {
        let u = dag.producers[e]->0 as int;
        let w = dag.writes(u, e);
        assert(dag.producers[e] == Some(u as usize));
        assert(w);
        let h = hands_on(dag, boundaries, u, v, e);
        assert(h);
    }
}

/// The partition that lists a node: the last one that does.
pub open spec fn listed_in(parts: Seq<PartitionDesc>, v: NodeId) -> Option<usize>
    decreases parts.len(),
{
    if parts.len() == 0 {
        None
    } else if parts.last().node_ids@.contains(v) {
        Some(parts.last().partition_id)
    } else {
        listed_in(parts.drop_last(), v)
    }
}

/// The partition that owns an edge: that of its writer, or else that of its first reader.
pub open spec fn owner(dag: Dag, parts: Seq<PartitionDesc>, e: int) -> Option<usize> {
    let first = if dag.consumers[e].len() > 0 {
        listed_in(parts, dag.consumers[e][0])
    } else {
        None
    };
    match dag.producers[e] {
        Some(u) => match listed_in(parts, u) {
            Some(k) => Some(k),
            None => first,
        },
        None => first,
    }
}

/// Finds the partition of every node.
fn node_owners(n: usize, parts: &[PartitionDesc]) -> (r: Vec<Option<usize>>)
    requires
        forall|p: int, i: int|
            0 <= p < parts.len() && 0 <= i < parts[p].node_ids.len()
                ==> #[trigger] parts[p].node_ids[i] < n,
    ensures
        r.len() == n,
        forall|v: int| 0 <= v < n ==> #[trigger] r[v] == listed_in(parts@, v as usize),
{
    let mut r: Vec<Option<usize>> = Vec::new();
    while r.len() < n
        invariant
            r.len() <= n,
            forall|v: int| 0 <= v < r.len() ==> (#[trigger] r[v]) is None,
        decreases n - r.len(),
    {
        r.push(None);
    }
    let mut p: usize = 0;
    assert(parts@.take(0) =~= Seq::<PartitionDesc>::empty());
    while p < parts.len()
        invariant
            p <= parts.len(),
            r.len() == n,
            forall|p: int, i: int|
                0 <= p < parts.len() && 0 <= i < parts[p].node_ids.len()
                    ==> #[trigger] parts[p].node_ids[i] < n,
            forall|v: int|
                0 <= v < n ==> #[trigger] r[v] == listed_in(parts@.take(p as int), v as usize),
        decreases parts.len() - p,
    {
        let ghost ids = parts[p as int].node_ids@;
        let ghost before = r@;
        let id: usize = parts[p].partition_id;
        let mut i: usize = 0;
        while i < parts[p].node_ids.len()
            invariant
                p < parts.len(),
                i <= parts[p as int].node_ids.len(),
                ids == parts[p as int].node_ids@,
                id == parts[p as int].partition_id,
                r.len() == n,
                before.len() == n,
                forall|p: int, i: int|
                    0 <= p < parts.len() && 0 <= i < parts[p].node_ids.len()
                        ==> #[trigger] parts[p].node_ids[i] < n,
                forall|v: int|
                    0 <= v < n ==> #[trigger] r[v] == (if ids.take(i as int).contains(v as usize) {
                        Some(id)
                    } else {
                        before[v]
                    }),
            decreases parts[p as int].node_ids.len() - i,
        {
            let nid: usize = parts[p].node_ids[i];
            assert(parts[p as int].node_ids[i as int] < n);
            let ghost prev = r@;
            r.set(nid, Some(id));
            proof {
                assert forall|v: int| 0 <= v < n implies #[trigger] r[v] == (if ids.take(
                    i as int + 1,
                ).contains(v as usize) {
                    Some(id)
                } else {
                    before[v]
                }) by {
                    let (a, b) = (ids.take(i as int), ids.take(i as int + 1));
                    assert(prev[v] == (if a.contains(v as usize) {
                        Some(id)
                    } else {
                        before[v]
                    }));
                    if v == nid {
                        assert(b[i as int] == v as usize);
                    } else {
                        if a.contains(v as usize) {
                            let x = choose|x: int| 0 <= x < a.len() && a[x] == v as usize;
                            assert(b[x] == v as usize);
                        }
                        if b.contains(v as usize) {
                            let x = choose|x: int| 0 <= x < b.len() && b[x] == v as usize;
                            assert(a[x] == v as usize);
                        }
                    }
                }
            }
            i = i + 1;
        }
        proof {
            assert(ids.take(i as int) =~= ids);
            assert(parts@.take(p as int + 1).drop_last() =~= parts@.take(p as int));
            assert(parts@.take(p as int + 1).last() == parts[p as int]);
            assert forall|v: int| 0 <= v < n implies #[trigger] r[v] == listed_in(
                parts@.take(p as int + 1),
                v as usize,
            ) by {
                assert(before[v] == listed_in(parts@.take(p as int), v as usize));
            }
        }
        p = p + 1;
    }
    assert(parts@.take(p as int) =~= parts@);
    r
}

/// Maps every edge to the partition that owns it.
pub fn edge_partition_map(dag: &Dag, partitions: &[PartitionDesc]) -> (map: Vec<Option<usize>>)
    requires
        dag.linked(),
        forall|p: int, i: int|
            0 <= p < partitions.len() && 0 <= i < partitions[p].node_ids.len()
                ==> #[trigger] partitions[p].node_ids[i] < dag.nodes.len(),
    ensures
        map.len() == dag.num_edges,
        forall|e: int| 0 <= e < map.len() ==> #[trigger] map[e] == owner(*dag, partitions@, e),
{
    let owners: Vec<Option<usize>> = node_owners(dag.nodes.len(), partitions);
    let mut map: Vec<Option<usize>> = Vec::new();
    let mut e: usize = 0;
    while e < dag.num_edges
        invariant
            e <= dag.num_edges,
            dag.linked(),
            owners.len() == dag.nodes.len(),
            forall|v: int|
                0 <= v < owners.len() ==> #[trigger] owners[v] == listed_in(partitions@, v as usize),
            map.len() == e,
            forall|f: int| 0 <= f < e ==> #[trigger] map[f] == owner(*dag, partitions@, f),
        decreases dag.num_edges - e,
    {
        let mut k: Option<usize> = match dag.producers[e] {
            Some(u) => {
                assert(u < dag.nodes.len());
                owners[u]
            },
            None => None,
        };
        if k.is_none() && dag.consumers[e].len() > 0 {
            assert(dag.consumers[e as int][0] < dag.nodes.len());
            k = owners[dag.consumers[e][0]];
        }
        map.push(k);
        e = e + 1;
    }
    map
}

impl Dag {
    /// The candidate that becomes boundary `i` of `n` partitions.
    pub open spec fn boundary_choice(candidates: int, n: int, i: int) -> int {
        let idx = ((i + 1) * candidates) / n;
        if idx <= candidates - 1 {
            idx
        } else {
            candidates - 1
        }
    }

    /// Cuts the graph at evenly spaced layer boundaries so that it has the given number of
    /// partitions; with one partition, or without layer boundaries, it is not cut.
    pub fn set_partition_boundaries(&mut self, num_partitions: usize)
        requires
            num_partitions >= 1,
            num_partitions > 1 && old(self).layer_boundaries.len() > 0 ==> num_partitions - 1
                <= old(self).layer_boundaries.len() && num_partitions * old(
                self,
            ).layer_boundaries.len() <= usize::MAX,
        ensures
            *final(self) == (Dag { boundary_edges: final(self).boundary_edges, ..*old(self) }),
            final(self).boundary_edges@ == (if num_partitions == 1 || old(
                self,
            ).layer_boundaries.len() == 0 {
                Seq::empty()
            } else {
                Seq::new(
                    (num_partitions - 1) as nat,
                    |i: int|
                        old(self).layer_boundaries[Dag::boundary_choice(
                            old(self).layer_boundaries.len() as int,
                            num_partitions as int,
                            i,
                        )],
                )
            }),
    {
        if num_partitions == 1 || self.layer_boundaries.len() == 0 {
            self.boundary_edges = Vec::new();
            assert(self.boundary_edges@ =~= Seq::<EdgeId>::empty());
            return;
        }
        let candidates: usize = self.layer_boundaries.len();
        let mut selected: Vec<EdgeId> = Vec::new();
        let ghost target = Seq::new(
            (num_partitions - 1) as nat,
            |i: int|
                self.layer_boundaries[Dag::boundary_choice(
                    candidates as int,
                    num_partitions as int,
                    i,
                )],
        );
        let mut i: usize = 0;
        while i < num_partitions - 1
            invariant
                i <= num_partitions - 1,
                num_partitions > 1,
                candidates == self.layer_boundaries.len(),
                candidates > 0,
                num_partitions * candidates <= usize::MAX,
                target == Seq::new(
                    (num_partitions - 1) as nat,
                    |i: int|
                        self.layer_boundaries[Dag::boundary_choice(
                            candidates as int,
                            num_partitions as int,
                            i,
                        )],
                ),
                selected@ == target.take(i as int),
            decreases num_partitions - 1 - i,
        {
            assert((i + 1) * candidates <= num_partitions * candidates) by (nonlinear_arith)
                requires
                    i + 1 <= num_partitions,
            ;
            let idx: usize = ((i + 1) * candidates) / num_partitions;
            assert(0 <= idx);
            let idx: usize = if idx <= candidates - 1 {
                idx
            } else {
                candidates - 1
            };
            selected.push(self.layer_boundaries[idx]);
            i = i + 1;
            assert(selected@ =~= target.take(i as int));
        }
        assert(target.take(i as int) =~= target);
        self.boundary_edges = selected;
    }
}

} // verus!
