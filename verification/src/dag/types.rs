//! Nodes, graphs, claims about edges, and the proofs that support them.
use std::collections::HashSet;

use vstd::prelude::*;

use crate::commit::basefold::BasefoldOpeningProof;
use crate::dag::block::{BasicBlockType, Block, Op};
use crate::field::GoldilocksExt2;
use crate::sumcheck::SumcheckProof;

verus! {

pub type NodeId = usize;

pub type EdgeId = usize;

/// One use of an edge as an input of a node.
#[derive(Clone, Copy, Debug, PartialEq, Eq, Hash, Structural)]
pub struct AliasId(pub usize);

/// An assertion about the value of the polynomial on an edge.
#[derive(Debug)]
pub struct Claim {
    pub edge_id: EdgeId,
    pub sparse_id: usize,
    pub point: Vec<GoldilocksExt2>,
    pub eval: GoldilocksExt2,
}

/// The mathematical value of a claim.
#[verifier::ext_equal]
pub struct Assertion {
    pub edge_id: EdgeId,
    pub sparse_id: usize,
    pub point: Seq<GoldilocksExt2>,
    pub eval: GoldilocksExt2,
}

impl View for Claim {
    type V = Assertion;

    open spec fn view(&self) -> Assertion {
        Assertion {
            edge_id: self.edge_id,
            sparse_id: self.sparse_id,
            point: self.point@,
            eval: self.eval,
        }
    }
}

/// The claims of one edge.
pub open spec fn claim_list(c: Seq<Claim>) -> Seq<Assertion> {
    c.map_values(|x: Claim| x@)
}

/// The claims of all edges.
pub open spec fn claim_lists(c: Seq<Vec<Claim>>) -> Seq<Seq<Assertion>> {
    c.map_values(|x: Vec<Claim>| claim_list(x@))
}

/// A copy of a point.
pub fn clone_point(v: &[GoldilocksExt2]) -> (r: Vec<GoldilocksExt2>)
    ensures
        r@ == v@,
{
    let mut r: Vec<GoldilocksExt2> = Vec::new();
    let mut i: usize = 0;
    while i < v.len()
        invariant
            i <= v.len(),
            r@ == v@.take(i as int),
        decreases v.len() - i,
    {
        r.push(v[i]);
        i = i + 1;
        assert(r@ =~= v@.take(i as int));
    }
    assert(v@.take(i as int) =~= v@);
    r
}

impl Clone for Claim {
    fn clone(&self) -> (r: Self)
        ensures
            r@ == self@,
    {
        Claim {
            edge_id: self.edge_id,
            sparse_id: self.sparse_id,
            point: clone_point(&self.point),
            eval: self.eval,
        }
    }
}

/// Proof that entries of tensors lie in a table.
#[derive(Debug)]
pub struct LookupProof {
    pub table_proofs: Vec<SumcheckProof>,
    pub middle_claims: Vec<Vec<GoldilocksExt2>>,
    pub bool_proofs: Vec<SumcheckProof>,
}

/// Claims about an edge and what supports them.
#[derive(Debug)]
pub struct EdgeProof {
    pub claims: Vec<Claim>,
    /// Combines several claims into one. Where it is present the last claim is the combined one,
    /// and only that one is opened.
    pub opening_reducer: Option<Vec<SumcheckProof>>,
    pub dense_opening_proof: Vec<BasefoldOpeningProof>,
    pub sparse_opening_proof: Vec<BasefoldOpeningProof>,
}

impl EdgeProof {
    /// No claims and nothing to support.
    pub fn new() -> (r: Self)
        ensures
            r.claims.len() == 0,
            r.opening_reducer is None,
            r.dense_opening_proof.len() == 0,
            r.sparse_opening_proof.len() == 0,
    {
        EdgeProof {
            claims: Vec::new(),
            opening_reducer: None,
            dense_opening_proof: Vec::new(),
            sparse_opening_proof: Vec::new(),
        }
    }
}

/// The proofs and claims of one node.
pub type NodeProof = (Vec<SumcheckProof>, Vec<Claim>);

/// The claims of a node, none where it has not been proved.
pub open spec fn claims_of(p: Option<NodeProof>) -> Seq<Claim> {
    match p {
        Some(x) => x.1@,
        None => Seq::empty(),
    }
}

/// The proofs of the nodes of one partition.
#[derive(Debug)]
pub struct PartitionProof {
    pub node_proofs: Vec<Option<NodeProof>>,
    pub reducer_proofs: Vec<Option<Vec<SumcheckProof>>>,
}

/// The proofs of all partitions and of what joins them.
#[derive(Debug)]
pub struct ParallelProof {
    pub boundary_evals: Vec<(EdgeId, Vec<GoldilocksExt2>, GoldilocksExt2)>,
    pub partition_proofs: Vec<PartitionProof>,
    pub edge_proofs: Vec<EdgeProof>,
    pub range_proof: LookupProof,
    pub two_pow_proof: LookupProof,
}

/// A block with the edges it reads and writes.
#[derive(Debug)]
pub struct Node {
    pub id: NodeId,
    pub kind: BasicBlockType,
    pub inputs: Vec<EdgeId>,
    pub outputs: Vec<EdgeId>,
}

/// The mathematical value of a node.
#[verifier::ext_equal]
pub struct NodeSpec {
    pub id: NodeId,
    pub kind: Block,
    pub inputs: Seq<EdgeId>,
    pub outputs: Seq<EdgeId>,
}

impl View for Node {
    type V = NodeSpec;

    open spec fn view(&self) -> NodeSpec {
        NodeSpec {
            id: self.id,
            kind: self.kind@,
            inputs: self.inputs@,
            outputs: self.outputs@,
        }
    }
}

/// The nodes of a graph.
pub open spec fn node_list(nodes: Seq<Node>) -> Seq<NodeSpec> {
    nodes.map_values(|n: Node| n@)
}

/// A graph of tensor operations, ready to run and to prove.
pub struct Dag {
    pub nodes: Vec<Node>,
    pub num_edges: usize,
    pub topo: Vec<NodeId>,
    pub topo_levels: Vec<Vec<NodeId>>,
    pub range: Vec<NodeId>,
    pub two_pow: Vec<NodeId>,
    pub consumers: Vec<Vec<NodeId>>,
    pub producers: Vec<Option<NodeId>>,
    pub input_ports: Vec<EdgeId>,
    pub output_ports: Vec<EdgeId>,
    /// Edges between layers: the candidates for a cut.
    pub layer_boundaries: Vec<EdgeId>,
    /// Edges where the graph is cut. They are committed to whatever their role.
    pub boundary_edges: Vec<EdgeId>,
    /// Output edges that are committed to and opened all the same.
    pub self_claim_edges: HashSet<EdgeId>,
    pub edge_aliases: Vec<Vec<AliasId>>,
    pub alias_to_edge: Vec<EdgeId>,
    pub alias_to_consumer: Vec<NodeId>,
    pub alias_input_slot: Vec<usize>,
}

impl NodeSpec {
    /// The output that holds the bits of a range-checked node.
    pub open spec fn aux_slot(self) -> int {
        if self.kind == Block::Op(Op::NonNegative) {
            0
        } else {
            1
        }
    }
}

impl Dag {
    /// Every node reads and writes edges of the graph, and the edge tables cover all edges.
    pub open spec fn edges_ok(&self) -> bool {
        &&& self.consumers.len() == self.num_edges
        &&& self.producers.len() == self.num_edges
        &&& forall|n: int, k: int|
            0 <= n < self.nodes.len() && 0 <= k < self.nodes[n].inputs.len()
                ==> #[trigger] self.nodes[n].inputs[k] < self.num_edges
        &&& forall|n: int, k: int|
            0 <= n < self.nodes.len() && 0 <= k < self.nodes[n].outputs.len()
                ==> #[trigger] self.nodes[n].outputs[k] < self.num_edges
        &&& forall|n: int| 0 <= n < self.nodes.len() ==> (#[trigger] self.nodes[n]).id == n
    }

    pub fn num_edges(&self) -> (r: usize)
        ensures
            r == self.num_edges,
    {
        self.num_edges
    }
}

} // verus!
