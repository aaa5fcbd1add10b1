//! The mathematical model of a graph under construction.
//!
//! Every operation of the builder is a function from graph to graph. A graph
//! also records whether all operations so far had inputs that they accept.
use vstd::arithmetic::power2::*;
use vstd::prelude::*;

use crate::dag::block::{Block, Op};
use crate::dag::equation::{equation_ok, output_shape};
use crate::dag::types::{EdgeId, NodeId, NodeSpec};
use crate::dag::witness::{in_bounds, known, unknown, DataType, Role, Tensor};
use crate::field::elem::Elem;
use crate::field::GoldilocksField;
use crate::util::arith::num_vars;
use crate::util::shape::{broadcastable, joint_shape, reversed_shape, source};

verus! {

/// A graph under construction.
#[verifier::ext_equal]
pub struct Graph {
    /// All operations so far had inputs that they accept.
    pub ok: bool,
    /// Logarithm of the scale of floats.
    pub sf_log: usize,
    pub nodes: Seq<NodeSpec>,
    /// The tensors on the edges.
    pub values: Seq<Tensor>,
    pub range: Seq<NodeId>,
    pub two_pow: Seq<NodeId>,
    pub layer_boundaries: Seq<EdgeId>,
    pub self_claims: Seq<EdgeId>,
}

/// The value fits a machine word.
pub open spec fn word(x: int) -> bool {
    0 <= x <= usize::MAX
}

/// `n` consecutive edges.
pub open spec fn edge_run(from: nat, n: nat) -> Seq<EdgeId> {
    Seq::new(n, |i: int| (from + i) as usize)
}

/// The node is the `n`-th and writes the edges from `first` on; it reads only earlier edges.
pub open spec fn node_in_order(node: NodeSpec, n: int, first: int, edges: nat) -> bool {
    &&& node.id == n
    &&& node.outputs.len() == node.kind.arity()
    &&& first + node.outputs.len() <= edges
    &&& forall|k: int| 0 <= k < node.outputs.len() ==> #[trigger] node.outputs[k] == first + k
    &&& forall|k: int| 0 <= k < node.inputs.len() ==> (#[trigger] node.inputs[k]) < first
}

impl Graph {
    /// The edge exists.
    pub open spec fn has(self, e: EdgeId) -> bool {
        e < self.values.len()
    }

    /// All listed edges exist.
    pub open spec fn has_all(self, es: Seq<EdgeId>) -> bool {
        forall|k: int| 0 <= k < es.len() ==> self.has(#[trigger] es[k])
    }

    pub open spec fn shape(self, e: EdgeId) -> Seq<usize> {
        self.values[e as int].shape
    }

    pub open spec fn dim(self, e: EdgeId, k: int) -> int {
        self.values[e as int].shape[k] as int
    }

    pub open spec fn rank(self, e: EdgeId) -> nat {
        self.values[e as int].shape.len()
    }

    pub open spec fn sf(self, e: EdgeId) -> usize {
        self.values[e as int].sf
    }

    pub open spec fn dtype(self, e: EdgeId) -> DataType {
        self.values[e as int].data_type
    }

    /// The edge exists and its tensor has at least `n` dimensions.
    pub open spec fn has_rank(self, e: EdgeId, n: nat) -> bool {
        self.has(e) && self.rank(e) >= n
    }

    /// The edge that is made next.
    pub open spec fn fresh(self) -> EdgeId {
        self.values.len() as usize
    }

    /// The first edge that node `n` writes.
    pub open spec fn first_output(self, n: int) -> int {
        self.nodes[n].outputs[0] as int
    }

    /// Nodes are numbered in order and read only edges that were there before them; the lists of
    /// nodes and edges to prove name nodes of the right kind and edges of the graph.
    pub open spec fn wf(self) -> bool {
        &&& self.values.len() <= usize::MAX
        &&& self.nodes.len() <= usize::MAX
        &&& forall|n: int|
            0 <= n < self.nodes.len() ==> node_in_order(
                #[trigger] self.nodes[n],
                n,
                self.first_output(n),
                self.values.len(),
            )
        &&& forall|m: int, n: int|
            0 <= m < n < self.nodes.len() ==> #[trigger] self.first_output(m)
                + self.nodes[m].outputs.len() <= #[trigger] self.first_output(n)
        &&& forall|i: int|
            0 <= i < self.range.len() ==> (#[trigger] self.range[i]) < self.nodes.len()
                && range_kind(self.nodes[self.range[i] as int])
        &&& forall|i: int|
            0 <= i < self.two_pow.len() ==> (#[trigger] self.two_pow[i]) < self.nodes.len()
                && self.nodes[self.two_pow[i] as int].kind == Block::Op(Op::TwoPow)
                && self.nodes[self.two_pow[i] as int].inputs.len() == 1
        &&& self.has_all(self.layer_boundaries)
        &&& self.has_all(self.self_claims)
    }

    /// The graph, on condition.
    pub open spec fn require(self, c: bool) -> Graph {
        Graph { ok: self.ok && c, ..self }
    }

    /// Adds a node that reads `inputs` and writes `outs` to new edges.
    pub open spec fn emit(self, inputs: Seq<EdgeId>, kind: Block, outs: Seq<Tensor>) -> Graph {
        Graph {
            ok: self.ok && self.has_all(inputs),
            nodes: self.nodes.push(
                NodeSpec {
                    id: self.nodes.len() as usize,
                    kind,
                    inputs,
                    outputs: edge_run(self.values.len(), outs.len()),
                },
            ),
            values: self.values + outs,
            ..self
        }
    }

    /// Adds a node with one output.
    pub open spec fn emit1(self, inputs: Seq<EdgeId>, kind: Block, out: Tensor) -> (Graph, EdgeId) {
        (self.emit(inputs, kind, seq![out]), self.fresh())
    }

    /// Adds an edge that no node writes.
    pub open spec fn place(self, t: Tensor) -> (Graph, EdgeId) {
        (Graph { values: self.values.push(t), ..self }, self.fresh())
    }

    /// The node that is made next has to be range-checked.
    pub open spec fn checked(self) -> Graph {
        Graph { range: self.range.push(self.nodes.len() as usize), ..self }
    }

    /// Records an edge between layers.
    pub open spec fn boundary(self, e: EdgeId) -> Graph {
        Graph {
            ok: self.ok && self.has(e),
            layer_boundaries: self.layer_boundaries.push(e),
            ..self
        }
    }

    /// Records an output edge that is opened for its own sake.
    pub open spec fn self_claim(self, e: EdgeId) -> Graph {
        Graph { self_claims: self.self_claims.push(e), ..self }
    }

    #[verifier::opaque]
    pub open spec fn input(self, shape: Seq<usize>, data_type: DataType) -> (Graph, EdgeId) {
        let sf = if data_type == DataType::Float {
            self.sf_log
        } else {
            0
        };
        self.place(unknown(shape, data_type, sf, Role::Input))
    }

    #[verifier::opaque]
    pub open spec fn param(self, t: Tensor) -> (Graph, EdgeId) {
        self.require(t.role == Role::Constant).place(t)
    }

    #[verifier::opaque]
    pub open spec fn nonneg(self, a: EdgeId) -> Graph {
        self.checked().emit(
            seq![a],
            Block::Op(Op::NonNegative),
            seq![unknown(seq![1usize], DataType::Float, 0, Role::Auxiliary)],
        )
    }

    #[verifier::opaque]
    pub open spec fn change_shape(self, a: EdgeId, shape: Seq<usize>) -> (Graph, EdgeId) {
        self.emit1(
            seq![a],
            Block::ChangeShape { target_shape: shape },
            unknown(shape, self.dtype(a), self.sf(a), Role::Output),
        )
    }

    /// Entrywise `op` of two tensors, one of which may be broadcast. Two known constants give a
    /// known constant.
    #[verifier::opaque]
    pub open spec fn pointwise(self, op: Op, a: EdgeId, b: EdgeId) -> (Graph, EdgeId) {
        let (x, y) = (self.values[a as int], self.values[b as int]);
        let shape = joint_shape(x.shape, y.shape);
        let out = if x.data is None || y.data is None {
            unknown(shape, x.data_type, x.sf, Role::Output)
        } else {
            folded(op, x, y)
        };
        self.require(
            self.has(a) && self.has(b) && broadcastable(x.shape, y.shape) && (x.data is Some
                && y.data is Some ==> foldable(x) && foldable(y) && num_vars(shape) < usize::BITS),
        ).emit1(seq![a, b], Block::Op(op), out)
    }

    pub open spec fn add(self, a: EdgeId, b: EdgeId) -> (Graph, EdgeId) {
        self.pointwise(Op::Add, a, b)
    }

    pub open spec fn sub(self, a: EdgeId, b: EdgeId) -> (Graph, EdgeId) {
        self.pointwise(Op::Sub, a, b)
    }

    /// Brings a tensor from scale `2^input_sf` to scale `2^output_sf`.
    #[verifier::opaque]
    pub open spec fn scale(self, a: EdgeId, input_sf: usize, output_sf: usize) -> (Graph, EdgeId) {
        let kind = if input_sf > output_sf {
            Op::ScaleDown { output_sf }
        } else {
            Op::ScaleUp { output_sf }
        };
        (
            self.checked().emit(
                seq![a],
                Block::Op(kind),
                seq![
                    unknown(self.shape(a), self.dtype(a), output_sf, Role::Output),
                    unknown(seq![1usize], self.dtype(a), 0, Role::Auxiliary),
                ],
            ),
            self.fresh(),
        )
    }

    /// The shapes of the listed edges.
    pub open spec fn shapes(self, es: Seq<EdgeId>) -> Seq<Seq<usize>> {
        Seq::new(es.len(), |i: int| self.shape(es[i]))
    }

    /// The sum of the scales of the listed edges.
    pub open spec fn sf_sum(self, es: Seq<EdgeId>) -> int
        decreases es.len(),
    {
        if es.len() == 0 {
            0
        } else {
            self.sf_sum(es.drop_last()) + self.sf(es.last())
        }
    }

    #[verifier::opaque]
    pub open spec fn einsum_raw(self, eq: Seq<char>, inputs: Seq<EdgeId>) -> (Graph, EdgeId) {
        let shapes = self.shapes(inputs);
        let shape = output_shape(eq, shapes);
        self.require(
            inputs.len() > 0 && self.has_all(inputs) && equation_ok(eq, shapes) && word(
                self.sf_sum(inputs),
            ),
        ).emit1(
            inputs,
            Block::Einsum { equation: eq, input_shapes: shapes, output_shape: shape },
            unknown(
                shape,
                self.dtype(inputs[0]),
                self.sf_sum(inputs) as usize,
                Role::Output,
            ),
        )
    }

    /// Einstein summation; with `scale_back` the result has the scale of the first input.
    #[verifier::opaque]
    pub open spec fn einsum(self, eq: Seq<char>, inputs: Seq<EdgeId>, scale_back: bool) -> (
        Graph,
        EdgeId,
    ) {
        let (g, e) = self.einsum_raw(eq, inputs);
        if scale_back {
            g.scale(e, self.sf_sum(inputs) as usize, self.sf(inputs[0]))
        } else {
            (g, e)
        }
    }

    /// A block with one input whose output has the shape, type and scale of the input.
    #[verifier::opaque]
    pub open spec fn alike(self, op: Op, a: EdgeId) -> (Graph, EdgeId) {
        self.emit1(
            seq![a],
            Block::Op(op),
            unknown(self.shape(a), self.dtype(a), self.sf(a), Role::Output),
        )
    }

    /// A block whose output is an unscaled tensor of the given shape.
    #[verifier::opaque]
    pub open spec fn plain(self, op: Op, inputs: Seq<EdgeId>, shape: Seq<usize>) -> (
        Graph,
        EdgeId,
    ) {
        self.emit1(inputs, Block::Op(op), unknown(shape, DataType::Uint, 0, Role::Output))
    }
}

/// A node that comes with bits to check.
pub open spec fn range_kind(node: NodeSpec) -> bool {
    &&& node.inputs.len() == 1
    &&& node.kind == Block::Op(Op::NonNegative) || (node.kind matches Block::Op(Op::ScaleDown { .. })) || (
    node.kind matches Block::Op(Op::ScaleUp { .. }))
}

/// The data of the tensor covers its padded shape.
pub open spec fn foldable(t: Tensor) -> bool {
    &&& num_vars(t.shape) < usize::BITS
    &&& t.data->0.holds(pow2(num_vars(t.shape)) - 1)
}

/// A graph with the list of the one edge that comes out of it.
pub open spec fn one_edge(r: (Graph, EdgeId)) -> (Graph, Seq<EdgeId>) {
    (r.0, seq![r.1])
}

/// The word of a base field element.
pub open spec fn base_word(e: Elem) -> GoldilocksField {
    GoldilocksField(e.re as u64)
}

/// The result of `op` on two words.
pub open spec fn apply(op: Op, x: GoldilocksField, y: GoldilocksField) -> GoldilocksField {
    if op == Op::Add {
        base_word(x@ + y@)
    } else {
        base_word(x@ - y@)
    }
}

/// The words of the entrywise `op` of two known tensors.
pub open spec fn folded_words(op: Op, x: Tensor, y: Tensor) -> Seq<GoldilocksField> {
    let shape = joint_shape(x.shape, y.shape);
    Seq::new(
        pow2(num_vars(shape)),
        |i: int|
            apply(
                op,
                x.data->0.word(source(shape, x.shape, i)),
                y.data->0.word(source(shape, y.shape, i)),
            ),
    )
}

/// The entrywise `op` of two known constants.
pub open spec fn folded(op: Op, x: Tensor, y: Tensor) -> Tensor {
    known(
        joint_shape(x.shape, y.shape),
        folded_words(op, x, y),
        x.data_type,
        x.sf,
        Role::Constant,
    )
}

/// The words of a tensor with one value everywhere and zeros in the padding, the first dimension
/// varying fastest.
pub open spec fn filled(shape: Seq<usize>, v: GoldilocksField) -> Seq<GoldilocksField> {
    Seq::new(
        pow2(num_vars(shape)),
        |i: int|
            if in_bounds(reversed_shape(shape), i) {
                v
            } else {
                GoldilocksField(0)
            },
    )
}

pub broadcast proof fn ok_param(g: Graph, t: Tensor)
    ensures
        #[trigger] g.param(t).0.ok ==> g.ok && t.role == Role::Constant,
{
    reveal(Graph::param);
}

pub broadcast proof fn ok_input(g: Graph, shape: Seq<usize>, dt: DataType)
    ensures
        #[trigger] g.input(shape, dt).0.ok ==> g.ok,
{
    reveal(Graph::input);
}

pub broadcast proof fn ok_nonneg(g: Graph, a: EdgeId)
    ensures
        #[trigger] g.nonneg(a).ok ==> g.ok && g.has(a),
{
    reveal(Graph::nonneg);
    if g.nonneg(a).ok {
        assert(seq![a][0] == a);
    }
}

pub broadcast proof fn ok_change_shape(g: Graph, a: EdgeId, shape: Seq<usize>)
    ensures
        #[trigger] g.change_shape(a, shape).0.ok ==> g.ok && g.has(a),
{
    reveal(Graph::change_shape);
    if g.change_shape(a, shape).0.ok {
        assert(seq![a][0] == a);
    }
}

pub broadcast proof fn ok_pointwise(g: Graph, op: Op, a: EdgeId, b: EdgeId)
    ensures
        #[trigger] g.pointwise(op, a, b).0.ok ==> g.ok && g.has(a) && g.has(b),
{
    reveal(Graph::pointwise);
}

pub broadcast proof fn ok_scale(g: Graph, a: EdgeId, i: usize, o: usize)
    ensures
        #[trigger] g.scale(a, i, o).0.ok ==> g.ok && g.has(a),
{
    reveal(Graph::scale);
    if g.scale(a, i, o).0.ok {
        assert(seq![a][0] == a);
    }
}

pub broadcast proof fn ok_einsum_raw(g: Graph, eq: Seq<char>, inputs: Seq<EdgeId>)
    ensures
        #[trigger] g.einsum_raw(eq, inputs).0.ok ==> g.ok && g.has_all(inputs),
{
    reveal(Graph::einsum_raw);
}

pub broadcast proof fn ok_einsum(g: Graph, eq: Seq<char>, inputs: Seq<EdgeId>, back: bool)
    ensures
        #[trigger] g.einsum(eq, inputs, back).0.ok ==> g.ok && g.has_all(inputs),
{
    reveal(Graph::einsum);
    ok_einsum_raw(g, eq, inputs);
    let (h, e) = g.einsum_raw(eq, inputs);
    ok_scale(h, e, g.sf_sum(inputs) as usize, g.sf(inputs[0]));
}

pub broadcast proof fn ok_alike(g: Graph, op: Op, a: EdgeId)
    ensures
        #[trigger] g.alike(op, a).0.ok ==> g.ok && g.has(a),
{
    reveal(Graph::alike);
    if g.alike(op, a).0.ok {
        assert(seq![a][0] == a);
    }
}

pub broadcast proof fn ok_plain(g: Graph, op: Op, inputs: Seq<EdgeId>, shape: Seq<usize>)
    ensures
        #[trigger] g.plain(op, inputs, shape).0.ok ==> g.ok && g.has_all(inputs),
{
    reveal(Graph::plain);
}

/// Operations keep failures.
pub broadcast group group_ok {
    ok_param,
    ok_input,
    ok_nonneg,
    ok_change_shape,
    ok_pointwise,
    ok_scale,
    ok_einsum_raw,
    ok_einsum,
    ok_alike,
    ok_plain,
}

} // verus!
