//! Building graphs.
use vstd::arithmetic::power2::*;
use vstd::prelude::*;

use crate::dag::block::{nested, BasicBlockType, Block, Op};
use crate::dag::equation::{einsum_shape, output_shape};
use crate::dag::graph::{
    apply, edge_run, foldable, folded, folded_words, group_ok, node_in_order, range_kind, word,
    Graph,
};
use crate::dag::types::{node_list, EdgeId, Node, NodeId, NodeSpec};
use crate::dag::witness::{clone_words, DataType, Role, Tensor, Witness};
use crate::field::{gl_add, gl_sub, GoldilocksField};
use crate::util::arith::{get_n, num_vars, pow2_usize};
use crate::util::shape::{
    broadcast_shape, broadcastable, joint_shape, lemma_joint_spreads, source_index,
};

verus! {

/// Builds a graph operation by operation.
pub struct DagBuilder {
    /// Logarithm of the scale of floats.
    pub sf_log: usize,
    pub nodes: Vec<Node>,
    pub num_edges: usize,
    pub init_values: Vec<Option<Witness>>,
    pub range: Vec<NodeId>,
    pub two_pow: Vec<NodeId>,
    /// Edges between the layers of a model.
    pub layer_boundaries: Vec<EdgeId>,
    /// Output edges that are opened for their own sake.
    pub self_claim_edges: Vec<EdgeId>,
}

/// The tensors on a list of edges.
pub open spec fn tensor_list(v: Seq<Option<Witness>>) -> Seq<Tensor> {
    v.map_values(|x: Option<Witness>| x->0@)
}

impl View for DagBuilder {
    type V = Graph;

    open spec fn view(&self) -> Graph {
        Graph {
            ok: true,
            sf_log: self.sf_log,
            nodes: node_list(self.nodes@),
            values: tensor_list(self.init_values@),
            range: self.range@,
            two_pow: self.two_pow@,
            layer_boundaries: self.layer_boundaries@,
            self_claims: self.self_claim_edges@,
        }
    }
}

impl DagBuilder {
    /// Every edge has a tensor, and the graph is in order.
    pub open spec fn wf(&self) -> bool {
        self.loaded() && self@.wf()
    }

    /// Every edge has a tensor.
    pub open spec fn loaded(&self) -> bool {
        &&& self.num_edges == self.init_values.len()
        &&& forall|e: int| 0 <= e < self.init_values.len() ==> (#[trigger] self.init_values[e]) is Some
    }

    /// A graph with nothing in it, for unscaled numbers.
    pub fn new() -> (r: Self)
        ensures
            r.wf(),
            r@ == empty_graph(0),
    {
        DagBuilder::with_scale(0)
    }

    /// A graph with nothing in it; floats are scaled by `2^sf_log`.
    pub fn with_scale(sf_log: usize) -> (r: Self)
        ensures
            r.wf(),
            r@ == empty_graph(sf_log),
    {
        DagBuilder {
            sf_log,
            nodes: Vec::new(),
            num_edges: 0,
            init_values: Vec::new(),
            range: Vec::new(),
            two_pow: Vec::new(),
            layer_boundaries: Vec::new(),
            self_claim_edges: Vec::new(),
        }
    }

    /// The tensor on an edge.
    pub fn value(&self, e: EdgeId) -> (r: &Witness)
        requires
            self.wf(),
            self@.has(e),
        ensures
            r@ == self@.values[e as int],
            Some(*r) == self.init_values[e as int],
    {
        assert(self.init_values[e as int] is Some);
        self.init_values[e].as_ref().unwrap()
    }

    /// The shape of the tensor on an edge.
    pub fn shape_of(&self, e: EdgeId) -> (r: Vec<usize>)
        requires
            self.wf(),
            self@.has(e),
        ensures
            r@ == self@.shape(e),
    {
        clone_words(self.value(e).shape.as_slice())
    }

    /// Adds an edge that no node writes.
    pub(crate) fn place(&mut self, t: Witness) -> (e: EdgeId)
        requires
            old(self).wf(),
        ensures
            final(self).wf(),
            final(self)@.has(e),
            (final(self)@, e) == old(self)@.place(t@),
    {
        let e: usize = self.init_values.len();
        let ghost g = self@;
        let ghost tv = t@;
        self.init_values.push(Some(t));
        self.num_edges = self.init_values.len();
        assert(self@.values =~= g.values.push(tv));
        assert(self@ =~= g.place(tv).0);
        proof {
            lemma_place_wf(g, tv, self.init_values.len() as nat);
        }
        e
    }

    /// Adds a node that reads `inputs` and writes `outs` to new edges.
    pub(crate) fn emit(
        &mut self,
        inputs: Vec<EdgeId>,
        kind: BasicBlockType,
        outs: Vec<Option<Witness>>,
    ) -> (e: EdgeId)
        requires
            old(self).wf(),
            old(self)@.has_all(inputs@),
            outs.len() == kind@.arity(),
            forall|k: int| 0 <= k < outs.len() ==> (#[trigger] outs[k]) is Some,
        ensures
            final(self).wf(),
            final(self)@ == old(self)@.emit(inputs@, kind@, tensor_list(outs@)),
            e == old(self)@.fresh(),
            final(self)@.values.len() == old(self)@.values.len() + outs.len(),
            final(self).nodes.len() == old(self).nodes.len() + 1,
    {
        let e: usize = self.num_edges;
        let ghost g = self@;
        let ghost ov = tensor_list(outs@);
        let ghost iv = inputs@;
        let ghost kv = kind@;
        let mut values: Vec<Option<Witness>> = outs;
        self.init_values.append(&mut values);
        let total: usize = self.init_values.len();
        assert(tensor_list(self.init_values@) =~= g.values + ov);
        assert(total == e + ov.len());
        let _outputs: Vec<EdgeId> = self.add_gkr_node(inputs, kind);
        proof {
            assert(self@ =~= g.emit(iv, kv, ov));
            lemma_emit_wf(g, iv, kv, ov, self.nodes.len() as nat);
        }
        e
    }

    /// Adds a node that writes the next edges, and returns those. The caller provides the tensors
    /// of the new edges.
    pub fn add_gkr_node(&mut self, inps: Vec<EdgeId>, basicblock: BasicBlockType) -> (outs: Vec<
        EdgeId,
    >)
        requires
            old(self).num_edges + basicblock@.arity() <= usize::MAX,
        ensures
            outs@ == edge_run(old(self).num_edges as nat, basicblock@.arity()),
            final(self).num_edges == old(self).num_edges + basicblock@.arity(),
            final(self)@ == (Graph {
                nodes: old(self)@.nodes.push(
                    NodeSpec {
                        id: old(self).nodes.len(),
                        kind: basicblock@,
                        inputs: inps@,
                        outputs: outs@,
                    },
                ),
                ..old(self)@
            }),
            final(self).nodes.len() == old(self).nodes.len() + 1,
            final(self).init_values == old(self).init_values,
    {
        let nid: usize = self.nodes.len();
        let eid: usize = self.num_edges;
        let count: usize = basicblock.out_arity();
        let ghost g = self@;
        let mut outs: Vec<EdgeId> = Vec::new();
        let mut k: usize = 0;
        while k < count
            invariant
                k <= count,
                eid + count <= usize::MAX,
                outs@ == edge_run(eid as nat, k as nat),
            decreases count - k,
        {
            outs.push(eid + k);
            k = k + 1;
            assert(outs@ =~= edge_run(eid as nat, k as nat));
        }
        let outputs: Vec<EdgeId> = clone_words(outs.as_slice());
        let node: Node = Node { id: nid, kind: basicblock, inputs: inps, outputs };
        let ghost nv = node@;
        self.nodes.push(node);
        self.num_edges = eid + count;
        assert(self@.nodes =~= g.nodes.push(nv));
        outs
    }

    /// Adds a node with one output.
    pub(crate) fn emit1(&mut self, inputs: Vec<EdgeId>, kind: BasicBlockType, out: Witness) -> (e: EdgeId)
        requires
            old(self).wf(),
            old(self)@.has_all(inputs@),
            kind@.arity() == 1,
        ensures
            final(self).wf(),
            final(self)@.has(e),
            (final(self)@, e) == old(self)@.emit1(inputs@, kind@, out@),
    {
        let ghost ov = out@;
        let outs: Vec<Option<Witness>> = vec![Some(out)];
        assert(tensor_list(outs@) =~= seq![ov]);
        self.emit(inputs, kind, outs)
    }

    /// A graph input without known entries.
    pub fn input(&mut self, shape: Vec<usize>, data_type: DataType) -> (e: EdgeId)
        requires
            old(self).wf(),
        ensures
            final(self).wf(),
            final(self)@.has(e),
            (final(self)@, e) == old(self)@.input(shape@, data_type),
    {
        reveal(Graph::input);
        let sf: usize = if data_type == DataType::Float {
            self.sf_log
        } else {
            0
        };
        self.place(Witness::new_wo_data(shape, data_type, sf, Role::Input))
    }

    /// A constant.
    pub fn param(&mut self, t: Witness) -> (e: EdgeId)
        requires
            old(self).wf(),
            old(self)@.param(t@).0.ok,
        ensures
            final(self).wf(),
            final(self)@.has(e),
            (final(self)@, e) == old(self)@.param(t@),
    {
        reveal(Graph::param);
        self.place(t)
    }

    /// Requires that a tensor has no negative entry.
    pub fn add_nonneg_node(&mut self, a: EdgeId)
        requires
            old(self).wf(),
            old(self)@.nonneg(a).ok,
        ensures
            final(self).wf(),
            final(self)@ == old(self)@.nonneg(a),
    {
        reveal(Graph::nonneg);
        broadcast use group_ok;

        let ghost g = self@;
        let nid: usize = self.nodes.len();
        let out: Witness = Witness::new_wo_data(vec![1], DataType::Float, 0, Role::Auxiliary);
        assert(out@.shape =~= seq![1usize]);
        let inputs: Vec<EdgeId> = vec![a];
        assert(inputs@ =~= seq![a]);
        let _e: EdgeId = self.emit1(inputs, BasicBlockType::Op(Op::NonNegative), out);
        let ghost mid = self@;
        self.range.push(nid);
        proof {
            assert(self@.range =~= g.range.push(nid));
            lemma_checked_wf(mid, nid);
            assert(self@ =~= g.nonneg(a));
        }
    }

    /// The same entries under another shape.
    pub fn change_shape(&mut self, a: EdgeId, shape: Vec<usize>) -> (e: EdgeId)
        requires
            old(self).wf(),
            old(self)@.change_shape(a, shape@).0.ok,
        ensures
            final(self).wf(),
            final(self)@.has(e),
            (final(self)@, e) == old(self)@.change_shape(a, shape@),
    {
        reveal(Graph::change_shape);
        broadcast use group_ok;

        let target_shape: Vec<usize> = clone_words(shape.as_slice());
        let data_type: DataType = self.value(a).data_type;
        let sf: usize = self.value(a).sf;
        let inputs: Vec<EdgeId> = vec![a];
        assert(inputs@ =~= seq![a]);
        self.emit1(
            inputs,
            BasicBlockType::ChangeShape { target_shape },
            Witness::new_wo_data(shape, data_type, sf, Role::Output),
        )
    }

    /// The entrywise sum or difference of two tensors.
    pub(crate) fn pointwise(&mut self, op: Op, a: EdgeId, b: EdgeId) -> (e: EdgeId)
        requires
            old(self).wf(),
            op == Op::Add || op == Op::Sub,
            old(self)@.pointwise(op, a, b).0.ok,
        ensures
            final(self).wf(),
            final(self)@.has(e),
            (final(self)@, e) == old(self)@.pointwise(op, a, b),
    {
        reveal(Graph::pointwise);
        let ghost g = self@;
        let x: &Witness = self.value(a);
        let y: &Witness = self.value(b);
        let out: Witness = if x.data.is_none() || y.data.is_none() {
            match broadcast_shape(x.shape.as_slice(), y.shape.as_slice()) {
                Some(shape) => Witness::new_wo_data(shape, x.data_type, x.sf, Role::Output),
                None => vstd::pervasive::unreached(),
            }
        } else {
            fold_constants(op, x, y)
        };
        let inputs: Vec<EdgeId> = vec![a, b];
        assert(inputs@ =~= seq![a, b]);
        self.emit1(inputs, BasicBlockType::Op(op), out)
    }

    /// The entrywise sum of two tensors.
    pub fn add(&mut self, a: EdgeId, b: EdgeId) -> (r: Vec<EdgeId>)
        requires
            old(self).wf(),
            old(self)@.add(a, b).0.ok,
        ensures
            final(self).wf(),
            final(self)@ == old(self)@.add(a, b).0,
            r@ == seq![old(self)@.add(a, b).1],
    {
        let e: EdgeId = self.pointwise(Op::Add, a, b);
        let r: Vec<EdgeId> = vec![e];
        assert(r@ =~= seq![e]);
        r
    }

    /// The entrywise difference of two tensors.
    pub fn sub(&mut self, a: EdgeId, b: EdgeId) -> (r: Vec<EdgeId>)
        requires
            old(self).wf(),
            old(self)@.sub(a, b).0.ok,
        ensures
            final(self).wf(),
            final(self)@ == old(self)@.sub(a, b).0,
            r@ == seq![old(self)@.sub(a, b).1],
    {
        let e: EdgeId = self.pointwise(Op::Sub, a, b);
        let r: Vec<EdgeId> = vec![e];
        assert(r@ =~= seq![e]);
        r
    }

    /// Brings a tensor from one scale to another. Returns the rescaled tensor and the bits of the
    /// remainder.
    pub fn scale(&mut self, a: EdgeId, input_sf: usize, output_sf: usize) -> (r: Vec<EdgeId>)
        requires
            old(self).wf(),
            old(self)@.scale(a, input_sf, output_sf).0.ok,
        ensures
            final(self).wf(),
            final(self)@ == old(self)@.scale(a, input_sf, output_sf).0,
            r@ == pair_from(old(self)@.scale(a, input_sf, output_sf).1),
    {
        reveal(Graph::scale);
        broadcast use group_ok;

        let ghost g = self@;
        let nid: usize = self.nodes.len();
        let shape: Vec<usize> = self.shape_of(a);
        let data_type: DataType = self.value(a).data_type;
        let op: Op = if input_sf > output_sf {
            Op::ScaleDown { output_sf }
        } else {
            Op::ScaleUp { output_sf }
        };
        let main: Witness = Witness::new_wo_data(shape, data_type, output_sf, Role::Output);
        let aux: Witness = Witness::new_wo_data(vec![1], data_type, 0, Role::Auxiliary);
        assert(aux@.shape =~= seq![1usize]);
        let ghost (mv, av) = (main@, aux@);
        let outs: Vec<Option<Witness>> = vec![Some(main), Some(aux)];
        assert(tensor_list(outs@) =~= seq![mv, av]);
        let inputs: Vec<EdgeId> = vec![a];
        assert(inputs@ =~= seq![a]);
        let e: EdgeId = self.emit(inputs, BasicBlockType::Op(op), outs);
        let ghost mid = self@;
        self.range.push(nid);
        proof {
            assert(self@.range =~= g.range.push(nid));
            lemma_checked_wf(mid, nid);
            assert(self@ =~= g.scale(a, input_sf, output_sf).0);
        }
        let r: Vec<EdgeId> = vec![e, e + 1];
        assert(r@ =~= pair_from(e));
        r
    }

    /// A block whose output is like its input.
    pub(crate) fn alike(&mut self, op: Op, a: EdgeId) -> (e: EdgeId)
        requires
            old(self).wf(),
            Block::Op(op).arity() == 1,
            old(self)@.alike(op, a).0.ok,
        ensures
            final(self).wf(),
            final(self)@.has(e),
            (final(self)@, e) == old(self)@.alike(op, a),
    {
        reveal(Graph::alike);
        broadcast use group_ok;

        let shape: Vec<usize> = self.shape_of(a);
        let data_type: DataType = self.value(a).data_type;
        let sf: usize = self.value(a).sf;
        let inputs: Vec<EdgeId> = vec![a];
        assert(inputs@ =~= seq![a]);
        self.emit1(
            inputs,
            BasicBlockType::Op(op),
            Witness::new_wo_data(shape, data_type, sf, Role::Output),
        )
    }

    /// A block whose output is an unscaled tensor of the given shape.
    pub(crate) fn plain(&mut self, op: Op, inputs: Vec<EdgeId>, shape: Vec<usize>) -> (e: EdgeId)
        requires
            old(self).wf(),
            Block::Op(op).arity() == 1,
            old(self)@.plain(op, inputs@, shape@).0.ok,
        ensures
            final(self).wf(),
            final(self)@.has(e),
            (final(self)@, e) == old(self)@.plain(op, inputs@, shape@),
    {
        reveal(Graph::plain);
        self.emit1(
            inputs,
            BasicBlockType::Op(op),
            Witness::new_wo_data(shape, DataType::Uint, 0, Role::Output),
        )
    }

    /// Einstein summation with an equation such as `bsi,ij->bsj`. With `scale_back` the result is
    /// brought to the scale of the first input, and the bits of the remainder come with it.
    pub fn einsum(&mut self, equation: String, inputs: Vec<EdgeId>, scale_back: bool) -> (r: Vec<
        EdgeId,
    >)
        requires
            old(self).wf(),
            old(self)@.einsum(equation@, inputs@, scale_back).0.ok,
        ensures
            final(self).wf(),
            final(self)@ == old(self)@.einsum(equation@, inputs@, scale_back).0,
            r@ == einsum_outs(old(self)@.einsum(equation@, inputs@, scale_back).1, scale_back),
    {
        let chars: Vec<char> = chars_of(&equation);
        self.einsum_chars(chars, inputs, scale_back)
    }

    /// Einstein summation with an equation given by its characters.
    pub fn einsum_chars(&mut self, equation: Vec<char>, inputs: Vec<EdgeId>, scale_back: bool) -> (r:
        Vec<EdgeId>)
        requires
            old(self).wf(),
            old(self)@.einsum(equation@, inputs@, scale_back).0.ok,
        ensures
            final(self).wf(),
            final(self)@ == old(self)@.einsum(equation@, inputs@, scale_back).0,
            r@ == einsum_outs(old(self)@.einsum(equation@, inputs@, scale_back).1, scale_back),
    {
        reveal(Graph::einsum);
        broadcast use group_ok;

        let ghost g = self@;
        assert(g.einsum_raw(equation@, inputs@).0.ok);
        assert(inputs.len() > 0 && word(g.sf_sum(inputs@))) by {
            reveal(Graph::einsum_raw);
        }
        let input_sf: usize = self.sf_total(&inputs);
        assert(g.has(inputs[0]));
        let output_sf: usize = self.value(inputs[0]).sf;
        let e: EdgeId = self.einsum_raw(equation, inputs);
        if scale_back {
            self.scale(e, input_sf, output_sf)
        } else {
            let r: Vec<EdgeId> = vec![e];
            assert(r@ =~= seq![e]);
            r
        }
    }

    fn sf_total(&self, inputs: &Vec<EdgeId>) -> (r: usize)
        requires
            self.wf(),
            self@.has_all(inputs@),
            word(self@.sf_sum(inputs@)),
        ensures
            r == self@.sf_sum(inputs@),
    {
        let mut r: usize = 0;
        let mut i: usize = 0;
        let ghost es = inputs@;
        assert(es.take(0) =~= Seq::<EdgeId>::empty());
        while i < inputs.len()
            invariant
                i <= inputs.len(),
                es == inputs@,
                self.wf(),
                self@.has_all(es),
                word(self@.sf_sum(es)),
                r == self@.sf_sum(es.take(i as int)),
            decreases inputs.len() - i,
        {
            proof {
                assert(es.take(i as int + 1).drop_last() =~= es.take(i as int));
                assert(self@.has(es[i as int]));
                lemma_sf_prefix(self@, es, i as int + 1);
            }
            r = r + self.value(inputs[i]).sf;
            i = i + 1;
        }
        assert(es.take(i as int) =~= es);
        r
    }

    fn einsum_raw(&mut self, equation: Vec<char>, inputs: Vec<EdgeId>) -> (e: EdgeId)
        requires
            old(self).wf(),
            old(self)@.einsum_raw(equation@, inputs@).0.ok,
        ensures
            final(self).wf(),
            final(self)@.has(e),
            (final(self)@, e) == old(self)@.einsum_raw(equation@, inputs@),
    {
        reveal(Graph::einsum_raw);
        let ghost g = self@;
        let mut input_shapes: Vec<Vec<usize>> = Vec::new();
        let mut i: usize = 0;
        while i < inputs.len()
            invariant
                i <= inputs.len(),
                self.wf(),
                g == self@,
                g.has_all(inputs@),
                input_shapes.len() == i,
                forall|k: int| 0 <= k < i ==> (#[trigger] input_shapes[k])@ == g.shape(inputs[k]),
            decreases inputs.len() - i,
        {
            assert(g.has(inputs[i as int]));
            input_shapes.push(self.shape_of(inputs[i]));
            i = i + 1;
        }
        assert(nested(input_shapes@) =~= g.shapes(inputs@));
        let shape: Vec<usize> = einsum_shape(&equation, &input_shapes);
        let output_shape: Vec<usize> = clone_words(shape.as_slice());
        let input_sf: usize = self.sf_total(&inputs);
        assert(g.has(inputs[0]));
        let data_type: DataType = self.value(inputs[0]).data_type;
        self.emit1(
            inputs,
            BasicBlockType::Einsum { equation, input_shapes, output_shape },
            Witness::new_wo_data(shape, data_type, input_sf, Role::Output),
        )
    }
}

/// An edge and the next one.
pub open spec fn pair_from(e: EdgeId) -> Seq<EdgeId> {
    seq![e, (e + 1) as usize]
}

/// The edges that an Einstein summation returns.
pub open spec fn einsum_outs(e: EdgeId, scale_back: bool) -> Seq<EdgeId> {
    if scale_back {
        pair_from(e)
    } else {
        seq![e]
    }
}

/// The characters of a string.
fn chars_of(s: &String) -> (r: Vec<char>)
    ensures
        r@ == s@,
{
    let t: &str = s.as_str();
    let n: usize = t.unicode_len();
    let mut r: Vec<char> = Vec::new();
    let mut i: usize = 0;
    while i < n
        invariant
            i <= n,
            n == t@.len(),
            t@ == s@,
            r@ == t@.take(i as int),
        decreases n - i,
    {
        r.push(t.get_char(i));
        i = i + 1;
        assert(r@ =~= t@.take(i as int));
    }
    assert(t@.take(i as int) =~= t@);
    r
}

/// The entrywise sum or difference of two known constants.
pub(crate) fn fold_constants(op: Op, x: &Witness, y: &Witness) -> (r: Witness)
    requires
        op == Op::Add || op == Op::Sub,
        x.data is Some,
        y.data is Some,
        foldable(x@),
        foldable(y@),
        broadcastable(x.shape@, y.shape@),
        num_vars(joint_shape(x.shape@, y.shape@)) < usize::BITS,
    ensures
        r@ == folded(op, x@, y@),
{
    let shape: Vec<usize> = match broadcast_shape(x.shape.as_slice(), y.shape.as_slice()) {
        Some(shape) => shape,
        None => vstd::pervasive::unreached(),
    };
    let n: usize = get_n(shape.as_slice());
    let size: usize = pow2_usize(n);
    let ghost target = folded_words(op, x@, y@);
    let mut words: Vec<GoldilocksField> = Vec::new();
    proof {
        lemma_joint_spreads(x.shape@, y.shape@);
    }
    match (&x.data, &y.data) {
        (Some(dx), Some(dy)) => {
            let mut i: usize = 0;
            while i < size
                invariant
                    i <= size,
                    op == Op::Add || op == Op::Sub,
                    x.data == Some(*dx),
                    y.data == Some(*dy),
                    foldable(x@),
                    foldable(y@),
                    shape@ == joint_shape(x.shape@, y.shape@),
                    crate::util::shape::spreads(shape@, x.shape@),
                    crate::util::shape::spreads(shape@, y.shape@),
                    num_vars(shape@) < usize::BITS,
                    size == pow2(num_vars(shape@)),
                    target == folded_words(op, x@, y@),
                    words@ == target.take(i as int),
                decreases size - i,
            {
                let a: usize = source_index(shape.as_slice(), x.shape.as_slice(), i);
                let b: usize = source_index(shape.as_slice(), y.shape.as_slice(), i);
                let u: GoldilocksField = dx.word(a);
                let v: GoldilocksField = dy.word(b);
                let w: GoldilocksField = match op {
                    Op::Add => gl_add(u, v),
                    _ => gl_sub(u, v),
                };
                assert(w == apply(op, u, v));
                words.push(w);
                i = i + 1;
                assert(words@ =~= target.take(i as int));
            }
            assert(target.take(i as int) =~= target);
        },
        _ => {},
    }
    Witness::new(shape, words, x.data_type, x.sf, Role::Constant)
}

proof fn lemma_sf_prefix(g: Graph, es: Seq<EdgeId>, k: int)
    requires
        0 <= k <= es.len(),
    ensures
        0 <= g.sf_sum(es.take(k)) <= g.sf_sum(es),
    decreases es.len() - k,
{
    lemma_sf_nonneg(g, es.take(k));
    if k < es.len() {
        lemma_sf_prefix(g, es, k + 1);
        assert(es.take(k + 1).drop_last() =~= es.take(k));
    } else {
        assert(es.take(k) =~= es);
    }
}

proof fn lemma_sf_nonneg(g: Graph, es: Seq<EdgeId>)
    ensures
        0 <= g.sf_sum(es),
    decreases es.len(),
{
    if es.len() > 0 {
        lemma_sf_nonneg(g, es.drop_last());
    }
}

/// A range-checked node keeps the graph in order.
proof fn lemma_checked_wf(g: Graph, nid: NodeId)
    requires
        g.wf(),
        nid < g.nodes.len(),
        range_kind(g.nodes[nid as int]),
    ensures
        (Graph { range: g.range.push(nid), ..g }).wf(),
{
    let h = Graph { range: g.range.push(nid), ..g };
    assert forall|n: int| 0 <= n < h.nodes.len() implies node_in_order(
        #[trigger] h.nodes[n],
        n,
        h.first_output(n),
        h.values.len(),
    ) by {
        assert(node_in_order(g.nodes[n], n, g.first_output(n), g.values.len()));
    }
    assert forall|m: int, n: int| 0 <= m < n < h.nodes.len() implies #[trigger] h.first_output(m)
        + h.nodes[m].outputs.len() <= #[trigger] h.first_output(n) by {
        assert(g.first_output(m) + g.nodes[m].outputs.len() <= g.first_output(n));
    }
}

/// The graph with nothing in it.
pub open spec fn empty_graph(sf_log: usize) -> Graph {
    Graph {
        ok: true,
        sf_log,
        nodes: Seq::empty(),
        values: Seq::empty(),
        range: Seq::empty(),
        two_pow: Seq::empty(),
        layer_boundaries: Seq::empty(),
        self_claims: Seq::empty(),
    }
}

/// A new edge keeps the graph in order.
proof fn lemma_place_wf(g: Graph, t: Tensor, n: nat)
    requires
        g.wf(),
        n == g.values.len() + 1,
        n <= usize::MAX,
    ensures
        g.place(t).0.wf(),
{
    let h = g.place(t).0;
    assert forall|i: int| 0 <= i < h.nodes.len() implies node_in_order(
        #[trigger] h.nodes[i],
        i,
        h.first_output(i),
        h.values.len(),
    ) by {
        assert(node_in_order(g.nodes[i], i, g.first_output(i), g.values.len()));
    }
    assert forall|m: int, k: int| 0 <= m < k < h.nodes.len() implies #[trigger] h.first_output(m)
        + h.nodes[m].outputs.len() <= #[trigger] h.first_output(k) by {
        assert(g.first_output(m) + g.nodes[m].outputs.len() <= g.first_output(k));
    }
}

/// A new node keeps the graph in order.
proof fn lemma_emit_wf(g: Graph, inputs: Seq<EdgeId>, kind: Block, outs: Seq<Tensor>, n: nat)
    requires
        g.wf(),
        g.has_all(inputs),
        outs.len() == kind.arity(),
        g.values.len() + outs.len() <= usize::MAX,
        n == g.nodes.len() + 1,
        n <= usize::MAX,
    ensures
        g.emit(inputs, kind, outs).wf(),
{
    let h = g.emit(inputs, kind, outs);
    let last = g.nodes.len() as int;
    assert(h.first_output(last) == g.values.len());
    assert forall|i: int| 0 <= i < h.nodes.len() implies node_in_order(
        #[trigger] h.nodes[i],
        i,
        h.first_output(i),
        h.values.len(),
    ) by {
        if i < last {
            assert(h.nodes[i] == g.nodes[i]);
            assert(node_in_order(g.nodes[i], i, g.first_output(i), g.values.len()));
        } else {
            assert forall|k: int| 0 <= k < inputs.len() implies (#[trigger] inputs[k])
                < g.values.len() by {
                assert(g.has(inputs[k]));
            }
        }
    }
    assert forall|m: int, k: int| 0 <= m < k < h.nodes.len() implies #[trigger] h.first_output(m)
        + h.nodes[m].outputs.len() <= #[trigger] h.first_output(k) by {
        assert(h.nodes[m] == g.nodes[m]);
        assert(node_in_order(g.nodes[m], m, g.first_output(m), g.values.len()));
        if k < last {
            assert(h.nodes[k] == g.nodes[k]);
            assert(g.first_output(m) + g.nodes[m].outputs.len() <= g.first_output(k));
        }
    }
    assert forall|i: int| 0 <= i < h.range.len() implies (#[trigger] h.range[i]) < h.nodes.len()
        && range_kind(h.nodes[h.range[i] as int]) by {
        assert(g.range[i] < g.nodes.len());
    }
    assert forall|i: int| 0 <= i < h.two_pow.len() implies (#[trigger] h.two_pow[i]) < h.nodes.len()
        && h.nodes[h.two_pow[i] as int].kind == Block::Op(Op::TwoPow)
        && h.nodes[h.two_pow[i] as int].inputs.len() == 1 by {
        assert(g.two_pow[i] < g.nodes.len());
    }
}

} // verus!
