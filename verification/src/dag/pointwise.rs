//! Claims about sums and differences of tensors.
use vstd::arithmetic::div_mod::*;
use vstd::arithmetic::mul::*;
use vstd::arithmetic::power2::*;
use vstd::prelude::*;

use crate::dag::accepted::truth_passes;
use crate::dag::backward::{edges_of, BlockReply};
use crate::dag::block::{BasicBlockType, Block, Op};
use crate::dag::check_pass::{judged, CheckReply};
use crate::dag::graph::{base_word, folded, folded_words};
use crate::dag::openings::{edge_table, edge_vars, witnesses_ok};
use crate::dag::outputs::evaluate;
use crate::dag::pass::answered;
use crate::dag::reduction::{lemma_table_len, lemma_word_elem, same_point};
use crate::dag::truth::{lemma_mle_canon, list_told, told, told_of, true_block};
use crate::dag::types::{claim_list, clone_point, Assertion, Claim, Dag, EdgeId, NodeId};
use crate::dag::witness::{zero_extended, Data, PolyData, Role, Tensor, Witness};
use crate::field::elem::{lemma_add_canon, lemma_sub_add, Elem};
use crate::field::{ext2_add, ext2_field_eq, ext2_sub, ext_elems, GoldilocksExt2, GoldilocksField};
use crate::poly::model::{lemma_mle_add, mle, table_add};
use crate::poly::MLPoly;
use crate::sumcheck::fiat_shamir::word_of;
use crate::sumcheck::SumcheckProof;
use crate::transcript::Digest;
use crate::util::arith::{clog2, lemma_clog2_unique, num_vars};
use crate::util::shape::{joint_shape, source};

verus! {

/// The claim that the polynomial on edge `e` has at `point` the value that it has.
pub open spec fn value_claim(ws: Seq<Vec<Witness>>, e: EdgeId, point: Seq<GoldilocksExt2>) -> Assertion {
    Assertion {
        edge_id: e,
        sparse_id: 0,
        point,
        eval: word_of(mle(edge_table(ws, e as int), ext_elems(point))),
    }
}

/// A claim about each input of a node, at one point.
pub open spec fn split(
    ws: Seq<Vec<Witness>>,
    inputs: Seq<EdgeId>,
    point: Seq<GoldilocksExt2>,
) -> Seq<Assertion> {
    Seq::new(inputs.len(), |i: int| value_claim(ws, inputs[i], point))
}

/// The inputs of a node are known, and have as many variables as the point has coordinates.
pub open spec fn splittable(
    ws: Seq<Vec<Witness>>,
    inputs: Seq<EdgeId>,
    point: Seq<GoldilocksExt2>,
) -> bool {
    forall|i: int|
        0 <= i < inputs.len() ==> ws[#[trigger] inputs[i] as int][0].data is Some && edge_vars(
            ws,
            inputs[i] as int,
        ) == point.len()
}

/// A claim about a sum or a difference becomes a claim about each side at the same point. There is
/// none where no claim is given, a side is not known, or the point does not fit a side.
pub fn split_claim(
    dag: &Dag,
    witnesses: &[Vec<Witness>],
    u: NodeId,
    claims: &[Claim],
    state: Digest,
) -> (r: Option<BlockReply>)
    requires
        dag.edges_ok(),
        witnesses_ok(witnesses@, dag.num_edges as nat),
        u < dag.nodes.len(),
    ensures
        r is Some <==> claims.len() > 0 && splittable(
            witnesses@,
            dag.nodes[u as int].inputs@,
            claims[0].point@,
        ),
        r matches Some(b) ==> {
            &&& claim_list(b.claims@) == split(witnesses@, dag.nodes[u as int].inputs@, claims[0].point@)
            &&& b.proofs.len() == 0
            &&& b.state == state
        },
{
    if claims.len() == 0 {
        return None;
    }
    let inputs: &Vec<EdgeId> = &dag.nodes[u].inputs;
    let point: &Vec<GoldilocksExt2> = &claims[0].point;
    let mut parts: Vec<Claim> = Vec::new();
    let mut i: usize = 0;
    while i < inputs.len()
        invariant
            i <= inputs.len(),
            dag.edges_ok(),
            u < dag.nodes.len(),
            inputs == dag.nodes[u as int].inputs,
            claims.len() > 0,
            point == claims[0].point,
            witnesses_ok(witnesses@, dag.num_edges as nat),
            parts.len() == i,
            forall|k: int| 0 <= k < i ==> (#[trigger] parts[k])@ == value_claim(witnesses@, inputs[k], point@),
            forall|k: int|
                0 <= k < i ==> witnesses[#[trigger] inputs[k] as int][0].data is Some && edge_vars(
                    witnesses@,
                    inputs[k] as int,
                ) == point.len(),
        decreases inputs.len() - i,
    {
        let e: EdgeId = inputs[i];
        assert(dag.nodes[u as int].inputs[i as int] < dag.num_edges);
        assert(witnesses[e as int].len() > 0);
        match &witnesses[e][0].data {
            Some(data) => {
                if data.n() != point.len() {
                    assert(edge_vars(witnesses@, inputs[i as int] as int) != point.len());
                    return None;
                }
                parts.push(
                    Claim { edge_id: e, sparse_id: 0, point: clone_point(point), eval: evaluate(data, point) },
                );
            },
            None => {
                assert(witnesses[inputs[i as int] as int][0].data is None);
                return None;
            },
        }
        i = i + 1;
    }
    assert(claim_list(parts@) =~= split(witnesses@, inputs@, point@));
    Some(BlockReply { proofs: Vec::new(), claims: parts, state })
}

/// Two claims about the sides and one about the whole, at one point, add up.
pub open spec fn adds_up(kind: Block, cs: Seq<Assertion>) -> bool {
    &&& cs.len() == 3
    &&& cs[2].eval@ == (if kind == Block::Op(Op::Sub) {
        cs[0].eval@ - cs[1].eval@
    } else {
        cs[0].eval@ + cs[1].eval@
    })
    &&& cs[0].point == cs[2].point
    &&& cs[1].point == cs[2].point
}

/// Whether the two sides add up to the claim about the whole.
pub fn check_split(dag: &Dag, u: NodeId, claims: &[Claim], state: Digest) -> (r: CheckReply)
    requires
        u < dag.nodes.len(),
    ensures
        r.ok == adds_up(dag.nodes[u as int].kind@, claim_list(claims@)),
        r.state == state,
{
    if claims.len() != 3 {
        return CheckReply { ok: false, state };
    }
    let whole: GoldilocksExt2 = match &dag.nodes[u].kind {
        BasicBlockType::Op(Op::Sub) => ext2_sub(claims[0].eval, claims[1].eval),
        _ => ext2_add(claims[0].eval, claims[1].eval),
    };
    let ok: bool = ext2_field_eq(whole, claims[2].eval) && same_point(&claims[0].point, &claims[2].point)
        && same_point(&claims[1].point, &claims[2].point);
    assert(claim_list(claims@)[0] == claims[0]@);
    assert(claim_list(claims@)[1] == claims[1]@);
    assert(claim_list(claims@)[2] == claims[2]@);
    CheckReply { ok, state }
}

/// The tensor on the first output of a node is the entrywise sum or difference of its two inputs.
pub open spec fn pointwise(dag: Dag, ws: Seq<Vec<Witness>>, u: int) -> bool {
    let node = dag.nodes[u];
    let (a, b) = (edge_table(ws, node.inputs[0] as int), edge_table(ws, node.inputs[1] as int));
    let whole = edge_table(ws, node.outputs[0] as int);
    &&& node.inputs.len() == 2
    &&& node.outputs.len() > 0
    &&& ws[node.inputs[0] as int][0].data is Some
    &&& ws[node.inputs[1] as int][0].data is Some
    &&& edge_vars(ws, node.inputs[0] as int) == edge_vars(ws, node.outputs[0] as int)
    &&& edge_vars(ws, node.inputs[1] as int) == edge_vars(ws, node.outputs[0] as int)
    &&& forall|x: int|
        0 <= x < whole.len() ==> #[trigger] whole[x] == (if node.kind@ == Block::Op(Op::Sub) {
            a[x] - b[x]
        } else {
            a[x] + b[x]
        })
}

/// A true claim about the whole can be split; the claims about the sides are true, and add up to it.
pub proof fn lemma_split_accepted(dag: Dag, ws: Seq<Vec<Witness>>, u: NodeId, c: Assertion)
    requires
        dag.edges_ok(),
        witnesses_ok(ws, dag.num_edges as nat),
        u < dag.nodes.len(),
        pointwise(dag, ws, u as int),
        c.edge_id == dag.nodes[u as int].outputs[0],
        told(ws, c),
    ensures
        splittable(ws, dag.nodes[u as int].inputs@, c.point),
        list_told(ws, split(ws, dag.nodes[u as int].inputs@, c.point)),
        adds_up(dag.nodes[u as int].kind@, split(ws, dag.nodes[u as int].inputs@, c.point).push(c)),
{
    let node = dag.nodes[u as int];
    let ins = node.inputs@;
    let cs = split(ws, ins, c.point);
    let pt = ext_elems(c.point);
    assert(dag.nodes[u as int].inputs[0] < dag.num_edges);
    assert(dag.nodes[u as int].inputs[1] < dag.num_edges);
    assert(dag.nodes[u as int].outputs[0] < dag.num_edges);
    let (a, b) = (edge_table(ws, ins[0] as int), edge_table(ws, ins[1] as int));
    let whole = edge_table(ws, node.outputs[0] as int);
    assert(splittable(ws, ins, c.point)) by {
        assert forall|i: int| 0 <= i < ins.len() implies ws[#[trigger] ins[i] as int][0].data is Some
            && edge_vars(ws, ins[i] as int) == c.point.len() by {
            assert(i == 0 || i == 1);
        }
    }
    assert forall|k: int| 0 <= k < cs.len() implies told(ws, #[trigger] cs[k]) by {
        assert(splittable(ws, ins, c.point));
        assert(dag.nodes[u as int].inputs[k] < dag.num_edges);
        assert(ws[ins[k] as int][0].data is Some);
        assert(ws[ins[k] as int].len() > 0);
        lemma_table_len(ws[ins[k] as int][0].data->0);
        lemma_mle_canon(edge_table(ws, ins[k] as int), pt);
        lemma_word_elem(mle(edge_table(ws, ins[k] as int), pt));
    }
    assert(told(ws, cs[0]) && told(ws, cs[1]));
    assert(ws[node.outputs[0] as int].len() > 0);
    assert(ws[ins[0] as int].len() > 0 && ws[ins[1] as int].len() > 0);
    lemma_table_len(ws[node.outputs[0] as int][0].data->0);
    lemma_table_len(ws[ins[0] as int][0].data->0);
    lemma_table_len(ws[ins[1] as int][0].data->0);
    let all = cs.push(c);
    assert(all[0] == cs[0] && all[1] == cs[1] && all[2] == c);
    if node.kind@ == Block::Op(Op::Sub) {
        assert(table_add(whole, b) =~= a) by {
            assert forall|x: int| 0 <= x < a.len() implies table_add(whole, b)[x] == a[x] by {
                assert(whole[x] == a[x] - b[x]);
                lemma_sub_add(a[x], b[x]);
            }
        }
        lemma_mle_add(whole, b, pt);
        lemma_mle_canon(whole, pt);
        lemma_sub_add(mle(whole, pt), mle(b, pt));
    } else {
        assert(table_add(a, b) =~= whole);
        lemma_mle_add(a, b, pt);
    }
}

/// The block splits the claims that it is shown.
pub open spec fn splits<B: Fn(NodeId, &Vec<EdgeId>, &Vec<Claim>, Digest) -> BlockReply>(
    dag: Dag,
    ws: Seq<Vec<Witness>>,
    block: B,
) -> bool {
    forall|u: NodeId, es: &Vec<EdgeId>, cs: &Vec<Claim>, s: Digest, r: BlockReply| #[trigger]
        call_ensures(block, (u, es, cs, s), r) && u < dag.nodes.len() && cs.len() > 0 ==> {
            &&& claim_list(r.claims@) == split(ws, dag.nodes[u as int].inputs@, cs[0].point@)
            &&& r.state == s
        }
}

/// The check asks whether claims add up.
pub open spec fn judges_splits<V: Fn(NodeId, &Vec<Claim>, &Vec<SumcheckProof>, Digest) -> CheckReply>(
    dag: Dag,
    check: V,
) -> bool {
    forall|u: NodeId, cs: &Vec<Claim>, ps: &Vec<SumcheckProof>, s: Digest, r: CheckReply| #[trigger]
        call_ensures(check, (u, cs, ps, s), r) && u < dag.nodes.len() ==> {
            &&& r.ok == adds_up(dag.nodes[u as int].kind@, claim_list(cs@))
            &&& r.state == s
        }
}

/// In a graph of sums and differences, splitting claims tells the truth, and a check that asks
/// whether claims add up accepts it.
pub proof fn lemma_splits_true<
    B: Fn(NodeId, &Vec<EdgeId>, &Vec<Claim>, Digest) -> BlockReply,
    V: Fn(NodeId, &Vec<Claim>, &Vec<SumcheckProof>, Digest) -> CheckReply,
>(dag: Dag, ws: Seq<Vec<Witness>>, block: B, check: V)
    requires
        dag.edges_ok(),
        witnesses_ok(ws, dag.num_edges as nat),
        forall|u: int| 0 <= u < dag.nodes.len() ==> #[trigger] pointwise(dag, ws, u),
        splits(dag, ws, block),
        judges_splits(dag, check),
    ensures
        true_block(dag, ws, block),
        truth_passes(dag, ws, block, check),
{
    assert forall|u: NodeId, local: Seq<Assertion>, s: Digest, r: BlockReply| #[trigger]
        answered(block, u, edges_of(dag, u), local, s, r) && u < dag.nodes.len() && local.len() == 1
            && told_of(ws, dag.nodes[u as int].outputs[0] as int, local) implies list_told(
        ws,
        claim_list(r.claims@),
    ) by {
        lemma_split_reply(dag, ws, block, u, local, s, r);
        assert(pointwise(dag, ws, u as int));
        lemma_split_accepted(dag, ws, u, local[0]);
    }
    assert forall|u: NodeId, local: Seq<Assertion>, s: Digest, r: BlockReply, c: CheckReply|
        #[trigger] answered(block, u, edges_of(dag, u), local, s, r) && #[trigger] judged(
            check,
            u,
            claim_list(r.claims@) + local,
            r.proofs,
            s,
            c,
        ) && u < dag.nodes.len() && local.len() == 1 && told_of(
            ws,
            dag.nodes[u as int].outputs[0] as int,
            local,
        ) implies c.ok && c.state == r.state by {
        lemma_split_reply(dag, ws, block, u, local, s, r);
        assert(pointwise(dag, ws, u as int));
        lemma_split_accepted(dag, ws, u, local[0]);
        let all = claim_list(r.claims@) + local;
        assert(all =~= claim_list(r.claims@).push(local[0]));
        let cs = choose|cs: &Vec<Claim>|
            claim_list(cs@) == all && #[trigger] call_ensures(check, (u, cs, &r.proofs, s), c);
        assert(call_ensures(check, (u, cs, &r.proofs, s), c));
    }
}

proof fn lemma_split_reply<B: Fn(NodeId, &Vec<EdgeId>, &Vec<Claim>, Digest) -> BlockReply>(
    dag: Dag,
    ws: Seq<Vec<Witness>>,
    block: B,
    u: NodeId,
    local: Seq<Assertion>,
    s: Digest,
    r: BlockReply,
)
    requires
        splits(dag, ws, block),
        answered(block, u, edges_of(dag, u), local, s, r),
        u < dag.nodes.len(),
        local.len() == 1,
    ensures
        claim_list(r.claims@) == split(ws, dag.nodes[u as int].inputs@, local[0].point),
        r.state == s,
{
    let (es, cs) = choose|es: &Vec<EdgeId>, cs: &Vec<Claim>|
        es@ == edges_of(dag, u) && claim_list(cs@) == local && #[trigger] call_ensures(
            block,
            (u, es, cs, s),
            r,
        );
    assert(call_ensures(block, (u, es, cs, s), r));
    assert(claim_list(cs@)[0] == cs[0]@);
}

/// A broadcast to the shape itself reads every entry in its place.
proof fn lemma_source_same(shape: Seq<usize>, i: int)
    requires
        0 <= i < pow2(num_vars(shape)),
    ensures
        source(shape, shape, i) == i,
    decreases shape.len(),
{
    lemma2_to64();
    if shape.len() > 0 {
        let head = shape.drop_last();
        let stride = pow2(num_vars(head)) as int;
        lemma_pow2_pos(num_vars(head));
        lemma_pow2_adds(num_vars(head), clog2(shape.last() as nat));
        lemma_mod_bound(i, stride);
        lemma_fundamental_div_mod(i, stride);
        lemma_source_same(head, i % stride);
        if shape.last() == 1 {
            lemma_clog2_unique(1, 0);
            lemma_small_mod(i as nat, stride as nat);
        } else {
            lemma_mul_is_commutative(stride, i / stride);
        }
    }
}

/// What comes of running a sum or a difference of two tensors of one shape is their entrywise sum
/// or difference.
pub proof fn lemma_run_pointwise(op: Op, x: Witness, y: Witness, r: Witness)
    requires
        x.shape@ == y.shape@,
        num_vars(x.shape@) < usize::BITS,
        x.data matches Some(PolyData::Dense(p)) && p.valid() && p.n == num_vars(x.shape@),
        y.data matches Some(PolyData::Dense(p)) && p.valid() && p.n == num_vars(x.shape@),
        r@ == (Tensor { role: Role::Output, ..folded(op, x@, y@) }),
    ensures
        r.data is Some,
        r.data->0.vars() == num_vars(x.shape@),
        r.data->0.table().len() == pow2(num_vars(x.shape@)),
        forall|i: int|
            0 <= i < r.data->0.table().len() ==> #[trigger] r.data->0.table()[i] == (if op == Op::Add {
                x.data->0.table()[i] + y.data->0.table()[i]
            } else {
                x.data->0.table()[i] - y.data->0.table()[i]
            }),
{
    let shape = x.shape@;
    let size = pow2(num_vars(shape));
    assert(joint_shape(shape, shape) =~= shape);
    let words = folded_words(op, x@, y@);
    assert(words.len() == size);
    assert(zero_extended(words, size) =~= words);
    let t = r.data->0.table();
    assert forall|i: int| 0 <= i < size implies #[trigger] words[i]@ == (if op == Op::Add {
        x.data->0.table()[i] + y.data->0.table()[i]
    } else {
        x.data->0.table()[i] - y.data->0.table()[i]
    }) by {
        lemma_source_same(shape, i);
        let (a, b) = (x.data->0@.word(i), y.data->0@.word(i));
        lemma_base_ops(a, b);
    }
    assert(r@.data == Some(Data::Dense { n: num_vars(shape) as usize, values: zero_extended(words, size) }));
    match r.data->0 {
        PolyData::Dense(p) => {
            assert(p.evaluations@ == words);
            assert(p.n == num_vars(shape));
            assert forall|i: int| 0 <= i < t.len() implies #[trigger] t[i] == words[i]@ by {}
        },
        PolyData::Sparse(p) => {},
    }
}

/// Sums and differences of base field elements are words.
proof fn lemma_base_ops(a: GoldilocksField, b: GoldilocksField)
    ensures
        base_word(a@ + b@)@ == a@ + b@,
        base_word(a@ - b@)@ == a@ - b@,
{
    reveal(Elem::spec_add);
    reveal(Elem::spec_sub);
    lemma_add_canon(a@, b@);
}

} // verus!
