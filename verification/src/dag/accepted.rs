//! Blocks that tell the truth about the tensors of a graph are accepted.
use vstd::arithmetic::power2::*;
use vstd::prelude::*;

use crate::commit::basefold::{BasefoldCommitmentData, BasefoldOpeningProof};
use crate::dag::backward::{
    edges_of, node_proof_view, node_proof_views, started, BlockReply, Pass, Scope,
};
use crate::dag::block::{nested, Block, Op};
use crate::dag::builder::DagBuilder;
use crate::dag::check_pass::{judged, CheckReply};
use crate::dag::compile::{compiled, nonneg_inputs, unread};
use crate::dag::complete::{
    claims_true, honest_run, lemma_extends_final, lemma_prove_verify, lemma_range_claimed,
    lemma_claimed_replay, lemma_claimed_started, lemma_proved_event, lemma_started_unproved,
    lemma_start_in_step, lookups_true, openings_true,
};
use crate::dag::complete_parallel::{
    cuts_housed, ends, honest_part, honest_parts, housed, lemma_prove_verify_parallel, merged_true,
    part_passes, PartRun,
};
use crate::dag::finish::opening_seed;
use crate::dag::graph::{node_in_order, range_kind, Graph};
use crate::dag::last_claim::lemma_last_claim;
use crate::dag::lockstep::{
    all_followable, all_pass, event_passes, followable, happened, lemma_own_output, lemma_replay,
};
use crate::dag::lookup_model::{
    all_bits, bit_table, inner, lemma_bits_recompose, lemma_selections_recompose, recomposed,
    two_pow_table,
};
use crate::dag::openings::{edge_table, edge_vars, witnesses_ok};
use crate::dag::outputs::{drawn_upto, edges_known, random_claims};
use crate::dag::parallel::{fork_digest, merged, merged_upto, parallel_from, proof_of_pass};
use crate::dag::partition::PartitionDesc;
use crate::dag::pass::{
    answered, digest_after, happens, is_block, lemma_compiled_ordered, replayed, runs, seen, Event,
};
use crate::dag::prove::{is_whole, proof_from, DagProof};
use crate::dag::range::{
    enough_claims, expected_bits, item_point, mid_matches, range_open, range_parts,
};
use crate::dag::ready::lemma_compiled_lookups;
use crate::dag::reduction::lemma_table_len;
use crate::dag::truth::{
    all_told, bits_told, lemma_mle_canon, lemma_random_claims_told, lemma_told_final,
    lemma_told_lookups, lemma_told_openings, lemma_told_replay, lemma_told_started, list_told,
    records_told, selections_sized, told, told_of, true_block, true_openings, true_reducer,
};
use crate::dag::two_pow::{item_sums, lemma_word_of};
use crate::dag::types::{
    claim_list, claims_of, Assertion, Claim, Dag, EdgeId, EdgeProof, LookupProof, NodeId, NodeProof,
    ParallelProof, PartitionProof,
};
use crate::dag::verify::{verifies, Checks};
use crate::dag::verify_parallel::{last_proof, merges, verifies_parallel};
use crate::dag::witness::Witness;
use crate::field::elem::{
    embed, lemma_add_canon, lemma_mul_comm, lemma_mul_zero, lemma_sub_add, zero, Elem,
};
use crate::field::{ext_elems, GoldilocksExt2};
use crate::poly::model::{all_canon, lemma_mle_add, lemma_mle_scale, mle, table_add, table_scale};
use crate::sumcheck::fiat_shamir::word_of;
use crate::sumcheck::SumcheckProof;
use crate::transcript::Digest;

verus! {

/// The claims in the proofs of the nodes are true.
pub open spec fn nodes_told(ws: Seq<Vec<Witness>>, nps: Seq<Option<NodeProof>>) -> bool {
    forall|n: int|
        0 <= n < nps.len() && (#[trigger] nps[n]) is Some ==> list_told(ws, claim_list(claims_of(nps[n])))
}

/// The output of lookup `i` holds the powers of two that its input selects, one for every entry.
pub open spec fn powers_held(dag: Dag, ws: Seq<Vec<Witness>>, i: int) -> bool {
    let out = dag.two_pow_out(i);
    let sparse = ws[dag.two_pow_inp(i) as int][0].data->0->Sparse_0;
    let n = sparse.selection.input_num_vars as nat;
    let chosen = sparse.selection.selection@;
    &&& n == edge_vars(ws, out as int)
    &&& sparse.n == n + 4
    &&& chosen.len() == pow2(n)
    &&& forall|k: int| 0 <= k < chosen.len() ==> (#[trigger] chosen[k]).0 == k && chosen[k].1 < 16
    &&& edge_table(ws, out as int) == Seq::new(pow2(n), |k: int| two_pow_table()[chosen[k].1 as int])
}

/// The powers of lookup `i` are held, and the last claim of its node is about the output, at the
/// point of the lookup.
pub open spec fn powers_fit(
    dag: Dag,
    ws: Seq<Vec<Witness>>,
    claims: Seq<Seq<Assertion>>,
    nps: Seq<Option<NodeProof>>,
    i: int,
) -> bool {
    let v = dag.two_pow[i] as int;
    let out = dag.two_pow_out(i);
    let cs = claim_list(claims_of(nps[v]));
    &&& powers_held(dag, ws, i)
    &&& nps[v] is Some
    &&& cs.len() > 0
    &&& cs.last().edge_id == out
    &&& cs.last().point == claims[out as int].last().point
}

/// Claim `c` is about edge `e`, at the point of check `i`, which has as many coordinates as the
/// checked numbers have variables.
pub open spec fn at_check(
    dag: Dag,
    ws: Seq<Vec<Witness>>,
    claims: Seq<Seq<Assertion>>,
    i: int,
    c: Assertion,
    e: EdgeId,
) -> bool {
    let item = dag.range_item(ws, claims, i);
    &&& c.edge_id == e
    &&& item.point == Some(c.point)
    &&& c.point.len() == item.n
}

/// The bits of check `i` are bits and spell what the check is about: the remainders of a division by
/// `sf`, zeros, or the checked numbers. The claims of its node that the check reads are about the
/// numbers and the quotients, at the point of the check.
pub open spec fn range_fits(
    dag: Dag,
    ws: Seq<Vec<Witness>>,
    claims: Seq<Seq<Assertion>>,
    nps: Seq<Option<NodeProof>>,
    sf: u64,
    i: int,
) -> bool {
    let node = dag.nodes[dag.range[i] as int];
    let item = dag.range_item(ws, claims, i);
    let spelt = |x: int| recomposed(item.words, item.n, x);
    let inp = dag.range_inp(i);
    let proved = nps[dag.range[i] as int] is Some;
    let cs = claim_list(claims_of(nps[dag.range[i] as int]));
    &&& all_bits(item.words)
    &&& match node.kind@ {
        Block::Op(Op::ScaleDown { .. }) => {
            let out = node.outputs[0];
            proved ==> {
                &&& cs.len() >= 2
                &&& at_check(dag, ws, claims, i, cs[0], inp)
                &&& at_check(dag, ws, claims, i, cs[1], out)
                &&& forall|x: int|
                    0 <= x < pow2(item.n) ==> #[trigger] spelt(x) == edge_table(ws, inp as int)[x]
                        - edge_table(ws, out as int)[x] * embed(sf as int)
            }
        },
        Block::Op(Op::ScaleUp { .. }) => forall|x: int|
            0 <= x < pow2(item.n) ==> #[trigger] spelt(x) == zero(),
        Block::Op(Op::NonNegative) => proved ==> {
            &&& cs.len() >= 1
            &&& at_check(dag, ws, claims, i, cs[0], inp)
            &&& forall|x: int| 0 <= x < pow2(item.n) ==> #[trigger] spelt(x) == edge_table(ws, inp as int)[x]
        },
        _ => true,
    }
}

/// The lookups of a graph fit its tensors, and no range check is about a selection.
pub open spec fn lookups_fit(
    dag: Dag,
    ws: Seq<Vec<Witness>>,
    claims: Seq<Seq<Assertion>>,
    nps: Seq<Option<NodeProof>>,
    sf: u64,
) -> bool {
    &&& forall|i: int| 0 <= i < dag.two_pow.len() ==> #[trigger] powers_fit(dag, ws, claims, nps, i)
    &&& forall|i: int| 0 <= i < dag.range.len() ==> #[trigger] range_fits(dag, ws, claims, nps, sf, i)
    &&& forall|i: int, j: int|
        0 <= i < dag.range.len() && 0 <= j < dag.two_pow.len() ==> #[trigger] dag.range_inp(i)
            != #[trigger] dag.two_pow_inp(j)
}

/// What the lookups of a graph need where one pass makes all claims: the outputs hold the powers that
/// are selected, and only nodes that read them make claims about them; the range checks fit the
/// tensors, and none is about a selection.
pub open spec fn lookups_held(
    dag: Dag,
    ws: Seq<Vec<Witness>>,
    claims: Seq<Seq<Assertion>>,
    nps: Seq<Option<NodeProof>>,
    sf: u64,
) -> bool {
    &&& forall|i: int|
        0 <= i < dag.two_pow.len() ==> #[trigger] powers_held(dag, ws, i)
            && !dag.self_claim_edges@.contains(dag.two_pow_out(i))
    &&& forall|i: int| 0 <= i < dag.range.len() ==> #[trigger] range_fits(dag, ws, claims, nps, sf, i)
    &&& forall|i: int, j: int|
        0 <= i < dag.range.len() && 0 <= j < dag.two_pow.len() ==> #[trigger] dag.range_inp(i)
            != #[trigger] dag.two_pow_inp(j)
}

/// What a lookup of powers of two comes to is the claimed value of its output.
proof fn lemma_powers_match(
    dag: Dag,
    ws: Seq<Vec<Witness>>,
    claims: Seq<Seq<Assertion>>,
    nps: Seq<Option<NodeProof>>,
    i: int,
)
    requires
        0 <= i < dag.two_pow.len(),
        dag.two_pow[i] < nps.len(),
        nodes_told(ws, nps),
        powers_fit(dag, ws, claims, nps, i),
    ensures
        dag.two_pow_eval(nps, i) == word_of(item_sums(dag.two_pow_items(ws, claims))[i]),
{
    let v = dag.two_pow[i] as int;
    let item = dag.two_pow_item(ws, claims, i);
    let chosen = item.sparse.selection.selection@;
    let cs = claim_list(claims_of(nps[v]));
    let c = cs[cs.len() - 1];
    assert(nps[v] is Some);
    assert(told(ws, c));
    assert(item.input_point() =~= item.point);
    let pt = ext_elems(item.point);
    assert(pt.len() == item.n());
    lemma_selections_recompose(chosen, item.n(), pt);
    assert(dag.two_pow_items(ws, claims)[i] == item);
    assert(item_sums(dag.two_pow_items(ws, claims))[i] == c.eval@);
    lemma_word_of(c.eval);
    assert(claims_of(nps[v]).last()@ == c);
}

/// The value of `u - v * k` at a point.
proof fn lemma_mle_remainder(w: Seq<Elem>, u: Seq<Elem>, v: Seq<Elem>, k: Elem, point: Seq<Elem>)
    requires
        u.len() == pow2(point.len()),
        v.len() == u.len(),
        w.len() == u.len(),
        all_canon(u),
        all_canon(v),
        forall|x: int| 0 <= x < w.len() ==> #[trigger] w[x] == u[x] - v[x] * k,
    ensures
        mle(w, point) == mle(u, point) - mle(v, point) * k,
{
    let kv = table_scale(k, v);
    assert forall|x: int| 0 <= x < w.len() implies (#[trigger] w[x]).canon() && w[x] + kv[x] == u[x]
        && kv[x].canon() by {
        assert(u[x].canon() && v[x].canon());
        lemma_mul_comm(k, v[x]);
        lemma_add_canon(u[x], v[x] * k);
        lemma_add_canon(v[x], k);
        lemma_sub_add(u[x], v[x] * k);
    }
    assert(table_add(w, kv) =~= u);
    assert forall|x: int| 0 <= x < kv.len() implies (#[trigger] kv[x]).canon() by {
        assert(w[x].canon());
    }
    lemma_mle_add(w, kv, point);
    lemma_mle_scale(k, v, point);
    lemma_mle_canon(w, point);
    lemma_mle_canon(v, point);
    let (a, b) = (mle(w, point), mle(v, point) * k);
    lemma_mul_comm(k, mle(v, point));
    lemma_sub_add(a, b);
}

/// A told claim at the point of a check gives the value of its edge there.
proof fn lemma_at_check(
    dag: Dag,
    ws: Seq<Vec<Witness>>,
    claims: Seq<Seq<Assertion>>,
    i: int,
    c: Assertion,
    e: EdgeId,
)
    requires
        witnesses_ok(ws, ws.len()),
        e < ws.len(),
        told(ws, c),
        at_check(dag, ws, claims, i, c, e),
    ensures
        ({
            let item = dag.range_item(ws, claims, i);
            let pt = ext_elems(item.point->0).take(item.n as int);
            &&& pt == ext_elems(c.point)
            &&& pt.len() == item.n
            &&& edge_table(ws, e as int).len() == pow2(item.n)
            &&& all_canon(edge_table(ws, e as int))
            &&& mle(edge_table(ws, e as int), pt) == c.eval@
            &&& c.eval.canonical()
        }),
{
    let item = dag.range_item(ws, claims, i);
    let pt = ext_elems(item.point->0).take(item.n as int);
    assert(pt =~= ext_elems(c.point));
    assert(ws[e as int].len() > 0);
    lemma_table_len(ws[e as int][0].data->0);
}

/// What the bits of a check spell is what its check expects.
proof fn lemma_range_match(
    dag: Dag,
    h: spec_fn(Digest, Digest) -> Digest,
    d: Digest,
    ws: Seq<Vec<Witness>>,
    claims: Seq<Seq<Assertion>>,
    nps: Seq<Option<NodeProof>>,
    sf: u64,
    i: int,
)
    requires
        dag.lookups_ok(),
        witnesses_ok(ws, dag.num_edges as nat),
        0 <= i < dag.range.len(),
        dag.range[i] < nps.len(),
        nodes_told(ws, nps),
        range_fits(dag, ws, claims, nps, sf, i),
        dag.range_item(ws, claims, i).wf(),
    ensures
        enough_claims(dag.nodes[dag.range[i] as int].kind@, nps[dag.range[i] as int]),
        expected_bits(
            dag.nodes[dag.range[i] as int].kind@,
            nps[dag.range[i] as int],
            sf,
        ) matches Some(e) ==> e == word_of(
            inner(range_parts(h, d, dag.range_items(ws, claims))[i], bit_table()),
        ),
{
    let v = dag.range[i] as int;
    let node = dag.nodes[v];
    let items = dag.range_items(ws, claims);
    let item = dag.range_item(ws, claims, i);
    assert(items[i] == item);
    let pt = item_point(h, range_open(h, d), items, i);
    assert(dag.range[i] < dag.nodes.len());
    assert(dag.nodes[v].inputs[0] < dag.num_edges);
    let inp = dag.range_inp(i);
    let spelt = |x: int| recomposed(item.words, item.n, x);
    let w = Seq::new(pow2(item.n), spelt);
    assert(pt.len() == item.n);
    lemma_pow2_adds(5, item.n);
    lemma2_to64();
    assert(w.len() == pow2(item.n));
    lemma_bits_recompose(item.words, item.n, pt, w);
    let cs = claim_list(claims_of(nps[v]));
    let m = inner(range_parts(h, d, items)[i], bit_table());
    assert(m == mle(w, pt));
    assert(nps[v] is Some ==> list_told(ws, cs));
    assert forall|x: int| 0 <= x < w.len() implies #[trigger] w[x] == spelt(x) by {}
    match node.kind@ {
        Block::Op(Op::ScaleDown { .. }) => {
            if nps[v] is Some {
                let out = node.outputs[0];
                assert(node.outputs.len() > 0 && node.outputs[0] < dag.num_edges);
                assert(told(ws, cs[0]) && told(ws, cs[1]));
                lemma_at_check(dag, ws, claims, i, cs[0], inp);
                lemma_at_check(dag, ws, claims, i, cs[1], out);
                lemma_mle_remainder(
                    w,
                    edge_table(ws, inp as int),
                    edge_table(ws, out as int),
                    embed(sf as int),
                    pt,
                );
                assert(claims_of(nps[v])[0]@ == cs[0] && claims_of(nps[v])[1]@ == cs[1]);
            }
        },
        Block::Op(Op::ScaleUp { .. }) => {
            assert(w =~= table_scale(zero(), w)) by {
                assert forall|x: int| 0 <= x < w.len() implies w[x] == table_scale(zero(), w)[x] by {
                    assert(spelt(x) == zero());
                    lemma_mul_zero(w[x]);
                }
            }
            assert forall|x: int| 0 <= x < w.len() implies (#[trigger] w[x]).canon() by {
                assert(spelt(x) == zero());
            }
            lemma_mle_scale(zero(), w, pt);
            lemma_mul_zero(mle(w, pt));
        },
        Block::Op(Op::NonNegative) => {
            if nps[v] is Some {
                assert(told(ws, cs[0]));
                lemma_at_check(dag, ws, claims, i, cs[0], inp);
                assert(w =~= edge_table(ws, inp as int));
                assert(claims_of(nps[v])[0]@ == cs[0]);
                lemma_word_of(cs[0].eval);
            }
        },
        _ => {},
    }
}

/// Lookups that fit the tensors say what is so.
pub proof fn lemma_lookups_true(
    dag: Dag,
    h: spec_fn(Digest, Digest) -> Digest,
    t: Digest,
    ws: Seq<Vec<Witness>>,
    claims: Seq<Seq<Assertion>>,
    sf: u64,
    nps: Seq<Option<NodeProof>>,
    rp: LookupProof,
    tp: LookupProof,
)
    requires
        dag.lookups_ok(),
        witnesses_ok(ws, dag.num_edges as nat),
        claims.len() == dag.num_edges,
        nps.len() == dag.nodes.len(),
        nodes_told(ws, nps),
        lookups_fit(dag, ws, claims, nps, sf),
        dag.range_all_ready(ws, dag.after_two_pow(h, t, ws, claims).0),
        dag.lookups_honest(h, t, ws, claims, rp, tp),
    ensures
        lookups_true(dag, h, t, ws, claims, sf, nps, rp, tp),
        selections_sized(dag, ws, claims),
        bits_told(dag, ws, dag.after_two_pow(h, t, ws, claims).0),
{
    let (c1, d1) = dag.after_two_pow(h, t, ws, claims);
    let items = dag.two_pow_items(ws, claims);
    assert forall|i: int| 0 <= i < dag.two_pow.len() implies #[trigger] dag.two_pow_eval(nps, i)
        == tp.middle_claims[i][0] by {
        assert(powers_fit(dag, ws, claims, nps, i));
        assert(dag.two_pow[i] < dag.nodes.len());
        lemma_powers_match(dag, ws, claims, nps, i);
        assert(tp.middle_claims[i]@ == seq![word_of(item_sums(items)[i])]);
    }
    assert forall|i: int| 0 <= i < dag.two_pow.len() implies (#[trigger] dag.two_pow_item(
        ws,
        claims,
        i,
    )).sparse.n == dag.two_pow_item(ws, claims, i).n() + 4 by {
        assert(powers_fit(dag, ws, claims, nps, i));
    }
    let ranges = dag.range_items(ws, c1);
    assert(ranges =~= dag.range_items(ws, claims)) by {
        assert forall|i: int| 0 <= i < dag.range.len() implies ranges[i] == dag.range_items(ws, claims)[i] by {
            lemma_range_claimed(dag, h, t, ws, claims, i);
        }
    }
    assert forall|i: int| 0 <= i < dag.range.len() implies {
        &&& all_bits((#[trigger] dag.range_item(ws, c1, i)).words)
        &&& enough_claims(dag.nodes[dag.range[i] as int].kind@, nps[dag.range[i] as int])
        &&& mid_matches(dag.range_checks(nps, ws, claims, sf), rp.middle_claims@, i)
    } by {
        assert(range_fits(dag, ws, claims, nps, sf, i));
        assert(ranges[i] == dag.range_item(ws, c1, i));
        assert(ranges[i] == dag.range_items(ws, claims)[i]);
        assert(dag.range_ready(ws, c1, i));
        assert(dag.range[i] < dag.nodes.len());
        lemma_range_match(dag, h, d1, ws, claims, nps, sf, i);
        assert(rp.middle_claims[i]@.len() == 2);
    }
    assert forall|i: int| 0 <= i < dag.range.len() implies enough_claims(
        dag.nodes[(#[trigger] dag.range[i]) as int].kind@,
        nps[dag.range[i] as int],
    ) by {
        let item = dag.range_item(ws, c1, i);
        assert(all_bits(item.words));
    }
    assert forall|i: int| 0 <= i < dag.range.len() implies #[trigger] mid_matches(
        dag.range_checks(nps, ws, claims, sf),
        rp.middle_claims@,
        i,
    ) by {
        let item = dag.range_item(ws, c1, i);
        assert(all_bits(item.words));
    }
}

/// Claims that are true in the records of a pass are true in the proofs that hold them.
proof fn lemma_nodes_told(
    ws: Seq<Vec<Witness>>,
    nps: Seq<Option<NodeProof>>,
    records: Seq<Option<(Vec<SumcheckProof>, Seq<Assertion>)>>,
)
    requires
        node_proof_views(nps) == records,
        records_told(ws, records),
    ensures
        nps.len() == records.len(),
        nodes_told(ws, nps),
{
    assert forall|n: int| 0 <= n < nps.len() && (#[trigger] nps[n]) is Some implies list_told(
        ws,
        claim_list(claims_of(nps[n])),
    ) by {
        assert(node_proof_views(nps)[n] == node_proof_view(nps[n]));
        assert(records[n] is Some);
    }
}

/// The check accepts what the block answers to a true claim, and ends at its digest.
pub open spec fn truth_passes<
    B: Fn(NodeId, &Vec<EdgeId>, &Vec<Claim>, Digest) -> BlockReply,
    V: Fn(NodeId, &Vec<Claim>, &Vec<SumcheckProof>, Digest) -> CheckReply,
>(dag: Dag, ws: Seq<Vec<Witness>>, block: B, check: V) -> bool {
    forall|u: NodeId, local: Seq<Assertion>, s: Digest, r: BlockReply, c: CheckReply|
        #[trigger] answered(block, u, edges_of(dag, u), local, s, r) && #[trigger] judged(
            check,
            u,
            claim_list(r.claims@) + local,
            r.proofs,
            s,
            c,
        ) && u < dag.nodes.len() && local.len() == 1 && told_of(
            ws,
            dag.nodes[u as int].outputs[0] as int,
            local,
        ) ==> c.ok && c.state == r.state
}

/// The check accepts the combination of several true claims, and ends at its digest.
pub open spec fn reduction_passes<
    R: Fn(NodeId, &Vec<EdgeId>, &Vec<Claim>, Digest) -> BlockReply,
    W: Fn(NodeId, &Vec<Claim>, &Vec<SumcheckProof>, Digest) -> CheckReply,
>(dag: Dag, ws: Seq<Vec<Witness>>, reduce: R, check: W) -> bool {
    forall|u: NodeId, es: Seq<EdgeId>, local: Seq<Assertion>, s: Digest, r: BlockReply, c: CheckReply|
        #[trigger] answered(reduce, u, es, local, s, r) && r.claims.len() == 1 && #[trigger] judged(
            check,
            u,
            local.push(claim_list(r.claims@)[0]),
            r.proofs,
            s,
            c,
        ) && u < dag.nodes.len() && told_of(ws, dag.nodes[u as int].outputs[0] as int, local) ==> c.ok
            && c.state == r.state
}

/// A run from true claims over blocks and reducers that tell the truth ends in true claims and true
/// records.
proof fn lemma_run_told<
    B: Fn(NodeId, &Vec<EdgeId>, &Vec<Claim>, Digest) -> BlockReply,
    R: Fn(NodeId, &Vec<EdgeId>, &Vec<Claim>, Digest) -> BlockReply,
>(
    dag: Dag,
    scope: Scope,
    ws: Seq<Vec<Witness>>,
    block: B,
    reduce: R,
    init: Seq<(EdgeId, Assertion)>,
    s: Digest,
    evs: Seq<Event>,
    q: Pass,
    t: Digest,
)
    requires
        dag.ordered(),
        scope.wf(&dag),
        is_block(dag, block),
        true_block(dag, ws, block),
        true_reducer(dag, ws, reduce),
        forall|i: int|
            0 <= i < init.len() ==> (#[trigger] init[i]).0 < dag.num_edges && init[i].1.edge_id == init[i].0
                && told(ws, init[i].1),
        runs(dag, scope, block, reduce, started(dag, scope, init, init.len()), s, evs, q, t),
        all_followable(dag, scope, started(dag, scope, init, init.len()), evs),
    ensures
        q.wf(dag),
        all_told(ws, q.claims),
        records_told(ws, q.node_proofs),
{
    let p = started(dag, scope, init, init.len());
    lemma_told_started(dag, scope, ws, init, init.len());
    lemma_started_unproved(dag, scope, init, init.len());
    lemma_start_in_step(dag, scope, init, init.len());
    assert(happened(dag, scope, block, reduce, p, s, evs, evs.len()));
    lemma_told_replay(dag, scope, ws, block, reduce, p, s, evs, evs.len());
    lemma_replay(dag, scope, block, reduce, p, s, evs, evs.len());
}

/// The checks accept what is answered in a run from true claims over blocks and reducers that tell
/// the truth.
proof fn lemma_run_passes<
    B: Fn(NodeId, &Vec<EdgeId>, &Vec<Claim>, Digest) -> BlockReply,
    R: Fn(NodeId, &Vec<EdgeId>, &Vec<Claim>, Digest) -> BlockReply,
    V: Fn(NodeId, &Vec<Claim>, &Vec<SumcheckProof>, Digest) -> CheckReply,
    W: Fn(NodeId, &Vec<Claim>, &Vec<SumcheckProof>, Digest) -> CheckReply,
>(
    dag: Dag,
    scope: Scope,
    ws: Seq<Vec<Witness>>,
    block: B,
    reduce: R,
    check: V,
    check_reducer: W,
    init: Seq<(EdgeId, Assertion)>,
    s: Digest,
    evs: Seq<Event>,
    q: Pass,
    t: Digest,
)
    requires
        dag.ordered(),
        scope.wf(&dag),
        is_block(dag, block),
        true_block(dag, ws, block),
        true_reducer(dag, ws, reduce),
        truth_passes(dag, ws, block, check),
        reduction_passes(dag, ws, reduce, check_reducer),
        forall|i: int|
            0 <= i < init.len() ==> (#[trigger] init[i]).0 < dag.num_edges && init[i].1.edge_id == init[i].0
                && told(ws, init[i].1),
        runs(dag, scope, block, reduce, started(dag, scope, init, init.len()), s, evs, q, t),
        all_followable(dag, scope, started(dag, scope, init, init.len()), evs),
    ensures
        all_pass(dag, scope, check, check_reducer, started(dag, scope, init, init.len()), s, evs),
{
    let p = started(dag, scope, init, init.len());
    lemma_told_started(dag, scope, ws, init, init.len());
    lemma_started_unproved(dag, scope, init, init.len());
    lemma_start_in_step(dag, scope, init, init.len());
    assert forall|k: int| 0 <= k < evs.len() implies event_passes(
        dag,
        check,
        check_reducer,
        replayed(dag, scope, p, evs, k as nat),
        digest_after(s, evs, k as nat),
        #[trigger] evs[k],
    ) by {
        let ev = evs[k];
        let u = ev.node;
        let pk = replayed(dag, scope, p, evs, k as nat);
        let d = digest_after(s, evs, k as nat);
        assert(happened(dag, scope, block, reduce, p, s, evs, k as nat));
        lemma_told_replay(dag, scope, ws, block, reduce, p, s, evs, k as nat);
        lemma_replay(dag, scope, block, reduce, p, s, evs, k as nat);
        assert(happens(dag, block, reduce, pk, d, evs[k]));
        assert(followable(dag, pk, evs[k]));
        let node = dag.nodes[u as int];
        let out = node.outputs[0];
        assert(dag.nodes[u as int].outputs.len() > 0);
        assert(dag.nodes[u as int].outputs[0] < dag.num_edges);
        let local = pk.local_claims(dag, u);
        let shown = seen(local, ev.reduction);
        assert(told_of(ws, out as int, pk.claims[out as int]));
        if ev.reduction is Some {
            let r = ev.reduction->0;
            assert(answered(reduce, u, seq![node.outputs@.last()], local, d, r));
            assert(told_of(ws, out as int, claim_list(r.claims@)));
        }
        assert(told_of(ws, out as int, shown));
        let mid = match ev.reduction {
            Some(r) => r.state,
            None => d,
        };
        assert(answered(block, u, edges_of(dag, u), shown, mid, ev.reply));
    }
}

/// The verifier accepts what a prover makes whose blocks, reducers and openings tell the truth about
/// the tensors of the graph, and ends at the prover's digest: where the given checks accept true
/// replies, and the lookups fit the tensors, every verdict on the proof is that it is right. Output
/// ports are taken to be listed once.
pub proof fn lemma_truth_accepted<
    B: Fn(NodeId, &Vec<EdgeId>, &Vec<Claim>, Digest) -> BlockReply,
    R: Fn(NodeId, &Vec<EdgeId>, &Vec<Claim>, Digest) -> BlockReply,
    O: Fn(usize, EdgeId, &Claim, GoldilocksExt2) -> BasefoldOpeningProof,
    V: Fn(NodeId, &Vec<Claim>, &Vec<SumcheckProof>, Digest) -> CheckReply,
    W: Fn(NodeId, &Vec<Claim>, &Vec<SumcheckProof>, Digest) -> CheckReply,
    P: Fn(usize, &BasefoldCommitmentData, &Claim, &BasefoldOpeningProof, GoldilocksExt2) -> bool,
>(
    dag: Dag,
    h: spec_fn(Digest, Digest) -> Digest,
    s: Digest,
    ws: Seq<Vec<Witness>>,
    com: Seq<Option<BasefoldCommitmentData>>,
    block: B,
    reduce: R,
    open: O,
    scope: Scope,
    evs: Seq<Event>,
    q: Pass,
    t: Digest,
    p: DagProof,
    end: Digest,
    checks: Checks<V, W, P>,
    r: Option<bool>,
    vend: Digest,
)
    requires
        dag.provable(ws, com),
        is_block(dag, block),
        dag.claimed_outputs(ws).no_duplicates(),
        true_block(dag, ws, block),
        true_reducer(dag, ws, reduce),
        true_openings(ws, dag.openable(ws, com, Seq::empty()), open, checks.opening),
        truth_passes(dag, ws, block, checks.block),
        reduction_passes(dag, ws, reduce, checks.reducer),
        honest_run(dag, h, s, ws, block, reduce, scope, evs, q, t),
        proof_from(dag, h, ws, com, open, q, t, Some(p), end),
        lookups_held(dag, ws, q.claims, p.0@, checks.sf),
        verifies(dag, h, s, ws, com, p.0@, p.1@, p.2, p.3, p.4@, checks, r, vend),
    ensures
        r == Some(true),
        vend == end,
{
    let outs = dag.claimed_outputs(ws);
    let init = random_claims(h, s, ws, outs);
    let s1 = drawn_upto(h, s, ws, outs, outs.len());
    let oc = dag.openable(ws, com, Seq::empty());
    lemma_random_claims_told(h, s, ws, outs);
    assert forall|i: int| 0 <= i < init.len() implies (#[trigger] init[i]).0 < dag.num_edges
        && init[i].1.edge_id == init[i].0 && told(ws, init[i].1) by {
        assert(outs[i] < ws.len());
    }
    lemma_run_told(dag, scope, ws, block, reduce, init, s1, evs, q, t);
    lemma_run_passes(
        dag,
        scope,
        ws,
        block,
        reduce,
        checks.block,
        checks.reducer,
        init,
        s1,
        evs,
        q,
        t,
    );
    lemma_nodes_told(ws, p.0@, q.node_proofs);
    lemma_powers_shown(dag, scope, ws, block, reduce, init, s1, evs, q, t, p.0@, checks.sf);
    lemma_end_told(dag, h, t, ws, oc, open, checks.opening, checks.sf, q.claims, p.0@, p.1@, p.2, p.3, end);
    lemma_prove_verify(
        dag,
        h,
        s,
        ws,
        com,
        block,
        reduce,
        open,
        scope,
        evs,
        q,
        t,
        p,
        end,
        checks,
        r,
        vend,
    );
}

/// After a run over the whole graph, the lookups of powers of two are at the points of the last
/// claims of their nodes.
proof fn lemma_powers_shown<
    B: Fn(NodeId, &Vec<EdgeId>, &Vec<Claim>, Digest) -> BlockReply,
    R: Fn(NodeId, &Vec<EdgeId>, &Vec<Claim>, Digest) -> BlockReply,
>(
    dag: Dag,
    scope: Scope,
    ws: Seq<Vec<Witness>>,
    block: B,
    reduce: R,
    init: Seq<(EdgeId, Assertion)>,
    s: Digest,
    evs: Seq<Event>,
    q: Pass,
    t: Digest,
    nps: Seq<Option<NodeProof>>,
    sf: u64,
)
    requires
        dag.ordered(),
        dag.lookups_ok(),
        is_whole(dag, scope),
        is_block(dag, block),
        forall|i: int| 0 <= i < init.len() ==> (#[trigger] init[i]).0 < dag.num_edges,
        runs(dag, scope, block, reduce, started(dag, scope, init, init.len()), s, evs, q, t),
        all_followable(dag, scope, started(dag, scope, init, init.len()), evs),
        all_told(ws, q.claims),
        node_proof_views(nps) == q.node_proofs,
        dag.two_pow_all_ready(ws, q.claims),
        lookups_held(dag, ws, q.claims, nps, sf),
    ensures
        lookups_fit(dag, ws, q.claims, nps, sf),
{
    let p = started(dag, scope, init, init.len());
    let n = evs.len();
    lemma_claimed_started(dag, scope, init, init.len());
    lemma_started_unproved(dag, scope, init, init.len());
    assert(happened(dag, scope, block, reduce, p, s, evs, n));
    lemma_claimed_replay(dag, scope, block, reduce, p, s, evs, n);
    lemma_replay(dag, scope, block, reduce, p, s, evs, n);
    assert forall|i: int| 0 <= i < dag.two_pow.len() implies #[trigger] powers_fit(
        dag,
        ws,
        q.claims,
        nps,
        i,
    ) by {
        assert(powers_held(dag, ws, i));
        assert(dag.two_pow[i] < dag.nodes.len());
        assert(dag.two_pow_ready(ws, q.claims, i));
        let v = dag.two_pow[i];
        let out = dag.two_pow_out(i);
        assert(dag.nodes[v as int].outputs.len() > 0);
        assert(dag.nodes[v as int].outputs@.contains(out));
        lemma_own_output(dag, v, out);
        assert(q.claims[out as int].len() > 0);
        assert(!q.pending[v as int]);
        assert(q.node_proofs[v as int] is Some);
        lemma_proved_event(dag, scope, block, reduce, p, s, evs, n, v as int);
        let k = choose|k: int| 0 <= k < n && (#[trigger] evs[k]).node == v;
        lemma_last_claim(dag, scope, block, reduce, p, s, evs, k as nat);
        assert(node_proof_views(nps)[v as int] == node_proof_view(nps[v as int]));
        assert(told_of(ws, out as int, q.claims[out as int]));
        let last = q.claims[out as int][q.claims[out as int].len() - 1];
        assert(last.edge_id == out);
    }
}

/// What follows a pass that ends in true claims is true.
proof fn lemma_end_told<
    O: Fn(usize, EdgeId, &Claim, GoldilocksExt2) -> BasefoldOpeningProof,
    P: Fn(usize, &BasefoldCommitmentData, &Claim, &BasefoldOpeningProof, GoldilocksExt2) -> bool,
>(
    dag: Dag,
    h: spec_fn(Digest, Digest) -> Digest,
    t: Digest,
    ws: Seq<Vec<Witness>>,
    oc: Seq<Option<BasefoldCommitmentData>>,
    open: O,
    check: P,
    sf: u64,
    claims: Seq<Seq<Assertion>>,
    nps: Seq<Option<NodeProof>>,
    eps: Seq<EdgeProof>,
    rp: LookupProof,
    tp: LookupProof,
    end: Digest,
)
    requires
        dag.lookups_ok(),
        witnesses_ok(ws, dag.num_edges as nat),
        claims.len() == dag.num_edges,
        nps.len() == dag.nodes.len(),
        all_told(ws, claims),
        nodes_told(ws, nps),
        lookups_fit(dag, ws, claims, nps, sf),
        true_openings(ws, oc, open, check),
        dag.can_finish(h, t, ws, oc, claims),
        dag.finished(h, t, ws, oc, claims, open, eps, rp, tp, end),
    ensures
        lookups_true(dag, h, t, ws, claims, sf, nps, rp, tp),
        claims_true(dag, ws, oc, dag.after_lookups(h, t, ws, claims).0),
        ({
            let (fc, fd) = dag.final_claims(h, t, ws, oc, claims);
            let tasks = dag.tasks_upto(ws, oc, fc, dag.num_edges as nat);
            openings_true(check, oc, eps, tasks, opening_seed(h, fd))
        }),
{
    let (fc, fd) = dag.final_claims(h, t, ws, oc, claims);
    lemma_lookups_true(dag, h, t, ws, claims, sf, nps, rp, tp);
    lemma_told_lookups(dag, h, t, ws, claims);
    lemma_told_final(dag, h, t, ws, oc, claims);
    lemma_extends_final(dag, h, t, ws, oc, claims);
    lemma_told_openings(dag, ws, oc, fc, open, check, eps, opening_seed(h, fd));
}

/// Claims that are sent to a partition are among those that are sent out.
proof fn lemma_routed_told(
    dag: Dag,
    parts: Seq<PartitionDesc>,
    ws: Seq<Vec<Witness>>,
    init: Seq<(EdgeId, Assertion)>,
    p: int,
    k: nat,
)
    requires
        k <= init.len(),
        forall|i: int|
            0 <= i < init.len() ==> (#[trigger] init[i]).0 < dag.num_edges && init[i].1.edge_id == init[i].0
                && told(ws, init[i].1),
    ensures
        forall|i: int|
            0 <= i < dag.routed_upto(parts, init, p, k).len() ==> {
                let c = #[trigger] dag.routed_upto(parts, init, p, k)[i];
                c.0 < dag.num_edges && c.1.edge_id == c.0 && told(ws, c.1)
            },
    decreases k,
{
    if k > 0 {
        lemma_routed_told(dag, parts, ws, init, p, (k - 1) as nat);
        let rest = dag.routed_upto(parts, init, p, (k - 1) as nat);
        let cs = dag.routed_upto(parts, init, p, k);
        assert forall|i: int| 0 <= i < cs.len() implies {
            let c = #[trigger] cs[i];
            c.0 < dag.num_edges && c.1.edge_id == c.0 && told(ws, c.1)
        } by {
            if i < rest.len() {
                assert(cs[i] == rest[i]);
            } else {
                assert(cs[i] == init[k - 1]);
            }
        }
    }
}

/// Joining true claims edge by edge gives true claims.
proof fn lemma_merged_told(ws: Seq<Vec<Witness>>, qs: Seq<Pass>, e: int, k: nat)
    requires
        k <= qs.len(),
        forall|i: int| 0 <= i < qs.len() ==> e < (#[trigger] qs[i]).claims.len() && all_told(ws, qs[i].claims),
        0 <= e,
    ensures
        told_of(ws, e, merged_upto(qs, e, k)),
    decreases k,
{
    if k > 0 {
        lemma_merged_told(ws, qs, e, (k - 1) as nat);
        let a = merged_upto(qs, e, (k - 1) as nat);
        let b = qs[k - 1].claims[e];
        let ab = merged_upto(qs, e, k);
        assert(told_of(ws, e, b));
        assert forall|j: int| 0 <= j < ab.len() implies told(ws, #[trigger] ab[j]) && ab[j].edge_id == e by {
            if j < a.len() {
                assert(ab[j] == a[j]);
            } else {
                assert(ab[j] == b[j - a.len()]);
            }
        }
    }
}

/// The proofs of the nodes, each from the last partition that proves it.
pub open spec fn joined_proofs(dag: Dag, pps: Seq<PartitionProof>) -> Seq<Option<NodeProof>> {
    Seq::new(dag.nodes.len() as nat, |n: int| last_proof(pps, n, pps.len()))
}

/// The last proof of a node is that of some partition.
proof fn lemma_last_told(ws: Seq<Vec<Witness>>, pps: Seq<PartitionProof>, n: int, k: nat)
    requires
        k <= pps.len(),
        forall|i: int| 0 <= i < pps.len() ==> nodes_told(ws, (#[trigger] pps[i]).node_proofs@),
        forall|i: int| 0 <= i < pps.len() ==> n < (#[trigger] pps[i]).node_proofs.len(),
        0 <= n,
        last_proof(pps, n, k) is Some,
    ensures
        list_told(ws, claim_list(claims_of(last_proof(pps, n, k)))),
    decreases k,
{
    if k > 0 {
        assert(nodes_told(ws, pps[k - 1].node_proofs@));
        assert(n < pps[k - 1].node_proofs.len());
        if pps[k - 1].node_proofs[n] is None {
            lemma_last_told(ws, pps, n, (k - 1) as nat);
        } else {
            assert(pps[k - 1].node_proofs@[n] is Some);
        }
    }
}

/// Lookups fit, whichever list of proofs holds the claims.
proof fn lemma_fit_same(
    dag: Dag,
    ws: Seq<Vec<Witness>>,
    claims: Seq<Seq<Assertion>>,
    a: Seq<Option<NodeProof>>,
    b: Seq<Option<NodeProof>>,
    sf: u64,
)
    requires
        dag.lookups_ok(),
        a.len() == dag.nodes.len(),
        b.len() == a.len(),
        lookups_fit(dag, ws, claims, a, sf),
        forall|n: int| 0 <= n < a.len() ==> ((#[trigger] a[n]) is Some) == (b[n] is Some),
        forall|n: int|
            0 <= n < a.len() ==> claim_list(claims_of(#[trigger] a[n])) == claim_list(claims_of(b[n])),
    ensures
        lookups_fit(dag, ws, claims, b, sf),
{
    assert forall|i: int| 0 <= i < dag.two_pow.len() implies #[trigger] powers_fit(dag, ws, claims, b, i) by {
        assert(powers_fit(dag, ws, claims, a, i));
        assert(dag.two_pow[i] < dag.nodes.len());
        let n = dag.two_pow[i] as int;
        assert(a[n] is Some == (b[n] is Some));
        assert(claim_list(claims_of(a[n])) == claim_list(claims_of(b[n])));
    }
    assert forall|i: int| 0 <= i < dag.range.len() implies #[trigger] range_fits(dag, ws, claims, b, sf, i) by {
        assert(range_fits(dag, ws, claims, a, sf, i));
        assert(dag.range[i] < dag.nodes.len());
        let n = dag.range[i] as int;
        assert(a[n] is Some == (b[n] is Some));
        assert(claim_list(claims_of(a[n])) == claim_list(claims_of(b[n])));
    }
}

/// The verifier accepts what a prover makes partition by partition whose blocks, reducers and
/// openings tell the truth about the tensors of the graph, and ends at the prover's digest: where
/// the given checks accept true replies, and the lookups fit the tensors, every verdict on the proof
/// is that it is right. Output ports are taken to be listed once and to be written in some
/// partition, before they are read in others; boundaries that are committed to are taken to be
/// written in some partition.
pub proof fn lemma_truth_accepted_parallel<
    B: Fn(NodeId, &Vec<EdgeId>, &Vec<Claim>, Digest) -> BlockReply,
    R: Fn(NodeId, &Vec<EdgeId>, &Vec<Claim>, Digest) -> BlockReply,
    O: Fn(usize, EdgeId, &Claim, GoldilocksExt2) -> BasefoldOpeningProof,
    V: Fn(NodeId, &Vec<Claim>, &Vec<SumcheckProof>, Digest) -> CheckReply,
    W: Fn(NodeId, &Vec<Claim>, &Vec<SumcheckProof>, Digest) -> CheckReply,
    P: Fn(usize, &BasefoldCommitmentData, &Claim, &BasefoldOpeningProof, GoldilocksExt2) -> bool,
>(
    dag: Dag,
    parts: Seq<PartitionDesc>,
    h: spec_fn(Digest, Digest) -> Digest,
    s: Digest,
    ws: Seq<Vec<Witness>>,
    com: Seq<Option<BasefoldCommitmentData>>,
    block: B,
    reduce: R,
    open: O,
    rs: Seq<PartRun>,
    p: ParallelProof,
    end: Digest,
    checks: Checks<V, W, P>,
    r: Option<bool>,
    vend: Digest,
)
    requires
        dag.provable(ws, com),
        edges_known(ws, dag.boundary_edges@),
        is_block(dag, block),
        dag.claimed_outputs(ws).no_duplicates(),
        housed(dag, parts, dag.claimed_outputs(ws)),
        cuts_housed(dag, parts, ws, com),
        true_block(dag, ws, block),
        true_reducer(dag, ws, reduce),
        true_openings(ws, dag.openable(ws, com, dag.boundary_edges@), open, checks.opening),
        truth_passes(dag, ws, block, checks.block),
        reduction_passes(dag, ws, reduce, checks.reducer),
        ({
            let outs = dag.claimed_outputs(ws);
            let cuts = dag.boundary_edges@;
            let s1 = drawn_upto(h, s, ws, outs, outs.len());
            let s2 = drawn_upto(h, s1, ws, cuts, cuts.len());
            let boundary = random_claims(h, s1, ws, cuts);
            let init = random_claims(h, s, ws, outs) + boundary;
            &&& honest_parts(dag, parts, h, s2, init, block, reduce, rs)
            &&& parallel_from(dag, h, s2, ws, com, open, boundary, ends(rs), Some(p), end)
        }),
        lookups_fit(
            dag,
            ws,
            merged(ends(rs), dag.num_edges as nat),
            joined_proofs(dag, p.partition_proofs@),
            checks.sf,
        ),
        verifies_parallel(dag, parts, h, s, ws, com, p, checks, r, vend),
    ensures
        r == Some(true),
        vend == end,
{
    let outs = dag.claimed_outputs(ws);
    let cuts = dag.boundary_edges@;
    let first = random_claims(h, s, ws, outs);
    let s1 = drawn_upto(h, s, ws, outs, outs.len());
    let s2 = drawn_upto(h, s1, ws, cuts, cuts.len());
    let boundary = random_claims(h, s1, ws, cuts);
    let init = first + boundary;
    let qs = ends(rs);
    let claims = merged(qs, dag.num_edges as nat);
    let oc = dag.openable(ws, com, cuts);
    let pps = p.partition_proofs@;
    lemma_random_claims_told(h, s, ws, outs);
    lemma_random_claims_told(h, s1, ws, cuts);
    assert forall|i: int| 0 <= i < init.len() implies (#[trigger] init[i]).0 < dag.num_edges
        && init[i].1.edge_id == init[i].0 && told(ws, init[i].1) by {
        if i < first.len() {
            assert(init[i] == first[i]);
            assert(outs[i] < ws.len());
        } else {
            assert(init[i] == boundary[i - first.len()]);
            assert(cuts[i - first.len()] < ws.len());
        }
    }
    assert forall|k: int| 0 <= k < qs.len() implies (#[trigger] qs[k]).wf(dag) && all_told(ws, qs[k].claims)
        && records_told(ws, qs[k].node_proofs) by {
        let run = rs[k];
        assert(honest_part(dag, parts, h, s2, init, block, reduce, k, rs[k]));
        let cs = dag.routed(parts, init, k);
        lemma_routed_told(dag, parts, ws, init, k, init.len());
        lemma_run_told(
            dag,
            run.scope,
            ws,
            block,
            reduce,
            cs,
            fork_digest(h, s2, k),
            run.evs,
            run.end,
            run.digest,
        );
    }
    assert forall|k: int| 0 <= k < rs.len() implies part_passes(
        dag,
        parts,
        h,
        s2,
        init,
        k,
        #[trigger] rs[k],
        checks,
    ) by {
        let run = rs[k];
        assert(honest_part(dag, parts, h, s2, init, block, reduce, k, rs[k]));
        let cs = dag.routed(parts, init, k);
        lemma_routed_told(dag, parts, ws, init, k, init.len());
        lemma_run_passes(
            dag,
            run.scope,
            ws,
            block,
            reduce,
            checks.block,
            checks.reducer,
            cs,
            fork_digest(h, s2, k),
            run.evs,
            run.end,
            run.digest,
        );
    }
    assert forall|e: int| 0 <= e < claims.len() implies told_of(ws, e, #[trigger] claims[e]) by {
        assert forall|i: int| 0 <= i < qs.len() implies e < (#[trigger] qs[i]).claims.len() && all_told(
            ws,
            qs[i].claims,
        ) by {
            assert(qs[i].wf(dag));
        }
        lemma_merged_told(ws, qs, e, qs.len());
    }
    assert forall|k: int| 0 <= k < pps.len() implies nodes_told(ws, (#[trigger] pps[k]).node_proofs@)
        && pps[k].node_proofs.len() == dag.nodes.len() by {
        assert(proof_of_pass(qs[k], p.partition_proofs[k]));
        assert(qs[k].wf(dag));
        lemma_nodes_told(ws, pps[k].node_proofs@, qs[k].node_proofs);
    }
    let joined = joined_proofs(dag, pps);
    assert forall|n: int| 0 <= n < joined.len() && (#[trigger] joined[n]) is Some implies list_told(
        ws,
        claim_list(claims_of(joined[n])),
    ) by {
        lemma_last_told(ws, pps, n, pps.len());
    }
    lemma_end_told(
        dag,
        h,
        s2,
        ws,
        oc,
        open,
        checks.opening,
        checks.sf,
        claims,
        joined,
        p.edge_proofs@,
        p.range_proof,
        p.two_pow_proof,
        end,
    );
    assert forall|m: Seq<Option<NodeProof>>|
        m.len() == dag.nodes.len() && #[trigger] merges(pps, m) implies lookups_true(
        dag,
        h,
        s2,
        ws,
        claims,
        checks.sf,
        m,
        p.range_proof,
        p.two_pow_proof,
    ) by {
        assert forall|n: int| 0 <= n < m.len() implies ((#[trigger] joined[n]) is Some) == (m[n] is Some)
            && claim_list(claims_of(joined[n])) == claim_list(claims_of(m[n])) by {
            assert(m[n] is Some <==> last_proof(pps, n, pps.len()) is Some);
        }
        lemma_fit_same(dag, ws, claims, joined, m, checks.sf);
        assert(nodes_told(ws, m)) by {
            assert forall|n: int| 0 <= n < m.len() && (#[trigger] m[n]) is Some implies list_told(
                ws,
                claim_list(claims_of(m[n])),
            ) by {
                assert(joined[n] is Some);
            }
        }
        lemma_lookups_true(
            dag,
            h,
            s2,
            ws,
            claims,
            checks.sf,
            m,
            p.range_proof,
            p.two_pow_proof,
        );
    }
    assert forall|i: int| 0 <= i < dag.two_pow.len() implies last_proof(
        pps,
        (#[trigger] dag.two_pow[i]) as int,
        pps.len(),
    ) is Some by {
        assert(powers_fit(dag, ws, claims, joined, i));
        assert(dag.two_pow[i] < dag.nodes.len());
    }
    assert(merged_true(dag, h, s2, ws, claims, checks.sf, p));
    lemma_prove_verify_parallel(
        dag,
        parts,
        h,
        s,
        ws,
        com,
        block,
        reduce,
        open,
        rs,
        p,
        end,
        checks,
        r,
        vend,
    );
}

/// The output ports of a compiled graph are edges of it.
proof fn lemma_compiled_ports(g: Graph, dag: Dag)
    requires
        g.wf(),
        compiled(g, dag),
    ensures
        dag.ports_ok(),
{
    let a = unread(nested(dag.consumers@), g.values.len());
    let b = nonneg_inputs(g.nodes, g.range, g.range.len());
    lemma_unread_bound(nested(dag.consumers@), g.values.len());
    lemma_nonneg_bound(g, g.range.len());
    assert forall|i: int| 0 <= i < dag.output_ports.len() implies (#[trigger] dag.output_ports[i])
        < dag.num_edges by {
        assert(dag.output_ports@[i] == (a + b)[i]);
        if i < a.len() {
            assert(a[i] < g.values.len());
        } else {
            assert(b[i - a.len()] < g.values.len());
        }
    }
}

pub proof fn lemma_unread_bound(consumers: Seq<Seq<NodeId>>, k: nat)
    requires
        k <= usize::MAX,
    ensures
        forall|i: int| 0 <= i < unread(consumers, k).len() ==> (#[trigger] unread(consumers, k)[i]) < k,
    decreases k,
{
    if k > 0 {
        lemma_unread_bound(consumers, (k - 1) as nat);
        let rest = unread(consumers, (k - 1) as nat);
        let all = unread(consumers, k);
        assert forall|i: int| 0 <= i < all.len() implies (#[trigger] all[i]) < k by {
            if i < rest.len() {
                assert(all[i] == rest[i]);
            }
        }
    }
}

proof fn lemma_nonneg_bound(g: Graph, k: nat)
    requires
        g.wf(),
        k <= g.range.len(),
    ensures
        forall|i: int|
            0 <= i < nonneg_inputs(g.nodes, g.range, k).len() ==> (#[trigger] nonneg_inputs(
                g.nodes,
                g.range,
                k,
            )[i]) < g.values.len(),
    decreases k,
{
    if k > 0 {
        lemma_nonneg_bound(g, (k - 1) as nat);
        let n = g.range[k - 1] as int;
        assert(range_kind(g.nodes[n]));
        assert(node_in_order(g.nodes[n], n, g.first_output(n), g.values.len()));
        assert(g.nodes[n].inputs[0] < g.first_output(n));
        let rest = nonneg_inputs(g.nodes, g.range, (k - 1) as nat);
        let all = nonneg_inputs(g.nodes, g.range, k);
        assert forall|i: int| 0 <= i < all.len() implies (#[trigger] all[i]) < g.values.len() by {
            if i < rest.len() {
                assert(all[i] == rest[i]);
            }
        }
    }
}

/// Every compiled graph can be proved, whatever layers it is built of, once its outputs are known:
/// what holds of graphs that can be proved holds of all graphs that are built and compiled.
pub proof fn lemma_compiled_provable(
    g: Graph,
    dag: Dag,
    ws: Seq<Vec<Witness>>,
    com: Seq<Option<BasefoldCommitmentData>>,
)
    requires
        g.wf(),
        compiled(g, dag),
        witnesses_ok(ws, dag.num_edges as nat),
        com.len() == dag.num_edges,
        edges_known(ws, dag.claimed_outputs(ws)),
    ensures
        dag.provable(ws, com),
{
    lemma_compiled_ordered(g, dag);
    lemma_compiled_lookups(g, dag);
    lemma_compiled_ports(g, dag);
}

/// The round trip of every graph that is built and compiled, pooling, padding and ReLU layers among
/// what it may be built of: where the blocks, reducers and openings tell the truth about the tensors
/// of the graph, the given checks accept true replies, and the lookups hold, every verdict on the
/// proof of the graph is that it is right. Output ports are taken to be listed once.
pub proof fn lemma_built_accepted<
    B: Fn(NodeId, &Vec<EdgeId>, &Vec<Claim>, Digest) -> BlockReply,
    R: Fn(NodeId, &Vec<EdgeId>, &Vec<Claim>, Digest) -> BlockReply,
    O: Fn(usize, EdgeId, &Claim, GoldilocksExt2) -> BasefoldOpeningProof,
    V: Fn(NodeId, &Vec<Claim>, &Vec<SumcheckProof>, Digest) -> CheckReply,
    W: Fn(NodeId, &Vec<Claim>, &Vec<SumcheckProof>, Digest) -> CheckReply,
    P: Fn(usize, &BasefoldCommitmentData, &Claim, &BasefoldOpeningProof, GoldilocksExt2) -> bool,
>(
    builder: DagBuilder,
    dag: Dag,
    h: spec_fn(Digest, Digest) -> Digest,
    s: Digest,
    ws: Seq<Vec<Witness>>,
    com: Seq<Option<BasefoldCommitmentData>>,
    block: B,
    reduce: R,
    open: O,
    scope: Scope,
    evs: Seq<Event>,
    q: Pass,
    t: Digest,
    p: DagProof,
    end: Digest,
    checks: Checks<V, W, P>,
    r: Option<bool>,
    vend: Digest,
)
    requires
        builder.wf(),
        compiled(builder@, dag),
        witnesses_ok(ws, dag.num_edges as nat),
        com.len() == dag.num_edges,
        edges_known(ws, dag.claimed_outputs(ws)),
        is_block(dag, block),
        dag.claimed_outputs(ws).no_duplicates(),
        true_block(dag, ws, block),
        true_reducer(dag, ws, reduce),
        true_openings(ws, dag.openable(ws, com, Seq::empty()), open, checks.opening),
        truth_passes(dag, ws, block, checks.block),
        reduction_passes(dag, ws, reduce, checks.reducer),
        honest_run(dag, h, s, ws, block, reduce, scope, evs, q, t),
        proof_from(dag, h, ws, com, open, q, t, Some(p), end),
        lookups_held(dag, ws, q.claims, p.0@, checks.sf),
        verifies(dag, h, s, ws, com, p.0@, p.1@, p.2, p.3, p.4@, checks, r, vend),
    ensures
        r == Some(true),
        vend == end,
{
    lemma_compiled_provable(builder@, dag, ws, com);
    lemma_truth_accepted(
        dag,
        h,
        s,
        ws,
        com,
        block,
        reduce,
        open,
        scope,
        evs,
        q,
        t,
        p,
        end,
        checks,
        r,
        vend,
    );
}

} // verus!
