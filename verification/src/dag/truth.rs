//! Claims that are true of the tensors of a graph, and what keeps them true.
use vstd::arithmetic::power2::*;
use vstd::prelude::*;

use crate::commit::basefold::{BasefoldCommitmentData, BasefoldOpeningProof};
use crate::dag::backward::{edges_of, started, BlockReply, Pass, Scope};
use crate::dag::check_finish::opening_judged;
use crate::dag::complete::{claims_true, lemma_schedule_claims, opening_true, openings_true};
use crate::dag::finish::task_done;
use crate::dag::lockstep::{all_followable, followable, happened, lemma_after_proofs, lemma_replay};
use crate::dag::lookup_model::{all_bits, lemma_planes_eval};
use crate::dag::openings::{edge_claims, edge_table, edge_vars, lemma_reduced_entry, witnesses_ok};
use crate::dag::outputs::{claim_at_random, drawn_upto, edges_known, random_claims};
use crate::dag::pass::{
    after, answered, is_block, lemma_claims_keep, lemma_edge_bound, local_reply, replayed, seen,
    Event,
};
use crate::dag::range::{
    item_point, point_words, range_challenges, range_open, range_parts, range_words,
    with_range_claims, RangeItem,
};
use crate::dag::reduction::{
    all_hold, combined_claim, lemma_table_len, lemma_word_elem, pointed, reduction_challenges,
};
use crate::dag::two_pow::{two_pow_challenges, with_item_claims, TwoPowItem};
use crate::dag::types::{claim_list, Assertion, Claim, Dag, EdgeId, EdgeProof, NodeId};
use crate::dag::witness::Witness;
use crate::field::elem::Elem;
use crate::field::{ext_elems, GoldilocksExt2};
use crate::poly::model::{all_canon, lemma_fold_all_canon, mle};
use crate::sumcheck::fiat_shamir::{lemma_elems_of_words, lemma_honest_prefix};
use crate::sumcheck::SumcheckProof;
use crate::transcript::{Digest, Label};

verus! {

/// The claim is true: the polynomial on its edge is known and has the claimed value at its point.
pub open spec fn told(ws: Seq<Vec<Witness>>, c: Assertion) -> bool {
    &&& ws[c.edge_id as int][0].data is Some
    &&& c.point.len() == edge_vars(ws, c.edge_id as int)
    &&& mle(edge_table(ws, c.edge_id as int), ext_elems(c.point)) == c.eval@
    &&& c.eval.canonical()
}

/// All claims of a list are true.
pub open spec fn list_told(ws: Seq<Vec<Witness>>, cs: Seq<Assertion>) -> bool {
    forall|k: int| 0 <= k < cs.len() ==> told(ws, #[trigger] cs[k])
}

/// All claims of a list are true, and about edge `e`.
pub open spec fn told_of(ws: Seq<Vec<Witness>>, e: int, cs: Seq<Assertion>) -> bool {
    list_told(ws, cs) && forall|k: int| 0 <= k < cs.len() ==> (#[trigger] cs[k]).edge_id == e
}

/// All claims are true, and stand with the edges that they are about.
pub open spec fn all_told(ws: Seq<Vec<Witness>>, claims: Seq<Seq<Assertion>>) -> bool {
    forall|e: int| 0 <= e < claims.len() ==> told_of(ws, e, #[trigger] claims[e])
}

/// The claims that were recorded with the proofs of the nodes are true.
pub open spec fn records_told(
    ws: Seq<Vec<Witness>>,
    records: Seq<Option<(Vec<SumcheckProof>, Seq<Assertion>)>>,
) -> bool {
    forall|n: int|
        0 <= n < records.len() ==> ((#[trigger] records[n]) matches Some(r) ==> list_told(ws, r.1))
}

/// A block that is shown a true claim about the first output of its node answers with true claims.
pub open spec fn true_block<B: Fn(NodeId, &Vec<EdgeId>, &Vec<Claim>, Digest) -> BlockReply>(
    dag: Dag,
    ws: Seq<Vec<Witness>>,
    block: B,
) -> bool {
    forall|u: NodeId, local: Seq<Assertion>, s: Digest, r: BlockReply| #[trigger]
        answered(block, u, edges_of(dag, u), local, s, r) && u < dag.nodes.len() && local.len() == 1
            && told_of(ws, dag.nodes[u as int].outputs[0] as int, local) ==> list_told(ws, claim_list(r.claims@))
}

/// A reducer that is given true claims about the first output of a node answers with true claims
/// about it.
pub open spec fn true_reducer<R: Fn(NodeId, &Vec<EdgeId>, &Vec<Claim>, Digest) -> BlockReply>(
    dag: Dag,
    ws: Seq<Vec<Witness>>,
    reduce: R,
) -> bool {
    forall|u: NodeId, es: Seq<EdgeId>, local: Seq<Assertion>, s: Digest, r: BlockReply| #[trigger]
        answered(reduce, u, es, local, s, r) && u < dag.nodes.len() && told_of(
            ws,
            dag.nodes[u as int].outputs[0] as int,
            local,
        ) ==> told_of(ws, dag.nodes[u as int].outputs[0] as int, claim_list(r.claims@))
}

/// What opens true claims proves the claimed values, and the given check passes it.
pub open spec fn true_openings<
    O: Fn(usize, EdgeId, &Claim, GoldilocksExt2) -> BasefoldOpeningProof,
    P: Fn(usize, &BasefoldCommitmentData, &Claim, &BasefoldOpeningProof, GoldilocksExt2) -> bool,
>(ws: Seq<Vec<Witness>>, com: Seq<Option<BasefoldCommitmentData>>, open: O, check: P) -> bool {
    forall|t: usize, e: EdgeId, c: &Claim, seed: GoldilocksExt2, p: BasefoldOpeningProof| #[trigger]
        call_ensures(open, (t, e, c, seed), p) && com[e as int] is Some && c@.edge_id == e && told(ws, c@)
            ==> p.gpu_proof.eval@ == c@.eval@ && passes_always(check, t, com[e as int]->0, c@, p, seed)
}

/// The check passes the opening of the claim, whatever it is asked.
pub open spec fn passes_always<
    P: Fn(usize, &BasefoldCommitmentData, &Claim, &BasefoldOpeningProof, GoldilocksExt2) -> bool,
>(
    check: P,
    t: usize,
    c: BasefoldCommitmentData,
    a: Assertion,
    p: BasefoldOpeningProof,
    seed: GoldilocksExt2,
) -> bool {
    forall|claim: Claim, passed: bool| #[trigger]
        opening_judged(check, t, c, claim, p, seed, passed) && claim@ == a ==> passed
}

proof fn lemma_told_push(ws: Seq<Vec<Witness>>, claims: Seq<Seq<Assertion>>, e: int, c: Assertion)
    requires
        all_told(ws, claims),
        0 <= e < claims.len(),
        c.edge_id == e,
        told(ws, c),
    ensures
        all_told(ws, claims.update(e, claims[e].push(c))),
{
    let now = claims.update(e, claims[e].push(c));
    assert forall|f: int| 0 <= f < now.len() implies told_of(ws, f, #[trigger] now[f]) by {
        assert(told_of(ws, f, claims[f]));
        if f == e {
            assert forall|k: int| 0 <= k < now[f].len() implies told(ws, #[trigger] now[f][k])
                && now[f][k].edge_id == f by {
                if k < claims[f].len() {
                    assert(now[f][k] == claims[f][k]);
                }
            }
        }
    }
}

proof fn lemma_told_claims(ws: Seq<Vec<Witness>>, p: Pass, new: Seq<Assertion>)
    requires
        all_told(ws, p.claims),
        list_told(ws, new),
        forall|i: int| 0 <= i < new.len() ==> (#[trigger] new[i]).edge_id < p.claims.len(),
    ensures
        all_told(ws, p.with_claims(new).claims),
    decreases new.len(),
{
    if new.len() > 0 {
        let head = new.drop_last();
        assert forall|i: int| 0 <= i < head.len() implies (#[trigger] head[i]).edge_id < p.claims.len()
            && told(ws, head[i]) by {
            assert(head[i] == new[i]);
        }
        lemma_told_claims(ws, p, head);
        lemma_claims_keep(p, head);
        let mid = p.with_claims(head);
        assert(told(ws, new[new.len() - 1]));
        assert(new[new.len() - 1].edge_id < p.claims.len());
        lemma_told_push(ws, mid.claims, new.last().edge_id as int, new.last());
    }
}

/// An event keeps the claims true.
pub proof fn lemma_told_after<
    B: Fn(NodeId, &Vec<EdgeId>, &Vec<Claim>, Digest) -> BlockReply,
    R: Fn(NodeId, &Vec<EdgeId>, &Vec<Claim>, Digest) -> BlockReply,
>(
    dag: Dag,
    scope: Scope,
    ws: Seq<Vec<Witness>>,
    block: B,
    reduce: R,
    p: Pass,
    s: Digest,
    ev: Event,
)
    requires
        dag.ordered(),
        scope.wf(&dag),
        p.wf(dag),
        all_told(ws, p.claims),
        records_told(ws, p.node_proofs),
        true_block(dag, ws, block),
        true_reducer(dag, ws, reduce),
        ev.node < dag.nodes.len(),
        local_reply(dag, ev.node, claim_list(ev.reply.claims@)),
        crate::dag::pass::happens(dag, block, reduce, p, s, ev),
        followable(dag, p, ev),
    ensures
        all_told(ws, after(dag, scope, p, ev).claims),
        records_told(ws, after(dag, scope, p, ev).node_proofs),
{
    let u = ev.node;
    let new = claim_list(ev.reply.claims@);
    let node = dag.nodes[u as int];
    let out = node.outputs[0];
    assert(dag.nodes[u as int].outputs.len() > 0);
    assert(dag.nodes[u as int].outputs[0] < dag.num_edges);
    let local = p.local_claims(dag, u);
    assert(told_of(ws, out as int, p.claims[out as int]));
    let q = p.take(u);
    let ql = q.local_claims(dag, u);
    lemma_taken(p, u, node.outputs@, node.outputs@.len());
    let shown = seen(local, ev.reduction);
    let p1 = match ev.reduction {
        Some(r) => q.reduced(dag, u, r.proofs, claim_list(r.claims@)),
        None => q,
    };
    if ev.reduction is Some {
        let r = ev.reduction->0;
        let rc = claim_list(r.claims@);
        assert(answered(reduce, u, seq![node.outputs@.last()], local, s, r));
        assert(told_of(ws, out as int, rc));
        assert(told(ws, rc[0]) && rc[0].edge_id == out);
        lemma_told_push(ws, p.claims, out as int, rc[0]);
    }
    assert(told_of(ws, out as int, shown));
    let d = match ev.reduction {
        Some(r) => r.state,
        None => s,
    };
    assert(answered(block, u, edges_of(dag, u), shown, d, ev.reply));
    assert(list_told(ws, new));
    let p2 = Pass {
        node_proofs: p1.node_proofs.update(u as int, Some((ev.reply.proofs, new + seen(ql, ev.reduction)))),
        ..p1
    };
    assert forall|i: int| 0 <= i < new.len() implies (#[trigger] new[i]).edge_id < p2.claims.len() by {
        assert(edges_of(dag, u).contains(new[i].edge_id));
        lemma_edge_bound(dag, u, new[i].edge_id);
    }
    lemma_told_claims(ws, p2, new);
    lemma_schedule_claims(dag, scope, p2.with_claims(new), u, new);
    let r = after(dag, scope, p, ev);
    lemma_after_proofs(dag, scope, p, ev);
    assert forall|n: int| 0 <= n < r.node_proofs.len() implies ((#[trigger] r.node_proofs[n]) matches Some(
        x,
    ) ==> list_told(ws, x.1)) by {
        if n == u {
            let all = new + shown;
            assert forall|k: int| 0 <= k < all.len() implies told(ws, #[trigger] all[k]) by {
                if k < new.len() {
                    assert(all[k] == new[k]);
                } else {
                    assert(all[k] == shown[k - new.len()]);
                }
            }
        } else {
            assert(r.node_proofs[n] == p.node_proofs[n]);
        }
    }
}

proof fn lemma_taken(p: Pass, u: NodeId, outs: Seq<EdgeId>, k: nat)
    ensures
        p.take(u).output_claims(outs, k) == p.output_claims(outs, k),
    decreases k,
{
    if k > 0 {
        lemma_taken(p, u, outs, (k - 1) as nat);
    }
}

/// A run over blocks and reducers that tell the truth keeps the claims true.
pub proof fn lemma_told_replay<
    B: Fn(NodeId, &Vec<EdgeId>, &Vec<Claim>, Digest) -> BlockReply,
    R: Fn(NodeId, &Vec<EdgeId>, &Vec<Claim>, Digest) -> BlockReply,
>(
    dag: Dag,
    scope: Scope,
    ws: Seq<Vec<Witness>>,
    block: B,
    reduce: R,
    p: Pass,
    s: Digest,
    evs: Seq<Event>,
    k: nat,
)
    requires
        dag.ordered(),
        scope.wf(&dag),
        p.wf(dag),
        is_block(dag, block),
        true_block(dag, ws, block),
        true_reducer(dag, ws, reduce),
        k <= evs.len(),
        happened(dag, scope, block, reduce, p, s, evs, k),
        all_followable(dag, scope, p, evs),
        all_told(ws, p.claims),
        records_told(ws, p.node_proofs),
    ensures
        all_told(ws, replayed(dag, scope, p, evs, k).claims),
        records_told(ws, replayed(dag, scope, p, evs, k).node_proofs),
    decreases k,
{
    if k > 0 {
        let m = (k - 1) as nat;
        lemma_told_replay(dag, scope, ws, block, reduce, p, s, evs, m);
        lemma_replay(dag, scope, block, reduce, p, s, evs, m);
        lemma_replay(dag, scope, block, reduce, p, s, evs, k);
        let mid = replayed(dag, scope, p, evs, m);
        assert(followable(dag, mid, evs[m as int]));
        let d = crate::dag::pass::digest_after(s, evs, m);
        assert(crate::dag::pass::happens(dag, block, reduce, mid, d, evs[m as int]));
        lemma_told_after(dag, scope, ws, block, reduce, mid, d, evs[m as int]);
    }
}

/// A pass that starts from true claims starts with true claims.
pub proof fn lemma_told_started(
    dag: Dag,
    scope: Scope,
    ws: Seq<Vec<Witness>>,
    init: Seq<(EdgeId, Assertion)>,
    k: nat,
)
    requires
        k <= init.len(),
        forall|i: int|
            0 <= i < init.len() ==> (#[trigger] init[i]).0 < dag.num_edges && init[i].1.edge_id == init[i].0
                && told(ws, init[i].1),
    ensures
        started(dag, scope, init, k).claims.len() == dag.num_edges,
        all_told(ws, started(dag, scope, init, k).claims),
    decreases k,
{
    if k > 0 {
        lemma_told_started(dag, scope, ws, init, (k - 1) as nat);
        let before = started(dag, scope, init, (k - 1) as nat);
        let (e, c) = init[k - 1];
        assert(init[k - 1].0 < dag.num_edges);
        lemma_told_push(ws, before.claims, e as int, c);
    } else {
        assert(started(dag, scope, init, 0).claims.len() == dag.num_edges);
    }
}

/// The value of a polynomial with canonical values is canonical.
pub proof fn lemma_mle_canon(v: Seq<Elem>, point: Seq<Elem>)
    requires
        v.len() == pow2(point.len()),
        all_canon(v),
    ensures
        mle(v, point).canon(),
{
    lemma_fold_all_canon(v, point);
    crate::poly::model::lemma_fold_all_len(v, point.len(), point);
    lemma2_to64();
}

/// A claim at random is true.
proof fn lemma_random_told(h: spec_fn(Digest, Digest) -> Digest, s: Digest, ws: Seq<Vec<Witness>>, e: EdgeId)
    requires
        e < ws.len(),
        witnesses_ok(ws, ws.len()),
        ws[e as int][0].data is Some,
    ensures
        told(ws, claim_at_random(h, s, ws, e)),
{
    let n = edge_vars(ws, e as int);
    let point = crate::transcript::drawn(h, s, Label::Challenge, n);
    assert(ws[e as int].len() > 0);
    lemma_table_len(ws[e as int][0].data->0);
    assert(all_canon(point));
    lemma_elems_of_words(point);
    lemma_mle_canon(edge_table(ws, e as int), point);
    lemma_word_elem(mle(edge_table(ws, e as int), point));
}

/// Claims at random are true, and about their edges.
pub proof fn lemma_random_claims_told(
    h: spec_fn(Digest, Digest) -> Digest,
    s: Digest,
    ws: Seq<Vec<Witness>>,
    edges: Seq<EdgeId>,
)
    requires
        witnesses_ok(ws, ws.len()),
        edges_known(ws, edges),
    ensures
        forall|i: int|
            0 <= i < edges.len() ==> (#[trigger] random_claims(h, s, ws, edges)[i]).1.edge_id == edges[i]
                && random_claims(h, s, ws, edges)[i].0 == edges[i] && told(
                ws,
                random_claims(h, s, ws, edges)[i].1,
            ),
{
    assert forall|i: int| 0 <= i < edges.len() implies told(
        ws,
        (#[trigger] random_claims(h, s, ws, edges)[i]).1,
    ) by {
        assert(edges[i] < ws.len());
        lemma_random_told(h, drawn_upto(h, s, ws, edges, i as nat), ws, edges[i]);
    }
}

/// Every selection is a polynomial in the variables of its inputs and of the table.
pub open spec fn selections_sized(
    dag: Dag,
    ws: Seq<Vec<Witness>>,
    claims: Seq<Seq<Assertion>>,
) -> bool {
    forall|i: int|
        0 <= i < dag.two_pow.len() ==> (#[trigger] dag.two_pow_item(ws, claims, i)).sparse.n
            == dag.two_pow_item(ws, claims, i).n() + 4
}

/// The claim of a lookup of powers of two is true.
proof fn lemma_item_told(ws: Seq<Vec<Witness>>, item: TwoPowItem, chs: Seq<Elem>)
    requires
        item.inp < ws.len(),
        witnesses_ok(ws, ws.len()),
        ws[item.inp as int][0].data == Some(crate::dag::witness::PolyData::Sparse(item.sparse)),
        item.sparse.n == item.n() + 4,
        item.n() <= item.point.len(),
        chs.len() == 4,
    ensures
        told(ws, item.claim(chs)),
{
    let c = item.claim(chs);
    let e = item.inp as int;
    assert(ws[e].len() > 0);
    lemma_table_len(ws[e][0].data->0);
    let pt = ext_elems(c.point);
    assert(c.point.len() == item.sparse.n);
    assert(pt.take(item.sparse.n as int) =~= pt);
    lemma_mle_canon(edge_table(ws, e), pt);
    lemma_word_elem(mle(edge_table(ws, e), pt));
}

/// The claim of a range check is true: it is the value of the bits at its point.
pub proof fn lemma_range_told(
    h: spec_fn(Digest, Digest) -> Digest,
    s: Digest,
    ws: Seq<Vec<Witness>>,
    items: Seq<RangeItem>,
    i: int,
)
    requires
        0 <= i < items.len(),
        items[i].aux < ws.len(),
        witnesses_ok(ws, ws.len()),
        ws[items[i].aux as int][0].data matches Some(crate::dag::witness::PolyData::Dense(p)) && p.n
            == items[i].n + 5 && p.evaluations@ == items[i].words,
        items[i].wf(),
        all_bits(items[i].words),
    ensures
        told(
            ws,
            items[i].claim(
                range_words(h, s, items)[i],
                range_parts(h, s, items)[i],
                range_challenges(h, s, items),
            ),
        ),
{
    let item = items[i];
    let e = item.aux as int;
    let d = range_open(h, s);
    let chs = range_challenges(h, s, items);
    let pw = point_words(h, d, items, i);
    let pt = item_point(h, d, items, i);
    let c = item.claim(pw, range_parts(h, s, items)[i], chs);
    assert(ws[e].len() > 0);
    lemma_table_len(ws[e][0].data->0);
    lemma_honest_prefix(
        h,
        crate::dag::range::range_start(
            h,
            s,
            crate::dag::range::item_sizes(items),
            crate::dag::range::item_claimed(items),
        ),
        crate::dag::range::range_polys(h, s, items),
        5,
        5,
        5,
    );
    assert(chs.len() == 5);
    assert(all_canon(chs));
    lemma_elems_of_words(chs);
    assert(ext_elems(pw) =~= pt) by {
        match item.point {
            Some(p) => {
                assert(ext_elems(p.take(item.n as int)) =~= ext_elems(p).take(item.n as int));
            },
            None => {
                assert(all_canon(pt));
                lemma_elems_of_words(pt);
            },
        }
    }
    assert(pt.len() == item.n);
    assert(pw.len() == item.n) by {
        assert(ext_elems(pw).len() == pw.len());
    }
    assert(ext_elems(c.point) =~= pt + chs);
    lemma_pow2_adds(5, item.n);
    lemma2_to64();
    lemma_planes_eval(item.words, item.n, pt, chs);
    assert(c.point.len() == item.n + 5);
    lemma_mle_canon(edge_table(ws, e), pt + chs);
    lemma_word_elem(mle(edge_table(ws, e), pt + chs));
}

proof fn lemma_items_told(
    ws: Seq<Vec<Witness>>,
    claims: Seq<Seq<Assertion>>,
    items: Seq<TwoPowItem>,
    chs: Seq<Elem>,
    k: nat,
)
    requires
        k <= items.len(),
        all_told(ws, claims),
        forall|i: int|
            0 <= i < items.len() ==> (#[trigger] items[i]).inp < claims.len() && told(ws, items[i].claim(chs)),
    ensures
        with_item_claims(claims, items, chs, k).len() == claims.len(),
        all_told(ws, with_item_claims(claims, items, chs, k)),
    decreases k,
{
    if k > 0 {
        let m = (k - 1) as nat;
        lemma_items_told(ws, claims, items, chs, m);
        let before = with_item_claims(claims, items, chs, m);
        assert(items[m as int].inp < claims.len());
        lemma_told_push(ws, before, items[m as int].inp as int, items[m as int].claim(chs));
    }
}

proof fn lemma_ranges_told(
    ws: Seq<Vec<Witness>>,
    claims: Seq<Seq<Assertion>>,
    items: Seq<RangeItem>,
    points: Seq<Seq<GoldilocksExt2>>,
    parts: Seq<Seq<Elem>>,
    chs: Seq<Elem>,
    k: nat,
)
    requires
        k <= items.len(),
        all_told(ws, claims),
        forall|i: int|
            0 <= i < items.len() ==> (#[trigger] items[i]).aux < claims.len() && told(
                ws,
                items[i].claim(points[i], parts[i], chs),
            ),
    ensures
        with_range_claims(claims, items, points, parts, chs, k).len() == claims.len(),
        all_told(ws, with_range_claims(claims, items, points, parts, chs, k)),
    decreases k,
{
    if k > 0 {
        let m = (k - 1) as nat;
        lemma_ranges_told(ws, claims, items, points, parts, chs, m);
        let before = with_range_claims(claims, items, points, parts, chs, m);
        let item = items[m as int];
        assert(items[m as int].aux < claims.len());
        lemma_told_push(
            ws,
            before,
            item.aux as int,
            item.claim(points[m as int], parts[m as int], chs),
        );
    }
}

/// All checked bits are bits.
pub open spec fn bits_told(dag: Dag, ws: Seq<Vec<Witness>>, claims: Seq<Seq<Assertion>>) -> bool {
    forall|i: int|
        0 <= i < dag.range.len() ==> all_bits((#[trigger] dag.range_item(ws, claims, i)).words)
}

/// The lookups keep the claims true.
pub proof fn lemma_told_lookups(
    dag: Dag,
    h: spec_fn(Digest, Digest) -> Digest,
    t: Digest,
    ws: Seq<Vec<Witness>>,
    claims: Seq<Seq<Assertion>>,
)
    requires
        dag.lookups_ok(),
        witnesses_ok(ws, dag.num_edges as nat),
        claims.len() == dag.num_edges,
        all_told(ws, claims),
        dag.two_pow_all_ready(ws, claims),
        dag.range_all_ready(ws, dag.after_two_pow(h, t, ws, claims).0),
        selections_sized(dag, ws, claims),
        bits_told(dag, ws, dag.after_two_pow(h, t, ws, claims).0),
    ensures
        all_told(ws, dag.after_two_pow(h, t, ws, claims).0),
        all_told(ws, dag.after_lookups(h, t, ws, claims).0),
        dag.after_lookups(h, t, ws, claims).0.len() == claims.len(),
{
    let (c1, d1) = dag.after_two_pow(h, t, ws, claims);
    let items = dag.two_pow_items(ws, claims);
    let chs = two_pow_challenges(h, t, items);
    lemma_honest_prefix(
        h,
        crate::dag::two_pow::two_pow_start(h, t),
        crate::dag::two_pow::two_pow_polys(items, crate::dag::two_pow::two_pow_beta(h, t)),
        4,
        4,
        4,
    );
    assert forall|i: int| 0 <= i < items.len() implies (#[trigger] items[i]).inp < claims.len() && told(
        ws,
        items[i].claim(chs),
    ) by {
        assert(dag.two_pow[i] < dag.nodes.len());
        assert(dag.nodes[dag.two_pow[i] as int].inputs[0] < dag.num_edges);
        assert(dag.two_pow_ready(ws, claims, i));
        assert(items[i] == dag.two_pow_item(ws, claims, i));
        lemma_item_told(ws, items[i], chs);
    }
    if dag.two_pow.len() > 0 {
        lemma_items_told(ws, claims, items, chs, items.len());
    }
    let ranges = dag.range_items(ws, c1);
    let rch = range_challenges(h, d1, ranges);
    assert forall|i: int| 0 <= i < ranges.len() implies (#[trigger] ranges[i]).aux < c1.len() && told(
        ws,
        ranges[i].claim(range_words(h, d1, ranges)[i], range_parts(h, d1, ranges)[i], rch),
    ) by {
        let n = dag.range[i] as int;
        assert(dag.range[i] < dag.nodes.len());
        assert(dag.nodes[n].outputs[dag.nodes[n]@.aux_slot()] < dag.num_edges);
        assert(dag.range_ready(ws, c1, i));
        assert(ranges[i] == dag.range_item(ws, c1, i));
        lemma_range_told(h, d1, ws, ranges, i);
    }
    if dag.range.len() > 0 {
        lemma_ranges_told(
            ws,
            c1,
            ranges,
            range_words(h, d1, ranges),
            range_parts(h, d1, ranges),
            rch,
            ranges.len(),
        );
    }
}

proof fn lemma_pointed_told(ws: Seq<Vec<Witness>>, e: int, cs: Seq<Assertion>)
    requires
        told_of(ws, e, cs),
    ensures
        all_hold(edge_table(ws, e), pointed(cs)),
    decreases cs.len(),
{
    if cs.len() > 0 {
        let head = cs.drop_last();
        assert forall|k: int| 0 <= k < head.len() implies told(ws, #[trigger] head[k]) && head[k].edge_id
            == e by {
            assert(head[k] == cs[k]);
        }
        lemma_pointed_told(ws, e, head);
        assert(told(ws, cs[cs.len() - 1]) && cs[cs.len() - 1].edge_id == e);
        let rest = pointed(head);
        let all = pointed(cs);
        assert forall|i: int| 0 <= i < all.len() implies mle(
            edge_table(ws, e),
            ext_elems((#[trigger] all[i]).point),
        ) == all[i].eval@ by {
            if i < rest.len() {
                assert(all[i] == rest[i]);
            }
        }
    }
}

/// Combining true claims before they are opened leaves true claims.
pub proof fn lemma_told_final(
    dag: Dag,
    h: spec_fn(Digest, Digest) -> Digest,
    t: Digest,
    ws: Seq<Vec<Witness>>,
    oc: Seq<Option<BasefoldCommitmentData>>,
    claims: Seq<Seq<Assertion>>,
)
    requires
        witnesses_ok(ws, dag.num_edges as nat),
        dag.after_lookups(h, t, ws, claims).0.len() == dag.num_edges,
        all_told(ws, dag.after_lookups(h, t, ws, claims).0),
    ensures
        claims_true(dag, ws, oc, dag.after_lookups(h, t, ws, claims).0),
        all_told(ws, dag.final_claims(h, t, ws, oc, claims).0),
{
    let (c2, d2) = dag.after_lookups(h, t, ws, claims);
    let fc = dag.final_claims(h, t, ws, oc, claims).0;
    assert forall|e: int| 0 <= e < dag.num_edges && #[trigger] dag.is_reduced(ws, oc, c2, e) implies all_hold(
        edge_table(ws, e),
        pointed(c2[e]),
    ) by {
        assert(told_of(ws, e, c2[e]));
        lemma_pointed_told(ws, e, c2[e]);
    }
    if dag.num_edges > 0 {
        lemma_reduced_entry(dag, h, d2, ws, oc, c2, dag.num_edges as nat, 0);
    }
    assert(fc.len() == dag.num_edges);
    assert forall|e: int| 0 <= e < fc.len() implies told_of(ws, e, #[trigger] fc[e]) by {
        assert(told_of(ws, e, c2[e]));
        lemma_reduced_entry(dag, h, d2, ws, oc, c2, dag.num_edges as nat, e);
        if dag.is_reduced(ws, oc, c2, e) {
            let d = dag.reduced_upto(h, d2, ws, oc, c2, e as nat).1;
            let n = edge_vars(ws, e) as usize;
            let c = combined_claim(h, d, e as usize, edge_table(ws, e), pointed(c2[e]), n);
            lemma_combined_told(h, d, ws, e, pointed(c2[e]));
            assert forall|k: int| 0 <= k < fc[e].len() implies told(ws, #[trigger] fc[e][k])
                && fc[e][k].edge_id == e by {
                if k < c2[e].len() {
                    assert(fc[e][k] == c2[e][k]);
                }
            }
        }
    }
}

proof fn lemma_combined_told(
    h: spec_fn(Digest, Digest) -> Digest,
    d: Digest,
    ws: Seq<Vec<Witness>>,
    e: int,
    ps: Seq<Assertion>,
)
    requires
        0 <= e < ws.len() <= usize::MAX,
        witnesses_ok(ws, ws.len()),
        ws[e][0].data is Some,
    ensures
        told(
            ws,
            combined_claim(h, d, e as usize, edge_table(ws, e), ps, edge_vars(ws, e) as usize),
        ),
{
    let n = edge_vars(ws, e) as usize;
    assert(ws[e].len() > 0);
    lemma_table_len(ws[e][0].data->0);
    let chs = reduction_challenges(h, d, edge_table(ws, e), ps, n);
    lemma_honest_prefix(
        h,
        crate::dag::reduction::reduction_start(h, d, n),
        crate::dag::reduction::reduction_polys(h, d, edge_table(ws, e), ps),
        n as nat,
        n as nat,
        n as nat,
    );
    assert(chs.len() == n);
    assert(all_canon(chs));
    lemma_elems_of_words(chs);
    lemma_mle_canon(edge_table(ws, e), chs);
    lemma_word_elem(mle(edge_table(ws, e), chs));
}

/// Openings of true claims pass.
pub proof fn lemma_told_openings<
    O: Fn(usize, EdgeId, &Claim, GoldilocksExt2) -> BasefoldOpeningProof,
    P: Fn(usize, &BasefoldCommitmentData, &Claim, &BasefoldOpeningProof, GoldilocksExt2) -> bool,
>(
    dag: Dag,
    ws: Seq<Vec<Witness>>,
    oc: Seq<Option<BasefoldCommitmentData>>,
    fc: Seq<Seq<Assertion>>,
    open: O,
    check: P,
    eps: Seq<EdgeProof>,
    seed: GoldilocksExt2,
)
    requires
        fc.len() == dag.num_edges,
        all_told(ws, fc),
        edge_claims(eps) == fc,
        true_openings(ws, oc, open, check),
        dag.openings_done(
            open,
            dag.tasks_upto(ws, oc, fc, dag.num_edges as nat),
            fc,
            seed,
            eps,
        ),
    ensures
        openings_true(check, oc, eps, dag.tasks_upto(ws, oc, fc, dag.num_edges as nat), seed),
{
    let tasks = dag.tasks_upto(ws, oc, fc, dag.num_edges as nat);
    assert forall|e: int| 0 <= e < fc.len() implies (#[trigger] fc[e]).len() <= usize::MAX by {
        assert(edge_claims(eps)[e] == claim_list(eps[e].claims@));
        assert(eps[e].claims.len() <= usize::MAX);
    }
    assert forall|t: int| 0 <= t < tasks.len() implies #[trigger] opening_true(
        check,
        oc,
        eps,
        tasks,
        seed,
        t,
    ) by {
        lemma_task_known(dag, ws, oc, fc, dag.num_edges as nat, t);
        let (e, i) = tasks[t];
        let p = eps[e as int];
        assert(task_done(open, t, tasks[t], fc, seed, eps));
        assert(told_of(ws, e as int, fc[e as int]));
        let a = fc[e as int][i as int];
        assert(edge_claims(eps)[e as int] == claim_list(p.claims@));
        assert(p.claims[i as int]@ == a);
        let c = choose|c: &Claim| c@ == a && #[trigger] call_ensures(
            open,
            (t as usize, e, c, seed),
            p.dense_opening_proof[0],
        );
        assert(told(ws, a) && a.edge_id == e);
        assert(passes_always(check, t as usize, oc[e as int]->0, a, p.dense_opening_proof[0], seed));
    }
}

proof fn lemma_task_known(
    dag: Dag,
    ws: Seq<Vec<Witness>>,
    com: Seq<Option<BasefoldCommitmentData>>,
    claims: Seq<Seq<Assertion>>,
    k: nat,
    t: int,
)
    requires
        k <= claims.len(),
        k <= usize::MAX,
        0 <= t < dag.tasks_upto(ws, com, claims, k).len(),
        forall|e: int| 0 <= e < claims.len() ==> (#[trigger] claims[e]).len() <= usize::MAX,
    ensures
        ({
            let (e, i) = dag.tasks_upto(ws, com, claims, k)[t];
            e < k && com[e as int] is Some && i < claims[e as int].len()
        }),
    decreases k,
{
    if k > 0 {
        let rest = dag.tasks_upto(ws, com, claims, (k - 1) as nat);
        let all = dag.tasks_upto(ws, com, claims, k);
        if t < rest.len() {
            lemma_task_known(dag, ws, com, claims, (k - 1) as nat, t);
            assert(all[t] == rest[t]);
        } else {
            assert(claims[k - 1].len() <= usize::MAX);
            crate::dag::verify_parallel::lemma_last_pointed(claims[k - 1]);
        }
    }
}

} // verus!
