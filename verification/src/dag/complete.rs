//! The verifier accepts the proofs of an honest prover.
use vstd::prelude::*;

use crate::commit::basefold::{BasefoldCommitmentData, BasefoldOpeningProof};
use crate::dag::backward::{
    edges_of, node_proof_view, node_proof_views, started, BlockReply, Pass, Scope,
};
use crate::dag::check_finish::opening_judged;
use crate::dag::check_pass::{
    check_started, judged_digest, judged_upto, leads, local_of, pronounced, reaches, supplied,
    Check, CheckReply, Judgement,
};
use crate::dag::finish::{opening_seed, task_done};
use crate::dag::lockstep::{
    agree_below, all_followable, all_pass, happened, has_point, in_step, lemma_after_proofs,
    lemma_check_follows, lemma_record_stays, lemma_replay,
};
use crate::dag::lookup_model::all_bits;
use crate::dag::openings::{
    edge_claims, edge_table, edge_vars, lemma_reduced_entry, lemma_reducers_complete, witnesses_ok,
};
use crate::dag::outputs::{claim_at_random, drawn_upto, random_claims};
use crate::dag::pass::{
    after, is_block, lemma_claims_keep, lemma_edge_bound, local_reply, replayed, runs, seen, Event,
};
use crate::dag::prove::{is_whole, proof_from, DagProof};
use crate::dag::range::{
    enough_claims, lemma_range_complete, mid_matches, range_challenges, range_parts, range_words,
    with_range_claims, RangeItem,
};
use crate::dag::reduction::{all_hold, pointed};
use crate::dag::two_pow::{lemma_two_pow_complete, lemma_two_pow_pass, two_pow_challenges, with_item_claims, TwoPowItem};
use crate::dag::types::{
    claim_list, claims_of, Assertion, Claim, Dag, EdgeId, EdgeProof, LookupProof, NodeId, NodeProof,
};
use crate::dag::verify::{arrives, head_claims, heads_present, redrawn, stuck, verifies, Checks};
use crate::dag::witness::Witness;
use crate::field::elem::Elem;
use crate::field::GoldilocksExt2;
use crate::sumcheck::SumcheckProof;
use crate::transcript::Digest;

verus! {

/// Every list of `q` starts with that of `p`.
pub open spec fn extends(p: Seq<Seq<Assertion>>, q: Seq<Seq<Assertion>>) -> bool {
    &&& q.len() == p.len()
    &&& forall|e: int| 0 <= e < p.len() ==> (#[trigger] q[e]).len() >= p[e].len()
    &&& forall|e: int, k: int|
        0 <= e < p.len() && 0 <= k < p[e].len() ==> #[trigger] q[e][k] == p[e][k]
}

pub proof fn lemma_extends_trans(p: Seq<Seq<Assertion>>, q: Seq<Seq<Assertion>>, r: Seq<Seq<Assertion>>)
    requires
        extends(p, q),
        extends(q, r),
    ensures
        extends(p, r),
{
    assert forall|e: int| 0 <= e < p.len() implies (#[trigger] r[e]).len() >= p[e].len() by {
        assert(q[e].len() >= p[e].len());
    }
    assert forall|e: int, k: int| 0 <= e < p.len() && 0 <= k < p[e].len() implies #[trigger] r[e][k]
        == p[e][k] by {
        assert(q[e].len() >= p[e].len());
        assert(q[e][k] == p[e][k]);
    }
}

proof fn lemma_extends_push(p: Seq<Seq<Assertion>>, e: int, c: Assertion)
    requires
        0 <= e < p.len(),
    ensures
        extends(p, p.update(e, p[e].push(c))),
{
}

proof fn lemma_extends_claims(p: Pass, new: Seq<Assertion>)
    requires
        forall|i: int| 0 <= i < new.len() ==> (#[trigger] new[i]).edge_id < p.claims.len(),
    ensures
        extends(p.claims, p.with_claims(new).claims),
    decreases new.len(),
{
    if new.len() > 0 {
        let head = new.drop_last();
        assert forall|i: int| 0 <= i < head.len() implies (#[trigger] head[i]).edge_id < p.claims.len() by {
            assert(head[i] == new[i]);
        }
        lemma_extends_claims(p, head);
        let mid = p.with_claims(head);
        assert(new[new.len() - 1].edge_id < p.claims.len());
        lemma_extends_push(mid.claims, new.last().edge_id as int, new.last());
        lemma_extends_trans(p.claims, mid.claims, p.with_claims(new).claims);
    }
}

/// An event only adds claims.
pub proof fn lemma_extends_after(dag: Dag, scope: Scope, p: Pass, ev: Event)
    requires
        dag.ordered(),
        scope.wf(&dag),
        p.wf(dag),
        ev.node < dag.nodes.len(),
        local_reply(dag, ev.node, claim_list(ev.reply.claims@)),
    ensures
        extends(p.claims, after(dag, scope, p, ev).claims),
{
    let u = ev.node;
    let new = claim_list(ev.reply.claims@);
    let q = p.take(u);
    let local = q.local_claims(dag, u);
    let out = dag.nodes[u as int].outputs[0];
    assert(dag.nodes[u as int].outputs.len() > 0);
    assert(dag.nodes[u as int].outputs[0] < dag.num_edges);
    let p1 = match ev.reduction {
        Some(r) => q.reduced(dag, u, r.proofs, claim_list(r.claims@)),
        None => q,
    };
    if ev.reduction is Some && (ev.reduction->0).claims.len() > 0 {
        lemma_extends_push(p.claims, out as int, claim_list((ev.reduction->0).claims@)[0]);
    }
    assert(extends(p.claims, p1.claims));
    let p2 = Pass {
        node_proofs: p1.node_proofs.update(
            u as int,
            Some((ev.reply.proofs, new + seen(local, ev.reduction))),
        ),
        ..p1
    };
    assert forall|i: int| 0 <= i < new.len() implies (#[trigger] new[i]).edge_id < p2.claims.len() by {
        assert(edges_of(dag, u).contains(new[i].edge_id));
        lemma_edge_bound(dag, u, new[i].edge_id);
    }
    lemma_extends_claims(p2, new);
    lemma_schedule_claims(dag, scope, p2.with_claims(new), u, new);
    lemma_extends_trans(p.claims, p2.claims, p2.with_claims(new).claims);
}

pub proof fn lemma_schedule_claims(dag: Dag, scope: Scope, p: Pass, u: NodeId, cs: Seq<Assertion>)
    ensures
        p.schedule_all(dag, scope, u, cs).claims == p.claims,
    decreases cs.len(),
{
    if cs.len() > 0 {
        lemma_schedule_claims(dag, scope, p, u, cs.drop_last());
    }
}

/// A run only adds claims.
pub proof fn lemma_extends_replay<
    B: Fn(NodeId, &Vec<EdgeId>, &Vec<Claim>, Digest) -> BlockReply,
    R: Fn(NodeId, &Vec<EdgeId>, &Vec<Claim>, Digest) -> BlockReply,
>(
    dag: Dag,
    scope: Scope,
    block: B,
    reduce: R,
    p: Pass,
    s: Digest,
    evs: Seq<Event>,
    k: nat,
)
    requires
        dag.ordered(),
        scope.wf(&dag),
        p.wf(dag),
        is_block(dag, block),
        k <= evs.len(),
        happened(dag, scope, block, reduce, p, s, evs, k),
    ensures
        extends(p.claims, replayed(dag, scope, p, evs, k).claims),
    decreases k,
{
    if k > 0 {
        let m = (k - 1) as nat;
        lemma_extends_replay(dag, scope, block, reduce, p, s, evs, m);
        lemma_replay(dag, scope, block, reduce, p, s, evs, m);
        lemma_replay(dag, scope, block, reduce, p, s, evs, k);
        let mid = replayed(dag, scope, p, evs, m);
        lemma_extends_after(dag, scope, mid, evs[m as int]);
        lemma_extends_trans(p.claims, mid.claims, replayed(dag, scope, p, evs, k).claims);
    }
}

proof fn lemma_extends_items(claims: Seq<Seq<Assertion>>, items: Seq<TwoPowItem>, chs: Seq<Elem>, k: nat)
    requires
        k <= items.len(),
        forall|i: int| 0 <= i < items.len() ==> (#[trigger] items[i]).inp < claims.len(),
    ensures
        extends(claims, with_item_claims(claims, items, chs, k)),
        forall|e: int|
            0 <= e < claims.len() && (forall|i: int|
                0 <= i < items.len() ==> (#[trigger] items[i]).inp != e) ==> #[trigger] with_item_claims(
                claims,
                items,
                chs,
                k,
            )[e] == claims[e],
    decreases k,
{
    if k > 0 {
        let m = (k - 1) as nat;
        lemma_extends_items(claims, items, chs, m);
        let before = with_item_claims(claims, items, chs, m);
        assert(items[m as int].inp < claims.len());
        lemma_extends_push(before, items[m as int].inp as int, items[m as int].claim(chs));
        lemma_extends_trans(claims, before, with_item_claims(claims, items, chs, k));
    }
}

proof fn lemma_extends_ranges(
    claims: Seq<Seq<Assertion>>,
    items: Seq<RangeItem>,
    points: Seq<Seq<GoldilocksExt2>>,
    parts: Seq<Seq<Elem>>,
    chs: Seq<Elem>,
    k: nat,
)
    requires
        k <= items.len(),
        forall|i: int| 0 <= i < items.len() ==> (#[trigger] items[i]).aux < claims.len(),
    ensures
        extends(claims, with_range_claims(claims, items, points, parts, chs, k)),
    decreases k,
{
    if k > 0 {
        let m = (k - 1) as nat;
        lemma_extends_ranges(claims, items, points, parts, chs, m);
        let before = with_range_claims(claims, items, points, parts, chs, m);
        assert(items[m as int].aux < claims.len());
        lemma_extends_push(
            before,
            items[m as int].aux as int,
            items[m as int].claim(points[m as int], parts[m as int], chs),
        );
        lemma_extends_trans(claims, before, with_range_claims(claims, items, points, parts, chs, k));
    }
}

/// The lookups and the combination only add claims.
pub proof fn lemma_extends_final(
    dag: Dag,
    h: spec_fn(Digest, Digest) -> Digest,
    s: Digest,
    ws: Seq<Vec<Witness>>,
    com: Seq<Option<BasefoldCommitmentData>>,
    claims: Seq<Seq<Assertion>>,
)
    requires
        dag.lookups_ok(),
        claims.len() == dag.num_edges,
    ensures
        extends(claims, dag.after_two_pow(h, s, ws, claims).0),
        extends(claims, dag.after_lookups(h, s, ws, claims).0),
        extends(claims, dag.final_claims(h, s, ws, com, claims).0),
{
    let (c1, d1) = dag.after_two_pow(h, s, ws, claims);
    let items = dag.two_pow_items(ws, claims);
    assert forall|i: int| 0 <= i < items.len() implies (#[trigger] items[i]).inp < claims.len() by {
        assert(dag.two_pow[i] < dag.nodes.len());
        assert(dag.nodes[dag.two_pow[i] as int].inputs[0] < dag.num_edges);
    }
    lemma_extends_items(claims, items, two_pow_challenges(h, s, items), items.len());
    assert(extends(claims, c1));
    let (c2, d2) = dag.after_range(h, d1, ws, c1);
    let ranges = dag.range_items(ws, c1);
    assert forall|i: int| 0 <= i < ranges.len() implies (#[trigger] ranges[i]).aux < c1.len() by {
        let n = dag.range[i] as int;
        assert(dag.range[i] < dag.nodes.len());
        assert(dag.nodes[n].outputs[dag.nodes[n]@.aux_slot()] < dag.num_edges);
    }
    lemma_extends_ranges(
        c1,
        ranges,
        range_words(h, d1, ranges),
        range_parts(h, d1, ranges),
        range_challenges(h, d1, ranges),
        ranges.len(),
    );
    assert(extends(c1, c2));
    lemma_extends_trans(claims, c1, c2);
    let c3 = dag.final_claims(h, s, ws, com, claims).0;
    assert forall|e: int| 0 <= e < c2.len() implies (#[trigger] c3[e]).len() >= c2[e].len() by {
        lemma_reduced_entry(dag, h, d2, ws, com, c2, dag.num_edges as nat, e);
    }
    assert forall|e: int, k: int| 0 <= e < c2.len() && 0 <= k < c2[e].len() implies #[trigger] c3[e][k]
        == c2[e][k] by {
        lemma_reduced_entry(dag, h, d2, ws, com, c2, dag.num_edges as nat, e);
    }
    assert(c3.len() == c2.len()) by {
        lemma_reduced_len(dag, h, d2, ws, com, c2, dag.num_edges as nat);
    }
    lemma_extends_trans(claims, c2, c3);
}

proof fn lemma_reduced_len(
    dag: Dag,
    h: spec_fn(Digest, Digest) -> Digest,
    s: Digest,
    ws: Seq<Vec<Witness>>,
    com: Seq<Option<BasefoldCommitmentData>>,
    claims: Seq<Seq<Assertion>>,
    k: nat,
)
    requires
        k <= claims.len(),
    ensures
        dag.reduced_upto(h, s, ws, com, claims, k).0.len() == claims.len(),
    decreases k,
{
    if k > 0 {
        lemma_reduced_len(dag, h, s, ws, com, claims, (k - 1) as nat);
    }
}

/// The pass and the check start in step.
pub proof fn lemma_start_in_step(dag: Dag, scope: Scope, init: Seq<(EdgeId, Assertion)>, k: nat)
    requires
        dag.ordered(),
        scope.wf(&dag),
        k <= init.len(),
        forall|i: int| 0 <= i < init.len() ==> (#[trigger] init[i]).0 < dag.num_edges,
    ensures
        in_step(
            dag,
            started(dag, scope, init, k),
            check_started(dag, scope, init, k),
            dag.nodes.len() as int,
        ),
        check_started(dag, scope, init, k).claims == started(dag, scope, init, k).claims,
    decreases k,
{
    if k > 0 {
        lemma_start_in_step(dag, scope, init, (k - 1) as nat);
        assert(init[k - 1].0 < dag.num_edges);
        let e = init[k - 1].0 as int;
        assert(dag.producers[e] matches Some(u) ==> u < dag.nodes.len());
    }
}

/// The first claim about a starting edge is the starting one.
proof fn lemma_first_claims(dag: Dag, scope: Scope, init: Seq<(EdgeId, Assertion)>, k: nat, i: int)
    requires
        dag.ordered(),
        scope.wf(&dag),
        k <= init.len(),
        forall|i: int| 0 <= i < init.len() ==> (#[trigger] init[i]).0 < dag.num_edges,
        forall|a: int, b: int|
            0 <= a < b < init.len() ==> (#[trigger] init[a]).0 != (#[trigger] init[b]).0,
        0 <= i < init.len(),
    ensures
        started(dag, scope, init, k).claims.len() == dag.num_edges,
        started(dag, scope, init, k).claims[init[i].0 as int] == if i < k {
            seq![init[i].1]
        } else {
            Seq::empty()
        },
    decreases k,
{
    if k > 0 {
        lemma_first_claims(dag, scope, init, (k - 1) as nat, i);
        assert(init[k - 1].0 < dag.num_edges);
        assert(init[i].0 < dag.num_edges);
        if i == k - 1 {
            assert(Seq::<Assertion>::empty().push(init[i].1) =~= seq![init[i].1]);
        } else if i < k - 1 {
            assert(init[i].0 != init[k - 1].0);
        } else {
            assert(init[k - 1].0 != init[i].0);
        }
    }
}

/// The points of the starting claims are the ones that are drawn.
pub proof fn lemma_redrawn(
    h: spec_fn(Digest, Digest) -> Digest,
    s: Digest,
    ws: Seq<Vec<Witness>>,
    outs: Seq<EdgeId>,
    k: nat,
)
    requires
        k <= outs.len(),
    ensures
        redrawn(h, s, random_claims(h, s, ws, outs), k) == (true, drawn_upto(h, s, ws, outs, k)),
    decreases k,
{
    if k > 0 {
        lemma_redrawn(h, s, ws, outs, (k - 1) as nat);
        let d = drawn_upto(h, s, ws, outs, (k - 1) as nat);
        let c = claim_at_random(h, d, ws, outs[k - 1]);
        assert(random_claims(h, s, ws, outs)[k - 1] == (outs[k - 1], c));
        assert(c.point.len() == edge_vars(ws, outs[k - 1] as int));
    }
}

/// Whoever writes an edge with a claim waits or has been proved.
pub open spec fn claimed_proved(dag: Dag, p: Pass) -> bool {
    forall|e: int|
        0 <= e < dag.num_edges && (#[trigger] p.claims[e]).len() > 0 ==> (dag.producers[e] matches Some(
            v,
        ) ==> p.pending[v as int] || p.node_proofs[v as int] is Some)
}

/// Scheduling makes the writers of the claimed edges wait.
proof fn lemma_schedule_pending(dag: Dag, scope: Scope, p: Pass, u: NodeId, cs: Seq<Assertion>)
    requires
        dag.ordered(),
        is_whole(dag, scope),
        p.wf(dag),
        forall|i: int| 0 <= i < cs.len() ==> (#[trigger] cs[i]).edge_id < dag.num_edges,
    ensures
        p.schedule_all(dag, scope, u, cs).pending.len() == p.pending.len(),
        forall|v: int|
            0 <= v < p.pending.len() && #[trigger] p.pending[v] ==> p.schedule_all(
                dag,
                scope,
                u,
                cs,
            ).pending[v],
        forall|i: int|
            0 <= i < cs.len() ==> (dag.producers[(#[trigger] cs[i]).edge_id as int] matches Some(v) ==> v
                == u || p.schedule_all(dag, scope, u, cs).pending[v as int]),
    decreases cs.len(),
{
    if cs.len() > 0 {
        let head = cs.drop_last();
        assert forall|i: int| 0 <= i < head.len() implies (#[trigger] head[i]).edge_id < dag.num_edges by {
            assert(head[i] == cs[i]);
        }
        lemma_schedule_pending(dag, scope, p, u, head);
        let mid = p.schedule_all(dag, scope, u, head);
        let x = cs.last();
        assert(cs[cs.len() - 1] == x);
        let e = x.edge_id as int;
        assert(!scope.stop[e]);
        if dag.producers[e] is Some {
            let v = dag.producers[e]->0;
            assert(v < dag.nodes.len());
            assert(scope.inside[v as int]);
        }
        let all = p.schedule_all(dag, scope, u, cs);
        assert forall|i: int| 0 <= i < cs.len() implies (dag.producers[(#[trigger] cs[i]).edge_id as int] matches Some(
            v,
        ) ==> v == u || all.pending[v as int]) by {
            if i < head.len() {
                assert(head[i] == cs[i]);
                if dag.producers[cs[i].edge_id as int] is Some {
                    let v = dag.producers[cs[i].edge_id as int]->0;
                    assert(v < dag.nodes.len());
                    assert(v != u ==> mid.pending[v as int]);
                }
            }
        }
    }
}

/// An edge with a claim had one, or is named by one of the new claims.
pub proof fn lemma_new_claim(p: Pass, new: Seq<Assertion>, e: int)
    requires
        0 <= e < p.claims.len(),
        forall|i: int| 0 <= i < new.len() ==> (#[trigger] new[i]).edge_id < p.claims.len(),
        p.with_claims(new).claims[e].len() > 0,
    ensures
        p.claims[e].len() > 0 || exists|i: int| 0 <= i < new.len() && (#[trigger] new[i]).edge_id == e,
    decreases new.len(),
{
    if new.len() > 0 {
        let head = new.drop_last();
        assert forall|i: int| 0 <= i < head.len() implies (#[trigger] head[i]).edge_id < p.claims.len() by {
            assert(head[i] == new[i]);
        }
        lemma_claims_keep(p, head);
        assert(new[new.len() - 1].edge_id < p.claims.len());
        if new.last().edge_id == e {
            assert(new[new.len() - 1].edge_id == e);
        } else {
            lemma_new_claim(p, head, e);
            if p.claims[e].len() == 0 {
                let i = choose|i: int| 0 <= i < head.len() && (#[trigger] head[i]).edge_id == e;
                assert(new[i].edge_id == e);
            }
        }
    }
}

/// An event keeps the writers of claimed edges waiting or proved.
proof fn lemma_claimed_after(dag: Dag, scope: Scope, p: Pass, ev: Event)
    requires
        dag.ordered(),
        is_whole(dag, scope),
        p.wf(dag),
        claimed_proved(dag, p),
        ev.node < dag.nodes.len(),
        local_reply(dag, ev.node, claim_list(ev.reply.claims@)),
    ensures
        claimed_proved(dag, after(dag, scope, p, ev)),
{
    let u = ev.node;
    let new = claim_list(ev.reply.claims@);
    let q = p.take(u);
    let local = q.local_claims(dag, u);
    let out = dag.nodes[u as int].outputs[0];
    assert(dag.nodes[u as int].outputs.len() > 0);
    assert(dag.nodes[u as int].outputs[0] < dag.num_edges);
    let p1 = match ev.reduction {
        Some(r) => q.reduced(dag, u, r.proofs, claim_list(r.claims@)),
        None => q,
    };
    let p2 = Pass {
        node_proofs: p1.node_proofs.update(
            u as int,
            Some((ev.reply.proofs, new + seen(local, ev.reduction))),
        ),
        ..p1
    };
    assert forall|i: int| 0 <= i < new.len() implies (#[trigger] new[i]).edge_id < dag.num_edges by {
        assert(edges_of(dag, u).contains(new[i].edge_id));
        lemma_edge_bound(dag, u, new[i].edge_id);
    }
    let p3 = p2.with_claims(new);
    lemma_claims_keep(p2, new);
    lemma_schedule_pending(dag, scope, p3, u, new);
    lemma_schedule_claims(dag, scope, p3, u, new);
    lemma_after_proofs(dag, scope, p, ev);
    let r = after(dag, scope, p, ev);
    assert(r == p3.schedule_all(dag, scope, u, new));
    assert forall|e: int| 0 <= e < dag.num_edges && (#[trigger] r.claims[e]).len() > 0 implies (
    dag.producers[e] matches Some(v) ==> r.pending[v as int] || r.node_proofs[v as int] is Some) by {
        if dag.producers[e] is Some {
            let v = dag.producers[e]->0;
            assert(v < dag.nodes.len());
            if v != u {
                lemma_new_claim(p2, new, e);
                if p2.claims[e].len() > 0 {
                    if e == out {
                        assert(dag.nodes[u as int].outputs@.contains(out));
                        let w = dag.writes(u as int, e);
                        assert(w);
                    }
                    assert(p.claims[e].len() > 0);
                    if p.pending[v as int] {
                        assert(p3.pending[v as int]);
                    }
                } else {
                    let i = choose|i: int| 0 <= i < new.len() && (#[trigger] new[i]).edge_id == e;
                    assert(r.pending[v as int]);
                }
            }
        }
    }
}

pub proof fn lemma_claimed_started(dag: Dag, scope: Scope, init: Seq<(EdgeId, Assertion)>, k: nat)
    requires
        dag.ordered(),
        is_whole(dag, scope),
        k <= init.len(),
        forall|i: int| 0 <= i < init.len() ==> (#[trigger] init[i]).0 < dag.num_edges,
    ensures
        started(dag, scope, init, k).wf(dag),
        claimed_proved(dag, started(dag, scope, init, k)),
    decreases k,
{
    if k > 0 {
        lemma_claimed_started(dag, scope, init, (k - 1) as nat);
        assert(init[k - 1].0 < dag.num_edges);
        let e = init[k - 1].0 as int;
        let before = started(dag, scope, init, (k - 1) as nat);
        let r = started(dag, scope, init, k);
        if dag.producers[e] is Some {
            let v = dag.producers[e]->0;
            assert(v < dag.nodes.len());
            assert(scope.inside[v as int]);
        }
        assert forall|f: int| 0 <= f < dag.num_edges && (#[trigger] r.claims[f]).len() > 0 implies (
        dag.producers[f] matches Some(v) ==> r.pending[v as int] || r.node_proofs[v as int] is Some) by {
            if f != e {
                assert(before.claims[f].len() > 0);
                assert(dag.producers[f] matches Some(v) ==> v < dag.nodes.len());
            }
        }
    }
}

/// At the end of a run every node with a claimed output has been proved, and its proof has claims.
pub proof fn lemma_claimed_replay<
    B: Fn(NodeId, &Vec<EdgeId>, &Vec<Claim>, Digest) -> BlockReply,
    R: Fn(NodeId, &Vec<EdgeId>, &Vec<Claim>, Digest) -> BlockReply,
>(
    dag: Dag,
    scope: Scope,
    block: B,
    reduce: R,
    p: Pass,
    s: Digest,
    evs: Seq<Event>,
    k: nat,
)
    requires
        dag.ordered(),
        is_whole(dag, scope),
        p.wf(dag),
        claimed_proved(dag, p),
        is_block(dag, block),
        k <= evs.len(),
        happened(dag, scope, block, reduce, p, s, evs, k),
    ensures
        claimed_proved(dag, replayed(dag, scope, p, evs, k)),
    decreases k,
{
    if k > 0 {
        let m = (k - 1) as nat;
        lemma_claimed_replay(dag, scope, block, reduce, p, s, evs, m);
        lemma_replay(dag, scope, block, reduce, p, s, evs, m);
        lemma_replay(dag, scope, block, reduce, p, s, evs, k);
        lemma_claimed_after(dag, scope, replayed(dag, scope, p, evs, m), evs[m as int]);
    }
}

/// A node that has been proved was taken by an event.
pub proof fn lemma_proved_event<
    B: Fn(NodeId, &Vec<EdgeId>, &Vec<Claim>, Digest) -> BlockReply,
    R: Fn(NodeId, &Vec<EdgeId>, &Vec<Claim>, Digest) -> BlockReply,
>(
    dag: Dag,
    scope: Scope,
    block: B,
    reduce: R,
    p: Pass,
    s: Digest,
    evs: Seq<Event>,
    k: nat,
    v: int,
)
    requires
        dag.ordered(),
        scope.wf(&dag),
        p.wf(dag),
        is_block(dag, block),
        k <= evs.len(),
        happened(dag, scope, block, reduce, p, s, evs, k),
        0 <= v < dag.nodes.len(),
        p.node_proofs[v] is None,
        replayed(dag, scope, p, evs, k).node_proofs[v] is Some,
    ensures
        exists|i: int| 0 <= i < k && (#[trigger] evs[i]).node == v,
    decreases k,
{
    if k > 0 {
        let m = (k - 1) as nat;
        lemma_replay(dag, scope, block, reduce, p, s, evs, m);
        lemma_replay(dag, scope, block, reduce, p, s, evs, k);
        lemma_after_proofs(dag, scope, replayed(dag, scope, p, evs, m), evs[m as int]);
        if evs[m as int].node != v {
            lemma_proved_event(dag, scope, block, reduce, p, s, evs, m, v);
            let i = choose|i: int| 0 <= i < m && (#[trigger] evs[i]).node == v;
            assert(evs[i].node == v);
        }
    }
}

pub proof fn lemma_started_unproved(dag: Dag, scope: Scope, init: Seq<(EdgeId, Assertion)>, k: nat)
    ensures
        started(dag, scope, init, k).node_proofs == Seq::new(
            dag.nodes.len() as nat,
            |n: int| None::<(Vec<SumcheckProof>, Seq<Assertion>)>,
        ),
    decreases k,
{
    if k > 0 {
        lemma_started_unproved(dag, scope, init, (k - 1) as nat);
    }
}

/// The lookups say what is so: the claimed powers of two are those that are selected, the bits are
/// bits and spell what the claims of the nodes say, and no range check is about a selection.
pub open spec fn lookups_true(
    dag: Dag,
    h: spec_fn(Digest, Digest) -> Digest,
    t: Digest,
    ws: Seq<Vec<Witness>>,
    claims: Seq<Seq<Assertion>>,
    sf: u64,
    nps: Seq<Option<NodeProof>>,
    rp: LookupProof,
    tp: LookupProof,
) -> bool {
    let c1 = dag.after_two_pow(h, t, ws, claims).0;
    &&& dag.two_pow_matches(nps, tp)
    &&& forall|i: int|
        0 <= i < dag.range.len() ==> all_bits((#[trigger] dag.range_item(ws, c1, i)).words)
    &&& forall|i: int|
        0 <= i < dag.range.len() ==> enough_claims(
            dag.nodes[(#[trigger] dag.range[i]) as int].kind@,
            nps[dag.range[i] as int],
        )
    &&& forall|i: int|
        0 <= i < dag.range.len() ==> #[trigger] mid_matches(
            dag.range_checks(nps, ws, claims, sf),
            rp.middle_claims@,
            i,
        )
    &&& forall|i: int, j: int|
        0 <= i < dag.range.len() && 0 <= j < dag.two_pow.len() ==> #[trigger] dag.range_inp(i)
            != #[trigger] dag.two_pow_inp(j)
}

/// The claims that are combined before opening are true.
pub open spec fn claims_true(
    dag: Dag,
    ws: Seq<Vec<Witness>>,
    com: Seq<Option<BasefoldCommitmentData>>,
    claims: Seq<Seq<Assertion>>,
) -> bool {
    forall|e: int|
        0 <= e < dag.num_edges && #[trigger] dag.is_reduced(ws, com, claims, e) ==> all_hold(
            edge_table(ws, e),
            pointed(claims[e]),
        )
}

/// The openings prove the claimed values, and the given check passes them.
pub open spec fn openings_true<
    P: Fn(usize, &BasefoldCommitmentData, &Claim, &BasefoldOpeningProof, GoldilocksExt2) -> bool,
>(
    check: P,
    com: Seq<Option<BasefoldCommitmentData>>,
    eps: Seq<EdgeProof>,
    tasks: Seq<(EdgeId, usize)>,
    seed: GoldilocksExt2,
) -> bool {
    forall|t: int| 0 <= t < tasks.len() ==> #[trigger] opening_true(check, com, eps, tasks, seed, t)
}

/// The opening of task `t` proves the claimed value, and the given check passes it.
pub open spec fn opening_true<
    P: Fn(usize, &BasefoldCommitmentData, &Claim, &BasefoldOpeningProof, GoldilocksExt2) -> bool,
>(
    check: P,
    com: Seq<Option<BasefoldCommitmentData>>,
    eps: Seq<EdgeProof>,
    tasks: Seq<(EdgeId, usize)>,
    seed: GoldilocksExt2,
    t: int,
) -> bool {
    let (e, i) = tasks[t];
    let p = eps[e as int];
    &&& p.dense_opening_proof[0].gpu_proof.eval@ == p.claims[i as int].eval@
    &&& forall|passed: bool| #[trigger]
        opening_judged(
            check,
            t as usize,
            com[e as int]->0,
            p.claims[i as int],
            p.dense_opening_proof[0],
            seed,
            passed,
        ) ==> passed
}

/// Lookups that say what is so pass, and the verifier ends at the digest of the prover.
proof fn lemma_lookups_pass(
    dag: Dag,
    h: spec_fn(Digest, Digest) -> Digest,
    t: Digest,
    ws: Seq<Vec<Witness>>,
    claims: Seq<Seq<Assertion>>,
    qc: Seq<Seq<Assertion>>,
    sf: u64,
    nps: Seq<Option<NodeProof>>,
    rp: LookupProof,
    tp: LookupProof,
)
    requires
        dag.lookups_ok(),
        claims.len() == dag.num_edges,
        agree_below(dag, claims, qc, 0),
        dag.two_pow_all_ready(ws, claims),
        dag.range_all_ready(ws, dag.after_two_pow(h, t, ws, claims).0),
        dag.lookups_honest(h, t, ws, claims, rp, tp),
        lookups_true(dag, h, t, ws, claims, sf, nps, rp, tp),
        dag.two_pow_shaped(nps, tp),
    ensures
        dag.two_pow_verdict(h, t, nps, tp) == (Some(true), dag.after_two_pow(h, t, ws, claims).1),
        dag.all_ranges_verdict(
            h,
            dag.after_two_pow(h, t, ws, claims).1,
            nps,
            ws,
            qc,
            sf,
            rp,
        ) == (Some(true), dag.after_lookups(h, t, ws, claims).1),
{
    let (c1, d1) = dag.after_two_pow(h, t, ws, claims);
    let items = dag.two_pow_items(ws, claims);
    if dag.two_pow.len() > 0 {
        lemma_two_pow_complete(h, t, items, tp);
        lemma_two_pow_pass(dag, nps, tp, dag.two_pow.len() as nat);
    }
    if dag.range.len() > 0 {
        let ranges = dag.range_items(ws, c1);
        let checks = dag.range_checks(nps, ws, qc, sf);
        let same = dag.range_checks(nps, ws, claims, sf);
        assert forall|i: int| 0 <= i < ranges.len() implies (#[trigger] ranges[i]).wf() && all_bits(
            ranges[i].words,
        ) by {
            assert(dag.range_ready(ws, c1, i));
            assert(ranges[i] == dag.range_item(ws, c1, i));
        }
        assert forall|i: int| 0 <= i < ranges.len() implies (#[trigger] checks[i]).n == ranges[i].n
            && checks[i].claimed == (ranges[i].point is Some) by {
            lemma_range_claimed(dag, h, t, ws, claims, i);
            let e = dag.range_inp(i) as int;
            assert(has_point(qc[e]) == has_point(claims[e]));
            assert(dag.range_ready(ws, c1, i));
        }
        assert forall|i: int| 0 <= i < ranges.len() implies #[trigger] mid_matches(
            checks,
            rp.middle_claims@,
            i,
        ) by {
            assert(mid_matches(same, rp.middle_claims@, i));
        }
        assert forall|i: int| 0 <= i < ranges.len() implies (#[trigger] checks[i]).ready by {
            assert(dag.range_ready(ws, c1, i));
            assert(dag.bits_known(ws, i));
            assert(dag.range[i] < dag.nodes.len());
        }
        lemma_range_complete(h, d1, ranges, checks, rp);
    }
}

/// The lookups of powers of two leave the claims about the inputs of range checks alone.
pub proof fn lemma_range_claimed(
    dag: Dag,
    h: spec_fn(Digest, Digest) -> Digest,
    t: Digest,
    ws: Seq<Vec<Witness>>,
    claims: Seq<Seq<Assertion>>,
    i: int,
)
    requires
        dag.lookups_ok(),
        claims.len() == dag.num_edges,
        0 <= i < dag.range.len(),
        forall|i: int, j: int|
            0 <= i < dag.range.len() && 0 <= j < dag.two_pow.len() ==> #[trigger] dag.range_inp(i)
                != #[trigger] dag.two_pow_inp(j),
    ensures
        dag.range_inp(i) < dag.num_edges,
        dag.after_two_pow(h, t, ws, claims).0[dag.range_inp(i) as int] == claims[dag.range_inp(i) as int],
{
    let items = dag.two_pow_items(ws, claims);
    assert forall|j: int| 0 <= j < items.len() implies (#[trigger] items[j]).inp < claims.len() by {
        assert(dag.two_pow[j] < dag.nodes.len());
        assert(dag.nodes[dag.two_pow[j] as int].inputs[0] < dag.num_edges);
    }
    assert(dag.range[i] < dag.nodes.len());
    assert(dag.nodes[dag.range[i] as int].inputs[0] < dag.num_edges);
    let e = dag.range_inp(i) as int;
    assert forall|j: int| 0 <= j < items.len() implies (#[trigger] items[j]).inp != e by {
        assert(dag.range_inp(i) != dag.two_pow_inp(j));
    }
    let chs = two_pow_challenges(h, t, items);
    lemma_extends_items(claims, items, chs, items.len());
    assert(with_item_claims(claims, items, chs, items.len())[e] == claims[e]);
}

/// The scopes cover the same nodes and stop at the same edges.
pub open spec fn same_scope(a: Scope, b: Scope) -> bool {
    a.inside@ == b.inside@ && a.stop@ == b.stop@
}

proof fn lemma_same_follow(dag: Dag, a: Scope, b: Scope, c: Check, u: NodeId, cs: Seq<Assertion>)
    requires
        same_scope(a, b),
    ensures
        c.follow_all(dag, a, u, cs) == c.follow_all(dag, b, u, cs),
    decreases cs.len(),
{
    if cs.len() > 0 {
        lemma_same_follow(dag, a, b, c, u, cs.drop_last());
    }
}

proof fn lemma_same_judged(
    dag: Dag,
    a: Scope,
    b: Scope,
    nps: Seq<Option<NodeProof>>,
    c: Check,
    js: Seq<Judgement>,
    k: nat,
)
    requires
        same_scope(a, b),
    ensures
        judged_upto(dag, a, nps, c, js, k) == judged_upto(dag, b, nps, c, js, k),
    decreases k,
{
    if k > 0 {
        lemma_same_judged(dag, a, b, nps, c, js, (k - 1) as nat);
        let p = judged_upto(dag, a, nps, c, js, (k - 1) as nat);
        let j = js[k - 1];
        let u = j.node;
        let local = local_of(nps[u as int]);
        let q = p.take(u);
        let q = match j.reduction {
            Some(r) => q.with_claim(dag.nodes[u as int].outputs[0], local.last()).and(r.ok),
            None => q,
        };
        lemma_same_follow(dag, a, b, q.and(j.reply.ok).repeat_all(dag, u, local), u, local);
    }
}

pub proof fn lemma_same_started(dag: Dag, a: Scope, b: Scope, init: Seq<(EdgeId, Assertion)>, k: nat)
    requires
        same_scope(a, b),
    ensures
        check_started(dag, a, init, k) == check_started(dag, b, init, k),
    decreases k,
{
    if k > 0 {
        lemma_same_started(dag, a, b, init, (k - 1) as nat);
    }
}

pub proof fn lemma_same_reaches<
    V: Fn(NodeId, &Vec<Claim>, &Vec<SumcheckProof>, Digest) -> CheckReply,
    W: Fn(NodeId, &Vec<Claim>, &Vec<SumcheckProof>, Digest) -> CheckReply,
>(
    dag: Dag,
    a: Scope,
    b: Scope,
    nps: Seq<Option<NodeProof>>,
    rps: Seq<Option<Vec<SumcheckProof>>>,
    check: V,
    check_reducer: W,
    c: Check,
    s: Digest,
    q: Check,
    t: Digest,
)
    requires
        same_scope(a, b),
        reaches(dag, a, nps, rps, check, check_reducer, c, s, q, t),
    ensures
        reaches(dag, b, nps, rps, check, check_reducer, c, s, q, t),
{
    let js = choose|js: Seq<Judgement>| #[trigger]
        leads(dag, a, nps, rps, check, check_reducer, c, s, js, q, t);
    assert forall|k: int| 0 <= k < js.len() implies pronounced(
        dag,
        nps,
        rps,
        check,
        check_reducer,
        judged_upto(dag, b, nps, c, js, k as nat),
        judged_digest(s, js, k as nat),
        #[trigger] js[k],
    ) by {
        lemma_same_judged(dag, a, b, nps, c, js, k as nat);
        assert(pronounced(
            dag,
            nps,
            rps,
            check,
            check_reducer,
            judged_upto(dag, a, nps, c, js, k as nat),
            judged_digest(s, js, k as nat),
            js[k],
        ));
    }
    lemma_same_judged(dag, a, b, nps, c, js, js.len());
    assert(leads(dag, b, nps, rps, check, check_reducer, c, s, js, q, t));
}

/// The proof of the lookups of powers of two of a finished run has what its check needs.
proof fn lemma_two_pow_shaped<
    B: Fn(NodeId, &Vec<EdgeId>, &Vec<Claim>, Digest) -> BlockReply,
    R: Fn(NodeId, &Vec<EdgeId>, &Vec<Claim>, Digest) -> BlockReply,
>(
    dag: Dag,
    scope: Scope,
    block: B,
    reduce: R,
    p0: Pass,
    s: Digest,
    evs: Seq<Event>,
    q: Pass,
    t: Digest,
    h: spec_fn(Digest, Digest) -> Digest,
    ws: Seq<Vec<Witness>>,
    p: DagProof,
)
    requires
        dag.ordered(),
        dag.lookups_ok(),
        is_whole(dag, scope),
        p0.wf(dag),
        claimed_proved(dag, p0),
        forall|n: int| 0 <= n < dag.nodes.len() ==> (#[trigger] p0.node_proofs[n]) is None,
        is_block(dag, block),
        runs(dag, scope, block, reduce, p0, s, evs, q, t),
        all_followable(dag, scope, p0, evs),
        node_proof_views(p.0@) == q.node_proofs,
        dag.two_pow_all_ready(ws, q.claims),
        dag.lookups_honest(h, t, ws, q.claims, p.2, p.3),
    ensures
        dag.two_pow_shaped(p.0@, p.3),
{
    let n = evs.len();
    assert(happened(dag, scope, block, reduce, p0, s, evs, n));
    lemma_replay(dag, scope, block, reduce, p0, s, evs, n);
    lemma_claimed_replay(dag, scope, block, reduce, p0, s, evs, n);
    assert forall|i: int| 0 <= i < dag.two_pow.len() implies #[trigger] dag.two_pow_there(
        p.0@,
        p.3,
        i,
    ) by {
        let v = dag.two_pow[i];
        assert(dag.two_pow_ready(ws, q.claims, i));
        let items = dag.two_pow_items(ws, q.claims);
        assert(p.3.middle_claims[i]@.len() == 1);
        let node = dag.nodes[v as int];
        let out = node.outputs[0];
        assert(node.outputs@.contains(out));
        assert(dag.nodes[v as int].outputs[0] < dag.num_edges);
        let w = dag.writes(v as int, out as int);
        assert(w);
        assert(q.claims[out as int].len() > 0);
        assert(!q.pending[v as int]);
        assert(q.node_proofs[v as int] is Some);
        assert(node_proof_views(p.0@)[v as int] == node_proof_view(p.0[v as int]));
        lemma_proved_event(dag, scope, block, reduce, p0, s, evs, n, v as int);
        let k = choose|k: int| 0 <= k < n && (#[trigger] evs[k]).node == v;
        lemma_record_stays(dag, scope, block, reduce, p0, s, evs, k as nat, n);
        let pk = replayed(dag, scope, p0, evs, k as nat);
        assert(crate::dag::lockstep::followable(dag, pk, evs[k]));
        let local = pk.local_claims(dag, v);
        let all = claim_list(evs[k].reply.claims@) + seen(local, evs[k].reduction);
        assert(all.len() > 0);
        assert(claim_list(claims_of(p.0[v as int])) == all);
    }
}

/// All openings pass.
proof fn lemma_openings_pass<
    P: Fn(usize, &BasefoldCommitmentData, &Claim, &BasefoldOpeningProof, GoldilocksExt2) -> bool,
>(
    dag: Dag,
    check: P,
    com: Seq<Option<BasefoldCommitmentData>>,
    eps: Seq<EdgeProof>,
    tasks: Seq<(EdgeId, usize)>,
    seed: GoldilocksExt2,
    rest: bool,
    r: Option<bool>,
)
    requires
        openings_true(check, com, eps, tasks, seed),
        dag.last_word(check, com, eps, tasks, seed, rest, r),
    ensures
        r == Some(rest),
{
    let ok = choose|ok: bool| #[trigger]
        dag.openings_judged(check, com, eps, tasks, seed, ok) && r == Some(ok && rest);
    let oks = choose|oks: Seq<(bool, bool)>| #[trigger]
        dag.openings_verdict(check, com, eps, tasks, seed, oks, ok);
    assert forall|t: int| 0 <= t < tasks.len() implies (#[trigger] oks[t]).1 by {
        assert(opening_true(check, com, eps, tasks, seed, t));
        assert(dag.opening_verdict(check, com, eps, tasks, seed, t, oks[t].0, oks[t].1));
    }
}

/// What follows the pass is accepted, at the digest of the prover.
pub proof fn lemma_end_accepted<
    O: Fn(usize, EdgeId, &Claim, GoldilocksExt2) -> BasefoldOpeningProof,
    P: Fn(usize, &BasefoldCommitmentData, &Claim, &BasefoldOpeningProof, GoldilocksExt2) -> bool,
>(
    dag: Dag,
    h: spec_fn(Digest, Digest) -> Digest,
    t: Digest,
    ws: Seq<Vec<Witness>>,
    com: Seq<Option<BasefoldCommitmentData>>,
    open: O,
    check: P,
    sf: u64,
    claims: Seq<Seq<Assertion>>,
    qc: Seq<Seq<Assertion>>,
    nps: Seq<Option<NodeProof>>,
    eps: Seq<EdgeProof>,
    rp: LookupProof,
    tp: LookupProof,
    end: Digest,
    r: Option<bool>,
    vend: Digest,
)
    requires
        dag.lookups_ok(),
        witnesses_ok(ws, dag.num_edges as nat),
        claims.len() == dag.num_edges,
        agree_below(dag, claims, qc, 0),
        dag.can_finish(h, t, ws, com, claims),
        dag.finished(h, t, ws, com, claims, open, eps, rp, tp, end),
        dag.two_pow_shaped(nps, tp),
        lookups_true(dag, h, t, ws, claims, sf, nps, rp, tp),
        claims_true(dag, ws, com, dag.after_lookups(h, t, ws, claims).0),
        ({
            let (fc, fd) = dag.final_claims(h, t, ws, com, claims);
            let tasks = dag.tasks_upto(ws, com, fc, dag.num_edges as nat);
            openings_true(check, com, eps, tasks, opening_seed(h, fd))
        }),
        dag.end_verdict(h, t, ws, com, nps, qc, eps, rp, tp, sf, check, true, r, vend),
    ensures
        r == Some(true),
        vend == end,
{
    lemma_lookups_pass(dag, h, t, ws, claims, qc, sf, nps, rp, tp);
    let (c2, d2) = dag.after_lookups(h, t, ws, claims);
    let (fc, fd) = dag.final_claims(h, t, ws, com, claims);
    lemma_extends_final(dag, h, t, ws, com, claims);
    assert(edge_claims(eps).len() == eps.len());
    lemma_reducers_complete(dag, h, d2, ws, com, c2, eps, dag.num_edges as nat);
    let tasks = dag.tasks_upto(ws, com, fc, dag.num_edges as nat);
    assert(dag.reducers_present(ws, com, eps)) by {
        assert forall|e: int| 0 <= e < eps.len() && #[trigger] dag.opened(com, e) implies
            crate::dag::openings::reducer_present(eps[e]) by {
            assert(dag.reducer_honest(h, d2, ws, com, c2, e, eps[e].opening_reducer));
            lemma_reduced_entry(dag, h, d2, ws, com, c2, dag.num_edges as nat, e);
            assert(edge_claims(eps)[e].len() == eps[e].claims.len());
        }
    }
    assert(dag.openings_present(tasks, eps)) by {
        assert forall|k: int| 0 <= k < tasks.len() implies eps[(#[trigger] tasks[k]).0 as int].dense_opening_proof.len()
            > 0 by {
            assert(task_done(open, k, tasks[k], fc, opening_seed(h, fd), eps));
        }
    }
    lemma_openings_pass(dag, check, com, eps, tasks, opening_seed(h, fd), true, r);
}

/// A run of the backward pass of a proof: from random points of the outputs, over events that a
/// check can follow, to `q` at digest `t`.
pub open spec fn honest_run<
    B: Fn(NodeId, &Vec<EdgeId>, &Vec<Claim>, Digest) -> BlockReply,
    R: Fn(NodeId, &Vec<EdgeId>, &Vec<Claim>, Digest) -> BlockReply,
>(
    dag: Dag,
    h: spec_fn(Digest, Digest) -> Digest,
    s: Digest,
    ws: Seq<Vec<Witness>>,
    block: B,
    reduce: R,
    scope: Scope,
    evs: Seq<Event>,
    q: Pass,
    t: Digest,
) -> bool {
    let outs = dag.claimed_outputs(ws);
    let init = random_claims(h, s, ws, outs);
    let p = started(dag, scope, init, init.len());
    &&& is_whole(dag, scope)
    &&& runs(dag, scope, block, reduce, p, drawn_upto(h, s, ws, outs, outs.len()), evs, q, t)
    &&& all_followable(dag, scope, p, evs)
}

/// The checks accept what was answered in the run.
pub open spec fn run_passes<
    V: Fn(NodeId, &Vec<Claim>, &Vec<SumcheckProof>, Digest) -> CheckReply,
    W: Fn(NodeId, &Vec<Claim>, &Vec<SumcheckProof>, Digest) -> CheckReply,
    P: Fn(usize, &BasefoldCommitmentData, &Claim, &BasefoldOpeningProof, GoldilocksExt2) -> bool,
>(
    dag: Dag,
    h: spec_fn(Digest, Digest) -> Digest,
    s: Digest,
    ws: Seq<Vec<Witness>>,
    scope: Scope,
    evs: Seq<Event>,
    checks: Checks<V, W, P>,
) -> bool {
    let outs = dag.claimed_outputs(ws);
    let init = random_claims(h, s, ws, outs);
    all_pass(
        dag,
        scope,
        checks.block,
        checks.reducer,
        started(dag, scope, init, init.len()),
        drawn_upto(h, s, ws, outs, outs.len()),
        evs,
    )
}

/// The first claims of the proofs of the edges are the starting claims.
proof fn lemma_heads<
    B: Fn(NodeId, &Vec<EdgeId>, &Vec<Claim>, Digest) -> BlockReply,
    R: Fn(NodeId, &Vec<EdgeId>, &Vec<Claim>, Digest) -> BlockReply,
>(
    dag: Dag,
    h: spec_fn(Digest, Digest) -> Digest,
    s: Digest,
    ws: Seq<Vec<Witness>>,
    com: Seq<Option<BasefoldCommitmentData>>,
    block: B,
    reduce: R,
    scope: Scope,
    evs: Seq<Event>,
    q: Pass,
    t: Digest,
    eps: Seq<EdgeProof>,
)
    requires
        dag.provable(ws, com),
        is_block(dag, block),
        dag.claimed_outputs(ws).no_duplicates(),
        honest_run(dag, h, s, ws, block, reduce, scope, evs, q, t),
        edge_claims(eps) == dag.final_claims(h, t, ws, com, q.claims).0,
    ensures
        q.claims.len() == dag.num_edges,
        heads_present(eps, dag.claimed_outputs(ws)),
        head_claims(eps, dag.claimed_outputs(ws)) == random_claims(h, s, ws, dag.claimed_outputs(ws)),
{
    let outs = dag.claimed_outputs(ws);
    let init = random_claims(h, s, ws, outs);
    let s1 = drawn_upto(h, s, ws, outs, outs.len());
    let p = started(dag, scope, init, init.len());
    assert forall|i: int| 0 <= i < init.len() implies (#[trigger] init[i]).0 < dag.num_edges by {
        assert(outs[i] < ws.len());
    }
    assert forall|a: int, b: int| 0 <= a < b < init.len() implies (#[trigger] init[a]).0 != (
    #[trigger] init[b]).0 by {
        assert(outs[a] != outs[b]);
    }
    lemma_claimed_started(dag, scope, init, init.len());
    assert(happened(dag, scope, block, reduce, p, s1, evs, evs.len()));
    lemma_extends_replay(dag, scope, block, reduce, p, s1, evs, evs.len());
    lemma_replay(dag, scope, block, reduce, p, s1, evs, evs.len());
    lemma_extends_final(dag, h, t, ws, com, q.claims);
    let fc = dag.final_claims(h, t, ws, com, q.claims).0;
    lemma_extends_trans(p.claims, q.claims, fc);
    assert forall|i: int| 0 <= i < outs.len() implies eps[#[trigger] outs[i] as int].claims.len() > 0
        && eps[outs[i] as int].claims[0]@ == init[i].1 by {
        lemma_first_claims(dag, scope, init, init.len(), i);
        let e = outs[i] as int;
        assert(init[i].0 < dag.num_edges);
        assert(p.claims[e] == seq![init[i].1]);
        assert(fc[e].len() >= p.claims[e].len());
        assert(fc[e][0] == p.claims[e][0]);
        assert(edge_claims(eps)[e] == claim_list(eps[e].claims@));
    }
    assert(head_claims(eps, outs) =~= init);
}

/// The verifier accepts the proof that an honest prover makes, and ends at its digest: where the
/// checks of blocks, combined claims and openings accept what the prover was answered, and what is
/// claimed is so, every verdict on the proof is that it is right. Output ports are taken to be
/// listed once.
pub proof fn lemma_prove_verify<
    B: Fn(NodeId, &Vec<EdgeId>, &Vec<Claim>, Digest) -> BlockReply,
    R: Fn(NodeId, &Vec<EdgeId>, &Vec<Claim>, Digest) -> BlockReply,
    O: Fn(usize, EdgeId, &Claim, GoldilocksExt2) -> BasefoldOpeningProof,
    V: Fn(NodeId, &Vec<Claim>, &Vec<SumcheckProof>, Digest) -> CheckReply,
    W: Fn(NodeId, &Vec<Claim>, &Vec<SumcheckProof>, Digest) -> CheckReply,
    P: Fn(usize, &BasefoldCommitmentData, &Claim, &BasefoldOpeningProof, GoldilocksExt2) -> bool,
>(
    dag: Dag,
    h: spec_fn(Digest, Digest) -> Digest,
    s: Digest,
    ws: Seq<Vec<Witness>>,
    com: Seq<Option<BasefoldCommitmentData>>,
    block: B,
    reduce: R,
    open: O,
    scope: Scope,
    evs: Seq<Event>,
    q: Pass,
    t: Digest,
    p: DagProof,
    end: Digest,
    checks: Checks<V, W, P>,
    r: Option<bool>,
    vend: Digest,
)
    requires
        dag.provable(ws, com),
        is_block(dag, block),
        dag.claimed_outputs(ws).no_duplicates(),
        honest_run(dag, h, s, ws, block, reduce, scope, evs, q, t),
        proof_from(dag, h, ws, com, open, q, t, Some(p), end),
        run_passes(dag, h, s, ws, scope, evs, checks),
        lookups_true(dag, h, t, ws, q.claims, checks.sf, p.0@, p.2, p.3),
        ({
            let oc = dag.openable(ws, com, Seq::empty());
            let (fc, fd) = dag.final_claims(h, t, ws, oc, q.claims);
            let tasks = dag.tasks_upto(ws, oc, fc, dag.num_edges as nat);
            &&& claims_true(dag, ws, oc, dag.after_lookups(h, t, ws, q.claims).0)
            &&& openings_true(checks.opening, oc, p.1@, tasks, opening_seed(h, fd))
        }),
        verifies(dag, h, s, ws, com, p.0@, p.1@, p.2, p.3, p.4@, checks, r, vend),
    ensures
        r == Some(true),
        vend == end,
{
    let outs = dag.claimed_outputs(ws);
    let init = random_claims(h, s, ws, outs);
    let s1 = drawn_upto(h, s, ws, outs, outs.len());
    let p0 = started(dag, scope, init, init.len());
    let c0 = check_started(dag, scope, init, init.len());
    let (nps, eps, rps) = (p.0@, p.1@, p.4@);
    let oc = dag.openable(ws, com, Seq::empty());
    assert forall|i: int| 0 <= i < init.len() implies (#[trigger] init[i]).0 < dag.num_edges by {
        assert(outs[i] < ws.len());
    }
    lemma_heads(dag, h, s, ws, oc, block, reduce, scope, evs, q, t, eps);
    lemma_redrawn(h, s, ws, outs, outs.len());
    lemma_start_in_step(dag, scope, init, init.len());
    lemma_claimed_started(dag, scope, init, init.len());
    lemma_started_unproved(dag, scope, init, init.len());
    lemma_two_pow_shaped(dag, scope, block, reduce, p0, s1, evs, q, t, h, ws, p);
    if r is None && exists|sc: Scope|
        is_whole(dag, sc) && #[trigger] stuck(dag, nps, rps, checks, sc, init, s1) {
        let sc = choose|sc: Scope|
            is_whole(dag, sc) && #[trigger] stuck(dag, nps, rps, checks, sc, init, s1);
        lemma_whole_same(dag, sc, scope);
        lemma_not_stuck(
            dag,
            block,
            reduce,
            scope,
            init,
            s1,
            evs,
            q,
            t,
            nps,
            rps,
            checks,
            sc,
        );
    } else {
        let (sc, qc, tc) = choose|sc: Scope, qc: Check, tc: Digest|
            is_whole(dag, sc) && #[trigger] arrives(dag, nps, rps, checks, sc, init, s1, qc, tc)
                && dag.end_verdict(
                h,
                tc,
                ws,
                oc,
                nps,
                qc.claims,
                eps,
                p.2,
                p.3,
                checks.sf,
                checks.opening,
                true && qc.verified,
                r,
                vend,
            );
        lemma_whole_same(dag, sc, scope);
        lemma_same_started(dag, sc, scope, init, init.len());
        lemma_same_reaches(
            dag,
            sc,
            scope,
            nps,
            rps,
            checks.block,
            checks.reducer,
            c0,
            s1,
            qc,
            tc,
        );
        lemma_check_follows(
            dag,
            scope,
            block,
            reduce,
            checks.block,
            checks.reducer,
            p0,
            c0,
            s1,
            evs,
            q,
            t,
            qc,
            tc,
            nps,
            rps,
        );
        lemma_end_accepted(
            dag,
            h,
            t,
            ws,
            oc,
            open,
            checks.opening,
            checks.sf,
            q.claims,
            qc.claims,
            nps,
            eps,
            p.2,
            p.3,
            end,
            r,
            vend,
        );
    }
}

/// All scopes of the whole graph are the same.
proof fn lemma_whole_same(dag: Dag, a: Scope, b: Scope)
    requires
        is_whole(dag, a),
        is_whole(dag, b),
    ensures
        same_scope(a, b),
{
    assert forall|n: int| 0 <= n < a.inside.len() implies a.inside@[n] == b.inside@[n] by {
        assert(a.inside[n] && b.inside[n]);
    }
    assert forall|e: int| 0 <= e < a.stop.len() implies a.stop@[e] == b.stop@[e] by {
        assert(!a.stop[e] && !b.stop[e]);
    }
    assert(a.inside@ =~= b.inside@);
    assert(a.stop@ =~= b.stop@);
}

/// The check of the proof of an honest run does not get stuck.
pub proof fn lemma_not_stuck<
    B: Fn(NodeId, &Vec<EdgeId>, &Vec<Claim>, Digest) -> BlockReply,
    R: Fn(NodeId, &Vec<EdgeId>, &Vec<Claim>, Digest) -> BlockReply,
    V: Fn(NodeId, &Vec<Claim>, &Vec<SumcheckProof>, Digest) -> CheckReply,
    W: Fn(NodeId, &Vec<Claim>, &Vec<SumcheckProof>, Digest) -> CheckReply,
    P: Fn(usize, &BasefoldCommitmentData, &Claim, &BasefoldOpeningProof, GoldilocksExt2) -> bool,
>(
    dag: Dag,
    block: B,
    reduce: R,
    scope: Scope,
    init: Seq<(EdgeId, Assertion)>,
    s1: Digest,
    evs: Seq<Event>,
    q: Pass,
    t: Digest,
    nps: Seq<Option<NodeProof>>,
    rps: Seq<Option<Vec<SumcheckProof>>>,
    checks: Checks<V, W, P>,
    sc: Scope,
)
    requires
        dag.ordered(),
        scope.wf(&dag),
        same_scope(sc, scope),
        forall|i: int| 0 <= i < init.len() ==> (#[trigger] init[i]).0 < dag.num_edges,
        is_block(dag, block),
        all_pass(
            dag,
            scope,
            checks.block,
            checks.reducer,
            started(dag, scope, init, init.len()),
            s1,
            evs,
        ),
        runs(dag, scope, block, reduce, started(dag, scope, init, init.len()), s1, evs, q, t),
        all_followable(dag, scope, started(dag, scope, init, init.len()), evs),
        node_proof_views(nps) == q.node_proofs,
        rps == q.reducer_proofs,
    ensures
        !stuck(dag, nps, rps, checks, sc, init, s1),
{
    if stuck(dag, nps, rps, checks, sc, init, s1) {
        let p0 = started(dag, scope, init, init.len());
        let c0 = check_started(dag, scope, init, init.len());
        lemma_start_in_step(dag, scope, init, init.len());
        lemma_same_started(dag, sc, scope, init, init.len());
        let (qc, tc) = choose|qc: Check, tc: Digest|
            #![trigger reaches(dag, sc, nps, rps, checks.block, checks.reducer, c0, s1, qc, tc)]
            reaches(dag, sc, nps, rps, checks.block, checks.reducer, c0, s1, qc, tc)
                && exists|u: NodeId| #[trigger]
                qc.is_next(u) && !supplied(dag, nps, rps, qc, u);
        lemma_same_reaches(
            dag,
            sc,
            scope,
            nps,
            rps,
            checks.block,
            checks.reducer,
            c0,
            s1,
            qc,
            tc,
        );
        lemma_check_follows(
            dag,
            scope,
            block,
            reduce,
            checks.block,
            checks.reducer,
            p0,
            c0,
            s1,
            evs,
            q,
            t,
            qc,
            tc,
            nps,
            rps,
        );
    }
}

} // verus!
