//! A check that follows a proof keeps step with the pass that made it.
use vstd::prelude::*;

use crate::dag::backward::{edges_of, node_proof_view, BlockReply, Pass, Scope};
use crate::dag::check_pass::{
    judge, judged, judged_digest, judged_upto, leads, local_of, pronounced, reaches, supplied,
    Check, CheckReply, Judgement,
};
use crate::dag::pass::{
    after, answered, digest_after, happens, is_block, lemma_claims_keep, lemma_edge_bound,
    lemma_event_below, local_reply, replayed, runs, seen, Event,
};
use crate::dag::range::last_point;
use crate::dag::types::{claim_list, Assertion, Claim, Dag, EdgeId, NodeId, NodeProof};
use crate::sumcheck::SumcheckProof;
use crate::transcript::Digest;

verus! {

/// Some claim has a point.
pub open spec fn has_point(cs: Seq<Assertion>) -> bool {
    last_point(cs) is Some
}

/// The lists agree about all edges that no node from `u` on writes, and about every edge they
/// agree on whether some claim has a point.
pub open spec fn agree_below(dag: Dag, p: Seq<Seq<Assertion>>, c: Seq<Seq<Assertion>>, u: int) -> bool {
    &&& p.len() == dag.num_edges
    &&& c.len() == dag.num_edges
    &&& forall|e: int|
        0 <= e < dag.num_edges && below(dag, e, u) ==> #[trigger] c[e] == p[e]
    &&& forall|e: int|
        0 <= e < dag.num_edges ==> has_point(#[trigger] c[e]) == has_point(p[e])
}

/// No node from `u` on writes edge `e`.
pub open spec fn below(dag: Dag, e: int, u: int) -> bool {
    dag.producers[e] matches Some(v) ==> v < u
}

/// The check keeps step with the pass, and only nodes before `b` wait.
pub open spec fn in_step(dag: Dag, p: Pass, c: Check, b: int) -> bool {
    &&& p.wf(dag)
    &&& c.wf(dag)
    &&& c.pending == p.pending
    &&& c.verified
    &&& forall|v: int| b <= v < p.pending.len() ==> !#[trigger] p.pending[v]
    &&& agree_below(dag, p.claims, c.claims, b)
}

/// What a pass does with node `u` is what its check can follow: the claims about the node are
/// about its first output, several of them are combined into one, the block claims values of
/// inputs, or of outputs that are opened for their own sake, and what the block is shown is
/// about outputs, of which only the first may be opened for its own sake.
pub open spec fn followable(dag: Dag, p: Pass, ev: Event) -> bool {
    let u = ev.node;
    let node = dag.nodes[u as int];
    let local = p.local_claims(dag, u);
    let new = claim_list(ev.reply.claims@);
    let shown = seen(local, ev.reduction);
    &&& local.len() > 0
    &&& local == p.claims[node.outputs[0] as int]
    &&& ev.reduction matches Some(r) ==> r.claims.len() == 1
    &&& forall|i: int|
        0 <= i < new.len() ==> node.inputs@.contains((#[trigger] new[i]).edge_id) || (
        dag.self_claim_edges@.contains(new[i].edge_id) && node.outputs@.contains(new[i].edge_id))
    &&& forall|i: int|
        0 <= i < shown.len() ==> node.outputs@.contains((#[trigger] shown[i]).edge_id) && (
        dag.self_claim_edges@.contains(shown[i].edge_id) ==> shown[i].edge_id == node.outputs[0])
}

/// The checks accept what was answered in an event, and end at the digests of the answers.
pub open spec fn event_passes<
    V: Fn(NodeId, &Vec<Claim>, &Vec<SumcheckProof>, Digest) -> CheckReply,
    W: Fn(NodeId, &Vec<Claim>, &Vec<SumcheckProof>, Digest) -> CheckReply,
>(dag: Dag, check: V, check_reducer: W, p: Pass, s: Digest, ev: Event) -> bool {
    let u = ev.node;
    let local = p.local_claims(dag, u);
    let shown = seen(local, ev.reduction);
    let mid = match ev.reduction {
        Some(r) => r.state,
        None => s,
    };
    &&& ev.reduction matches Some(r) ==> reply_passes(
        check_reducer,
        u,
        local.push(claim_list(r.claims@)[0]),
        s,
        r,
    )
    &&& reply_passes(check, u, claim_list(ev.reply.claims@) + shown, mid, ev.reply)
}

/// The check accepts the proofs of a reply, and ends at its digest.
pub open spec fn reply_passes<V: Fn(NodeId, &Vec<Claim>, &Vec<SumcheckProof>, Digest) -> CheckReply>(
    check: V,
    u: NodeId,
    claims: Seq<Assertion>,
    s: Digest,
    r: BlockReply,
) -> bool {
    forall|c: CheckReply| #[trigger]
        judged(check, u, claims, r.proofs, s, c) ==> c.ok && c.state == r.state
}

/// The checks accept what was answered in all events of a run.
pub open spec fn all_pass<
    V: Fn(NodeId, &Vec<Claim>, &Vec<SumcheckProof>, Digest) -> CheckReply,
    W: Fn(NodeId, &Vec<Claim>, &Vec<SumcheckProof>, Digest) -> CheckReply,
>(dag: Dag, scope: Scope, check: V, check_reducer: W, p: Pass, s: Digest, evs: Seq<Event>) -> bool {
    forall|k: int|
        0 <= k < evs.len() ==> event_passes(
            dag,
            check,
            check_reducer,
            replayed(dag, scope, p, evs, k as nat),
            digest_after(s, evs, k as nat),
            #[trigger] evs[k],
        )
}

/// One claim more decides only by its own point.
proof fn lemma_has_point_push(cs: Seq<Assertion>, c: Assertion)
    ensures
        has_point(cs.push(c)) == (has_point(cs) || c.point.len() > 0),
{
    assert(cs.push(c).drop_last() =~= cs);
}

/// A claim with a point decides for its list.
proof fn lemma_has_point(cs: Seq<Assertion>, i: int)
    requires
        0 <= i < cs.len(),
        cs[i].point.len() > 0,
    ensures
        has_point(cs),
    decreases cs.len(),
{
    if i < cs.len() - 1 {
        lemma_has_point(cs.drop_last(), i);
    }
}

/// The same claim on both sides keeps agreement.
proof fn lemma_agree_push(
    dag: Dag,
    p: Seq<Seq<Assertion>>,
    c: Seq<Seq<Assertion>>,
    u: int,
    e: int,
    x: Assertion,
)
    requires
        agree_below(dag, p, c, u),
        0 <= e < dag.num_edges,
    ensures
        agree_below(dag, p.update(e, p[e].push(x)), c.update(e, c[e].push(x)), u),
{
    lemma_has_point_push(p[e], x);
    lemma_has_point_push(c[e], x);
    let (p2, c2) = (p.update(e, p[e].push(x)), c.update(e, c[e].push(x)));
    assert forall|f: int| 0 <= f < dag.num_edges && below(dag, f, u) implies #[trigger] c2[f] == p2[f] by {
        assert(c[f] == p[f]);
    }
    assert forall|f: int| 0 <= f < dag.num_edges implies has_point(#[trigger] c2[f]) == has_point(p2[f]) by {
        assert(has_point(c[f]) == has_point(p[f]));
    }
}

/// A claim repeated about an edge that a node from `u` on writes keeps agreement, if the edge has
/// a claim with a point already.
proof fn lemma_agree_extra(
    dag: Dag,
    p: Seq<Seq<Assertion>>,
    c: Seq<Seq<Assertion>>,
    u: int,
    e: int,
    x: Assertion,
)
    requires
        agree_below(dag, p, c, u),
        0 <= e < dag.num_edges,
        !below(dag, e, u),
        x.point.len() > 0 ==> has_point(p[e]),
    ensures
        agree_below(dag, p, c.update(e, c[e].push(x)), u),
{
    lemma_has_point_push(c[e], x);
    let c2 = c.update(e, c[e].push(x));
    assert(has_point(c[e]) == has_point(p[e]));
    assert forall|f: int| 0 <= f < dag.num_edges && below(dag, f, u) implies #[trigger] c2[f] == p[f] by {
        assert(c[f] == p[f]);
    }
    assert forall|f: int| 0 <= f < dag.num_edges implies has_point(#[trigger] c2[f]) == has_point(p[f]) by {
        assert(has_point(c[f]) == has_point(p[f]));
    }
}

/// Agreement below a node is agreement below every earlier node.
proof fn lemma_agree_lower(dag: Dag, p: Seq<Seq<Assertion>>, c: Seq<Seq<Assertion>>, b: int, u: int)
    requires
        agree_below(dag, p, c, b),
        u <= b,
    ensures
        agree_below(dag, p, c, u),
{
    assert forall|e: int| 0 <= e < dag.num_edges && below(dag, e, u) implies #[trigger] c[e] == p[e] by {
        assert(below(dag, e, b));
    }
}

/// Repeating the claims of the block keeps agreement.
proof fn lemma_repeat_new(dag: Dag, p: Pass, c: Check, u: NodeId, new: Seq<Assertion>)
    requires
        dag.ordered(),
        u < dag.nodes.len(),
        agree_below(dag, p.claims, c.claims, u as int),
        forall|i: int|
            0 <= i < new.len() ==> dag.nodes[u as int].inputs@.contains((#[trigger] new[i]).edge_id) || (
            dag.self_claim_edges@.contains(new[i].edge_id) && dag.nodes[u as int].outputs@.contains(
                new[i].edge_id,
            )),
    ensures
        agree_below(dag, p.with_claims(new).claims, c.repeat_all(dag, u, new).claims, u as int),
        c.repeat_all(dag, u, new).pending == c.pending,
        c.repeat_all(dag, u, new).verified == c.verified,
    decreases new.len(),
{
    if new.len() > 0 {
        let head = new.drop_last();
        let x = new.last();
        assert forall|i: int| 0 <= i < head.len() implies dag.nodes[u as int].inputs@.contains(
            (#[trigger] head[i]).edge_id,
        ) || (dag.self_claim_edges@.contains(head[i].edge_id) && dag.nodes[u as int].outputs@.contains(
            head[i].edge_id,
        )) by {
            assert(head[i] == new[i]);
        }
        lemma_repeat_new(dag, p, c, u, head);
        assert(new[new.len() - 1] == x);
        let node = dag.nodes[u as int];
        assert(edges_of(dag, u).contains(x.edge_id)) by {
            if node.inputs@.contains(x.edge_id) {
                let k = choose|k: int| 0 <= k < node.inputs.len() && node.inputs@[k] == x.edge_id;
                assert(edges_of(dag, u)[k] == x.edge_id);
            } else {
                let k = choose|k: int| 0 <= k < node.outputs.len() && node.outputs@[k] == x.edge_id;
                assert(edges_of(dag, u)[node.inputs.len() + k] == x.edge_id);
            }
        }
        lemma_edge_bound(dag, u, x.edge_id);
        lemma_agree_push(
            dag,
            p.with_claims(head).claims,
            c.repeat_all(dag, u, head).claims,
            u as int,
            x.edge_id as int,
            x,
        );
    }
}

/// Repeating what the block was shown keeps agreement.
proof fn lemma_repeat_seen(dag: Dag, p: Pass, c: Check, u: NodeId, shown: Seq<Assertion>)
    requires
        dag.ordered(),
        u < dag.nodes.len(),
        agree_below(dag, p.claims, c.claims, u as int),
        forall|i: int|
            0 <= i < shown.len() ==> dag.nodes[u as int].outputs@.contains((#[trigger] shown[i]).edge_id)
                && (dag.self_claim_edges@.contains(shown[i].edge_id) ==> shown[i].edge_id
                == dag.nodes[u as int].outputs[0]),
        forall|i: int|
            0 <= i < shown.len() && (#[trigger] shown[i]).point.len() > 0 ==> has_point(
                p.claims[dag.nodes[u as int].outputs[0] as int],
            ),
    ensures
        agree_below(dag, p.claims, c.repeat_all(dag, u, shown).claims, u as int),
        c.repeat_all(dag, u, shown).pending == c.pending,
        c.repeat_all(dag, u, shown).verified == c.verified,
    decreases shown.len(),
{
    if shown.len() > 0 {
        let head = shown.drop_last();
        let x = shown.last();
        let node = dag.nodes[u as int];
        assert forall|i: int| 0 <= i < head.len() implies node.outputs@.contains(
            (#[trigger] head[i]).edge_id,
        ) && (dag.self_claim_edges@.contains(head[i].edge_id) ==> head[i].edge_id == node.outputs[0]) by {
            assert(head[i] == shown[i]);
        }
        assert forall|i: int| 0 <= i < head.len() && (#[trigger] head[i]).point.len() > 0 implies has_point(
            p.claims[node.outputs[0] as int],
        ) by {
            assert(head[i] == shown[i]);
        }
        lemma_repeat_seen(dag, p, c, u, head);
        assert(shown[shown.len() - 1] == x);
        lemma_own_output(dag, u, x.edge_id);
        let mid = c.repeat_all(dag, u, head);
        if dag.self_claim_edges@.contains(x.edge_id) {
            lemma_agree_extra(dag, p.claims, mid.claims, u as int, x.edge_id as int, x);
        }
    }
}

/// An output of a node is an edge that the node writes and does not read.
pub proof fn lemma_own_output(dag: Dag, u: NodeId, e: EdgeId)
    requires
        dag.ordered(),
        u < dag.nodes.len(),
        dag.nodes[u as int].outputs@.contains(e),
    ensures
        e < dag.num_edges,
        dag.producers[e as int] == Some(u),
        !dag.nodes[u as int].inputs@.contains(e),
{
    let node = dag.nodes[u as int];
    let k = choose|k: int| 0 <= k < node.outputs.len() && node.outputs@[k] == e;
    assert(dag.nodes[u as int].outputs[k] < dag.num_edges);
    let w = dag.writes(u as int, e as int);
    assert(w);
    let r = dag.reads(u as int, e as int);
    assert(!r);
}

/// Claims repeated one list after the other.
proof fn lemma_repeat_concat(dag: Dag, c: Check, u: NodeId, a: Seq<Assertion>, b: Seq<Assertion>)
    ensures
        c.repeat_all(dag, u, a + b) == c.repeat_all(dag, u, a).repeat_all(dag, u, b),
    decreases b.len(),
{
    if b.len() == 0 {
        assert(a + b =~= a);
    } else {
        lemma_repeat_concat(dag, c, u, a, b.drop_last());
        assert((a + b).drop_last() =~= a + b.drop_last());
        assert((a + b).last() == b.last());
    }
}

/// Claims followed one list after the other.
proof fn lemma_follow_concat(
    dag: Dag,
    scope: Scope,
    c: Check,
    u: NodeId,
    a: Seq<Assertion>,
    b: Seq<Assertion>,
)
    ensures
        c.follow_all(dag, scope, u, a + b) == c.follow_all(dag, scope, u, a).follow_all(
            dag,
            scope,
            u,
            b,
        ),
    decreases b.len(),
{
    if b.len() == 0 {
        assert(a + b =~= a);
    } else {
        lemma_follow_concat(dag, scope, c, u, a, b.drop_last());
        assert((a + b).drop_last() =~= a + b.drop_last());
        assert((a + b).last() == b.last());
    }
}

/// Following the claims of the block makes the same nodes wait as scheduling does.
proof fn lemma_follow_new(dag: Dag, scope: Scope, p: Pass, c: Check, u: NodeId, new: Seq<Assertion>)
    requires
        dag.ordered(),
        u < dag.nodes.len(),
        c.pending == p.pending,
        forall|i: int|
            0 <= i < new.len() ==> dag.nodes[u as int].inputs@.contains((#[trigger] new[i]).edge_id)
                || dag.nodes[u as int].outputs@.contains(new[i].edge_id),
    ensures
        c.follow_all(dag, scope, u, new).pending == p.schedule_all(dag, scope, u, new).pending,
        c.follow_all(dag, scope, u, new).claims == c.claims,
        c.follow_all(dag, scope, u, new).verified == c.verified,
        p.schedule_all(dag, scope, u, new).claims == p.claims,
    decreases new.len(),
{
    if new.len() > 0 {
        let head = new.drop_last();
        let x = new.last();
        let node = dag.nodes[u as int];
        assert forall|i: int| 0 <= i < head.len() implies node.inputs@.contains(
            (#[trigger] head[i]).edge_id,
        ) || node.outputs@.contains(head[i].edge_id) by {
            assert(head[i] == new[i]);
        }
        lemma_follow_new(dag, scope, p, c, u, head);
        assert(new[new.len() - 1] == x);
        if node.inputs@.contains(x.edge_id) {
            let k = choose|k: int| 0 <= k < node.inputs.len() && node.inputs@[k] == x.edge_id;
            assert(dag.nodes[u as int].inputs[k] < dag.num_edges);
            let r = dag.reads(u as int, x.edge_id as int);
            assert(r);
        } else {
            lemma_own_output(dag, u, x.edge_id);
        }
    }
}

/// Following what the block was shown makes no node wait.
proof fn lemma_follow_seen(dag: Dag, scope: Scope, c: Check, u: NodeId, shown: Seq<Assertion>)
    requires
        dag.ordered(),
        u < dag.nodes.len(),
        forall|i: int|
            0 <= i < shown.len() ==> dag.nodes[u as int].outputs@.contains((#[trigger] shown[i]).edge_id),
    ensures
        c.follow_all(dag, scope, u, shown) == c,
    decreases shown.len(),
{
    if shown.len() > 0 {
        let head = shown.drop_last();
        assert forall|i: int| 0 <= i < head.len() implies dag.nodes[u as int].outputs@.contains(
            (#[trigger] head[i]).edge_id,
        ) by {
            assert(head[i] == shown[i]);
        }
        lemma_follow_seen(dag, scope, c, u, head);
        assert(shown[shown.len() - 1] == shown.last());
        lemma_own_output(dag, u, shown.last().edge_id);
    }
}

/// The proof of the node of an event is what the event recorded.
pub open spec fn recorded(
    dag: Dag,
    p: Pass,
    ev: Event,
    nps: Seq<Option<NodeProof>>,
    rps: Seq<Option<Vec<SumcheckProof>>>,
) -> bool {
    let local = p.local_claims(dag, ev.node);
    &&& node_proof_view(nps[ev.node as int]) == Some(
        (ev.reply.proofs, claim_list(ev.reply.claims@) + seen(local, ev.reduction)),
    )
    &&& ev.reduction matches Some(r) ==> r.claims.len() == 1 ==> rps[ev.node as int] == Some(r.proofs)
}

/// The outputs of a node have the same claims when it is taken.
proof fn lemma_local_take(dag: Dag, p: Pass, u: NodeId, outs: Seq<EdgeId>, k: nat)
    ensures
        p.take(u).output_claims(outs, k) == p.output_claims(outs, k),
    decreases k,
{
    if k > 0 {
        lemma_local_take(dag, p, u, outs, (k - 1) as nat);
    }
}

/// After a step, pass and check agree below the node that was taken.
proof fn lemma_step_state(
    dag: Dag,
    scope: Scope,
    p: Pass,
    c: Check,
    b: int,
    ev: Event,
    j: Judgement,
    nps: Seq<Option<NodeProof>>,
)
    requires
        dag.ordered(),
        scope.wf(&dag),
        in_step(dag, p, c, b),
        p.is_next(ev.node),
        j.node == ev.node,
        local_reply(dag, ev.node, claim_list(ev.reply.claims@)),
        followable(dag, p, ev),
        local_of(nps[ev.node as int]) == claim_list(ev.reply.claims@) + seen(
            p.local_claims(dag, ev.node),
            ev.reduction,
        ),
        j.reduction is Some <==> ev.reduction is Some,
        j.reduction matches Some(r) ==> r.ok,
        j.reply.ok,
    ensures
        in_step(dag, after(dag, scope, p, ev), judge(dag, scope, nps, c, j), ev.node as int),
{
    let u = ev.node;
    let node = dag.nodes[u as int];
    let out = node.outputs[0];
    assert(node.outputs.len() > 0);
    assert(node.outputs@.contains(out));
    lemma_own_output(dag, u, out);
    let new = claim_list(ev.reply.claims@);
    let local = p.local_claims(dag, u);
    lemma_local_take(dag, p, u, node.outputs@, node.outputs@.len());
    let shown = seen(local, ev.reduction);
    lemma_event_below(dag, scope, p, ev);
    lemma_agree_lower(dag, p.claims, c.claims, b, u as int);
    // The pass and the check after the reduction.
    let p1 = match ev.reduction {
        Some(r) => p.take(u).reduced(dag, u, r.proofs, claim_list(r.claims@)),
        None => p.take(u),
    };
    let all = new + shown;
    assert(shown.len() > 0);
    assert(all.last() == shown.last());
    let c1 = match j.reduction {
        Some(r) => c.take(u).with_claim(out, all.last()).and(r.ok),
        None => c.take(u),
    };
    if ev.reduction is Some {
        let rc = claim_list((ev.reduction->0).claims@);
        assert(shown =~= rc);
        assert(shown.last() == rc[0]);
        lemma_agree_push(dag, p.claims, c.claims, u as int, out as int, rc[0]);
    }
    assert(agree_below(dag, p1.claims, c1.claims, u as int));
    assert(c1.pending == p1.pending);
    // What the block was shown is among the claims about the first output.
    assert forall|i: int| 0 <= i < shown.len() && (#[trigger] shown[i]).point.len() > 0 implies has_point(
        p1.claims[out as int],
    ) by {
        if ev.reduction is Some {
            lemma_has_point(p1.claims[out as int], p1.claims[out as int].len() - 1);
        } else {
            lemma_has_point(p1.claims[out as int], i);
        }
    }
    let p2 = Pass { node_proofs: p1.node_proofs.update(u as int, Some((ev.reply.proofs, all))), ..p1 };
    let c2 = c1.and(j.reply.ok);
    // Claims.
    lemma_repeat_new(dag, p2, c2, u, new);
    let p3 = p2.with_claims(new);
    assert forall|i: int| 0 <= i < new.len() implies (#[trigger] new[i]).edge_id < p2.claims.len() by {
        assert(edges_of(dag, u).contains(new[i].edge_id));
        lemma_edge_bound(dag, u, new[i].edge_id);
    }
    lemma_claims_keep(p2, new);
    assert forall|i: int| 0 <= i < shown.len() && (#[trigger] shown[i]).point.len() > 0 implies has_point(
        p3.claims[out as int],
    ) by {
        lemma_grow(p2, new, out);
        let k = if ev.reduction is Some {
            p1.claims[out as int].len() - 1
        } else {
            i
        };
        assert(p3.claims[out as int][k] == p2.claims[out as int][k]);
        lemma_has_point(p3.claims[out as int], k);
    }
    let c3 = c2.repeat_all(dag, u, new);
    lemma_repeat_seen(dag, p3, c3, u, shown);
    lemma_repeat_concat(dag, c2, u, new, shown);
    let c4 = c2.repeat_all(dag, u, all);
    // Nodes that wait.
    assert forall|i: int| 0 <= i < new.len() implies node.inputs@.contains((#[trigger] new[i]).edge_id)
        || node.outputs@.contains(new[i].edge_id) by {}
    lemma_follow_new(dag, scope, p3, c4, u, new);
    lemma_follow_concat(dag, scope, c4, u, new, shown);
    lemma_follow_seen(dag, scope, c4.follow_all(dag, scope, u, new), u, shown);
    let c5 = c4.follow_all(dag, scope, u, all);
    assert(judge(dag, scope, nps, c, j) == c5);
    assert(after(dag, scope, p, ev) == p3.schedule_all(dag, scope, u, new));
}

/// Lists of claims grow at their ends.
proof fn lemma_grow(p: Pass, new: Seq<Assertion>, e: EdgeId)
    requires
        e < p.claims.len(),
        forall|i: int| 0 <= i < new.len() ==> (#[trigger] new[i]).edge_id < p.claims.len(),
    ensures
        p.with_claims(new).claims.len() == p.claims.len(),
        p.with_claims(new).claims[e as int].len() >= p.claims[e as int].len(),
        forall|k: int|
            0 <= k < p.claims[e as int].len() ==> #[trigger] p.with_claims(new).claims[e as int][k]
                == p.claims[e as int][k],
    decreases new.len(),
{
    if new.len() > 0 {
        let head = new.drop_last();
        assert forall|i: int| 0 <= i < head.len() implies (#[trigger] head[i]).edge_id < p.claims.len() by {
            assert(head[i] == new[i]);
        }
        lemma_grow(p, head, e);
        assert(new[new.len() - 1].edge_id < p.claims.len());
    }
}

/// One step of a check of a recorded pass: the same node, the same digest, and pass and check keep
/// step.
proof fn lemma_step<
    B: Fn(NodeId, &Vec<EdgeId>, &Vec<Claim>, Digest) -> BlockReply,
    R: Fn(NodeId, &Vec<EdgeId>, &Vec<Claim>, Digest) -> BlockReply,
    V: Fn(NodeId, &Vec<Claim>, &Vec<SumcheckProof>, Digest) -> CheckReply,
    W: Fn(NodeId, &Vec<Claim>, &Vec<SumcheckProof>, Digest) -> CheckReply,
>(
    dag: Dag,
    scope: Scope,
    block: B,
    reduce: R,
    check: V,
    check_reducer: W,
    p: Pass,
    c: Check,
    b: int,
    s: Digest,
    ev: Event,
    j: Judgement,
    nps: Seq<Option<NodeProof>>,
    rps: Seq<Option<Vec<SumcheckProof>>>,
)
    requires
        dag.ordered(),
        scope.wf(&dag),
        in_step(dag, p, c, b),
        is_block(dag, block),
        event_passes(dag, check, check_reducer, p, s, ev),
        happens(dag, block, reduce, p, s, ev),
        pronounced(dag, nps, rps, check, check_reducer, c, s, j),
        followable(dag, p, ev),
        recorded(dag, p, ev, nps, rps),
    ensures
        j.node == ev.node,
        j.reply.state == ev.reply.state,
        in_step(dag, after(dag, scope, p, ev), judge(dag, scope, nps, c, j), ev.node as int),
{
    let u = ev.node;
    assert(j.node == u) by {
        if j.node < u {
            assert(!c.pending[u as int]);
        } else if u < j.node {
            assert(!p.pending[j.node as int]);
        }
    }
    let node = dag.nodes[u as int];
    let out = node.outputs[0];
    assert(node.outputs.len() > 0);
    assert(node.outputs@.contains(out));
    lemma_own_output(dag, u, out);
    assert(p.pending[u as int]);
    assert(u < b);
    assert(below(dag, out as int, b));
    assert(c.claims[out as int] == p.claims[out as int]);
    let local = p.local_claims(dag, u);
    let new = claim_list(ev.reply.claims@);
    let shown = seen(local, ev.reduction);
    let np = nps[u as int];
    assert(local_of(np) == new + shown);
    assert((new + shown).last() == shown.last());
    let mid = match ev.reduction {
        Some(r) => r.state,
        None => s,
    };
    if ev.reduction is Some {
        let r = ev.reduction->0;
        let cr = j.reduction->0;
        let rc = claim_list(r.claims@);
        assert(shown =~= rc);
        assert(answered(reduce, u, seq![node.outputs@.last()], local, s, r));
        assert(judged(check_reducer, u, local.push(rc[0]), r.proofs, s, cr));
        assert(cr.ok && cr.state == r.state);
    }
    assert(answered(block, u, edges_of(dag, u), shown, mid, ev.reply));
    assert(reply_passes(check, u, new + shown, mid, ev.reply));
    assert(judged(check, u, new + shown, ev.reply.proofs, mid, j.reply));
    lemma_local(dag, block, u, edges_of(dag, u), shown, mid, ev.reply);
    lemma_step_state(dag, scope, p, c, b, ev, j, nps);
}

/// A block answers with claims about edges of its node.
proof fn lemma_local<B: Fn(NodeId, &Vec<EdgeId>, &Vec<Claim>, Digest) -> BlockReply>(
    dag: Dag,
    block: B,
    u: NodeId,
    es: Seq<EdgeId>,
    local: Seq<Assertion>,
    s: Digest,
    r: BlockReply,
)
    requires
        is_block(dag, block),
        u < dag.nodes.len(),
        answered(block, u, es, local, s, r),
    ensures
        local_reply(dag, u, claim_list(r.claims@)),
{
    let (v, cs) = choose|v: &Vec<EdgeId>, cs: &Vec<Claim>|
        v@ == es && claim_list(cs@) == local && #[trigger] call_ensures(block, (u, v, cs, s), r);
    assert(call_ensures(block, (u, v, cs, s), r));
}

/// Scheduling changes nothing but which nodes wait.
proof fn lemma_schedule_keeps(dag: Dag, scope: Scope, p: Pass, u: NodeId, cs: Seq<Assertion>)
    ensures
        p.schedule_all(dag, scope, u, cs).node_proofs == p.node_proofs,
        p.schedule_all(dag, scope, u, cs).reducer_proofs == p.reducer_proofs,
        p.schedule_all(dag, scope, u, cs).claims == p.claims,
    decreases cs.len(),
{
    if cs.len() > 0 {
        lemma_schedule_keeps(dag, scope, p, u, cs.drop_last());
    }
}

/// An event records the proofs of its node and of no other.
pub proof fn lemma_after_proofs(dag: Dag, scope: Scope, p: Pass, ev: Event)
    requires
        dag.ordered(),
        scope.wf(&dag),
        p.wf(dag),
        ev.node < dag.nodes.len(),
        local_reply(dag, ev.node, claim_list(ev.reply.claims@)),
    ensures
        ({
            let u = ev.node as int;
            let shown = seen(p.local_claims(dag, ev.node), ev.reduction);
            let q = after(dag, scope, p, ev);
            &&& q.node_proofs == p.node_proofs.update(
                u,
                Some((ev.reply.proofs, claim_list(ev.reply.claims@) + shown)),
            )
            &&& q.reducer_proofs == match ev.reduction {
                Some(r) => if r.claims.len() > 0 {
                    p.reducer_proofs.update(u, Some(r.proofs))
                } else {
                    p.reducer_proofs
                },
                None => p.reducer_proofs,
            }
        }),
{
    let u = ev.node;
    let new = claim_list(ev.reply.claims@);
    let outs = dag.nodes[u as int].outputs@;
    lemma_local_take(dag, p, u, outs, outs.len());
    assert(outs.len() > 0);
    assert(dag.nodes[u as int].outputs[0] < dag.num_edges);
    let p1 = match ev.reduction {
        Some(r) => p.take(u).reduced(dag, u, r.proofs, claim_list(r.claims@)),
        None => p.take(u),
    };
    let shown = seen(p.local_claims(dag, u), ev.reduction);
    let p2 = Pass {
        node_proofs: p1.node_proofs.update(u as int, Some((ev.reply.proofs, new + shown))),
        ..p1
    };
    assert forall|i: int| 0 <= i < new.len() implies (#[trigger] new[i]).edge_id < p2.claims.len() by {
        assert(edges_of(dag, u).contains(new[i].edge_id));
        lemma_edge_bound(dag, u, new[i].edge_id);
    }
    lemma_claims_keep(p2, new);
    lemma_schedule_keeps(dag, scope, p2.with_claims(new), u, new);
}

/// The events up to `k` are what the blocks do.
pub open spec fn happened<
    B: Fn(NodeId, &Vec<EdgeId>, &Vec<Claim>, Digest) -> BlockReply,
    R: Fn(NodeId, &Vec<EdgeId>, &Vec<Claim>, Digest) -> BlockReply,
>(
    dag: Dag,
    scope: Scope,
    block: B,
    reduce: R,
    p: Pass,
    s: Digest,
    evs: Seq<Event>,
    k: nat,
) -> bool {
    forall|i: int|
        0 <= i < k ==> happens(
            dag,
            block,
            reduce,
            replayed(dag, scope, p, evs, i as nat),
            digest_after(s, evs, i as nat),
            #[trigger] evs[i],
        )
}

/// The pass stays in order, and after an event only nodes before that of the event wait.
pub proof fn lemma_replay<
    B: Fn(NodeId, &Vec<EdgeId>, &Vec<Claim>, Digest) -> BlockReply,
    R: Fn(NodeId, &Vec<EdgeId>, &Vec<Claim>, Digest) -> BlockReply,
>(
    dag: Dag,
    scope: Scope,
    block: B,
    reduce: R,
    p: Pass,
    s: Digest,
    evs: Seq<Event>,
    k: nat,
)
    requires
        dag.ordered(),
        scope.wf(&dag),
        p.wf(dag),
        is_block(dag, block),
        k <= evs.len(),
        happened(dag, scope, block, reduce, p, s, evs, k),
    ensures
        replayed(dag, scope, p, evs, k).wf(dag),
        k > 0 ==> local_reply(dag, evs[k - 1].node, claim_list(evs[k - 1].reply.claims@)),
        k > 0 ==> evs[k - 1].node < dag.nodes.len(),
        k > 0 ==> forall|v: int|
            evs[k - 1].node <= v < dag.nodes.len() ==> !#[trigger] replayed(
                dag,
                scope,
                p,
                evs,
                k,
            ).pending[v],
    decreases k,
{
    if k > 0 {
        let m = (k - 1) as nat;
        lemma_replay(dag, scope, block, reduce, p, s, evs, m);
        let before = replayed(dag, scope, p, evs, m);
        let ev = evs[k - 1];
        assert(happens(dag, block, reduce, before, digest_after(s, evs, m), evs[m as int]));
        let mid = match ev.reduction {
            Some(r) => r.state,
            None => digest_after(s, evs, m),
        };
        lemma_local(
            dag,
            block,
            ev.node,
            edges_of(dag, ev.node),
            seen(before.local_claims(dag, ev.node), ev.reduction),
            mid,
            ev.reply,
        );
        lemma_event_below(dag, scope, before, ev);
    }
}

/// `q` holds what event `ev` recorded in state `p`.
pub open spec fn kept(dag: Dag, p: Pass, ev: Event, q: Pass) -> bool {
    let u = ev.node as int;
    let local = p.local_claims(dag, ev.node);
    &&& q.node_proofs[u] == Some(
        (ev.reply.proofs, claim_list(ev.reply.claims@) + seen(local, ev.reduction)),
    )
    &&& ev.reduction matches Some(r) ==> r.claims.len() == 1 ==> q.reducer_proofs[u] == Some(r.proofs)
}

/// What an event records stays through an event of another node.
proof fn lemma_kept_step(dag: Dag, scope: Scope, p: Pass, ev: Event, q: Pass, last: Event)
    requires
        dag.ordered(),
        scope.wf(&dag),
        q.wf(dag),
        last.node < dag.nodes.len(),
        local_reply(dag, last.node, claim_list(last.reply.claims@)),
        kept(dag, p, ev, q),
        last.node < ev.node < dag.nodes.len(),
    ensures
        kept(dag, p, ev, after(dag, scope, q, last)),
{
    lemma_after_proofs(dag, scope, q, last);
}

/// What an event records stays.
pub proof fn lemma_record_stays<
    B: Fn(NodeId, &Vec<EdgeId>, &Vec<Claim>, Digest) -> BlockReply,
    R: Fn(NodeId, &Vec<EdgeId>, &Vec<Claim>, Digest) -> BlockReply,
>(
    dag: Dag,
    scope: Scope,
    block: B,
    reduce: R,
    p: Pass,
    s: Digest,
    evs: Seq<Event>,
    k: nat,
    n: nat,
)
    requires
        dag.ordered(),
        scope.wf(&dag),
        p.wf(dag),
        is_block(dag, block),
        k < n <= evs.len(),
        happened(dag, scope, block, reduce, p, s, evs, n),
    ensures
        kept(
            dag,
            replayed(dag, scope, p, evs, k),
            evs[k as int],
            replayed(dag, scope, p, evs, n),
        ),
        evs[n - 1].node <= evs[k as int].node,
    decreases n,
{
    let m = (n - 1) as nat;
    assert(happened(dag, scope, block, reduce, p, s, evs, m));
    lemma_replay(dag, scope, block, reduce, p, s, evs, m);
    lemma_replay(dag, scope, block, reduce, p, s, evs, n);
    let before = replayed(dag, scope, p, evs, m);
    let last = evs[m as int];
    if k < m {
        lemma_record_stays(dag, scope, block, reduce, p, s, evs, k, m);
        assert(happens(dag, block, reduce, before, digest_after(s, evs, m), evs[m as int]));
        assert(before.pending[last.node as int]);
        assert(last.node < evs[m - 1].node);
        assert(evs[k as int].node < dag.nodes.len()) by {
            assert(happened(dag, scope, block, reduce, p, s, evs, (k + 1) as nat));
            lemma_replay(dag, scope, block, reduce, p, s, evs, (k + 1) as nat);
        }
        lemma_kept_step(
            dag,
            scope,
            replayed(dag, scope, p, evs, k),
            evs[k as int],
            before,
            last,
        );
    } else {
        lemma_after_proofs(dag, scope, before, last);
    }
}

/// All events of a run can be followed.
pub open spec fn all_followable(dag: Dag, scope: Scope, p: Pass, evs: Seq<Event>) -> bool {
    forall|k: int|
        0 <= k < evs.len() ==> followable(
            dag,
            replayed(dag, scope, p, evs, k as nat),
            #[trigger] evs[k],
        )
}

/// The node before which all waiting nodes are, after `k` events.
pub open spec fn bound_after(dag: Dag, evs: Seq<Event>, k: nat) -> int {
    if k == 0 {
        dag.nodes.len() as int
    } else {
        evs[k - 1].node as int
    }
}

/// A check of a recorded run keeps step with it.
proof fn lemma_keeps_step<
    B: Fn(NodeId, &Vec<EdgeId>, &Vec<Claim>, Digest) -> BlockReply,
    R: Fn(NodeId, &Vec<EdgeId>, &Vec<Claim>, Digest) -> BlockReply,
    V: Fn(NodeId, &Vec<Claim>, &Vec<SumcheckProof>, Digest) -> CheckReply,
    W: Fn(NodeId, &Vec<Claim>, &Vec<SumcheckProof>, Digest) -> CheckReply,
>(
    dag: Dag,
    scope: Scope,
    block: B,
    reduce: R,
    check: V,
    check_reducer: W,
    p: Pass,
    c: Check,
    s: Digest,
    evs: Seq<Event>,
    q: Pass,
    t: Digest,
    js: Seq<Judgement>,
    k: nat,
    nps: Seq<Option<NodeProof>>,
    rps: Seq<Option<Vec<SumcheckProof>>>,
)
    requires
        dag.ordered(),
        scope.wf(&dag),
        in_step(dag, p, c, dag.nodes.len() as int),
        is_block(dag, block),
        all_pass(dag, scope, check, check_reducer, p, s, evs),
        runs(dag, scope, block, reduce, p, s, evs, q, t),
        all_followable(dag, scope, p, evs),
        crate::dag::backward::node_proof_views(nps) == q.node_proofs,
        rps == q.reducer_proofs,
        k <= js.len(),
        forall|i: int|
            0 <= i < k ==> pronounced(
                dag,
                nps,
                rps,
                check,
                check_reducer,
                judged_upto(dag, scope, nps, c, js, i as nat),
                judged_digest(s, js, i as nat),
                #[trigger] js[i],
            ),
    ensures
        k <= evs.len(),
        judged_digest(s, js, k) == digest_after(s, evs, k),
        in_step(
            dag,
            replayed(dag, scope, p, evs, k),
            judged_upto(dag, scope, nps, c, js, k),
            bound_after(dag, evs, k),
        ),
    decreases k,
{
    if k > 0 {
        let m = (k - 1) as nat;
        lemma_keeps_step(
            dag,
            scope,
            block,
            reduce,
            check,
            check_reducer,
            p,
            c,
            s,
            evs,
            q,
            t,
            js,
            m,
            nps,
            rps,
        );
        let (pm, cm) = (replayed(dag, scope, p, evs, m), judged_upto(dag, scope, nps, c, js, m));
        let j = js[m as int];
        let d = judged_digest(s, js, m);
        assert(pronounced(dag, nps, rps, check, check_reducer, cm, d, js[m as int]));
        assert(m < evs.len()) by {
            if m == evs.len() {
                assert(pm == q);
                assert(!q.pending[j.node as int]);
            }
        }
        let ev = evs[m as int];
        assert(happens(dag, block, reduce, pm, digest_after(s, evs, m), evs[m as int]));
        assert(followable(dag, pm, evs[m as int]));
        assert(event_passes(dag, check, check_reducer, pm, digest_after(s, evs, m), evs[m as int]));
        assert(happened(dag, scope, block, reduce, p, s, evs, evs.len()));
        lemma_record_stays(dag, scope, block, reduce, p, s, evs, m, evs.len());
        lemma_replay(dag, scope, block, reduce, p, s, evs, k);
        assert(node_proof_view(nps[ev.node as int]) == q.node_proofs[ev.node as int]) by {
            assert(q.wf(dag)) by {
                lemma_replay(dag, scope, block, reduce, p, s, evs, evs.len());
            }
            assert(crate::dag::backward::node_proof_views(nps)[ev.node as int] == node_proof_view(
                nps[ev.node as int],
            ));
        }
        assert(recorded(dag, pm, ev, nps, rps));
        lemma_step(
            dag,
            scope,
            block,
            reduce,
            check,
            check_reducer,
            pm,
            cm,
            bound_after(dag, evs, m),
            d,
            ev,
            j,
            nps,
            rps,
        );
    }
}

/// A check of a recorded run does not get stuck; when it is done it has passed, at the digest of
/// the run, and about every edge it agrees with the run on whether some claim has a point.
pub proof fn lemma_check_follows<
    B: Fn(NodeId, &Vec<EdgeId>, &Vec<Claim>, Digest) -> BlockReply,
    R: Fn(NodeId, &Vec<EdgeId>, &Vec<Claim>, Digest) -> BlockReply,
    V: Fn(NodeId, &Vec<Claim>, &Vec<SumcheckProof>, Digest) -> CheckReply,
    W: Fn(NodeId, &Vec<Claim>, &Vec<SumcheckProof>, Digest) -> CheckReply,
>(
    dag: Dag,
    scope: Scope,
    block: B,
    reduce: R,
    check: V,
    check_reducer: W,
    p: Pass,
    c: Check,
    s: Digest,
    evs: Seq<Event>,
    q: Pass,
    t: Digest,
    qc: Check,
    tc: Digest,
    nps: Seq<Option<NodeProof>>,
    rps: Seq<Option<Vec<SumcheckProof>>>,
)
    requires
        dag.ordered(),
        scope.wf(&dag),
        in_step(dag, p, c, dag.nodes.len() as int),
        is_block(dag, block),
        all_pass(dag, scope, check, check_reducer, p, s, evs),
        runs(dag, scope, block, reduce, p, s, evs, q, t),
        all_followable(dag, scope, p, evs),
        crate::dag::backward::node_proof_views(nps) == q.node_proofs,
        rps == q.reducer_proofs,
        reaches(dag, scope, nps, rps, check, check_reducer, c, s, qc, tc),
    ensures
        qc.done() ==> qc.verified && tc == t && agree_below(dag, q.claims, qc.claims, 0),
        forall|u: NodeId| #[trigger] qc.is_next(u) ==> supplied(dag, nps, rps, qc, u),
{
    let js = choose|js: Seq<Judgement>| #[trigger]
        leads(dag, scope, nps, rps, check, check_reducer, c, s, js, qc, tc);
    let k = js.len();
    lemma_keeps_step(
        dag,
        scope,
        block,
        reduce,
        check,
        check_reducer,
        p,
        c,
        s,
        evs,
        q,
        t,
        js,
        k,
        nps,
        rps,
    );
    let pk = replayed(dag, scope, p, evs, k);
    if qc.done() {
        assert(k == evs.len()) by {
            if k < evs.len() {
                assert(happens(dag, block, reduce, pk, digest_after(s, evs, k), evs[k as int]));
                assert(pk.pending[evs[k as int].node as int]);
                assert(!qc.pending[evs[k as int].node as int]);
            }
        }
        if k > 0 {
            assert(happened(dag, scope, block, reduce, p, s, evs, k));
            lemma_replay(dag, scope, block, reduce, p, s, evs, k);
        }
        lemma_agree_lower(dag, q.claims, qc.claims, bound_after(dag, evs, k), 0);
    }
    assert forall|u: NodeId| #[trigger] qc.is_next(u) implies supplied(dag, nps, rps, qc, u) by {
        assert(pk.pending[u as int]);
        assert(k < evs.len()) by {
            if k == evs.len() {
                assert(!q.pending[u as int]);
            }
        }
        let ev = evs[k as int];
        assert(happens(dag, block, reduce, pk, digest_after(s, evs, k), evs[k as int]));
        assert(followable(dag, pk, evs[k as int]));
        assert(ev.node == u) by {
            if ev.node < u {
                assert(!pk.pending[u as int]);
            } else if u < ev.node {
                assert(!qc.pending[ev.node as int]);
            }
        }
        assert(happened(dag, scope, block, reduce, p, s, evs, evs.len()));
        lemma_record_stays(dag, scope, block, reduce, p, s, evs, k, evs.len());
        lemma_replay(dag, scope, block, reduce, p, s, evs, (k + 1) as nat);
        lemma_replay(dag, scope, block, reduce, p, s, evs, evs.len());
        assert(crate::dag::backward::node_proof_views(nps)[u as int] == node_proof_view(
            nps[u as int],
        ));
        let node = dag.nodes[u as int];
        let out = node.outputs[0];
        assert(node.outputs.len() > 0);
        assert(node.outputs@.contains(out));
        lemma_own_output(dag, u, out);
        assert(below(dag, out as int, bound_after(dag, evs, k)));
        assert(qc.claims[out as int] == pk.claims[out as int]);
        let local = pk.local_claims(dag, u);
        let shown = seen(local, ev.reduction);
        let all = claim_list(ev.reply.claims@) + shown;
        assert(local_of(nps[u as int]) == all);
        assert forall|i: int| 0 <= i < all.len() implies (#[trigger] all[i]).edge_id < dag.num_edges by {
            let n = claim_list(ev.reply.claims@).len();
            if i < n {
                assert(all[i] == claim_list(ev.reply.claims@)[i]);
                assert(edges_of(dag, u).contains(all[i].edge_id));
                lemma_edge_bound(dag, u, all[i].edge_id);
            } else {
                assert(all[i] == shown[i - n]);
                lemma_own_output(dag, u, all[i].edge_id);
            }
        }
    }
}

} // verus!
