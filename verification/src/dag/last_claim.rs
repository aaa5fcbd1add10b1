//! The last claim about what a node writes.
use vstd::prelude::*;

use crate::dag::backward::{edges_of, BlockReply, Pass, Scope};
use crate::dag::complete::lemma_schedule_claims;
use crate::dag::lockstep::{
    all_followable, followable, happened, lemma_own_output, lemma_record_stays, lemma_replay,
};
use crate::dag::pass::{
    after, digest_after, happens, is_block, lemma_claims_keep, lemma_edge_bound, local_reply, replayed,
    seen, Event,
};
use crate::dag::types::{claim_list, Assertion, Claim, Dag, EdgeId, NodeId};
use crate::transcript::Digest;

verus! {

/// Claims about other edges leave those about `e` alone.
proof fn lemma_claims_elsewhere(p: Pass, new: Seq<Assertion>, e: int)
    requires
        0 <= e < p.claims.len(),
        forall|i: int|
            0 <= i < new.len() ==> (#[trigger] new[i]).edge_id < p.claims.len() && new[i].edge_id != e,
    ensures
        p.with_claims(new).claims[e] == p.claims[e],
    decreases new.len(),
{
    if new.len() > 0 {
        let head = new.drop_last();
        assert forall|i: int| 0 <= i < head.len() implies (#[trigger] head[i]).edge_id < p.claims.len()
            && head[i].edge_id != e by {
            assert(head[i] == new[i]);
        }
        lemma_claims_elsewhere(p, head, e);
        lemma_claims_keep(p, head);
        assert(new[new.len() - 1].edge_id < p.claims.len());
    }
}

/// What an event adds to the claims about an edge that its node does not read, and about which the
/// node makes no claims of its own: the combined claim, where the edge is the first output.
pub proof fn lemma_event_adds(dag: Dag, scope: Scope, p: Pass, ev: Event, e: EdgeId)
    requires
        dag.ordered(),
        scope.wf(&dag),
        p.wf(dag),
        ev.node < dag.nodes.len(),
        local_reply(dag, ev.node, claim_list(ev.reply.claims@)),
        followable(dag, p, ev),
        e < dag.num_edges,
        !dag.nodes[ev.node as int].inputs@.contains(e),
        !(dag.self_claim_edges@.contains(e) && dag.nodes[ev.node as int].outputs@.contains(e)),
    ensures
        after(dag, scope, p, ev).claims[e as int] == match ev.reduction {
            Some(r) => if e == dag.nodes[ev.node as int].outputs[0] {
                p.claims[e as int].push(claim_list(r.claims@)[0])
            } else {
                p.claims[e as int]
            },
            None => p.claims[e as int],
        },
{
    let u = ev.node;
    let new = claim_list(ev.reply.claims@);
    let q = p.take(u);
    let local = q.local_claims(dag, u);
    assert(dag.nodes[u as int].outputs.len() > 0);
    assert(dag.nodes[u as int].outputs[0] < dag.num_edges);
    let p1 = match ev.reduction {
        Some(r) => q.reduced(dag, u, r.proofs, claim_list(r.claims@)),
        None => q,
    };
    let p2 = Pass {
        node_proofs: p1.node_proofs.update(
            u as int,
            Some((ev.reply.proofs, new + seen(local, ev.reduction))),
        ),
        ..p1
    };
    assert forall|i: int| 0 <= i < new.len() implies (#[trigger] new[i]).edge_id < p2.claims.len()
        && new[i].edge_id != e by {
        assert(edges_of(dag, u).contains(new[i].edge_id));
        lemma_edge_bound(dag, u, new[i].edge_id);
    }
    lemma_claims_elsewhere(p2, new, e as int);
    lemma_schedule_claims(dag, scope, p2.with_claims(new), u, new);
}

/// After a node has been taken, nothing is added to the claims about its first output.
proof fn lemma_claims_settled<
    B: Fn(NodeId, &Vec<EdgeId>, &Vec<Claim>, Digest) -> BlockReply,
    R: Fn(NodeId, &Vec<EdgeId>, &Vec<Claim>, Digest) -> BlockReply,
>(
    dag: Dag,
    scope: Scope,
    block: B,
    reduce: R,
    p: Pass,
    s: Digest,
    evs: Seq<Event>,
    k: nat,
    n: nat,
    e: EdgeId,
)
    requires
        dag.ordered(),
        scope.wf(&dag),
        p.wf(dag),
        is_block(dag, block),
        k < n <= evs.len(),
        happened(dag, scope, block, reduce, p, s, evs, n),
        all_followable(dag, scope, p, evs),
        evs[k as int].node < dag.nodes.len(),
        e == dag.nodes[evs[k as int].node as int].outputs[0],
        !dag.self_claim_edges@.contains(e),
    ensures
        replayed(dag, scope, p, evs, n).claims[e as int] == replayed(
            dag,
            scope,
            p,
            evs,
            (k + 1) as nat,
        ).claims[e as int],
    decreases n,
{
    let m = (n - 1) as nat;
    if k < m {
        let v = evs[k as int].node;
        let node = dag.nodes[v as int];
        assert(dag.nodes[v as int].outputs.len() > 0);
        assert(node.outputs@.contains(e));
        lemma_own_output(dag, v, e);
        assert(happened(dag, scope, block, reduce, p, s, evs, m));
        lemma_claims_settled(dag, scope, block, reduce, p, s, evs, k, m, e);
        lemma_replay(dag, scope, block, reduce, p, s, evs, m);
        lemma_replay(dag, scope, block, reduce, p, s, evs, n);
        lemma_record_stays(dag, scope, block, reduce, p, s, evs, k, m);
        let before = replayed(dag, scope, p, evs, m);
        let last = evs[m as int];
        let w = last.node;
        assert(happens(dag, block, reduce, before, digest_after(s, evs, m), evs[m as int]));
        assert(before.pending[w as int]);
        assert(w < evs[m - 1].node);
        assert(followable(dag, before, evs[m as int]));
        let here = dag.nodes[w as int];
        assert(!here.inputs@.contains(e)) by {
            if here.inputs@.contains(e) {
                let r = dag.reads(w as int, e as int);
                assert(r);
            }
        }
        assert(dag.nodes[w as int].outputs.len() > 0);
        assert(here.outputs[0] != e) by {
            if here.outputs[0] == e {
                assert(here.outputs@.contains(e));
                lemma_own_output(dag, w, e);
            }
        }
        lemma_event_adds(dag, scope, before, last, e);
    }
}

/// The last claim in the record of a node that has been proved is the last claim about its first
/// output, unless nodes make claims about that output themselves.
pub proof fn lemma_last_claim<
    B: Fn(NodeId, &Vec<EdgeId>, &Vec<Claim>, Digest) -> BlockReply,
    R: Fn(NodeId, &Vec<EdgeId>, &Vec<Claim>, Digest) -> BlockReply,
>(
    dag: Dag,
    scope: Scope,
    block: B,
    reduce: R,
    p: Pass,
    s: Digest,
    evs: Seq<Event>,
    k: nat,
)
    requires
        dag.ordered(),
        scope.wf(&dag),
        p.wf(dag),
        is_block(dag, block),
        k < evs.len(),
        happened(dag, scope, block, reduce, p, s, evs, evs.len()),
        all_followable(dag, scope, p, evs),
        evs[k as int].node < dag.nodes.len(),
        !dag.self_claim_edges@.contains(dag.nodes[evs[k as int].node as int].outputs[0]),
    ensures
        ({
            let q = replayed(dag, scope, p, evs, evs.len());
            let v = evs[k as int].node as int;
            let out = dag.nodes[v].outputs[0] as int;
            &&& q.node_proofs[v] matches Some(r) && r.1.len() > 0 && r.1.last() == q.claims[out].last()
            &&& q.claims[out].len() > 0
        }),
{
    let n = evs.len();
    let ev = evs[k as int];
    let v = ev.node;
    let out = dag.nodes[v as int].outputs[0];
    assert(dag.nodes[v as int].outputs.len() > 0);
    assert(dag.nodes[v as int].outputs@.contains(out));
    lemma_own_output(dag, v, out);
    lemma_claims_settled(dag, scope, block, reduce, p, s, evs, k, n, out);
    lemma_record_stays(dag, scope, block, reduce, p, s, evs, k, n);
    assert(happened(dag, scope, block, reduce, p, s, evs, k));
    assert(happened(dag, scope, block, reduce, p, s, evs, (k + 1) as nat));
    lemma_replay(dag, scope, block, reduce, p, s, evs, k);
    lemma_replay(dag, scope, block, reduce, p, s, evs, (k + 1) as nat);
    let pk = replayed(dag, scope, p, evs, k);
    assert(followable(dag, pk, evs[k as int]));
    lemma_event_adds(dag, scope, pk, ev, out);
    let local = pk.local_claims(dag, v);
    let shown = seen(local, ev.reduction);
    let all = claim_list(ev.reply.claims@) + shown;
    assert(shown.len() > 0);
    assert(all.last() == shown.last());
}

} // verus!
