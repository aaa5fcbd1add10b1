//! What acceptance means: every check that matters was asked, about the right claims, and said yes.
use vstd::prelude::*;

use crate::commit::basefold::{BasefoldCommitmentData, BasefoldOpeningProof};
use crate::dag::backward::Scope;
use crate::dag::check_pass::{
    check_started, judge, judged_digest, judged_upto, leads, pronounced, Check, CheckReply, Judgement,
};
use crate::dag::block::{Block, Op};
use crate::dag::finish::opening_seed;
use crate::dag::openings::{edge_claims, last_pointed, witnesses_ok};
use crate::dag::range::{
    bits_verdict, check_claimed, check_sizes, group_sizes, insert_sorted, mid_matches, mid_sums, mid_there, mids_passed,
    range_expected, range_start, RangeCheck,
};
use crate::dag::reduction::{pointed, reduction_ok};
use crate::dag::lookup_model::weighted;
use crate::dag::two_pow::first_claims;
use crate::dag::types::{
    claim_list, claims_of, Assertion, Claim, Dag, EdgeId, EdgeProof, LookupProof, NodeId, NodeProof,
    ParallelProof, PartitionProof,
};
use crate::dag::prove::is_whole;
use crate::dag::verify::{arrives, head_claims, redrawn, verifies, Checks};
use crate::dag::parallel::{fork_digest, home_from, is_part};
use crate::dag::partition::PartitionDesc;
use crate::dag::verify_parallel::{
    all_anchored, all_arrive, all_verified, anchored, cut_sent, cuts_passed, joined_claims, last_proof,
    lemma_task_of, merges, parallel_start, part_arrives, sent_claims, verifies_parallel,
};
use crate::dag::witness::{Role, Witness};
use crate::field::elem::{embed, lemma_add_canon, zero, Elem};
use crate::field::sums::{lemma_sum_eq, power, sum};
use crate::field::{ext_elems, GoldilocksExt2};
use crate::poly::MLPoly;
use crate::sumcheck::fiat_shamir::{accepts, preamble, word_of, words_of};
use crate::sumcheck::verify::sumcheck_end;
use crate::sumcheck::SumcheckProof;
use crate::transcript::{digest_elem, draw, draw_many, drawn, Digest, Label};

verus! {

/// The claims of a list that are about edge `e`, in order.
pub open spec fn about(cs: Seq<Assertion>, e: EdgeId) -> Seq<Assertion>
    decreases cs.len(),
{
    if cs.len() == 0 {
        Seq::empty()
    } else if cs.last().edge_id == e {
        about(cs.drop_last(), e).push(cs.last())
    } else {
        about(cs.drop_last(), e)
    }
}

/// The first `k` starting claims that are about edge `e`.
pub open spec fn started_about(init: Seq<(EdgeId, Assertion)>, e: EdgeId, k: nat) -> Seq<Assertion>
    decreases k,
{
    if k == 0 {
        Seq::empty()
    } else {
        let rest = started_about(init, e, (k - 1) as nat);
        if init[k - 1].0 == e {
            rest.push(init[k - 1].1)
        } else {
            rest
        }
    }
}

/// The claims about edge `e` that are to be answered for: those to start from, and those that the
/// proofs of the first `k` of the listed nodes make about what they read.
pub open spec fn owed(
    dag: Dag,
    init: Seq<(EdgeId, Assertion)>,
    nps: Seq<Option<NodeProof>>,
    order: Seq<NodeId>,
    e: EdgeId,
    k: nat,
) -> Seq<Assertion>
    decreases k,
{
    if k == 0 {
        started_about(init, e, init.len())
    } else {
        let rest = owed(dag, init, nps, order, e, (k - 1) as nat);
        let u = order[k - 1] as int;
        if dag.nodes[u].inputs@.contains(e) {
            rest + about(claim_list(claims_of(nps[u])), e)
        } else {
            rest
        }
    }
}

/// The check of the block of node `u` was asked about the claims and the proof of the node, from digest
/// `s`, and said yes; `t` is the digest after it.
pub open spec fn block_confirmed<
    V: Fn(NodeId, &Vec<Claim>, &Vec<SumcheckProof>, Digest) -> CheckReply,
>(check: V, np: NodeProof, u: NodeId, s: Digest, t: Digest) -> bool {
    exists|c: &Vec<Claim>, r: CheckReply|
        claim_list(c@) == claim_list(np.1@) && #[trigger] call_ensures(check, (u, c, &np.0, s), r) && r.ok
            && r.state == t
}

/// The check of combined claims was asked about the claims `cs` and the last claim of node `u`, from
/// digest `s`, and said yes; `t` is the digest after it.
pub open spec fn reducer_confirmed<
    W: Fn(NodeId, &Vec<Claim>, &Vec<SumcheckProof>, Digest) -> CheckReply,
>(
    check: W,
    np: NodeProof,
    proofs: Vec<SumcheckProof>,
    cs: Seq<Assertion>,
    u: NodeId,
    s: Digest,
    t: Digest,
) -> bool {
    exists|c: &Vec<Claim>, r: CheckReply|
        np.1.len() > 0 && claim_list(c@) == cs.push(np.1[np.1.len() - 1]@) && #[trigger] call_ensures(
            check,
            (u, c, &proofs, s),
            r,
        ) && r.ok && r.state == t
}

/// Node `u` was confirmed, given the claims `cs` about its first output: where there are several their
/// combination, and its block.
pub open spec fn node_confirmed<
    V: Fn(NodeId, &Vec<Claim>, &Vec<SumcheckProof>, Digest) -> CheckReply,
    W: Fn(NodeId, &Vec<Claim>, &Vec<SumcheckProof>, Digest) -> CheckReply,
>(
    nps: Seq<Option<NodeProof>>,
    rps: Seq<Option<Vec<SumcheckProof>>>,
    check: V,
    check_reducer: W,
    cs: Seq<Assertion>,
    u: NodeId,
    s: Digest,
    t: Digest,
) -> bool {
    nps[u as int] matches Some(np) && if cs.len() > 1 {
        rps[u as int] matches Some(rp) && exists|m: Digest| #[trigger]
            reducer_confirmed(check_reducer, np, rp, cs, u, s, m) && block_confirmed(check, np, u, m, t)
    } else {
        block_confirmed(check, np, u, s, t)
    }
}

/// The writer of edge `e`, if it is within the nodes that count, is listed.
pub open spec fn answered_for(dag: Dag, inside: Seq<bool>, order: Seq<NodeId>, e: EdgeId) -> bool {
    dag.producers[e as int] matches Some(v) ==> inside[v as int] ==> order.contains(v)
}

/// All claims were answered for: the listed nodes are confirmed one after the other, later ones first,
/// each about all claims that there are about what it writes; and whoever writes an edge that a claim is
/// about is listed. Edges at which the check stops are left to others.
pub open spec fn pass_confirmed<
    V: Fn(NodeId, &Vec<Claim>, &Vec<SumcheckProof>, Digest) -> CheckReply,
    W: Fn(NodeId, &Vec<Claim>, &Vec<SumcheckProof>, Digest) -> CheckReply,
>(
    dag: Dag,
    inside: Seq<bool>,
    stop: Seq<bool>,
    nps: Seq<Option<NodeProof>>,
    rps: Seq<Option<Vec<SumcheckProof>>>,
    check: V,
    check_reducer: W,
    init: Seq<(EdgeId, Assertion)>,
    order: Seq<NodeId>,
    ds: Seq<Digest>,
) -> bool {
    &&& ds.len() == order.len() + 1
    &&& forall|i: int, j: int| 0 <= i < j < order.len() ==> #[trigger] order[j] < #[trigger] order[i]
    &&& forall|k: int|
        0 <= k < order.len() ==> (#[trigger] order[k]) < dag.nodes.len() && node_confirmed(
            nps,
            rps,
            check,
            check_reducer,
            owed(dag, init, nps, order, dag.nodes[order[k] as int].outputs[0], order.len()),
            order[k],
            ds[k],
            ds[k + 1],
        )
    &&& forall|i: int| 0 <= i < init.len() ==> answered_for(dag, inside, order, (#[trigger] init[i]).0)
    &&& forall|k: int, i: int|
        0 <= k < order.len() && 0 <= i < claims_of(nps[order[k] as int]).len() ==> {
            let e = (#[trigger] claims_of(nps[order[k] as int])[i]).edge_id;
            dag.nodes[order[k] as int].inputs@.contains(e) && !stop[e as int] ==> answered_for(
                dag,
                inside,
                order,
                e,
            )
        }
}

/// The nodes of judgements.
pub open spec fn taken(js: Seq<Judgement>) -> Seq<NodeId> {
    js.map_values(|j: Judgement| j.node)
}

/// The digests before, between and after judgements.
pub open spec fn digests(s: Digest, js: Seq<Judgement>) -> Seq<Digest> {
    Seq::new(js.len() + 1, |k: int| judged_digest(s, js, k as nat))
}

proof fn lemma_repeat_about(dag: Dag, c: Check, u: NodeId, cs: Seq<Assertion>, e: EdgeId)
    requires
        c.wf(dag),
        e < dag.num_edges,
        u < dag.nodes.len(),
        forall|i: int| 0 <= i < cs.len() ==> (#[trigger] cs[i]).edge_id < dag.num_edges,
        !dag.nodes[u as int].outputs@.contains(e),
    ensures
        c.repeat_all(dag, u, cs).wf(dag),
        c.repeat_all(dag, u, cs).verified == c.verified,
        c.repeat_all(dag, u, cs).pending == c.pending,
        c.repeat_all(dag, u, cs).claims[e as int] == if dag.nodes[u as int].inputs@.contains(e) {
            c.claims[e as int] + about(cs, e)
        } else {
            c.claims[e as int]
        },
    decreases cs.len(),
{
    if cs.len() > 0 {
        let head = cs.drop_last();
        assert forall|i: int| 0 <= i < head.len() implies (#[trigger] head[i]).edge_id < dag.num_edges by {
            assert(head[i] == cs[i]);
        }
        lemma_repeat_about(dag, c, u, head, e);
        assert(cs[cs.len() - 1].edge_id < dag.num_edges);
        let before = c.repeat_all(dag, u, head).claims[e as int];
        let now = c.repeat_all(dag, u, cs).claims[e as int];
        if dag.nodes[u as int].inputs@.contains(e) {
            if cs.last().edge_id == e {
                assert(now =~= c.claims[e as int] + about(cs, e));
            }
        }
    } else {
        assert(about(cs, e) =~= Seq::empty());
        assert(c.claims[e as int] + about(cs, e) =~= c.claims[e as int]);
    }
}

proof fn lemma_follow_keeps(dag: Dag, scope: Scope, c: Check, u: NodeId, cs: Seq<Assertion>)
    requires
        dag.ordered(),
        c.wf(dag),
        u < dag.nodes.len(),
        forall|i: int| 0 <= i < cs.len() ==> (#[trigger] cs[i]).edge_id < dag.num_edges,
    ensures
        c.follow_all(dag, scope, u, cs).wf(dag),
        c.follow_all(dag, scope, u, cs).claims == c.claims,
        c.follow_all(dag, scope, u, cs).verified == c.verified,
        forall|v: int|
            0 <= v < dag.nodes.len() && #[trigger] c.pending[v] ==> c.follow_all(dag, scope, u, cs).pending[v],
        forall|i: int|
            0 <= i < cs.len() && dag.nodes[u as int].inputs@.contains((#[trigger] cs[i]).edge_id)
                && !scope.stop[cs[i].edge_id as int] ==> (dag.producers[cs[i].edge_id as int] matches Some(v)
                ==> scope.inside[v as int] ==> c.follow_all(dag, scope, u, cs).pending[v as int]),
        forall|v: int|
            u <= v < dag.nodes.len() ==> #[trigger] c.follow_all(dag, scope, u, cs).pending[v]
                == c.pending[v],
    decreases cs.len(),
{
    if cs.len() > 0 {
        let head = cs.drop_last();
        assert forall|i: int| 0 <= i < head.len() implies (#[trigger] head[i]).edge_id < dag.num_edges by {
            assert(head[i] == cs[i]);
        }
        lemma_follow_keeps(dag, scope, c, u, head);
        assert(cs[cs.len() - 1].edge_id < dag.num_edges);
        let e = cs.last().edge_id as int;
        assert(dag.producers[e] matches Some(v) ==> v < dag.nodes.len());
        let mid = c.follow_all(dag, scope, u, head);
        let now = c.follow_all(dag, scope, u, cs);
        if dag.nodes[u as int].inputs@.contains(cs.last().edge_id) {
            let reads = dag.reads(u as int, e);
            assert(reads);
        }
        assert forall|i: int|
            0 <= i < cs.len() && dag.nodes[u as int].inputs@.contains((#[trigger] cs[i]).edge_id)
                && !scope.stop[cs[i].edge_id as int] implies (dag.producers[cs[i].edge_id as int] matches Some(v)
                ==> scope.inside[v as int] ==> now.pending[v as int]) by {
            assert(cs[i].edge_id < dag.num_edges);
            if i < head.len() {
                assert(head[i] == cs[i]);
                let f = cs[i].edge_id as int;
                assert(dag.producers[f] matches Some(v) ==> v < dag.nodes.len());
            } else {
                assert(cs[i] == cs.last());
            }
        }
    }
}

/// What one judgement does to the state: nothing is forgotten, and every answer counts.
proof fn lemma_judge_effect<
    V: Fn(NodeId, &Vec<Claim>, &Vec<SumcheckProof>, Digest) -> CheckReply,
    W: Fn(NodeId, &Vec<Claim>, &Vec<SumcheckProof>, Digest) -> CheckReply,
>(
    dag: Dag,
    scope: Scope,
    nps: Seq<Option<NodeProof>>,
    rps: Seq<Option<Vec<SumcheckProof>>>,
    check: V,
    check_reducer: W,
    c: Check,
    s: Digest,
    j: Judgement,
)
    requires
        dag.ordered(),
        c.wf(dag),
        pronounced(dag, nps, rps, check, check_reducer, c, s, j),
    ensures
        j.node < dag.nodes.len(),
        judge(dag, scope, nps, c, j).wf(dag),
        judge(dag, scope, nps, c, j).verified ==> c.verified && j.reply.ok && (j.reduction matches Some(r)
            ==> r.ok),
        forall|e: EdgeId|
            e < dag.num_edges && !dag.nodes[j.node as int].outputs@.contains(e) ==> #[trigger] judge(
                dag,
                scope,
                nps,
                c,
                j,
            ).claims[e as int] == if dag.nodes[j.node as int].inputs@.contains(e) {
                c.claims[e as int] + about(claim_list(claims_of(nps[j.node as int])), e)
            } else {
                c.claims[e as int]
            },
        forall|v: int|
            0 <= v < dag.nodes.len() && v != j.node && #[trigger] c.pending[v] ==> judge(
                dag,
                scope,
                nps,
                c,
                j,
            ).pending[v],
        forall|v: int|
            j.node <= v < dag.nodes.len() ==> !#[trigger] judge(dag, scope, nps, c, j).pending[v],
        forall|i: int|
            0 <= i < claims_of(nps[j.node as int]).len() ==> {
                let e = (#[trigger] claims_of(nps[j.node as int])[i]).edge_id;
                dag.nodes[j.node as int].inputs@.contains(e) && !scope.stop[e as int] ==> (
                dag.producers[e as int] matches Some(v) ==> scope.inside[v as int] ==> judge(
                    dag,
                    scope,
                    nps,
                    c,
                    j,
                ).pending[v as int])
            },
{
    let u = j.node;
    let local = claim_list(claims_of(nps[u as int]));
    assert(dag.nodes[u as int].outputs.len() > 0);
    assert(dag.nodes[u as int].outputs[0] < dag.num_edges);
    let out = dag.nodes[u as int].outputs[0];
    assert(dag.nodes[u as int].outputs@.contains(out));
    let c1 = c.take(u);
    let c2 = match j.reduction {
        Some(r) => c1.with_claim(out, local.last()).and(r.ok),
        None => c1,
    };
    let c3 = c2.and(j.reply.ok);
    let c4 = c3.repeat_all(dag, u, local);
    assert(c3.wf(dag));
    lemma_repeat_wf(dag, c3, u, local);
    lemma_follow_keeps(dag, scope, c4, u, local);
    let q = judge(dag, scope, nps, c, j);
    assert(q == c4.follow_all(dag, scope, u, local));
    assert forall|v: int| 0 <= v < dag.nodes.len() && v != u && #[trigger] c.pending[v] implies q.pending[v] by {
        assert(c4.pending[v]);
    }
    assert forall|v: int| u <= v < dag.nodes.len() implies !#[trigger] q.pending[v] by {
        assert(q.pending[v] == c4.pending[v]);
        if v > u {
            assert(!c.pending[v]);
        }
    }
    assert forall|e: EdgeId| e < dag.num_edges && !dag.nodes[u as int].outputs@.contains(e) implies
        #[trigger] q.claims[e as int] == if dag.nodes[u as int].inputs@.contains(e) {
        c.claims[e as int] + about(local, e)
    } else {
        c.claims[e as int]
    } by {
        lemma_repeat_about(dag, c3, u, local, e);
        assert(e != out);
    }
    assert forall|i: int| 0 <= i < claims_of(nps[u as int]).len() implies {
        let e = (#[trigger] claims_of(nps[u as int])[i]).edge_id;
        dag.nodes[u as int].inputs@.contains(e) && !scope.stop[e as int] ==> (
        dag.producers[e as int] matches Some(v) ==> scope.inside[v as int] ==> q.pending[v as int])
    } by {
        assert(local[i] == claims_of(nps[u as int])[i]@);
    }
}

proof fn lemma_repeat_wf(dag: Dag, c: Check, u: NodeId, cs: Seq<Assertion>)
    requires
        c.wf(dag),
        forall|i: int| 0 <= i < cs.len() ==> (#[trigger] cs[i]).edge_id < dag.num_edges,
    ensures
        c.repeat_all(dag, u, cs).wf(dag),
        c.repeat_all(dag, u, cs).verified == c.verified,
        c.repeat_all(dag, u, cs).pending == c.pending,
    decreases cs.len(),
{
    if cs.len() > 0 {
        let head = cs.drop_last();
        assert forall|i: int| 0 <= i < head.len() implies (#[trigger] head[i]).edge_id < dag.num_edges by {
            assert(head[i] == cs[i]);
        }
        lemma_repeat_wf(dag, c, u, head);
        assert(cs[cs.len() - 1].edge_id < dag.num_edges);
    }
}

/// The starting claims about an edge, and who waits at the start.
proof fn lemma_started(dag: Dag, scope: Scope, init: Seq<(EdgeId, Assertion)>, k: nat)
    requires
        dag.ordered(),
        k <= init.len(),
        forall|i: int| 0 <= i < init.len() ==> (#[trigger] init[i]).0 < dag.num_edges,
    ensures
        check_started(dag, scope, init, k).wf(dag),
        check_started(dag, scope, init, k).verified,
        forall|e: EdgeId|
            e < dag.num_edges ==> #[trigger] check_started(dag, scope, init, k).claims[e as int]
                == started_about(init, e, k),
        forall|i: int|
            0 <= i < k ==> (dag.producers[(#[trigger] init[i]).0 as int] matches Some(v)
                ==> scope.inside[v as int] ==> check_started(dag, scope, init, k).pending[v as int]),
    decreases k,
{
    if k > 0 {
        lemma_started(dag, scope, init, (k - 1) as nat);
        assert(init[k - 1].0 < dag.num_edges);
        let before = check_started(dag, scope, init, (k - 1) as nat);
        let now = check_started(dag, scope, init, k);
        let e = init[k - 1].0 as int;
        assert(dag.producers[e] matches Some(v) ==> v < dag.nodes.len());
        assert forall|f: EdgeId| f < dag.num_edges implies #[trigger] now.claims[f as int] == started_about(
            init,
            f,
            k,
        ) by {
            assert(before.claims[f as int] == started_about(init, f, (k - 1) as nat));
        }
        assert forall|i: int| 0 <= i < k implies (dag.producers[(#[trigger] init[i]).0 as int] matches Some(v)
            ==> scope.inside[v as int] ==> now.pending[v as int]) by {
            assert(init[i].0 < dag.num_edges);
            let g = init[i].0 as int;
            assert(dag.producers[g] matches Some(v) ==> v < dag.nodes.len());
        }
    } else {
        let c = check_started(dag, scope, init, 0);
        assert forall|e: EdgeId| e < dag.num_edges implies #[trigger] c.claims[e as int] == started_about(
            init,
            e,
            0,
        ) by {
            assert(c.claims[e as int] =~= Seq::<Assertion>::empty());
        }
    }
}

/// A node that was to be taken after `k` judgements has been taken, or waits.
pub open spec fn in_hand(
    dag: Dag,
    inside: Seq<bool>,
    js: Seq<Judgement>,
    k: nat,
    c: Check,
    e: EdgeId,
) -> bool {
    dag.producers[e as int] matches Some(v) ==> inside[v as int] ==> c.pending[v as int] || exists|i: int|
        0 <= i < k && (#[trigger] js[i]).node == v
}

/// The state after `k` judgements.
#[verifier::rlimit(60)]
proof fn lemma_trace<
    V: Fn(NodeId, &Vec<Claim>, &Vec<SumcheckProof>, Digest) -> CheckReply,
    W: Fn(NodeId, &Vec<Claim>, &Vec<SumcheckProof>, Digest) -> CheckReply,
>(
    dag: Dag,
    scope: Scope,
    nps: Seq<Option<NodeProof>>,
    rps: Seq<Option<Vec<SumcheckProof>>>,
    check: V,
    check_reducer: W,
    init: Seq<(EdgeId, Assertion)>,
    s: Digest,
    js: Seq<Judgement>,
    k: nat,
)
    requires
        dag.ordered(),
        scope.wf(&dag),
        k <= js.len(),
        forall|i: int| 0 <= i < init.len() ==> (#[trigger] init[i]).0 < dag.num_edges,
        forall|i: int|
            0 <= i < js.len() ==> pronounced(
                dag,
                nps,
                rps,
                check,
                check_reducer,
                judged_upto(
                    dag,
                    scope,
                    nps,
                    check_started(dag, scope, init, init.len()),
                    js,
                    i as nat,
                ),
                judged_digest(s, js, i as nat),
                #[trigger] js[i],
            ),
    ensures
        ({
            let q = judged_upto(dag, scope, nps, check_started(dag, scope, init, init.len()), js, k);
            &&& q.wf(dag)
            &&& q.verified ==> forall|i: int|
                0 <= i < k ==> (#[trigger] js[i]).reply.ok && (js[i].reduction matches Some(r) ==> r.ok)
            &&& k > 0 ==> forall|v: int| js[k - 1].node <= v < dag.nodes.len() ==> !#[trigger] q.pending[v]
            &&& forall|i: int| 0 <= i < k ==> (#[trigger] js[i]).node < dag.nodes.len()
            &&& forall|i: int, j: int| 0 <= i < j < k ==> (#[trigger] js[j]).node < (#[trigger] js[i]).node
            &&& forall|e: EdgeId|
                e < dag.num_edges && (forall|i: int|
                    0 <= i < k ==> dag.producers[e as int] != Some((#[trigger] js[i]).node))
                    ==> #[trigger] q.claims[e as int] == owed(dag, init, nps, taken(js), e, k)
            &&& forall|i: int|
                0 <= i < init.len() ==> in_hand(dag, scope.inside@, js, k, q, (#[trigger] init[i]).0)
            &&& forall|l: int, i: int|
                0 <= l < k && 0 <= i < claims_of(nps[js[l].node as int]).len() ==> {
                    let e = (#[trigger] claims_of(nps[js[l].node as int])[i]).edge_id;
                    dag.nodes[js[l].node as int].inputs@.contains(e) && !scope.stop[e as int] ==> in_hand(
                        dag,
                        scope.inside@,
                        js,
                        k,
                        q,
                        e,
                    )
                }
        }),
    decreases k,
{
    let c0 = check_started(dag, scope, init, init.len());
    lemma_started(dag, scope, init, init.len());
    if k > 0 {
        let m = (k - 1) as nat;
        lemma_trace(dag, scope, nps, rps, check, check_reducer, init, s, js, m);
        let p = judged_upto(dag, scope, nps, c0, js, m);
        let q = judged_upto(dag, scope, nps, c0, js, k);
        let j = js[m as int];
        let u = j.node;
        assert(pronounced(
            dag,
            nps,
            rps,
            check,
            check_reducer,
            p,
            judged_digest(s, js, m),
            js[m as int],
        ));
        lemma_judge_effect(dag, scope, nps, rps, check, check_reducer, p, judged_digest(s, js, m), j);
        assert(q == judge(dag, scope, nps, p, j));
        assert(p.pending[u as int]);
        if m > 0 {
            assert(u < js[m - 1].node);
        }
        assert forall|a: int, b: int| 0 <= a < b < k implies (#[trigger] js[b]).node < (#[trigger] js[a]).node by {
            if b == m && a < m - 1 {
                assert(js[m - 1].node < js[a].node);
            }
        }
        assert forall|e: EdgeId|
            e < dag.num_edges && (forall|i: int|
                0 <= i < k ==> dag.producers[e as int] != Some((#[trigger] js[i]).node)) implies
            #[trigger] q.claims[e as int] == owed(dag, init, nps, taken(js), e, k) by {
            assert(dag.producers[e as int] != Some(js[m as int].node));
            assert(!dag.nodes[u as int].outputs@.contains(e)) by {
                if dag.nodes[u as int].outputs@.contains(e) {
                    let w = dag.writes(u as int, e as int);
                    assert(w);
                }
            }
            assert(p.claims[e as int] == owed(dag, init, nps, taken(js), e, m));
            assert(taken(js)[m as int] == u);
        }
        assert forall|e: EdgeId| in_hand(
            dag,
            scope.inside@,
            js,
            m,
            p,
            e,
        ) && e < dag.num_edges implies #[trigger] in_hand(
            dag,
            scope.inside@,
            js,
            k,
            q,
            e,
        ) by {
            if dag.producers[e as int] is Some {
                let v = dag.producers[e as int]->0;
                assert(v < dag.nodes.len());
                if scope.inside[v as int] {
                    if p.pending[v as int] {
                        if v == u {
                            assert(js[m as int].node == v);
                        }
                    } else {
                        let i = choose|i: int| 0 <= i < m && (#[trigger] js[i]).node == v;
                        assert(js[i].node == v);
                    }
                }
            }
        }
        assert forall|i: int| 0 <= i < init.len() implies in_hand(
            dag,
            scope.inside@,
            js,
            k,
            q,
            (#[trigger] init[i]).0,
        ) by {
            assert(init[i].0 < dag.num_edges);
            assert(in_hand(dag, scope.inside@, js, m, p, init[i].0));
        }
        assert forall|l: int, i: int| 0 <= l < k && 0 <= i < claims_of(nps[js[l].node as int]).len() implies {
            let e = (#[trigger] claims_of(nps[js[l].node as int])[i]).edge_id;
            dag.nodes[js[l].node as int].inputs@.contains(e) && !scope.stop[e as int] ==> in_hand(
                dag,
                scope.inside@,
                js,
                k,
                q,
                e,
            )
        } by {
            let e = claims_of(nps[js[l].node as int])[i].edge_id;
            if dag.nodes[js[l].node as int].inputs@.contains(e) && !scope.stop[e as int] {
                let node = dag.nodes[js[l].node as int];
                let x = choose|x: int| 0 <= x < node.inputs.len() && node.inputs@[x] == e;
                assert(js[l].node < dag.nodes.len());
                assert(dag.nodes[js[l].node as int].inputs[x] < dag.num_edges);
                if l < m {
                    assert(in_hand(dag, scope.inside@, js, m, p, e));
                }
            }
        }
    }
}

/// Nodes that come after the writer of an edge do not read it.
proof fn lemma_owed_settled(
    dag: Dag,
    init: Seq<(EdgeId, Assertion)>,
    nps: Seq<Option<NodeProof>>,
    order: Seq<NodeId>,
    e: EdgeId,
    k: nat,
    n: nat,
)
    requires
        dag.ordered(),
        k < order.len(),
        k <= n <= order.len(),
        e < dag.num_edges,
        dag.producers[e as int] == Some(order[k as int]),
        forall|i: int| 0 <= i < order.len() ==> (#[trigger] order[i]) < dag.nodes.len(),
        forall|i: int, j: int| 0 <= i < j < order.len() ==> #[trigger] order[j] < #[trigger] order[i],
    ensures
        owed(dag, init, nps, order, e, n) == owed(dag, init, nps, order, e, k),
    decreases n,
{
    if k < n {
        lemma_owed_settled(dag, init, nps, order, e, k, (n - 1) as nat);
        let u = order[n - 1];
        if k < n - 1 {
            assert(order[n - 1] < order[k as int]);
        }
        if dag.nodes[u as int].inputs@.contains(e) {
            let r = dag.reads(u as int, e as int);
            assert(r);
        }
    }
}

/// A check that ends well has had all claims answered for.
pub proof fn lemma_pass_confirmed<
    V: Fn(NodeId, &Vec<Claim>, &Vec<SumcheckProof>, Digest) -> CheckReply,
    W: Fn(NodeId, &Vec<Claim>, &Vec<SumcheckProof>, Digest) -> CheckReply,
    P: Fn(usize, &BasefoldCommitmentData, &Claim, &BasefoldOpeningProof, GoldilocksExt2) -> bool,
>(
    dag: Dag,
    scope: Scope,
    nps: Seq<Option<NodeProof>>,
    rps: Seq<Option<Vec<SumcheckProof>>>,
    checks: Checks<V, W, P>,
    init: Seq<(EdgeId, Assertion)>,
    s: Digest,
    q: Check,
    t: Digest,
) -> (r: (Seq<NodeId>, Seq<Digest>))
    requires
        dag.ordered(),
        scope.wf(&dag),
        forall|i: int| 0 <= i < init.len() ==> (#[trigger] init[i]).0 < dag.num_edges,
        arrives(dag, nps, rps, checks, scope, init, s, q, t),
        q.verified,
    ensures
        pass_confirmed(
            dag,
            scope.inside@,
            scope.stop@,
            nps,
            rps,
            checks.block,
            checks.reducer,
            init,
            r.0,
            r.1,
        ),
        r.1[0] == s,
        r.1.last() == t,
{
    let c0 = check_started(dag, scope, init, init.len());
    let js = choose|js: Seq<Judgement>| #[trigger]
        leads(dag, scope, nps, rps, checks.block, checks.reducer, c0, s, js, q, t);
    let n = js.len();
    let order = taken(js);
    let ds = digests(s, js);
    lemma_trace(dag, scope, nps, rps, checks.block, checks.reducer, init, s, js, n);
    assert forall|k: int| 0 <= k < order.len() implies (#[trigger] order[k]) < dag.nodes.len() by {
        assert(js[k].node < dag.nodes.len());
    }
    assert forall|i: int, j: int| 0 <= i < j < order.len() implies #[trigger] order[j]
        < #[trigger] order[i] by {
        assert(js[j].node < js[i].node);
    }
    assert forall|k: int| 0 <= k < order.len() implies node_confirmed(
        nps,
        rps,
        checks.block,
        checks.reducer,
        owed(dag, init, nps, order, dag.nodes[order[k] as int].outputs[0], order.len()),
        #[trigger] order[k],
        ds[k],
        ds[k + 1],
    ) by {
        let j = js[k];
        let u = order[k];
        lemma_trace(dag, scope, nps, rps, checks.block, checks.reducer, init, s, js, k as nat);
        let p = judged_upto(dag, scope, nps, c0, js, k as nat);
        let d = judged_digest(s, js, k as nat);
        assert(pronounced(dag, nps, rps, checks.block, checks.reducer, p, d, js[k]));
        assert(u < dag.nodes.len());
        assert(dag.nodes[u as int].outputs.len() > 0);
        assert(dag.nodes[u as int].outputs[0] < dag.num_edges);
        let out = dag.nodes[u as int].outputs[0];
        assert(dag.nodes[u as int].outputs@.contains(out));
        let w = dag.writes(u as int, out as int);
        assert(w);
        assert(dag.producers[out as int] == Some(u));
        assert forall|i: int| 0 <= i < k implies dag.producers[out as int] != Some((#[trigger] js[i]).node) by {
            assert(js[k].node < js[i].node);
        }
        lemma_owed_settled(dag, init, nps, order, out, k as nat, order.len());
        let cs = p.claims[out as int];
        assert(cs == owed(dag, init, nps, order, out, order.len()));
        let np = nps[u as int]->0;
        let local = claim_list(np.1@);
        assert(js[k].reply.ok);
        let mid = match j.reduction {
            Some(r) => r.state,
            None => d,
        };
        assert(block_confirmed(checks.block, np, u, mid, ds[k + 1])) by {
            let c = choose|c: &Vec<Claim>|
                claim_list(c@) == local && #[trigger] call_ensures(
                    checks.block,
                    (u, c, &np.0, mid),
                    j.reply,
                );
            assert(call_ensures(checks.block, (u, c, &np.0, mid), j.reply));
        }
        if cs.len() > 1 {
            let r = j.reduction->0;
            let rp = rps[u as int]->0;
            assert(r.ok);
            assert(local.last() == np.1[np.1.len() - 1]@);
            assert(reducer_confirmed(checks.reducer, np, rp, cs, u, d, mid)) by {
                let c = choose|c: &Vec<Claim>|
                    claim_list(c@) == cs.push(local.last()) && #[trigger] call_ensures(
                        checks.reducer,
                        (u, c, &rp, d),
                        r,
                    );
                assert(call_ensures(checks.reducer, (u, c, &rp, d), r));
            }
        }
    }
    assert forall|e: EdgeId| in_hand(dag, scope.inside@, js, n, q, e) && e < dag.num_edges implies
        #[trigger] answered_for(dag, scope.inside@, order, e) by {
        if dag.producers[e as int] is Some {
            let v = dag.producers[e as int]->0;
            assert(v < dag.nodes.len());
            if scope.inside[v as int] {
                assert(!q.pending[v as int]);
                let i = choose|i: int| 0 <= i < n && (#[trigger] js[i]).node == v;
                assert(order[i] == v);
            }
        }
    }
    assert forall|i: int| 0 <= i < init.len() implies answered_for(
        dag,
        scope.inside@,
        order,
        (#[trigger] init[i]).0,
    ) by {
        assert(in_hand(dag, scope.inside@, js, n, q, init[i].0));
        assert(init[i].0 < dag.num_edges);
    }
    assert forall|k: int, i: int| 0 <= k < order.len() && 0 <= i < claims_of(nps[order[k] as int]).len() implies {
        let e = (#[trigger] claims_of(nps[order[k] as int])[i]).edge_id;
        dag.nodes[order[k] as int].inputs@.contains(e) && !scope.stop[e as int] ==> answered_for(
            dag,
            scope.inside@,
            order,
            e,
        )
    } by {
        let e = claims_of(nps[js[k].node as int])[i].edge_id;
        if dag.nodes[js[k].node as int].inputs@.contains(e) && !scope.stop[e as int] {
            let node = dag.nodes[js[k].node as int];
            let x = choose|x: int| 0 <= x < node.inputs.len() && node.inputs@[x] == e;
            assert(js[k].node < dag.nodes.len());
            assert(dag.nodes[js[k].node as int].inputs[x] < dag.num_edges);
            assert(in_hand(dag, scope.inside@, js, n, q, e));
        }
    }
    (order, ds)
}

/// Every lookup of a power of two was confirmed: what it came to is what the last claim of its node says
/// of the output, and the combined sum of all of them was proved from digest `s`.
pub open spec fn powers_confirmed(
    dag: Dag,
    h: spec_fn(Digest, Digest) -> Digest,
    s: Digest,
    nps: Seq<Option<NodeProof>>,
    proof: LookupProof,
) -> bool {
    let n = dag.two_pow.len() as nat;
    let d = draw(h, s, Label::TwoPowBeta);
    let beta = digest_elem(d);
    &&& forall|i: int|
        0 <= i < n ==> {
            let cs = claims_of(nps[(#[trigger] dag.two_pow[i]) as int]);
            nps[dag.two_pow[i] as int] is Some && cs.len() > 0 && i < proof.middle_claims.len()
                && proof.middle_claims[i].len() > 0 && cs[cs.len() - 1].eval == proof.middle_claims[i][0]
        }
    &&& n > 0 ==> proof.table_proofs.len() > 0 && accepts(
        h,
        preamble(h, d, Label::NumVar, 4, Label::NumPoly, 2),
        proof.table_proofs[0],
        word_of(sum(n, |i: int| power(beta, i as nat) * proof.middle_claims[i][0]@)),
        4,
        2,
    )
}

/// What range check `i` came to is what the claims of its node say: the remainder of a division by `sf`,
/// zero, or the checked numbers.
pub open spec fn range_value_confirmed(
    dag: Dag,
    nps: Seq<Option<NodeProof>>,
    proof: LookupProof,
    sf: u64,
    i: int,
) -> bool {
    let node = dag.nodes[dag.range[i] as int];
    let cs = claims_of(nps[dag.range[i] as int]);
    let proved = nps[dag.range[i] as int] is Some;
    let m = proof.middle_claims[i];
    &&& i < proof.middle_claims.len()
    &&& m.len() >= 2
    &&& match node.kind@ {
        Block::Op(Op::ScaleDown { .. }) => proved ==> cs.len() >= 2 && m[0]@ == cs[0].eval@ - cs[1].eval@
            * embed(sf as int),
        Block::Op(Op::ScaleUp { .. }) => m[0]@ == zero(),
        Block::Op(Op::NonNegative) => proved ==> cs.len() >= 1 && m[0] == cs[0].eval,
        _ => true,
    }
}

/// The bits of range check `i` were proved to be bits.
pub open spec fn bits_confirmed(
    dag: Dag,
    h: spec_fn(Digest, Digest) -> Digest,
    ws: Seq<Vec<Witness>>,
    proof: LookupProof,
    i: int,
) -> bool {
    let m = ws[dag.range_aux(i) as int][0].data->0.vars();
    exists|k: int, start: Digest|
        0 <= k < proof.bool_proofs.len() && #[trigger] accepts(
            h,
            start,
            proof.bool_proofs[k],
            word_of(zero()),
            m,
            2,
        )
}

/// The sum that all range checks come to, weighted by powers of `beta`: of each what it came to, and
/// `alpha` times the mass of its bits.
pub open spec fn ranges_total(proof: LookupProof, alpha: Elem, beta: Elem, n: nat) -> GoldilocksExt2 {
    word_of(
        sum(
            n,
            |i: int|
                power(beta, i as nat) * (proof.middle_claims[i][0]@ + alpha * proof.middle_claims[i][1]@),
        ),
    )
}

/// Every range check was confirmed: what it came to, the combined sum of all of them from digest `s`, and
/// that the bits are bits.
pub open spec fn ranges_confirmed(
    dag: Dag,
    h: spec_fn(Digest, Digest) -> Digest,
    s: Digest,
    ws: Seq<Vec<Witness>>,
    nps: Seq<Option<NodeProof>>,
    proof: LookupProof,
    sf: u64,
) -> bool {
    let n = dag.range.len() as nat;
    let d = draw(h, s, Label::RangeAlpha);
    let alpha = digest_elem(d);
    let beta = digest_elem(draw(h, d, Label::RangeBeta));
    &&& forall|i: int| 0 <= i < n ==> #[trigger] range_value_confirmed(dag, nps, proof, sf, i)
    &&& forall|i: int| 0 <= i < n ==> #[trigger] bits_confirmed(dag, h, ws, proof, i)
    &&& n > 0 ==> proof.table_proofs.len() > 0 && exists|start: Digest| #[trigger]
        accepts(
            h,
            start,
            proof.table_proofs[0],
            ranges_total(proof, alpha, beta, n),
            5,
            2,
        )
}

/// The commitment to edge `e` binds its claims: there is one, and the edge is no mere output.
pub open spec fn bound(
    dag: Dag,
    ws: Seq<Vec<Witness>>,
    com: Seq<Option<BasefoldCommitmentData>>,
    cuts: Seq<EdgeId>,
    e: int,
) -> bool {
    com[e] is Some && (ws[e][0].role != Role::Output || dag.self_claim_edges@.contains(e as usize)
        || cuts.contains(e as usize))
}

/// Where the claims about edge `e` were combined, the combined claim follows from them.
pub open spec fn combination_confirmed(h: spec_fn(Digest, Digest) -> Digest, p: EdgeProof) -> bool {
    let cs = claim_list(p.claims@);
    p.opening_reducer matches Some(v) ==> v.len() > 0 && cs.len() > 0 && exists|d: Digest| #[trigger]
        reduction_ok(h, d, pointed(cs.drop_last()), cs.last(), v[0])
}

/// The last claim with a point was opened against the commitment: the given check passed the opening, and
/// the opening has the claimed value.
pub open spec fn opening_confirmed<
    P: Fn(usize, &BasefoldCommitmentData, &Claim, &BasefoldOpeningProof, GoldilocksExt2) -> bool,
>(check: P, c: BasefoldCommitmentData, p: EdgeProof) -> bool {
    forall|i: int|
        0 <= i < p.claims.len() && (#[trigger] p.claims[i]).point.len() > 0 && (forall|j: int|
            i < j < p.claims.len() ==> (#[trigger] p.claims[j]).point.len() == 0) ==> {
            &&& p.dense_opening_proof.len() > 0
            &&& p.dense_opening_proof[0].gpu_proof.eval@ == p.claims[i].eval@
            &&& exists|t: usize, seed: GoldilocksExt2| #[trigger]
                call_ensures(check, (t, &c, &p.claims[i], &p.dense_opening_proof[0], seed), true)
        }
}

/// What follows the pass was confirmed from digest `t`: the lookups, and every claim about an edge with a
/// binding commitment.
pub open spec fn rest_confirmed<
    P: Fn(usize, &BasefoldCommitmentData, &Claim, &BasefoldOpeningProof, GoldilocksExt2) -> bool,
>(
    dag: Dag,
    h: spec_fn(Digest, Digest) -> Digest,
    t: Digest,
    ws: Seq<Vec<Witness>>,
    com: Seq<Option<BasefoldCommitmentData>>,
    cuts: Seq<EdgeId>,
    nps: Seq<Option<NodeProof>>,
    eps: Seq<EdgeProof>,
    range_proof: LookupProof,
    two_pow_proof: LookupProof,
    sf: u64,
    check: P,
) -> bool {
    &&& powers_confirmed(dag, h, t, nps, two_pow_proof)
    &&& exists|d: Digest| #[trigger] ranges_confirmed(dag, h, d, ws, nps, range_proof, sf)
    &&& forall|e: int|
        0 <= e < dag.num_edges && #[trigger] bound(dag, ws, com, cuts, e) ==> combination_confirmed(h, eps[e])
            && opening_confirmed(check, com[e]->0, eps[e])
}

proof fn lemma_group_has(ns: Seq<nat>, i: int)
    requires
        0 <= i < ns.len(),
    ensures
        group_sizes(ns).contains((ns[i] + 5) as usize),
    decreases ns.len(),
{
    let m = ns.drop_last();
    let y = (ns.last() + 5) as usize;
    let x = (ns[i] + 5) as usize;
    if i < m.len() {
        lemma_group_has(m, i);
        assert(m[i] == ns[i]);
    }
    lemma_insert_has(group_sizes(m), y, x);
}

proof fn lemma_insert_has(s: Seq<usize>, y: usize, x: usize)
    requires
        s.contains(x) || x == y,
    ensures
        insert_sorted(s, y).contains(x),
    decreases s.len(),
{
    let r = insert_sorted(s, y);
    if s.len() == 0 {
        assert(r[0] == y);
    } else if s.last() < y {
        if x == y {
            assert(r[r.len() - 1] == y);
        } else {
            let k = choose|k: int| 0 <= k < s.len() && s[k] == x;
            assert(r[k] == x);
        }
    } else if s.last() == y {
        if x == y {
            assert(s[s.len() - 1] == x);
        }
    } else {
        let t = s.drop_last();
        if x == s.last() {
            assert(r[r.len() - 1] == x);
        } else {
            if x != y {
                let k = choose|k: int| 0 <= k < s.len() && s[k] == x;
                assert(t[k] == x);
            }
            lemma_insert_has(t, y, x);
            let k = choose|k: int| 0 <= k < insert_sorted(t, y).len() && insert_sorted(t, y)[k] == x;
            assert(r[k] == x);
        }
    }
}

/// Groups of bits that pass were proved one by one.
proof fn lemma_bits_proved(
    h: spec_fn(Digest, Digest) -> Digest,
    s: Digest,
    groups: Seq<usize>,
    proofs: Seq<SumcheckProof>,
    k: nat,
    i: int,
)
    requires
        k <= groups.len(),
        0 <= i < k,
        bits_verdict(h, s, groups, proofs, k).0,
    ensures
        i < proofs.len(),
        exists|start: Digest| #[trigger]
            accepts(h, start, proofs[i], word_of(zero()), groups[i] as nat, 2),
    decreases k,
{
    let d = bits_verdict(h, s, groups, proofs, (k - 1) as nat).1;
    if i < k - 1 {
        lemma_bits_proved(h, s, groups, proofs, (k - 1) as nat, i);
    } else {
        assert(accepts(
            h,
            crate::dag::range::bool_start(h, d, groups[i]),
            proofs[i],
            word_of(zero()),
            groups[i] as nat,
            2,
        ));
    }
}

proof fn lemma_powers_passed(dag: Dag, nps: Seq<Option<NodeProof>>, proof: LookupProof, k: nat, i: int)
    requires
        0 <= i < k,
        dag.two_pow_passed(nps, proof, k) == k,
    ensures
        dag.two_pow_there(nps, proof, i),
        dag.two_pow_eval(nps, i) == proof.middle_claims[i][0],
    decreases k,
{
    lemma_powers_bound(dag, nps, proof, (k - 1) as nat);
    if i < k - 1 {
        lemma_powers_passed(dag, nps, proof, (k - 1) as nat, i);
    }
}

proof fn lemma_powers_bound(dag: Dag, nps: Seq<Option<NodeProof>>, proof: LookupProof, k: nat)
    ensures
        dag.two_pow_passed(nps, proof, k) <= k,
    decreases k,
{
    if k > 0 {
        lemma_powers_bound(dag, nps, proof, (k - 1) as nat);
    }
}

proof fn lemma_mids_passed(checks: Seq<RangeCheck>, middle: Seq<Vec<GoldilocksExt2>>, k: nat, i: int)
    requires
        0 <= i < k,
        mids_passed(checks, middle, k) == k,
    ensures
        mid_there(checks, middle, i),
        mid_matches(checks, middle, i),
    decreases k,
{
    lemma_mids_bound(checks, middle, (k - 1) as nat);
    if i < k - 1 {
        lemma_mids_passed(checks, middle, (k - 1) as nat, i);
    }
}

proof fn lemma_mids_bound(checks: Seq<RangeCheck>, middle: Seq<Vec<GoldilocksExt2>>, k: nat)
    ensures
        mids_passed(checks, middle, k) <= k,
    decreases k,
{
    if k > 0 {
        lemma_mids_bound(checks, middle, (k - 1) as nat);
    }
}

/// Combined claims that pass follow one by one.
proof fn lemma_combinations(
    dag: Dag,
    h: spec_fn(Digest, Digest) -> Digest,
    s: Digest,
    ws: Seq<Vec<Witness>>,
    oc: Seq<Option<BasefoldCommitmentData>>,
    eps: Seq<EdgeProof>,
    k: nat,
    e: int,
)
    requires
        0 <= e < k <= eps.len(),
        dag.reducers_present(ws, oc, eps),
        dag.reducers_checked(h, s, ws, oc, eps, k).0,
        oc[e] is Some,
    ensures
        combination_confirmed(h, eps[e]),
    decreases k,
{
    let d = dag.reducers_checked(h, s, ws, oc, eps, (k - 1) as nat).1;
    if e < k - 1 {
        lemma_combinations(dag, h, s, ws, oc, eps, (k - 1) as nat, e);
    } else {
        assert(dag.opened(oc, e));
        let p = eps[e];
        let cs = claim_list(p.claims@);
        if p.opening_reducer is Some {
            assert(reduction_ok(h, d, pointed(cs.drop_last()), cs.last(), (p.opening_reducer->0)[0]));
        }
    }
}

/// The last claim with a point is where it is said to be.
proof fn lemma_last_pointed_at(cs: Seq<Assertion>, i: int)
    requires
        cs.len() <= usize::MAX,
        0 <= i < cs.len(),
        cs[i].point.len() > 0,
        forall|j: int| i < j < cs.len() ==> (#[trigger] cs[j]).point.len() == 0,
    ensures
        last_pointed(cs) == Some(i as usize),
    decreases cs.len(),
{
    if i < cs.len() - 1 {
        let t = cs.drop_last();
        assert(cs[cs.len() - 1].point.len() == 0);
        assert forall|j: int| i < j < t.len() implies (#[trigger] t[j]).point.len() == 0 by {
            assert(t[j] == cs[j]);
        }
        lemma_last_pointed_at(t, i);
    }
}

/// Where the range checks accept, they were confirmed.
#[verifier::rlimit(60)]
proof fn lemma_ranges_confirmed(
    dag: Dag,
    h: spec_fn(Digest, Digest) -> Digest,
    d1: Digest,
    ws: Seq<Vec<Witness>>,
    nps: Seq<Option<NodeProof>>,
    claims: Seq<Seq<Assertion>>,
    range_proof: LookupProof,
    sf: u64,
)
    requires
        witnesses_ok(ws, dag.num_edges as nat),
        dag.lookups_ok(),
        dag.all_ranges_verdict(h, d1, nps, ws, claims, sf, range_proof).0 == Some(true),
    ensures
        ranges_confirmed(dag, h, d1, ws, nps, range_proof, sf),
{
    let n = dag.range.len() as nat;
    if n > 0 {
        let checks = dag.range_checks(nps, ws, claims, sf);
        let middle = range_proof.middle_claims@;
        let ns = check_sizes(checks);
        let groups = group_sizes(ns);
        lemma_mids_bound(checks, middle, n);
        let d = draw(h, d1, Label::RangeAlpha);
        let alpha = digest_elem(d);
        let beta = digest_elem(draw(h, d, Label::RangeBeta));
        let start = range_start(h, d1, ns, check_claimed(checks));
        let claimed = range_expected(h, d1, middle, n);
        let mend = sumcheck_end(h, start, range_proof.table_proofs[0], claimed, 5, 2);
        assert forall|i: int| 0 <= i < n implies #[trigger] range_value_confirmed(
            dag,
            nps,
            range_proof,
            sf,
            i,
        ) && bits_confirmed(dag, h, ws, range_proof, i) by {
            lemma_mids_passed(checks, middle, n, i);
            assert(dag.range[i] < dag.nodes.len());
            let e = checks[i].expected;
            lemma_add_canon(claims_of(nps[dag.range[i] as int])[0].eval@, claims_of(nps[dag.range[i] as int])[1].eval@
                * embed(sf as int));
            lemma_group_has(ns, i);
            let m = ws[dag.range_aux(i) as int][0].data->0.vars();
            assert(checks[i].ready);
            assert(ns[i] + 5 == m);
            let node = dag.nodes[dag.range[i] as int];
            assert(node.outputs[node@.aux_slot()] < dag.num_edges);
            assert(ws[dag.range_aux(i) as int].len() > 0);
            let k = choose|k: int| 0 <= k < groups.len() && groups[k] == m as usize;
            lemma_bits_proved(h, mend, groups, range_proof.bool_proofs@, groups.len(), k);
            let st = choose|st: Digest| #[trigger]
                accepts(
                    h,
                    st,
                    range_proof.bool_proofs@[k],
                    word_of(zero()),
                    groups[k] as nat,
                    2,
                );
            assert(accepts(h, st, range_proof.bool_proofs[k], word_of(zero()), m, 2));
        }
        assert forall|i: int| 0 <= i < n implies #[trigger] bits_confirmed(dag, h, ws, range_proof, i) by {
            assert(range_value_confirmed(dag, nps, range_proof, sf, i));
        }
        let f = |i: int|
            power(beta, i as nat) * (range_proof.middle_claims[i][0]@ + alpha
                * range_proof.middle_claims[i][1]@);
        let vals = mid_sums(middle, alpha, n);
        lemma_sum_eq(n, |i: int| power(beta, i as nat) * vals[i], f);
        assert(claimed == word_of(sum(n, f)));
        assert(accepts(
            h,
            start,
            range_proof.table_proofs[0],
            ranges_total(range_proof, alpha, beta, n),
            5,
            2,
        ));
    }
}

/// Where the last checks accept, the lookups and the openings were confirmed.
#[verifier::rlimit(60)]
pub proof fn lemma_rest_confirmed<
    P: Fn(usize, &BasefoldCommitmentData, &Claim, &BasefoldOpeningProof, GoldilocksExt2) -> bool,
>(
    dag: Dag,
    h: spec_fn(Digest, Digest) -> Digest,
    t: Digest,
    ws: Seq<Vec<Witness>>,
    com: Seq<Option<BasefoldCommitmentData>>,
    cuts: Seq<EdgeId>,
    nps: Seq<Option<NodeProof>>,
    claims: Seq<Seq<Assertion>>,
    eps: Seq<EdgeProof>,
    range_proof: LookupProof,
    two_pow_proof: LookupProof,
    sf: u64,
    check: P,
    verified: bool,
    end: Digest,
)
    requires
        com.len() == dag.num_edges,
        eps.len() == dag.num_edges,
        witnesses_ok(ws, dag.num_edges as nat),
        dag.lookups_ok(),
        dag.end_verdict(
            h,
            t,
            ws,
            dag.openable(ws, com, cuts),
            nps,
            claims,
            eps,
            range_proof,
            two_pow_proof,
            sf,
            check,
            verified,
            Some(true),
            end,
        ),
    ensures
        verified,
        rest_confirmed(dag, h, t, ws, com, cuts, nps, eps, range_proof, two_pow_proof, sf, check),
{
    let oc = dag.openable(ws, com, cuts);
    let (v1, d1) = dag.two_pow_verdict(h, t, nps, two_pow_proof);
    let (v2, d2) = dag.all_ranges_verdict(h, d1, nps, ws, claims, sf, range_proof);
    let (ok3, d3) = dag.reducers_checked(h, d2, ws, oc, eps, dag.num_edges as nat);
    let cl = edge_claims(eps);
    let tasks = dag.tasks_upto(ws, oc, cl, dag.num_edges as nat);
    let seed = opening_seed(h, d3);
    let n1 = dag.two_pow.len() as nat;
    assert(powers_confirmed(dag, h, t, nps, two_pow_proof)) by {
        if n1 > 0 {
            assert forall|i: int| 0 <= i < n1 implies {
                let cs = claims_of(nps[(#[trigger] dag.two_pow[i]) as int]);
                nps[dag.two_pow[i] as int] is Some && cs.len() > 0 && i < two_pow_proof.middle_claims.len()
                    && two_pow_proof.middle_claims[i].len() > 0 && cs[cs.len() - 1].eval
                    == two_pow_proof.middle_claims[i][0]
            } by {
                lemma_powers_bound(dag, nps, two_pow_proof, n1);
                lemma_powers_passed(dag, nps, two_pow_proof, n1, i);
            }
            lemma_powers_bound(dag, nps, two_pow_proof, n1);
            let beta = digest_elem(draw(h, t, Label::TwoPowBeta));
            let vals = ext_elems(first_claims(two_pow_proof.middle_claims@));
            assert(weighted(vals, beta) == sum(
                n1,
                |i: int| power(beta, i as nat) * two_pow_proof.middle_claims[i][0]@,
            )) by {
                lemma_sum_eq(
                    n1,
                    |i: int| power(beta, i as nat) * vals[i],
                    |i: int| power(beta, i as nat) * two_pow_proof.middle_claims[i][0]@,
                );
            }
        }
    }
    lemma_ranges_confirmed(dag, h, d1, ws, nps, claims, range_proof, sf);
    assert(dag.last_word(check, oc, eps, tasks, seed, verified && ok3, Some(true)));
    let ok = choose|ok: bool| #[trigger]
        dag.openings_judged(check, oc, eps, tasks, seed, ok) && Some(true) == Some(ok && (verified && ok3));
    let oks = choose|oks: Seq<(bool, bool)>| #[trigger]
        dag.openings_verdict(check, oc, eps, tasks, seed, oks, ok);
    assert forall|e: int| 0 <= e < dag.num_edges && #[trigger] bound(dag, ws, com, cuts, e) implies
        combination_confirmed(h, eps[e]) && opening_confirmed(check, com[e]->0, eps[e]) by {
        assert(dag.may_open(ws, cuts, e));
        assert(oc[e] == com[e]);
        lemma_combinations(dag, h, d2, ws, oc, eps, dag.num_edges as nat, e);
        let p = eps[e];
        assert(cl[e] == claim_list(p.claims@));
        assert forall|i: int|
            0 <= i < p.claims.len() && (#[trigger] p.claims[i]).point.len() > 0 && (forall|j: int|
                i < j < p.claims.len() ==> (#[trigger] p.claims[j]).point.len() == 0) implies {
            &&& p.dense_opening_proof.len() > 0
            &&& p.dense_opening_proof[0].gpu_proof.eval@ == p.claims[i].eval@
            &&& exists|t: usize, seed: GoldilocksExt2| #[trigger]
                call_ensures(
                    check,
                    (t, &com[e]->0, &p.claims[i], &p.dense_opening_proof[0], seed),
                    true,
                )
        } by {
            assert forall|j: int| i < j < cl[e].len() implies (#[trigger] cl[e][j]).point.len() == 0 by {
                assert(p.claims[j].point.len() == 0);
            }
            assert(cl[e].len() == p.claims.len());
            lemma_last_pointed_at(cl[e], i);
            let k = lemma_task_of(dag, ws, oc, cl, dag.num_edges as nat, e as usize);
            assert(oks[k].1);
            assert(dag.opening_verdict(check, oc, eps, tasks, seed, k, oks[k].0, oks[k].1));
            assert(eps[tasks[k].0 as int].dense_opening_proof.len() > 0);
        }
    }
}

/// The points of the claims are drawn one after the other: `ds[i]` is the digest before the point of claim
/// `i`.
pub open spec fn points_drawn(
    h: spec_fn(Digest, Digest) -> Digest,
    cs: Seq<(EdgeId, Assertion)>,
    ds: Seq<Digest>,
) -> bool {
    &&& ds.len() == cs.len() + 1
    &&& forall|i: int|
        0 <= i < cs.len() ==> {
            let point = (#[trigger] cs[i]).1.point;
            point == words_of(drawn(h, ds[i], Label::Challenge, point.len())) && ds[i + 1] == draw_many(
                h,
                ds[i],
                Label::Challenge,
                point.len(),
            )
        }
}

/// Points that are found when they are drawn again.
proof fn lemma_points_drawn(
    h: spec_fn(Digest, Digest) -> Digest,
    s: Digest,
    cs: Seq<(EdgeId, Assertion)>,
    k: nat,
) -> (ds: Seq<Digest>)
    requires
        k <= cs.len(),
        redrawn(h, s, cs, k).0,
    ensures
        points_drawn(h, cs.take(k as int), ds),
        ds[0] == s,
        ds.last() == redrawn(h, s, cs, k).1,
    decreases k,
{
    if k == 0 {
        seq![s]
    } else {
        let before = lemma_points_drawn(h, s, cs, (k - 1) as nat);
        let ds = before.push(redrawn(h, s, cs, k).1);
        let now = cs.take(k as int);
        assert forall|i: int| 0 <= i < now.len() implies {
            let point = (#[trigger] now[i]).1.point;
            point == words_of(drawn(h, ds[i], Label::Challenge, point.len())) && ds[i + 1] == draw_many(
                h,
                ds[i],
                Label::Challenge,
                point.len(),
            )
        } by {
            if i < k - 1 {
                assert(cs.take(k - 1)[i] == now[i]);
            }
        }
        ds
    }
}

/// The first claims in the proofs of the listed edges, with the edges.
pub open spec fn first_claims_of(eps: Seq<EdgeProof>, edges: Seq<EdgeId>) -> Seq<(EdgeId, Assertion)> {
    Seq::new(edges.len(), |i: int| (edges[i], eps[edges[i] as int].claims[0]@))
}

/// What it means that the proof of a graph is accepted: the outputs are claimed at points that are drawn,
/// one after the other from digest `s`; all claims were answered for; and what follows was confirmed.
pub open spec fn graph_confirmed<
    V: Fn(NodeId, &Vec<Claim>, &Vec<SumcheckProof>, Digest) -> CheckReply,
    W: Fn(NodeId, &Vec<Claim>, &Vec<SumcheckProof>, Digest) -> CheckReply,
    P: Fn(usize, &BasefoldCommitmentData, &Claim, &BasefoldOpeningProof, GoldilocksExt2) -> bool,
>(
    dag: Dag,
    h: spec_fn(Digest, Digest) -> Digest,
    s: Digest,
    ws: Seq<Vec<Witness>>,
    com: Seq<Option<BasefoldCommitmentData>>,
    nps: Seq<Option<NodeProof>>,
    eps: Seq<EdgeProof>,
    range_proof: LookupProof,
    two_pow_proof: LookupProof,
    rps: Seq<Option<Vec<SumcheckProof>>>,
    checks: Checks<V, W, P>,
    outs: Seq<EdgeId>,
    points: Seq<Digest>,
    order: Seq<NodeId>,
    ds: Seq<Digest>,
) -> bool {
    let init = first_claims_of(eps, outs);
    &&& forall|i: int| 0 <= i < outs.len() ==> eps[(#[trigger] outs[i]) as int].claims.len() > 0
    &&& forall|i: int|
        0 <= i < dag.output_ports.len() && ws[(#[trigger] dag.output_ports[i]) as int][0].role == Role::Output
            ==> outs.contains(dag.output_ports[i])
    &&& points_drawn(h, init, points)
    &&& points[0] == s
    &&& pass_confirmed(
        dag,
        Seq::new(dag.nodes.len() as nat, |n: int| true),
        Seq::new(dag.num_edges as nat, |e: int| false),
        nps,
        rps,
        checks.block,
        checks.reducer,
        init,
        order,
        ds,
    )
    &&& ds[0] == points.last()
    &&& rest_confirmed(
        dag,
        h,
        ds.last(),
        ws,
        com,
        Seq::empty(),
        nps,
        eps,
        range_proof,
        two_pow_proof,
        checks.sf,
        checks.opening,
    )
}

/// Every output port whose tensor is an output is claimed.
proof fn lemma_outputs_claimed(dag: Dag, ws: Seq<Vec<Witness>>, k: nat, i: int)
    requires
        0 <= i < k <= dag.output_ports.len(),
        ws[dag.output_ports[i] as int][0].role == Role::Output,
    ensures
        dag.outputs_upto(ws, k).contains(dag.output_ports[i]),
    decreases k,
{
    let rest = dag.outputs_upto(ws, (k - 1) as nat);
    let all = dag.outputs_upto(ws, k);
    if i < k - 1 {
        lemma_outputs_claimed(dag, ws, (k - 1) as nat, i);
        let j = choose|j: int| 0 <= j < rest.len() && rest[j] == dag.output_ports[i];
        assert(all[j] == dag.output_ports[i]);
    } else {
        assert(all[all.len() - 1] == dag.output_ports[i]);
    }
}

proof fn lemma_outputs_bound(dag: Dag, ws: Seq<Vec<Witness>>, k: nat)
    requires
        k <= dag.output_ports.len(),
        dag.ports_ok(),
    ensures
        forall|i: int|
            0 <= i < dag.outputs_upto(ws, k).len() ==> (#[trigger] dag.outputs_upto(ws, k)[i]) < dag.num_edges,
    decreases k,
{
    if k > 0 {
        lemma_outputs_bound(dag, ws, (k - 1) as nat);
        let rest = dag.outputs_upto(ws, (k - 1) as nat);
        let all = dag.outputs_upto(ws, k);
        assert(dag.output_ports[k - 1] < dag.num_edges);
        assert forall|i: int| 0 <= i < all.len() implies (#[trigger] all[i]) < dag.num_edges by {
            if i < rest.len() {
                assert(all[i] == rest[i]);
            }
        }
    }
}

/// A proof that is accepted has been confirmed in all its parts: the verdict that a proof is right means
/// that every block check, every check of combined claims, every lookup and every opening was asked about
/// the right claims and said yes, and that no claim was left out.
pub proof fn lemma_accepted_confirmed<
    V: Fn(NodeId, &Vec<Claim>, &Vec<SumcheckProof>, Digest) -> CheckReply,
    W: Fn(NodeId, &Vec<Claim>, &Vec<SumcheckProof>, Digest) -> CheckReply,
    P: Fn(usize, &BasefoldCommitmentData, &Claim, &BasefoldOpeningProof, GoldilocksExt2) -> bool,
>(
    dag: Dag,
    h: spec_fn(Digest, Digest) -> Digest,
    s: Digest,
    ws: Seq<Vec<Witness>>,
    com: Seq<Option<BasefoldCommitmentData>>,
    nps: Seq<Option<NodeProof>>,
    eps: Seq<EdgeProof>,
    range_proof: LookupProof,
    two_pow_proof: LookupProof,
    rps: Seq<Option<Vec<SumcheckProof>>>,
    checks: Checks<V, W, P>,
    end: Digest,
)
    requires
        dag.ordered(),
        dag.lookups_ok(),
        dag.ports_ok(),
        witnesses_ok(ws, dag.num_edges as nat),
        com.len() == dag.num_edges,
        eps.len() == dag.num_edges,
        verifies(
            dag,
            h,
            s,
            ws,
            com,
            nps,
            eps,
            range_proof,
            two_pow_proof,
            rps,
            checks,
            Some(true),
            end,
        ),
    ensures
        exists|outs: Seq<EdgeId>, points: Seq<Digest>, order: Seq<NodeId>, ds: Seq<Digest>| #[trigger]
            graph_confirmed(
                dag,
                h,
                s,
                ws,
                com,
                nps,
                eps,
                range_proof,
                two_pow_proof,
                rps,
                checks,
                outs,
                points,
                order,
                ds,
            ),
{
    let outs = dag.claimed_outputs(ws);
    let init = head_claims(eps, outs);
    let (ok, s1) = redrawn(h, s, init, outs.len());
    let (scope, q, t) = choose|scope: Scope, q: Check, t: Digest|
        is_whole(dag, scope) && #[trigger] arrives(dag, nps, rps, checks, scope, init, s1, q, t)
            && dag.end_verdict(
            h,
            t,
            ws,
            dag.openable(ws, com, Seq::empty()),
            nps,
            q.claims,
            eps,
            range_proof,
            two_pow_proof,
            checks.sf,
            checks.opening,
            ok && q.verified,
            Some(true),
            end,
        );
    lemma_outputs_bound(dag, ws, dag.output_ports.len() as nat);
    assert forall|i: int| 0 <= i < init.len() implies (#[trigger] init[i]).0 < dag.num_edges by {
        assert(outs[i] < dag.num_edges);
    }
    lemma_rest_confirmed(
        dag,
        h,
        t,
        ws,
        com,
        Seq::empty(),
        nps,
        q.claims,
        eps,
        range_proof,
        two_pow_proof,
        checks.sf,
        checks.opening,
        ok && q.verified,
        end,
    );
    let (order, ds) = lemma_pass_confirmed(dag, scope, nps, rps, checks, init, s1, q, t);
    let points = lemma_points_drawn(h, s, init, outs.len());
    assert(init.take(outs.len() as int) =~= init);
    assert(first_claims_of(eps, outs) =~= init);
    assert(scope.inside@ =~= Seq::new(dag.nodes.len() as nat, |n: int| true)) by {
        assert forall|n: int| 0 <= n < scope.inside.len() implies scope.inside@[n] by {
            assert(scope.inside[n]);
        }
    }
    assert(scope.stop@ =~= Seq::new(dag.num_edges as nat, |e: int| false)) by {
        assert forall|e: int| 0 <= e < scope.stop.len() implies !scope.stop@[e] by {
            assert(!scope.stop[e]);
        }
    }
    assert forall|i: int|
        0 <= i < dag.output_ports.len() && ws[(#[trigger] dag.output_ports[i]) as int][0].role == Role::Output
        implies outs.contains(dag.output_ports[i]) by {
        lemma_outputs_claimed(dag, ws, dag.output_ports.len() as nat, i);
    }
    assert forall|i: int| 0 <= i < outs.len() implies eps[(#[trigger] outs[i]) as int].claims.len() > 0 by {}
    assert(graph_confirmed(
        dag,
        h,
        s,
        ws,
        com,
        nps,
        eps,
        range_proof,
        two_pow_proof,
        rps,
        checks,
        outs,
        points,
        order,
        ds,
    ));
}

/// The claim that was sent about boundary `i`.
pub open spec fn boundary_claim(dag: Dag, proof: ParallelProof, i: int) -> Assertion {
    let (e, point, eval) = proof.boundary_evals[i];
    Assertion { edge_id: dag.boundary_edges[i], sparse_id: 0, point: point@, eval }
}

/// The claims that the partitions start from: the first ones about the outputs, then those that were sent
/// about the boundaries.
pub open spec fn sent_out(dag: Dag, proof: ParallelProof, outs: Seq<EdgeId>) -> Seq<(EdgeId, Assertion)> {
    first_claims_of(proof.edge_proofs@, outs) + Seq::new(
        dag.boundary_edges.len() as nat,
        |i: int| (dag.boundary_edges[i], boundary_claim(dag, proof, i)),
    )
}

/// Partition `k` was confirmed from the claims `starts`: these are among those that were sent out, and
/// have every one whose edge is written in this partition and in none before it.
pub open spec fn part_confirmed<
    V: Fn(NodeId, &Vec<Claim>, &Vec<SumcheckProof>, Digest) -> CheckReply,
    W: Fn(NodeId, &Vec<Claim>, &Vec<SumcheckProof>, Digest) -> CheckReply,
>(
    dag: Dag,
    parts: Seq<PartitionDesc>,
    check: V,
    check_reducer: W,
    proof: PartitionProof,
    init: Seq<(EdgeId, Assertion)>,
    k: int,
    s: Digest,
    starts: Seq<(EdgeId, Assertion)>,
    order: Seq<NodeId>,
    ds: Seq<Digest>,
) -> bool {
    &&& forall|i: int| 0 <= i < starts.len() ==> init.contains(#[trigger] starts[i])
    &&& forall|i: int|
        0 <= i < init.len() ==> (dag.producers[(#[trigger] init[i]).0 as int] matches Some(v)
            ==> parts[k].node_ids@.contains(v) && (forall|j: int|
            0 <= j < k ==> !(#[trigger] parts[j]).node_ids@.contains(v)) ==> starts.contains(init[i]))
    &&& ds[0] == s
    &&& pass_confirmed(
        dag,
        Seq::new(dag.nodes.len() as nat, |n: int| parts[k].node_ids@.contains(n as usize)),
        Seq::new(dag.num_edges as nat, |e: int| parts[k].boundary_input_edges@.contains(e as usize)),
        proof.node_proofs@,
        proof.reducer_proofs@,
        check,
        check_reducer,
        starts,
        order,
        ds,
    )
}

/// Partition `k` was confirmed.
pub open spec fn some_confirmation<
    V: Fn(NodeId, &Vec<Claim>, &Vec<SumcheckProof>, Digest) -> CheckReply,
    W: Fn(NodeId, &Vec<Claim>, &Vec<SumcheckProof>, Digest) -> CheckReply,
>(
    dag: Dag,
    parts: Seq<PartitionDesc>,
    check: V,
    check_reducer: W,
    pps: Seq<PartitionProof>,
    init: Seq<(EdgeId, Assertion)>,
    k: int,
    s: Digest,
) -> bool {
    exists|starts: Seq<(EdgeId, Assertion)>, order: Seq<NodeId>, ds: Seq<Digest>| #[trigger]
        part_confirmed(dag, parts, check, check_reducer, pps[k], init, k, s, starts, order, ds)
}

/// The claims of node `n` are those of the proof of some partition.
pub open spec fn from_some_part(pps: Seq<PartitionProof>, np: Option<NodeProof>, n: int) -> bool {
    np is Some ==> exists|k: int|
        0 <= k < pps.len() && (#[trigger] pps[k]).node_proofs[n] is Some && claim_list(claims_of(np))
            == claim_list(claims_of(pps[k].node_proofs[n]))
}

/// What it means that a proof in partitions is accepted: outputs and boundaries are claimed at points that
/// are drawn; every partition was confirmed; what was sent about a boundary with a commitment is among the
/// claims about its edge; and what follows was confirmed, the boundaries being opened too.
pub open spec fn parts_confirmed<
    V: Fn(NodeId, &Vec<Claim>, &Vec<SumcheckProof>, Digest) -> CheckReply,
    W: Fn(NodeId, &Vec<Claim>, &Vec<SumcheckProof>, Digest) -> CheckReply,
    P: Fn(usize, &BasefoldCommitmentData, &Claim, &BasefoldOpeningProof, GoldilocksExt2) -> bool,
>(
    dag: Dag,
    parts: Seq<PartitionDesc>,
    h: spec_fn(Digest, Digest) -> Digest,
    s: Digest,
    ws: Seq<Vec<Witness>>,
    com: Seq<Option<BasefoldCommitmentData>>,
    proof: ParallelProof,
    checks: Checks<V, W, P>,
    outs: Seq<EdgeId>,
    points: Seq<Digest>,
    m: Seq<Option<NodeProof>>,
) -> bool {
    let eps = proof.edge_proofs@;
    let init = sent_out(dag, proof, outs);
    &&& forall|i: int| 0 <= i < outs.len() ==> eps[(#[trigger] outs[i]) as int].claims.len() > 0
    &&& forall|i: int|
        0 <= i < dag.output_ports.len() && ws[(#[trigger] dag.output_ports[i]) as int][0].role == Role::Output
            ==> outs.contains(dag.output_ports[i])
    &&& forall|i: int|
        0 <= i < dag.boundary_edges.len() ==> i < proof.boundary_evals.len() && (
        #[trigger] proof.boundary_evals[i]).0 == dag.boundary_edges[i]
    &&& points_drawn(h, init, points)
    &&& points[0] == s
    &&& forall|k: int|
        0 <= k < parts.len() ==> #[trigger] some_confirmation(
            dag,
            parts,
            checks.block,
            checks.reducer,
            proof.partition_proofs@,
            init,
            k,
            fork_digest(h, points.last(), k),
        )
    &&& forall|i: int|
        0 <= i < dag.boundary_edges.len() && com[(#[trigger] dag.boundary_edges[i]) as int] is Some
            ==> claim_list(eps[dag.boundary_edges[i] as int].claims@).contains(boundary_claim(dag, proof, i))
    &&& forall|n: int| 0 <= n < m.len() ==> from_some_part(proof.partition_proofs@, #[trigger] m[n], n)
    &&& m.len() == dag.nodes.len()
    &&& rest_confirmed(
        dag,
        h,
        points.last(),
        ws,
        com,
        dag.boundary_edges@,
        m,
        eps,
        proof.range_proof,
        proof.two_pow_proof,
        checks.sf,
        checks.opening,
    )
}

proof fn lemma_routed_within(
    dag: Dag,
    parts: Seq<PartitionDesc>,
    init: Seq<(EdgeId, Assertion)>,
    p: int,
    k: nat,
)
    requires
        k <= init.len(),
    ensures
        forall|i: int|
            0 <= i < dag.routed_upto(parts, init, p, k).len() ==> init.contains(
                #[trigger] dag.routed_upto(parts, init, p, k)[i],
            ),
        forall|i: int|
            0 <= i < k && dag.home(parts, (#[trigger] init[i]).0) == Some(p) ==> dag.routed_upto(
                parts,
                init,
                p,
                k,
            ).contains(init[i]),
    decreases k,
{
    if k > 0 {
        lemma_routed_within(dag, parts, init, p, (k - 1) as nat);
        let rest = dag.routed_upto(parts, init, p, (k - 1) as nat);
        let all = dag.routed_upto(parts, init, p, k);
        assert forall|i: int| 0 <= i < all.len() implies init.contains(#[trigger] all[i]) by {
            if i < rest.len() {
                assert(all[i] == rest[i]);
            } else {
                assert(init[k - 1] == all[i]);
            }
        }
        assert forall|i: int| 0 <= i < k && dag.home(parts, (#[trigger] init[i]).0) == Some(p) implies all.contains(
            init[i],
        ) by {
            if i < k - 1 {
                let j = choose|j: int| 0 <= j < rest.len() && rest[j] == init[i];
                assert(all[j] == init[i]);
            } else {
                assert(all[all.len() - 1] == init[i]);
            }
        }
    }
}

/// A node is at home in the first partition that has it.
proof fn lemma_home_first(parts: Seq<PartitionDesc>, n: NodeId, i: int, k: int)
    requires
        0 <= i <= k < parts.len(),
        parts[k].node_ids@.contains(n),
        forall|j: int| 0 <= j < k ==> !(#[trigger] parts[j]).node_ids@.contains(n),
    ensures
        home_from(parts, n, i) == Some(k),
    decreases k - i,
{
    if i < k {
        assert(!parts[i].node_ids@.contains(n));
        lemma_home_first(parts, n, i + 1, k);
    }
}

proof fn lemma_last_from_part(pps: Seq<PartitionProof>, n: int, k: nat) -> (j: int)
    requires
        k <= pps.len(),
        last_proof(pps, n, k) is Some,
    ensures
        0 <= j < k,
        pps[j].node_proofs[n] == last_proof(pps, n, k),
    decreases k,
{
    if pps[k - 1].node_proofs[n] is Some {
        k - 1
    } else {
        lemma_last_from_part(pps, n, (k - 1) as nat)
    }
}

/// A proof in partitions that is accepted has been confirmed in all its parts.
pub proof fn lemma_parallel_confirmed<
    V: Fn(NodeId, &Vec<Claim>, &Vec<SumcheckProof>, Digest) -> CheckReply,
    W: Fn(NodeId, &Vec<Claim>, &Vec<SumcheckProof>, Digest) -> CheckReply,
    P: Fn(usize, &BasefoldCommitmentData, &Claim, &BasefoldOpeningProof, GoldilocksExt2) -> bool,
>(
    dag: Dag,
    parts: Seq<PartitionDesc>,
    h: spec_fn(Digest, Digest) -> Digest,
    s: Digest,
    ws: Seq<Vec<Witness>>,
    com: Seq<Option<BasefoldCommitmentData>>,
    proof: ParallelProof,
    checks: Checks<V, W, P>,
    end: Digest,
)
    requires
        dag.ordered(),
        dag.lookups_ok(),
        dag.ports_ok(),
        dag.cuts_ok(),
        dag.proof_sized(parts, proof),
        witnesses_ok(ws, dag.num_edges as nat),
        com.len() == dag.num_edges,
        verifies_parallel(dag, parts, h, s, ws, com, proof, checks, Some(true), end),
    ensures
        exists|outs: Seq<EdgeId>, points: Seq<Digest>, m: Seq<Option<NodeProof>>| #[trigger]
            parts_confirmed(dag, parts, h, s, ws, com, proof, checks, outs, points, m),
{
    let outs = dag.claimed_outputs(ws);
    let eps = proof.edge_proofs@;
    let pps = proof.partition_proofs@;
    let heads = head_claims(eps, outs);
    let cuts = sent_claims(proof.boundary_evals@, dag.boundary_edges@);
    let (ok, s1) = redrawn(h, s, heads, heads.len());
    let s2 = redrawn(h, s1, cuts, cuts.len()).1;
    let init = heads + cuts;
    let count = dag.boundary_edges.len() as nat;
    assert(parallel_start(dag, h, s, ws, proof) == (ok, s1, s2, init));
    let (qs, m) = choose|qs: Seq<Check>, m: Seq<Option<NodeProof>>|
        m.len() == dag.nodes.len() && #[trigger] all_arrive(dag, parts, h, s2, init, pps, checks, qs)
            && #[trigger] merges(pps, m) && dag.end_verdict(
            h,
            s2,
            ws,
            dag.openable(ws, com, dag.boundary_edges@),
            m,
            joined_claims(qs, dag.num_edges as nat),
            eps,
            proof.range_proof,
            proof.two_pow_proof,
            checks.sf,
            checks.opening,
            ok && all_verified(qs) && all_anchored(dag, com, proof),
            Some(true),
            end,
        );
    lemma_rest_confirmed(
        dag,
        h,
        s2,
        ws,
        com,
        dag.boundary_edges@,
        m,
        joined_claims(qs, dag.num_edges as nat),
        eps,
        proof.range_proof,
        proof.two_pow_proof,
        checks.sf,
        checks.opening,
        ok && all_verified(qs) && all_anchored(dag, com, proof),
        end,
    );
    assert(sent_out(dag, proof, outs) =~= init);
    lemma_cuts_all(dag, h, s1, proof, count);
    let d1 = lemma_points_drawn(h, s, heads, heads.len());
    let d2 = lemma_points_drawn(h, s1, cuts, cuts.len());
    assert(heads.take(heads.len() as int) =~= heads);
    assert(cuts.take(cuts.len() as int) =~= cuts);
    let points = d1 + d2.drop_first();
    assert(points_drawn(h, init, points)) by {
        assert forall|i: int| 0 <= i < init.len() implies {
            let point = (#[trigger] init[i]).1.point;
            point == words_of(drawn(
                h,
                points[i],
                Label::Challenge,
                point.len(),
            )) && points[i + 1] == draw_many(
                h,
                points[i],
                Label::Challenge,
                point.len(),
            )
        } by {
            if i < heads.len() {
                assert(init[i] == heads[i]);
            } else {
                let j = i - heads.len();
                assert(init[i] == cuts[j]);
                assert(points[i + 1] == d2[j + 1]);
                assert(points[i] == d2[j]);
            }
        }
    }
    assert(points.last() == s2);
    lemma_outputs_bound(dag, ws, dag.output_ports.len() as nat);
    assert forall|i: int| 0 <= i < init.len() implies (#[trigger] init[i]).0 < dag.num_edges by {
        if i < heads.len() {
            assert(init[i] == heads[i]);
            assert(outs[i] < dag.num_edges);
        } else {
            assert(init[i] == cuts[i - heads.len()]);
            assert(dag.boundary_edges[i - heads.len()] < dag.num_edges);
        }
    }
    assert(points[0] == d1[0]);
    assert forall|k: int| 0 <= k < parts.len() implies #[trigger] some_confirmation(
        dag,
        parts,
        checks.block,
        checks.reducer,
        pps,
        init,
        k,
        fork_digest(h, points.last(), k),
    ) by {
        assert(part_arrives(dag, parts, h, s2, init, pps, checks, k, qs[k]));
        let starts = dag.routed(parts, init, k);
        let (scope, t) = choose|scope: Scope, t: Digest|
            is_part(dag, parts[k], scope) && #[trigger] arrives(
                dag,
                pps[k].node_proofs@,
                pps[k].reducer_proofs@,
                checks,
                scope,
                starts,
                fork_digest(h, s2, k),
                qs[k],
                t,
            );
        lemma_routed_within(dag, parts, init, k, init.len());
        assert forall|i: int| 0 <= i < starts.len() implies (#[trigger] starts[i]).0 < dag.num_edges by {
            assert(init.contains(starts[i]));
            let j = choose|j: int| 0 <= j < init.len() && init[j] == starts[i];
            assert(init[j].0 < dag.num_edges);
        }
        assert(qs[k].verified);
        let (order, ds) = lemma_pass_confirmed(
            dag,
            scope,
            pps[k].node_proofs@,
            pps[k].reducer_proofs@,
            checks,
            starts,
            fork_digest(h, s2, k),
            qs[k],
            t,
        );
        assert(scope.inside@ =~= Seq::new(
            dag.nodes.len() as nat,
            |n: int| parts[k].node_ids@.contains(n as usize),
        )) by {
            assert forall|n: int| 0 <= n < scope.inside.len() implies scope.inside@[n]
                == parts[k].node_ids@.contains(n as usize) by {
                assert(scope.inside[n] == parts[k].node_ids@.contains(n as usize));
            }
        }
        assert(scope.stop@ =~= Seq::new(
            dag.num_edges as nat,
            |e: int| parts[k].boundary_input_edges@.contains(e as usize),
        )) by {
            assert forall|e: int| 0 <= e < scope.stop.len() implies scope.stop@[e]
                == parts[k].boundary_input_edges@.contains(e as usize) by {
                assert(scope.stop[e] == parts[k].boundary_input_edges@.contains(e as usize));
            }
        }
        assert forall|i: int| 0 <= i < init.len() implies (
        dag.producers[(#[trigger] init[i]).0 as int] matches Some(v) ==> parts[k].node_ids@.contains(v) && (
        forall|j: int| 0 <= j < k ==> !(#[trigger] parts[j]).node_ids@.contains(v)) ==> starts.contains(
            init[i],
        )) by {
            if dag.producers[init[i].0 as int] is Some {
                let v = dag.producers[init[i].0 as int]->0;
                if parts[k].node_ids@.contains(v) && (forall|j: int|
                    0 <= j < k ==> !(#[trigger] parts[j]).node_ids@.contains(v)) {
                    lemma_home_first(parts, v, 0, k);
                    assert(dag.home(parts, init[i].0) == Some(k));
                }
            }
        }
        assert(part_confirmed(
            dag,
            parts,
            checks.block,
            checks.reducer,
            pps[k],
            init,
            k,
            fork_digest(h, s2, k),
            starts,
            order,
            ds,
        ));
    }
    assert forall|i: int|
        0 <= i < dag.output_ports.len() && ws[(#[trigger] dag.output_ports[i]) as int][0].role == Role::Output
        implies outs.contains(dag.output_ports[i]) by {
        lemma_outputs_claimed(dag, ws, dag.output_ports.len() as nat, i);
    }
    assert forall|i: int| 0 <= i < outs.len() implies eps[(#[trigger] outs[i]) as int].claims.len() > 0 by {}
    assert forall|i: int| 0 <= i < dag.boundary_edges.len() implies i < proof.boundary_evals.len() && (
    #[trigger] proof.boundary_evals[i]).0 == dag.boundary_edges[i] by {
        assert(cut_sent(dag, proof, i));
    }
    assert forall|i: int|
        0 <= i < dag.boundary_edges.len() && com[(#[trigger] dag.boundary_edges[i]) as int] is Some implies claim_list(
        eps[dag.boundary_edges[i] as int].claims@,
    ).contains(boundary_claim(dag, proof, i)) by {
        assert(anchored(dag, proof, i));
        assert(cuts[i].1 == boundary_claim(dag, proof, i));
    }
    assert forall|n: int| 0 <= n < m.len() implies from_some_part(pps, #[trigger] m[n], n) by {
        if m[n] is Some {
            let j = lemma_last_from_part(pps, n, pps.len());
            assert(pps[j].node_proofs[n] is Some);
        }
    }
    assert(parts_confirmed(dag, parts, h, s, ws, com, proof, checks, outs, points, m));
}

proof fn lemma_cuts_all(
    dag: Dag,
    h: spec_fn(Digest, Digest) -> Digest,
    s: Digest,
    proof: ParallelProof,
    k: nat,
)
    requires
        cuts_passed(dag, h, s, proof, k) >= k,
    ensures
        forall|i: int| 0 <= i < k ==> #[trigger] cut_sent(dag, proof, i),
        k > 0 ==> redrawn(h, s, sent_claims(proof.boundary_evals@, dag.boundary_edges@), k).0,
    decreases k,
{
    if k > 0 {
        lemma_cuts_bound(dag, h, s, proof, (k - 1) as nat);
        lemma_cuts_all(dag, h, s, proof, (k - 1) as nat);
    }
}

proof fn lemma_cuts_bound(
    dag: Dag,
    h: spec_fn(Digest, Digest) -> Digest,
    s: Digest,
    proof: ParallelProof,
    k: nat,
)
    ensures
        cuts_passed(dag, h, s, proof, k) <= k,
    decreases k,
{
    if k > 0 {
        lemma_cuts_bound(dag, h, s, proof, (k - 1) as nat);
    }
}

} // verus!
