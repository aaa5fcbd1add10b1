//! The verifier accepts the proofs that an honest prover makes partition by partition.
use vstd::prelude::*;

use crate::commit::basefold::{BasefoldCommitmentData, BasefoldOpeningProof};
use crate::dag::backward::{
    edges_of, node_proof_view, node_proof_views, started, BlockReply, Pass, Scope,
};
use crate::dag::check_pass::{check_started, Check, CheckReply};
use crate::dag::complete::{
    claims_true, extends, lemma_end_accepted, lemma_extends_final, lemma_extends_replay,
    lemma_new_claim, lemma_not_stuck, lemma_proved_event, lemma_redrawn, lemma_same_reaches,
    lemma_same_started, lemma_schedule_claims, lemma_start_in_step, lemma_started_unproved,
    lookups_true, openings_true, same_scope,
};
use crate::dag::finish::opening_seed;
use crate::dag::lockstep::{
    agree_below, all_followable, all_pass, happened, has_point, lemma_check_follows,
    lemma_record_stays, lemma_replay,
};
use crate::dag::openings::{edge_claims, edge_vars, last_pointed};
use crate::dag::outputs::{drawn_upto, edges_known, random_claims};
use crate::dag::parallel::{
    fork_digest, home_from, is_part, merged, merged_upto, parallel_from, proof_of_pass,
};
use crate::dag::partition::{
    assigned, base_partition, boundary_index, hands_on, lemma_one_partition,
    lemma_partitions_forward, partitioned, partitions_of, PartitionDesc,
};
use crate::dag::pass::{
    after, is_block, lemma_claims_keep, lemma_edge_bound, local_reply, replayed, runs, seen, Event,
};
use crate::dag::types::{
    claim_list, claims_of, Assertion, Claim, Dag, EdgeId, NodeId, NodeProof, ParallelProof,
    PartitionProof,
};
use crate::dag::verify::{head_claims, heads_present, stuck, Checks};
use crate::dag::verify_parallel::{
    cut_sent, lemma_cuts_pass,
    all_anchored, all_arrive, all_verified, anchored, joined_claims, joined_upto, last_proof,
    merges, part_arrives, part_stuck, sent_claims, verifies_parallel,
};
use crate::dag::witness::Witness;
use crate::field::GoldilocksExt2;
use crate::sumcheck::SumcheckProof;
use crate::transcript::Digest;

verus! {

/// The first of the first `k` claims that is about edge `e`.
pub open spec fn first_about(cs: Seq<(EdgeId, Assertion)>, e: EdgeId, k: nat) -> Option<Assertion>
    decreases k,
{
    if k == 0 {
        None
    } else {
        match first_about(cs, e, (k - 1) as nat) {
            Some(c) => Some(c),
            None => if cs[k - 1].0 == e {
                Some(cs[k - 1].1)
            } else {
                None
            },
        }
    }
}

proof fn lemma_first_prefix(a: Seq<(EdgeId, Assertion)>, b: Seq<(EdgeId, Assertion)>, e: EdgeId, k: nat)
    requires
        k <= a.len(),
        k <= b.len(),
        forall|i: int| 0 <= i < k ==> #[trigger] a[i] == b[i],
    ensures
        first_about(a, e, k) == first_about(b, e, k),
    decreases k,
{
    if k > 0 {
        lemma_first_prefix(a, b, e, (k - 1) as nat);
        assert(a[k - 1] == b[k - 1]);
    }
}

proof fn lemma_first_none(cs: Seq<(EdgeId, Assertion)>, e: EdgeId, k: nat)
    requires
        k <= cs.len(),
        forall|i: int| 0 <= i < k ==> (#[trigger] cs[i]).0 != e,
    ensures
        first_about(cs, e, k) is None,
    decreases k,
{
    if k > 0 {
        lemma_first_none(cs, e, (k - 1) as nat);
        assert(cs[k - 1].0 != e);
    }
}

proof fn lemma_first_stays(cs: Seq<(EdgeId, Assertion)>, e: EdgeId, j: nat, k: nat)
    requires
        j <= k,
        first_about(cs, e, j) is Some,
    ensures
        first_about(cs, e, k) == first_about(cs, e, j),
    decreases k,
{
    if j < k {
        lemma_first_stays(cs, e, j, (k - 1) as nat);
    }
}

/// A pass starts with the first claim about an edge, and with none where there is none.
proof fn lemma_started_first(dag: Dag, scope: Scope, cs: Seq<(EdgeId, Assertion)>, k: nat, e: EdgeId)
    requires
        scope.wf(&dag),
        k <= cs.len(),
        e < dag.num_edges,
        forall|i: int| 0 <= i < cs.len() ==> (#[trigger] cs[i]).0 < dag.num_edges,
    ensures
        started(dag, scope, cs, k).claims.len() == dag.num_edges,
        match first_about(cs, e, k) {
            Some(c) => started(dag, scope, cs, k).claims[e as int].len() > 0 && started(
                dag,
                scope,
                cs,
                k,
            ).claims[e as int][0] == c,
            None => started(dag, scope, cs, k).claims[e as int].len() == 0,
        },
    decreases k,
{
    if k > 0 {
        lemma_started_first(dag, scope, cs, (k - 1) as nat, e);
        assert(cs[k - 1].0 < dag.num_edges);
    }
}

/// A partition starts from the first claim about an edge that it is home to, and from none about
/// other edges.
proof fn lemma_routed_first(
    dag: Dag,
    parts: Seq<PartitionDesc>,
    init: Seq<(EdgeId, Assertion)>,
    p: int,
    k: nat,
    e: EdgeId,
)
    requires
        k <= init.len(),
    ensures
        ({
            let cs = dag.routed_upto(parts, init, p, k);
            first_about(cs, e, cs.len()) == if dag.home(parts, e) == Some(p) {
                first_about(init, e, k)
            } else {
                None
            }
        }),
    decreases k,
{
    if k > 0 {
        lemma_routed_first(dag, parts, init, p, (k - 1) as nat, e);
        let rest = dag.routed_upto(parts, init, p, (k - 1) as nat);
        let cs = dag.routed_upto(parts, init, p, k);
        if dag.home(parts, init[k - 1].0) == Some(p) {
            assert(cs == rest.push(init[k - 1]));
            lemma_first_prefix(cs, rest, e, rest.len());
            assert(cs.len() == rest.len() + 1);
            assert(cs[cs.len() - 1] == init[k - 1]);
        }
    }
}

/// The routed claims are among the given ones.
proof fn lemma_routed_edges(
    dag: Dag,
    parts: Seq<PartitionDesc>,
    init: Seq<(EdgeId, Assertion)>,
    p: int,
    k: nat,
)
    requires
        k <= init.len(),
        forall|i: int| 0 <= i < init.len() ==> (#[trigger] init[i]).0 < dag.num_edges,
    ensures
        forall|i: int|
            0 <= i < dag.routed_upto(parts, init, p, k).len() ==> (#[trigger] dag.routed_upto(
                parts,
                init,
                p,
                k,
            )[i]).0 < dag.num_edges,
    decreases k,
{
    if k > 0 {
        lemma_routed_edges(dag, parts, init, p, (k - 1) as nat);
        let rest = dag.routed_upto(parts, init, p, (k - 1) as nat);
        let cs = dag.routed_upto(parts, init, p, k);
        assert forall|i: int| 0 <= i < cs.len() implies (#[trigger] cs[i]).0 < dag.num_edges by {
            if i < rest.len() {
                assert(cs[i] == rest[i]);
            } else {
                assert(cs[i] == init[k - 1]);
            }
        }
    }
}

/// No claim is about edge `e`, and only nodes inside wait.
pub open spec fn quiet(scope: Scope, p: Pass, e: int) -> bool {
    &&& p.claims[e].len() == 0
    &&& forall|v: int| 0 <= v < p.pending.len() && #[trigger] p.pending[v] ==> scope.inside[v]
}

/// No node inside writes or reads edge `e`.
pub open spec fn foreign(dag: Dag, scope: Scope, e: int) -> bool {
    &&& dag.producers[e] matches Some(v) ==> !scope.inside[v as int]
    &&& forall|u: int| #[trigger] dag.reads(u, e) ==> !scope.inside[u]
}

proof fn lemma_started_inside(dag: Dag, scope: Scope, cs: Seq<(EdgeId, Assertion)>, k: nat)
    requires
        dag.ordered(),
        scope.wf(&dag),
        k <= cs.len(),
        forall|i: int| 0 <= i < cs.len() ==> (#[trigger] cs[i]).0 < dag.num_edges,
    ensures
        started(dag, scope, cs, k).wf(dag),
        forall|v: int|
            0 <= v < dag.nodes.len() && #[trigger] started(dag, scope, cs, k).pending[v]
                ==> scope.inside[v],
    decreases k,
{
    if k > 0 {
        lemma_started_inside(dag, scope, cs, (k - 1) as nat);
        assert(cs[k - 1].0 < dag.num_edges);
        let e = cs[k - 1].0 as int;
        assert(dag.producers[e] matches Some(u) ==> u < dag.nodes.len());
    }
}

proof fn lemma_schedule_inside(dag: Dag, scope: Scope, p: Pass, u: NodeId, cs: Seq<Assertion>)
    requires
        dag.ordered(),
        scope.wf(&dag),
        p.wf(dag),
        forall|i: int| 0 <= i < cs.len() ==> (#[trigger] cs[i]).edge_id < dag.num_edges,
        forall|v: int| 0 <= v < dag.nodes.len() && #[trigger] p.pending[v] ==> scope.inside[v],
    ensures
        p.schedule_all(dag, scope, u, cs).wf(dag),
        forall|v: int|
            0 <= v < dag.nodes.len() && #[trigger] p.schedule_all(dag, scope, u, cs).pending[v]
                ==> scope.inside[v],
    decreases cs.len(),
{
    if cs.len() > 0 {
        let head = cs.drop_last();
        assert forall|i: int| 0 <= i < head.len() implies (#[trigger] head[i]).edge_id < dag.num_edges by {
            assert(head[i] == cs[i]);
        }
        lemma_schedule_inside(dag, scope, p, u, head);
        assert(cs[cs.len() - 1].edge_id < dag.num_edges);
        let e = cs.last().edge_id as int;
        assert(dag.producers[e] matches Some(v) ==> v < dag.nodes.len());
    }
}

/// What happens to a node inside leaves a foreign edge alone.
proof fn lemma_quiet_after(dag: Dag, scope: Scope, p: Pass, ev: Event, e: int)
    requires
        dag.ordered(),
        scope.wf(&dag),
        p.wf(dag),
        0 <= e < dag.num_edges,
        dag.producers[e] is Some,
        foreign(dag, scope, e),
        quiet(scope, p, e),
        ev.node < dag.nodes.len(),
        p.pending[ev.node as int],
        local_reply(dag, ev.node, claim_list(ev.reply.claims@)),
    ensures
        quiet(scope, after(dag, scope, p, ev), e),
{
    let u = ev.node;
    assert(scope.inside[u as int]);
    let new = claim_list(ev.reply.claims@);
    let q = p.take(u);
    let local = q.local_claims(dag, u);
    let node = dag.nodes[u as int];
    let out = node.outputs[0];
    assert(dag.nodes[u as int].outputs.len() > 0);
    assert(dag.nodes[u as int].outputs[0] < dag.num_edges);
    assert(out != e) by {
        assert(node.outputs@.contains(out));
        let w = dag.writes(u as int, out as int);
        assert(w);
    }
    let p1 = match ev.reduction {
        Some(r) => q.reduced(dag, u, r.proofs, claim_list(r.claims@)),
        None => q,
    };
    let p2 = Pass {
        node_proofs: p1.node_proofs.update(
            u as int,
            Some((ev.reply.proofs, new + seen(local, ev.reduction))),
        ),
        ..p1
    };
    assert forall|i: int| 0 <= i < new.len() implies (#[trigger] new[i]).edge_id < dag.num_edges
        && new[i].edge_id != e by {
        let x = new[i].edge_id;
        assert(edges_of(dag, u).contains(x));
        lemma_edge_bound(dag, u, x);
        if x == e {
            let j = choose|j: int| 0 <= j < edges_of(dag, u).len() && edges_of(dag, u)[j] == x;
            if j < node.inputs.len() {
                assert(node.inputs@[j] == x);
                let reading = dag.reads(u as int, e);
                assert(reading);
            } else {
                assert(node.outputs@[j - node.inputs.len()] == x);
                let writing = dag.writes(u as int, e);
                assert(writing);
            }
        }
    }
    let p3 = p2.with_claims(new);
    lemma_claims_keep(p2, new);
    if p3.claims[e].len() > 0 {
        lemma_new_claim(p2, new, e);
    }
    assert forall|v: int| 0 <= v < dag.nodes.len() && #[trigger] p3.pending[v] implies scope.inside[v] by {
        assert(p.pending[v]);
    }
    lemma_schedule_inside(dag, scope, p3, u, new);
    lemma_schedule_claims(dag, scope, p3, u, new);
    assert(after(dag, scope, p, ev) == p3.schedule_all(dag, scope, u, new));
}

/// A run leaves a foreign edge alone.
proof fn lemma_quiet_replay<
    B: Fn(NodeId, &Vec<EdgeId>, &Vec<Claim>, Digest) -> BlockReply,
    R: Fn(NodeId, &Vec<EdgeId>, &Vec<Claim>, Digest) -> BlockReply,
>(
    dag: Dag,
    scope: Scope,
    block: B,
    reduce: R,
    p: Pass,
    s: Digest,
    evs: Seq<Event>,
    k: nat,
    e: int,
)
    requires
        dag.ordered(),
        scope.wf(&dag),
        p.wf(dag),
        is_block(dag, block),
        k <= evs.len(),
        happened(dag, scope, block, reduce, p, s, evs, k),
        0 <= e < dag.num_edges,
        dag.producers[e] is Some,
        foreign(dag, scope, e),
        quiet(scope, p, e),
    ensures
        quiet(scope, replayed(dag, scope, p, evs, k), e),
    decreases k,
{
    if k > 0 {
        let m = (k - 1) as nat;
        lemma_quiet_replay(dag, scope, block, reduce, p, s, evs, m, e);
        lemma_replay(dag, scope, block, reduce, p, s, evs, m);
        lemma_replay(dag, scope, block, reduce, p, s, evs, k);
        assert(replayed(dag, scope, p, evs, m).is_next(evs[m as int].node));
        lemma_quiet_after(dag, scope, replayed(dag, scope, p, evs, m), evs[m as int], e);
    }
}

/// The merged claims about an edge begin with the first claim of the first pass that has one.
proof fn lemma_merged_first(qs: Seq<Pass>, e: int, j: int, k: nat)
    requires
        0 <= j < k <= qs.len(),
        forall|i: int| 0 <= i < j ==> (#[trigger] qs[i]).claims[e].len() == 0,
        qs[j].claims[e].len() > 0,
    ensures
        merged_upto(qs, e, k).len() > 0,
        merged_upto(qs, e, k)[0] == qs[j].claims[e][0],
    decreases k,
{
    if j == k - 1 {
        lemma_merged_empty(qs, e, j as nat);
    } else {
        lemma_merged_first(qs, e, j, (k - 1) as nat);
    }
}

proof fn lemma_merged_empty(qs: Seq<Pass>, e: int, k: nat)
    requires
        k <= qs.len(),
        forall|i: int| 0 <= i < k ==> (#[trigger] qs[i]).claims[e].len() == 0,
    ensures
        merged_upto(qs, e, k).len() == 0,
    decreases k,
{
    if k > 0 {
        lemma_merged_empty(qs, e, (k - 1) as nat);
        assert(qs[k - 1].claims[e].len() == 0);
    }
}

/// A list has a point where one of its parts has.
proof fn lemma_point_in(a: Seq<Assertion>, b: Seq<Assertion>)
    ensures
        has_point(a + b) == (has_point(a) || has_point(b)),
    decreases b.len(),
{
    if b.len() == 0 {
        assert(a + b =~= a);
    } else {
        lemma_point_in(a, b.drop_last());
        assert((a + b).drop_last() =~= a + b.drop_last());
        assert((a + b).last() == b.last());
    }
}

/// Lists that agree edge by edge agree when they are joined.
proof fn lemma_joined_agree(dag: Dag, qs: Seq<Pass>, cs: Seq<Check>, e: int, k: nat)
    requires
        k <= qs.len(),
        qs.len() == cs.len(),
        0 <= e < dag.num_edges,
        forall|i: int| 0 <= i < qs.len() ==> agree_below(dag, (#[trigger] qs[i]).claims, cs[i].claims, 0),
    ensures
        has_point(joined_upto(cs, e, k)) == has_point(merged_upto(qs, e, k)),
        dag.producers[e] is None ==> joined_upto(cs, e, k) == merged_upto(qs, e, k),
    decreases k,
{
    if k > 0 {
        lemma_joined_agree(dag, qs, cs, e, (k - 1) as nat);
        assert(agree_below(dag, qs[k - 1].claims, cs[k - 1].claims, 0));
        assert(has_point(cs[k - 1].claims[e]) == has_point(qs[k - 1].claims[e]));
        lemma_point_in(joined_upto(cs, e, (k - 1) as nat), cs[k - 1].claims[e]);
        lemma_point_in(merged_upto(qs, e, (k - 1) as nat), qs[k - 1].claims[e]);
        if dag.producers[e] is None {
            assert(crate::dag::lockstep::below(dag, e, 0));
            assert(cs[k - 1].claims[e] == qs[k - 1].claims[e]);
        }
    }
}

/// A backward pass over a partition: its scope, what happened, and where it ended.
pub struct PartRun {
    pub scope: Scope,
    pub evs: Seq<Event>,
    pub end: Pass,
    pub digest: Digest,
}

/// The run is a pass over partition `k`, over events that a check can follow.
pub open spec fn honest_part<
    B: Fn(NodeId, &Vec<EdgeId>, &Vec<Claim>, Digest) -> BlockReply,
    R: Fn(NodeId, &Vec<EdgeId>, &Vec<Claim>, Digest) -> BlockReply,
>(
    dag: Dag,
    parts: Seq<PartitionDesc>,
    h: spec_fn(Digest, Digest) -> Digest,
    s: Digest,
    init: Seq<(EdgeId, Assertion)>,
    block: B,
    reduce: R,
    k: int,
    run: PartRun,
) -> bool {
    let cs = dag.routed(parts, init, k);
    let p = started(dag, run.scope, cs, cs.len());
    &&& is_part(dag, parts[k], run.scope)
    &&& runs(dag, run.scope, block, reduce, p, fork_digest(h, s, k), run.evs, run.end, run.digest)
    &&& all_followable(dag, run.scope, p, run.evs)
}

/// There is such a run for every partition.
pub open spec fn honest_parts<
    B: Fn(NodeId, &Vec<EdgeId>, &Vec<Claim>, Digest) -> BlockReply,
    R: Fn(NodeId, &Vec<EdgeId>, &Vec<Claim>, Digest) -> BlockReply,
>(
    dag: Dag,
    parts: Seq<PartitionDesc>,
    h: spec_fn(Digest, Digest) -> Digest,
    s: Digest,
    init: Seq<(EdgeId, Assertion)>,
    block: B,
    reduce: R,
    rs: Seq<PartRun>,
) -> bool {
    &&& rs.len() == parts.len()
    &&& forall|k: int|
        0 <= k < rs.len() ==> honest_part(dag, parts, h, s, init, block, reduce, k, #[trigger] rs[k])
}

/// The checks accept what was answered in the run of partition `k`.
pub open spec fn part_passes<
    V: Fn(NodeId, &Vec<Claim>, &Vec<SumcheckProof>, Digest) -> CheckReply,
    W: Fn(NodeId, &Vec<Claim>, &Vec<SumcheckProof>, Digest) -> CheckReply,
    P: Fn(usize, &BasefoldCommitmentData, &Claim, &BasefoldOpeningProof, GoldilocksExt2) -> bool,
>(
    dag: Dag,
    parts: Seq<PartitionDesc>,
    h: spec_fn(Digest, Digest) -> Digest,
    s: Digest,
    init: Seq<(EdgeId, Assertion)>,
    k: int,
    run: PartRun,
    checks: Checks<V, W, P>,
) -> bool {
    let cs = dag.routed(parts, init, k);
    all_pass(
        dag,
        run.scope,
        checks.block,
        checks.reducer,
        started(dag, run.scope, cs, cs.len()),
        fork_digest(h, s, k),
        run.evs,
    )
}

/// The checks accept what was answered in the runs of all partitions.
pub open spec fn parts_pass<
    V: Fn(NodeId, &Vec<Claim>, &Vec<SumcheckProof>, Digest) -> CheckReply,
    W: Fn(NodeId, &Vec<Claim>, &Vec<SumcheckProof>, Digest) -> CheckReply,
    P: Fn(usize, &BasefoldCommitmentData, &Claim, &BasefoldOpeningProof, GoldilocksExt2) -> bool,
>(
    dag: Dag,
    parts: Seq<PartitionDesc>,
    h: spec_fn(Digest, Digest) -> Digest,
    s: Digest,
    init: Seq<(EdgeId, Assertion)>,
    rs: Seq<PartRun>,
    checks: Checks<V, W, P>,
) -> bool {
    forall|k: int|
        0 <= k < rs.len() ==> part_passes(dag, parts, h, s, init, k, #[trigger] rs[k], checks)
}

/// The ends of runs.
pub open spec fn ends(rs: Seq<PartRun>) -> Seq<Pass> {
    rs.map_values(|r: PartRun| r.end)
}

/// Every listed edge is written in some partition, and is read in none before it.
pub open spec fn housed(dag: Dag, parts: Seq<PartitionDesc>, edges: Seq<EdgeId>) -> bool {
    &&& forall|i: int| 0 <= i < edges.len() ==> dag.home(parts, #[trigger] edges[i]) is Some
    &&& forall|i: int, k: int, n: int|
        0 <= i < edges.len() && 0 <= k < parts.len() && #[trigger] dag.reads(n, edges[i] as int)
            && #[trigger] parts[k].node_ids@.contains(n as usize) ==> dag.home(parts, edges[i])->0 <= k
}

/// A partition before the home of an edge does not have its writer.
proof fn lemma_before_home(parts: Seq<PartitionDesc>, n: NodeId, k: int, j: int)
    requires
        0 <= k <= j,
        home_from(parts, n, k) matches Some(m) && j < m,
    ensures
        j < parts.len() && !parts[j].node_ids@.contains(n),
    decreases j - k,
{
    if k < j {
        lemma_before_home(parts, n, k + 1, j);
    } else {
        lemma_home_bound(parts, n, k + 1);
    }
}

proof fn lemma_home_bound(parts: Seq<PartitionDesc>, n: NodeId, k: int)
    ensures
        home_from(parts, n, k) matches Some(m) ==> k <= m < parts.len(),
    decreases parts.len() - k,
{
    if k < parts.len() {
        lemma_home_bound(parts, n, k + 1);
    }
}

/// The first of the starting claims about an output is the one at its random point.
proof fn lemma_first_init(
    outs: Seq<EdgeId>,
    first: Seq<(EdgeId, Assertion)>,
    more: Seq<(EdgeId, Assertion)>,
    i: int,
)
    requires
        outs.no_duplicates(),
        first.len() == outs.len(),
        forall|j: int| 0 <= j < first.len() ==> (#[trigger] first[j]).0 == outs[j],
        0 <= i < outs.len(),
    ensures
        first_about(first + more, outs[i], (first + more).len()) == Some(first[i].1),
{
    let init = first + more;
    assert forall|j: int| 0 <= j < i implies (#[trigger] init[j]).0 != outs[i] by {
        assert(init[j] == first[j]);
        assert(outs[j] != outs[i]);
    }
    lemma_first_none(init, outs[i], i as nat);
    assert(init[i] == first[i]);
    assert(first_about(init, outs[i], (i + 1) as nat) == Some(first[i].1));
    lemma_first_stays(init, outs[i], (i + 1) as nat, init.len());
}

/// The merged claims about an output begin with the starting one.
proof fn lemma_output_first<
    B: Fn(NodeId, &Vec<EdgeId>, &Vec<Claim>, Digest) -> BlockReply,
    R: Fn(NodeId, &Vec<EdgeId>, &Vec<Claim>, Digest) -> BlockReply,
>(
    dag: Dag,
    parts: Seq<PartitionDesc>,
    h: spec_fn(Digest, Digest) -> Digest,
    s: Digest,
    init: Seq<(EdgeId, Assertion)>,
    block: B,
    reduce: R,
    rs: Seq<PartRun>,
    outs: Seq<EdgeId>,
    i: int,
)
    requires
        dag.ordered(),
        is_block(dag, block),
        forall|i: int| 0 <= i < init.len() ==> (#[trigger] init[i]).0 < dag.num_edges,
        honest_parts(dag, parts, h, s, init, block, reduce, rs),
        housed(dag, parts, outs),
        0 <= i < outs.len(),
        outs[i] < dag.num_edges,
        first_about(init, outs[i], init.len()) is Some,
    ensures
        merged_upto(ends(rs), outs[i] as int, rs.len()).len() > 0,
        merged_upto(ends(rs), outs[i] as int, rs.len())[0] == first_about(init, outs[i], init.len())->0,
{
    let e = outs[i];
    let qs = ends(rs);
    assert(dag.home(parts, e) is Some);
    let v = dag.producers[e as int]->0;
    let j = dag.home(parts, e)->0;
    lemma_home_bound(parts, v, 0);
    assert forall|k: int| 0 <= k < j implies (#[trigger] qs[k]).claims[e as int].len() == 0 by {
        let run = rs[k];
        assert(honest_part(dag, parts, h, s, init, block, reduce, k, rs[k]));
        let cs = dag.routed(parts, init, k);
        let p = started(dag, run.scope, cs, cs.len());
        lemma_routed_edges(dag, parts, init, k, init.len());
        lemma_routed_first(dag, parts, init, k, init.len(), e);
        lemma_started_first(dag, run.scope, cs, cs.len(), e);
        lemma_started_inside(dag, run.scope, cs, cs.len());
        lemma_before_home(parts, v, 0, k);
        assert(v < dag.nodes.len());
        assert(foreign(dag, run.scope, e as int)) by {
            assert(run.scope.inside[v as int] == parts[k].node_ids@.contains(v));
            assert forall|u: int| #[trigger] dag.reads(u, e as int) implies !run.scope.inside[u] by {
                assert(run.scope.inside[u] == parts[k].node_ids@.contains(u as usize));
                if parts[k].node_ids@.contains(u as usize) {
                    assert(dag.reads(u, outs[i] as int));
                }
            }
        }
        assert(happened(dag, run.scope, block, reduce, p, fork_digest(h, s, k), run.evs, run.evs.len()));
        lemma_quiet_replay(
            dag,
            run.scope,
            block,
            reduce,
            p,
            fork_digest(h, s, k),
            run.evs,
            run.evs.len(),
            e as int,
        );
    }
    let run = rs[j];
    assert(honest_part(dag, parts, h, s, init, block, reduce, j, rs[j]));
    let cs = dag.routed(parts, init, j);
    let p = started(dag, run.scope, cs, cs.len());
    lemma_routed_edges(dag, parts, init, j, init.len());
    lemma_routed_first(dag, parts, init, j, init.len(), e);
    lemma_started_first(dag, run.scope, cs, cs.len(), e);
    lemma_started_inside(dag, run.scope, cs, cs.len());
    assert(happened(dag, run.scope, block, reduce, p, fork_digest(h, s, j), run.evs, run.evs.len()));
    lemma_extends_replay(
        dag,
        run.scope,
        block,
        reduce,
        p,
        fork_digest(h, s, j),
        run.evs,
        run.evs.len(),
    );
    assert(qs[j] == run.end);
    assert(run.end.claims[e as int].len() >= p.claims[e as int].len());
    assert(run.end.claims[e as int][0] == p.claims[e as int][0]);
    lemma_merged_first(qs, e as int, j, qs.len());
}

/// All scopes of a partition are the same.
proof fn lemma_part_same(dag: Dag, part: PartitionDesc, a: Scope, b: Scope)
    requires
        is_part(dag, part, a),
        is_part(dag, part, b),
    ensures
        same_scope(a, b),
{
    assert forall|n: int| 0 <= n < a.inside.len() implies a.inside@[n] == b.inside@[n] by {
        assert(a.inside[n] == part.node_ids@.contains(n as usize));
        assert(b.inside[n] == part.node_ids@.contains(n as usize));
    }
    assert forall|e: int| 0 <= e < a.stop.len() implies a.stop@[e] == b.stop@[e] by {
        assert(a.stop[e] == part.boundary_input_edges@.contains(e as usize));
        assert(b.stop[e] == part.boundary_input_edges@.contains(e as usize));
    }
    assert(a.inside@ =~= b.inside@);
    assert(a.stop@ =~= b.stop@);
}

/// The check of a partition ends where its pass ended.
proof fn lemma_part_checked<
    B: Fn(NodeId, &Vec<EdgeId>, &Vec<Claim>, Digest) -> BlockReply,
    R: Fn(NodeId, &Vec<EdgeId>, &Vec<Claim>, Digest) -> BlockReply,
    V: Fn(NodeId, &Vec<Claim>, &Vec<SumcheckProof>, Digest) -> CheckReply,
    W: Fn(NodeId, &Vec<Claim>, &Vec<SumcheckProof>, Digest) -> CheckReply,
    P: Fn(usize, &BasefoldCommitmentData, &Claim, &BasefoldOpeningProof, GoldilocksExt2) -> bool,
>(
    dag: Dag,
    parts: Seq<PartitionDesc>,
    h: spec_fn(Digest, Digest) -> Digest,
    s: Digest,
    init: Seq<(EdgeId, Assertion)>,
    block: B,
    reduce: R,
    k: int,
    run: PartRun,
    pps: Seq<PartitionProof>,
    checks: Checks<V, W, P>,
)
    requires
        dag.ordered(),
        is_block(dag, block),
        forall|i: int| 0 <= i < init.len() ==> (#[trigger] init[i]).0 < dag.num_edges,
        honest_part(dag, parts, h, s, init, block, reduce, k, run),
        proof_of_pass(run.end, pps[k]),
        part_passes(dag, parts, h, s, init, k, run, checks),
    ensures
        !part_stuck(dag, parts, h, s, init, pps, checks, k),
        forall|q: Check| #[trigger]
            part_arrives(dag, parts, h, s, init, pps, checks, k, q) ==> q.verified && agree_below(
                dag,
                run.end.claims,
                q.claims,
                0,
            ),
{
    let cs = dag.routed(parts, init, k);
    let p0 = started(dag, run.scope, cs, cs.len());
    let c0 = check_started(dag, run.scope, cs, cs.len());
    let d = fork_digest(h, s, k);
    let (nps, rps) = (pps[k].node_proofs@, pps[k].reducer_proofs@);
    lemma_routed_edges(dag, parts, init, k, init.len());
    if part_stuck(dag, parts, h, s, init, pps, checks, k) {
        let sc = choose|sc: Scope|
            is_part(dag, parts[k], sc) && #[trigger] stuck(dag, nps, rps, checks, sc, cs, d);
        lemma_part_same(dag, parts[k], sc, run.scope);
        lemma_not_stuck(
            dag,
            block,
            reduce,
            run.scope,
            cs,
            d,
            run.evs,
            run.end,
            run.digest,
            nps,
            rps,
            checks,
            sc,
        );
    }
    assert forall|q: Check| #[trigger] part_arrives(
        dag,
        parts,
        h,
        s,
        init,
        pps,
        checks,
        k,
        q,
    ) implies q.verified
        && agree_below(dag, run.end.claims, q.claims, 0) by {
        let (sc, t) = choose|sc: Scope, t: Digest|
            is_part(dag, parts[k], sc) && #[trigger] crate::dag::verify::arrives(
                dag,
                nps,
                rps,
                checks,
                sc,
                cs,
                d,
                q,
                t,
            );
        lemma_part_same(dag, parts[k], sc, run.scope);
        lemma_same_started(dag, sc, run.scope, cs, cs.len());
        lemma_same_reaches(
            dag,
            sc,
            run.scope,
            nps,
            rps,
            checks.block,
            checks.reducer,
            c0,
            d,
            q,
            t,
        );
        lemma_start_in_step(dag, run.scope, cs, cs.len());
        lemma_check_follows(
            dag,
            run.scope,
            block,
            reduce,
            checks.block,
            checks.reducer,
            p0,
            c0,
            d,
            run.evs,
            run.end,
            run.digest,
            q,
            t,
            nps,
            rps,
        );
    }
}

/// A node that the last word is about has been proved in some partition.
proof fn lemma_last_proof(pps: Seq<PartitionProof>, n: int, k: nat) -> (j: int)
    requires
        k <= pps.len(),
        last_proof(pps, n, k) is Some,
    ensures
        0 <= j < k,
        pps[j].node_proofs[n] is Some,
        last_proof(pps, n, k) == pps[j].node_proofs[n],
    decreases k,
{
    if pps[k - 1].node_proofs[n] is Some {
        k - 1
    } else {
        lemma_last_proof(pps, n, (k - 1) as nat)
    }
}

/// The proof of a node in a partition has claims.
proof fn lemma_part_claims<
    B: Fn(NodeId, &Vec<EdgeId>, &Vec<Claim>, Digest) -> BlockReply,
    R: Fn(NodeId, &Vec<EdgeId>, &Vec<Claim>, Digest) -> BlockReply,
>(
    dag: Dag,
    parts: Seq<PartitionDesc>,
    h: spec_fn(Digest, Digest) -> Digest,
    s: Digest,
    init: Seq<(EdgeId, Assertion)>,
    block: B,
    reduce: R,
    k: int,
    run: PartRun,
    pp: PartitionProof,
    v: int,
)
    requires
        dag.ordered(),
        is_block(dag, block),
        forall|i: int| 0 <= i < init.len() ==> (#[trigger] init[i]).0 < dag.num_edges,
        honest_part(dag, parts, h, s, init, block, reduce, k, run),
        proof_of_pass(run.end, pp),
        0 <= v < dag.nodes.len(),
        pp.node_proofs[v] is Some,
    ensures
        claims_of(pp.node_proofs[v]).len() > 0,
{
    let cs = dag.routed(parts, init, k);
    let p0 = started(dag, run.scope, cs, cs.len());
    let d = fork_digest(h, s, k);
    let n = run.evs.len();
    lemma_routed_edges(dag, parts, init, k, init.len());
    lemma_started_inside(dag, run.scope, cs, cs.len());
    lemma_started_unproved(dag, run.scope, cs, cs.len());
    assert(happened(dag, run.scope, block, reduce, p0, d, run.evs, n));
    lemma_replay(dag, run.scope, block, reduce, p0, d, run.evs, n);
    assert(node_proof_views(pp.node_proofs@)[v] == node_proof_view(pp.node_proofs[v]));
    assert(run.end.node_proofs[v] is Some);
    lemma_proved_event(dag, run.scope, block, reduce, p0, d, run.evs, n, v);
    let i = choose|i: int| 0 <= i < n && (#[trigger] run.evs[i]).node == v;
    lemma_record_stays(dag, run.scope, block, reduce, p0, d, run.evs, i as nat, n);
    let pi = replayed(dag, run.scope, p0, run.evs, i as nat);
    assert(crate::dag::lockstep::followable(dag, pi, run.evs[i]));
    let local = pi.local_claims(dag, v as usize);
    let all = claim_list(run.evs[i].reply.claims@) + seen(local, run.evs[i].reduction);
    assert(all.len() > 0);
    assert(claim_list(claims_of(pp.node_proofs[v])) == all);
}

/// What the lookups of the joined proof say is so, and the nodes that they are about have been
/// proved.
pub open spec fn merged_true(
    dag: Dag,
    h: spec_fn(Digest, Digest) -> Digest,
    s: Digest,
    ws: Seq<Vec<Witness>>,
    claims: Seq<Seq<Assertion>>,
    sf: u64,
    p: ParallelProof,
) -> bool {
    let pps = p.partition_proofs@;
    &&& forall|m: Seq<Option<NodeProof>>|
        m.len() == dag.nodes.len() && #[trigger] merges(pps, m) ==> lookups_true(
            dag,
            h,
            s,
            ws,
            claims,
            sf,
            m,
            p.range_proof,
            p.two_pow_proof,
        )
    &&& forall|i: int|
        0 <= i < dag.two_pow.len() ==> last_proof(pps, (#[trigger] dag.two_pow[i]) as int, pps.len()) is Some
}

/// The joined proof has what the check of the lookups of powers of two needs.
proof fn lemma_merged_shaped<
    B: Fn(NodeId, &Vec<EdgeId>, &Vec<Claim>, Digest) -> BlockReply,
    R: Fn(NodeId, &Vec<EdgeId>, &Vec<Claim>, Digest) -> BlockReply,
>(
    dag: Dag,
    parts: Seq<PartitionDesc>,
    h: spec_fn(Digest, Digest) -> Digest,
    s: Digest,
    ws: Seq<Vec<Witness>>,
    init: Seq<(EdgeId, Assertion)>,
    block: B,
    reduce: R,
    rs: Seq<PartRun>,
    claims: Seq<Seq<Assertion>>,
    sf: u64,
    p: ParallelProof,
    m: Seq<Option<NodeProof>>,
)
    requires
        dag.ordered(),
        dag.lookups_ok(),
        is_block(dag, block),
        forall|i: int| 0 <= i < init.len() ==> (#[trigger] init[i]).0 < dag.num_edges,
        honest_parts(dag, parts, h, s, init, block, reduce, rs),
        p.partition_proofs.len() == rs.len(),
        forall|k: int| 0 <= k < rs.len() ==> proof_of_pass(ends(rs)[k], #[trigger] p.partition_proofs[k]),
        dag.two_pow_all_ready(ws, claims),
        dag.lookups_honest(h, s, ws, claims, p.range_proof, p.two_pow_proof),
        merged_true(dag, h, s, ws, claims, sf, p),
        m.len() == dag.nodes.len(),
        merges(p.partition_proofs@, m),
    ensures
        dag.two_pow_shaped(m, p.two_pow_proof),
{
    let pps = p.partition_proofs@;
    assert forall|i: int| 0 <= i < dag.two_pow.len() implies #[trigger] dag.two_pow_there(
        m,
        p.two_pow_proof,
        i,
    ) by {
        let v = dag.two_pow[i];
        assert(dag.two_pow_ready(ws, claims, i));
        let items = dag.two_pow_items(ws, claims);
        assert(p.two_pow_proof.middle_claims[i]@.len() == 1);
        assert(last_proof(pps, v as int, pps.len()) is Some);
        let j = lemma_last_proof(pps, v as int, pps.len());
        assert(proof_of_pass(ends(rs)[j], p.partition_proofs[j]));
        assert(honest_part(dag, parts, h, s, init, block, reduce, j, rs[j]));
        lemma_part_claims(dag, parts, h, s, init, block, reduce, j, rs[j], pps[j], v as int);
        assert(m[v as int] is Some);
        assert(claim_list(claims_of(m[v as int])).len() == claim_list(
            claims_of(pps[j].node_proofs[v as int]),
        ).len());
    }
}

/// A pass starts with all claims that it is given.
proof fn lemma_started_has(dag: Dag, scope: Scope, cs: Seq<(EdgeId, Assertion)>, k: nat, i: int)
    requires
        scope.wf(&dag),
        0 <= i < k <= cs.len(),
        forall|i: int| 0 <= i < cs.len() ==> (#[trigger] cs[i]).0 < dag.num_edges,
    ensures
        started(dag, scope, cs, k).claims.len() == dag.num_edges,
        started(dag, scope, cs, k).claims[cs[i].0 as int].contains(cs[i].1),
    decreases k,
{
    let before = started(dag, scope, cs, (k - 1) as nat).claims;
    let now = started(dag, scope, cs, k).claims;
    assert(cs[k - 1].0 < dag.num_edges);
    assert(cs[i].0 < dag.num_edges);
    lemma_started_first(dag, scope, cs, (k - 1) as nat, cs[i].0);
    let e = cs[k - 1].0 as int;
    assert(now == before.update(e, before[e].push(cs[k - 1].1)));
    if i == k - 1 {
        assert(now[e][before[e].len() as int] == cs[i].1);
    } else {
        lemma_started_has(dag, scope, cs, (k - 1) as nat, i);
        let f = cs[i].0 as int;
        let p = choose|p: int| 0 <= p < before[f].len() && before[f][p] == cs[i].1;
        assert(now[f][p] == cs[i].1);
    }
}

/// The home of an edge starts from the claims about it.
proof fn lemma_routed_has(
    dag: Dag,
    parts: Seq<PartitionDesc>,
    init: Seq<(EdgeId, Assertion)>,
    p: int,
    k: nat,
    i: int,
)
    requires
        0 <= i < k <= init.len(),
        dag.home(parts, init[i].0) == Some(p),
    ensures
        dag.routed_upto(parts, init, p, k).contains(init[i]),
    decreases k,
{
    let rest = dag.routed_upto(parts, init, p, (k - 1) as nat);
    let all = dag.routed_upto(parts, init, p, k);
    if i == k - 1 {
        assert(all[rest.len() as int] == init[i]);
    } else {
        lemma_routed_has(dag, parts, init, p, (k - 1) as nat, i);
        let j = choose|j: int| 0 <= j < rest.len() && rest[j] == init[i];
        assert(all[j] == init[i]);
    }
}

proof fn lemma_merged_has(qs: Seq<Pass>, e: int, j: int, k: nat, c: Assertion)
    requires
        0 <= j < k <= qs.len(),
        qs[j].claims[e].contains(c),
    ensures
        merged_upto(qs, e, k).contains(c),
    decreases k,
{
    let before = merged_upto(qs, e, (k - 1) as nat);
    let now = merged_upto(qs, e, k);
    if j == k - 1 {
        let p = choose|p: int| 0 <= p < qs[j].claims[e].len() && qs[j].claims[e][p] == c;
        assert(now[before.len() + p] == c);
    } else {
        lemma_merged_has(qs, e, j, (k - 1) as nat, c);
        let p = choose|p: int| 0 <= p < before.len() && before[p] == c;
        assert(now[p] == c);
    }
}

proof fn lemma_extends_has(p: Seq<Seq<Assertion>>, q: Seq<Seq<Assertion>>, e: int, c: Assertion)
    requires
        extends(p, q),
        0 <= e < p.len(),
        p[e].contains(c),
    ensures
        q[e].contains(c),
{
    let i = choose|i: int| 0 <= i < p[e].len() && p[e][i] == c;
    assert(q[e].len() >= p[e].len());
    assert(q[e][i] == c);
}

proof fn lemma_pointed_last(cs: Seq<Assertion>, c: Assertion)
    requires
        cs.contains(c),
        c.point.len() > 0,
    ensures
        last_pointed(cs) is Some,
    decreases cs.len(),
{
    let i = choose|i: int| 0 <= i < cs.len() && cs[i] == c;
    if i < cs.len() - 1 {
        assert(cs.drop_last()[i] == c);
        lemma_pointed_last(cs.drop_last(), c);
    }
}

/// The merged claims have every starting claim about an edge that is at home in a partition.
proof fn lemma_start_kept<
    B: Fn(NodeId, &Vec<EdgeId>, &Vec<Claim>, Digest) -> BlockReply,
    R: Fn(NodeId, &Vec<EdgeId>, &Vec<Claim>, Digest) -> BlockReply,
>(
    dag: Dag,
    parts: Seq<PartitionDesc>,
    h: spec_fn(Digest, Digest) -> Digest,
    s: Digest,
    init: Seq<(EdgeId, Assertion)>,
    block: B,
    reduce: R,
    rs: Seq<PartRun>,
    i: int,
)
    requires
        dag.ordered(),
        is_block(dag, block),
        forall|i: int| 0 <= i < init.len() ==> (#[trigger] init[i]).0 < dag.num_edges,
        honest_parts(dag, parts, h, s, init, block, reduce, rs),
        0 <= i < init.len(),
        dag.home(parts, init[i].0) is Some,
    ensures
        merged_upto(ends(rs), init[i].0 as int, rs.len()).contains(init[i].1),
{
    let e = init[i].0;
    let qs = ends(rs);
    assert(e < dag.num_edges);
    let j = dag.home(parts, e)->0;
    lemma_home_bound(parts, dag.producers[e as int]->0, 0);
    let run = rs[j];
    assert(honest_part(dag, parts, h, s, init, block, reduce, j, rs[j]));
    let cs = dag.routed(parts, init, j);
    let p = started(dag, run.scope, cs, cs.len());
    lemma_routed_edges(dag, parts, init, j, init.len());
    lemma_routed_has(dag, parts, init, j, init.len(), i);
    let k = choose|k: int| 0 <= k < cs.len() && cs[k] == init[i];
    lemma_started_has(dag, run.scope, cs, cs.len(), k);
    lemma_started_inside(dag, run.scope, cs, cs.len());
    assert(happened(dag, run.scope, block, reduce, p, fork_digest(h, s, j), run.evs, run.evs.len()));
    lemma_extends_replay(
        dag,
        run.scope,
        block,
        reduce,
        p,
        fork_digest(h, s, j),
        run.evs,
        run.evs.len(),
    );
    lemma_extends_has(p.claims, run.end.claims, e as int, init[i].1);
    assert(qs[j] == run.end);
    lemma_merged_has(qs, e as int, j, qs.len(), init[i].1);
}

/// Every boundary that is committed to is written in some partition, and its polynomial has
/// variables.
pub open spec fn cuts_housed(
    dag: Dag,
    parts: Seq<PartitionDesc>,
    ws: Seq<Vec<Witness>>,
    com: Seq<Option<BasefoldCommitmentData>>,
) -> bool {
    forall|i: int|
        0 <= i < dag.boundary_edges.len() && com[(#[trigger] dag.boundary_edges[i]) as int] is Some
            ==> dag.home(parts, dag.boundary_edges[i]) is Some && edge_vars(
            ws,
            dag.boundary_edges[i] as int,
        ) > 0
}

/// The verifier accepts the proof that an honest prover makes partition by partition, and ends at
/// its digest: where the checks of blocks, combined claims and openings accept what the prover was
/// answered, and what is claimed is so, every verdict on the proof is that it is right. Output ports
/// are taken to be listed once and to be written in some partition, before they are read in others;
/// boundaries that are committed to are taken to be written in some partition.
pub proof fn lemma_prove_verify_parallel<
    B: Fn(NodeId, &Vec<EdgeId>, &Vec<Claim>, Digest) -> BlockReply,
    R: Fn(NodeId, &Vec<EdgeId>, &Vec<Claim>, Digest) -> BlockReply,
    O: Fn(usize, EdgeId, &Claim, GoldilocksExt2) -> BasefoldOpeningProof,
    V: Fn(NodeId, &Vec<Claim>, &Vec<SumcheckProof>, Digest) -> CheckReply,
    W: Fn(NodeId, &Vec<Claim>, &Vec<SumcheckProof>, Digest) -> CheckReply,
    P: Fn(usize, &BasefoldCommitmentData, &Claim, &BasefoldOpeningProof, GoldilocksExt2) -> bool,
>(
    dag: Dag,
    parts: Seq<PartitionDesc>,
    h: spec_fn(Digest, Digest) -> Digest,
    s: Digest,
    ws: Seq<Vec<Witness>>,
    com: Seq<Option<BasefoldCommitmentData>>,
    block: B,
    reduce: R,
    open: O,
    rs: Seq<PartRun>,
    p: ParallelProof,
    end: Digest,
    checks: Checks<V, W, P>,
    r: Option<bool>,
    vend: Digest,
)
    requires
        dag.provable(ws, com),
        edges_known(ws, dag.boundary_edges@),
        is_block(dag, block),
        dag.claimed_outputs(ws).no_duplicates(),
        housed(dag, parts, dag.claimed_outputs(ws)),
        cuts_housed(dag, parts, ws, com),
        ({
            let outs = dag.claimed_outputs(ws);
            let cuts = dag.boundary_edges@;
            let s1 = drawn_upto(h, s, ws, outs, outs.len());
            let s2 = drawn_upto(h, s1, ws, cuts, cuts.len());
            let boundary = random_claims(h, s1, ws, cuts);
            let init = random_claims(h, s, ws, outs) + boundary;
            let claims = merged(ends(rs), dag.num_edges as nat);
            let oc = dag.openable(ws, com, cuts);
            let (fc, fd) = dag.final_claims(h, s2, ws, oc, claims);
            let tasks = dag.tasks_upto(ws, oc, fc, dag.num_edges as nat);
            &&& honest_parts(dag, parts, h, s2, init, block, reduce, rs)
            &&& parts_pass(dag, parts, h, s2, init, rs, checks)
            &&& parallel_from(dag, h, s2, ws, com, open, boundary, ends(rs), Some(p), end)
            &&& merged_true(dag, h, s2, ws, claims, checks.sf, p)
            &&& claims_true(dag, ws, oc, dag.after_lookups(h, s2, ws, claims).0)
            &&& openings_true(checks.opening, oc, p.edge_proofs@, tasks, opening_seed(h, fd))
        }),
        verifies_parallel(dag, parts, h, s, ws, com, p, checks, r, vend),
    ensures
        r == Some(true),
        vend == end,
{
    let outs = dag.claimed_outputs(ws);
    let cuts = dag.boundary_edges@;
    let first = random_claims(h, s, ws, outs);
    let s1 = drawn_upto(h, s, ws, outs, outs.len());
    let s2 = drawn_upto(h, s1, ws, cuts, cuts.len());
    let boundary = random_claims(h, s1, ws, cuts);
    let init = first + boundary;
    let qs = ends(rs);
    let claims = merged(qs, dag.num_edges as nat);
    let eps = p.edge_proofs@;
    let pps = p.partition_proofs@;
    let oc = dag.openable(ws, com, cuts);
    assert forall|i: int| 0 <= i < init.len() implies (#[trigger] init[i]).0 < dag.num_edges by {
        if i < first.len() {
            assert(init[i] == first[i]);
            assert(outs[i] < ws.len());
        } else {
            assert(init[i] == boundary[i - first.len()]);
            assert(cuts[i - first.len()] < ws.len());
        }
    }
    lemma_extends_final(dag, h, s2, ws, oc, claims);
    let fc = dag.final_claims(h, s2, ws, oc, claims).0;
    assert forall|i: int| 0 <= i < outs.len() implies eps[#[trigger] outs[i] as int].claims.len() > 0
        && eps[outs[i] as int].claims[0]@ == first[i].1 by {
        let e = outs[i] as int;
        assert(outs[i] < ws.len());
        lemma_first_init(outs, first, boundary, i);
        lemma_output_first(dag, parts, h, s2, init, block, reduce, rs, outs, i);
        assert(claims[e] == merged_upto(qs, e, qs.len()));
        assert(fc[e].len() >= claims[e].len());
        assert(fc[e][0] == claims[e][0]);
        assert(edge_claims(eps)[e] == claim_list(eps[e].claims@));
    }
    assert(head_claims(eps, outs) =~= first);
    assert(heads_present(eps, outs));
    assert(sent_claims(p.boundary_evals@, cuts) =~= boundary) by {
        assert forall|i: int| 0 <= i < cuts.len() implies sent_claims(p.boundary_evals@, cuts)[i]
            == boundary[i] by {
            assert(crate::dag::parallel::boundary_eval(boundary[i], p.boundary_evals[i]));
        }
    }
    lemma_redrawn(h, s, ws, outs, outs.len());
    lemma_redrawn(h, s1, ws, cuts, cuts.len());
    assert forall|i: int| 0 <= i < cuts.len() implies #[trigger] cut_sent(dag, p, i) by {
        assert(crate::dag::parallel::boundary_eval(boundary[i], p.boundary_evals[i]));
    }
    lemma_cuts_pass(dag, h, s1, p, cuts.len());
    assert forall|k: int| 0 <= k < rs.len() implies !(#[trigger] part_stuck(
        dag,
        parts,
        h,
        s2,
        init,
        pps,
        checks,
        k,
    )) by {
        assert(honest_part(dag, parts, h, s2, init, block, reduce, k, rs[k]));
        assert(proof_of_pass(qs[k], p.partition_proofs[k]));
        assert(part_passes(dag, parts, h, s2, init, k, rs[k], checks));
        lemma_part_checked(dag, parts, h, s2, init, block, reduce, k, rs[k], pps, checks);
    }
    let (qcs, m) = choose|qcs: Seq<Check>, m: Seq<Option<NodeProof>>|
        m.len() == dag.nodes.len() && #[trigger] all_arrive(dag, parts, h, s2, init, pps, checks, qcs)
            && #[trigger] merges(pps, m) && dag.end_verdict(
            h,
            s2,
            ws,
            oc,
            m,
            joined_claims(qcs, dag.num_edges as nat),
            eps,
            p.range_proof,
            p.two_pow_proof,
            checks.sf,
            checks.opening,
            true && all_verified(qcs) && all_anchored(dag, com, p),
            r,
            vend,
        );
    assert forall|k: int| 0 <= k < qs.len() implies agree_below(
        dag,
        (#[trigger] qs[k]).claims,
        qcs[k].claims,
        0,
    ) && qcs[k].verified by {
        assert(honest_part(dag, parts, h, s2, init, block, reduce, k, rs[k]));
        assert(proof_of_pass(qs[k], p.partition_proofs[k]));
        assert(part_passes(dag, parts, h, s2, init, k, rs[k], checks));
        lemma_part_checked(dag, parts, h, s2, init, block, reduce, k, rs[k], pps, checks);
        assert(part_arrives(dag, parts, h, s2, init, pps, checks, k, qcs[k]));
    }
    assert(all_verified(qcs)) by {
        assert forall|k: int| 0 <= k < qcs.len() implies (#[trigger] qcs[k]).verified by {
            assert(agree_below(dag, qs[k].claims, qcs[k].claims, 0));
        }
    }
    assert(all_anchored(dag, com, p)) by {
        assert forall|i: int|
            0 <= i < dag.boundary_edges.len() && com[(
            #[trigger] dag.boundary_edges[i]) as int] is Some implies anchored(dag, p, i) by {
            let k = first.len() + i;
            let e = cuts[i] as int;
            let c = boundary[i].1;
            assert(init[k] == boundary[i]);
            assert(cuts[i] < ws.len());
            lemma_start_kept(dag, parts, h, s2, init, block, reduce, rs, k);
            assert(claims[e] == merged_upto(qs, e, qs.len()));
            lemma_extends_has(claims, fc, e, c);
            assert(edge_claims(eps)[e] == claim_list(eps[e].claims@));
            assert(c.point.len() == edge_vars(ws, e));
            lemma_pointed_last(fc[e], c);
        }
    }
    let joined = joined_claims(qcs, dag.num_edges as nat);
    assert(agree_below(dag, claims, joined, 0)) by {
        assert forall|e: int| 0 <= e < dag.num_edges implies has_point(#[trigger] joined[e]) == has_point(
            claims[e],
        ) && (crate::dag::lockstep::below(dag, e, 0) ==> joined[e] == claims[e]) by {
            lemma_joined_agree(dag, qs, qcs, e, qs.len());
        }
    }
    lemma_merged_shaped(
        dag,
        parts,
        h,
        s2,
        ws,
        init,
        block,
        reduce,
        rs,
        claims,
        checks.sf,
        p,
        m,
    );
    lemma_end_accepted(
        dag,
        h,
        s2,
        ws,
        oc,
        open,
        checks.opening,
        checks.sf,
        claims,
        joined,
        m,
        eps,
        p.range_proof,
        p.two_pow_proof,
        end,
        r,
        vend,
    );
}

proof fn lemma_boundary_bound(boundaries: Seq<EdgeId>, e: EdgeId)
    ensures
        boundary_index(boundaries, e) matches Some(k) ==> 0 <= k < boundaries.len(),
    decreases boundaries.len(),
{
    if boundaries.len() > 0 {
        lemma_boundary_bound(boundaries.drop_last(), e);
    }
}

proof fn lemma_base_bound(boundaries: Seq<EdgeId>, inputs: Seq<EdgeId>, k: nat)
    requires
        k <= inputs.len(),
    ensures
        base_partition(boundaries, inputs, k) <= boundaries.len(),
    decreases k,
{
    if k > 0 {
        lemma_base_bound(boundaries, inputs, (k - 1) as nat);
        lemma_boundary_bound(boundaries, inputs[k - 1]);
    }
}

/// Every node is in one of the partitions.
proof fn lemma_assigned_bound(dag: Dag, boundaries: Seq<EdgeId>, np: Seq<usize>, v: int)
    requires
        dag.ordered(),
        assigned(dag, boundaries, np),
        0 <= v < dag.nodes.len(),
    ensures
        np[v] <= boundaries.len(),
    decreases v,
{
    let inputs = dag.nodes[v].inputs@;
    lemma_base_bound(boundaries, inputs, inputs.len());
    if np[v] != base_partition(boundaries, inputs, inputs.len()) {
        let (u, e) = choose|u: int, e: int| #[trigger] hands_on(dag, boundaries, u, v, e) && np[u] == np[v];
        assert(dag.reads(v, e));
        assert(dag.writes(u, e));
        lemma_assigned_bound(dag, boundaries, np, u);
    }
}

proof fn lemma_home_is(parts: Seq<PartitionDesc>, n: NodeId, k: int, j: int)
    requires
        0 <= k <= j < parts.len(),
        forall|i: int| 0 <= i < parts.len() ==> ((#[trigger] parts[i]).node_ids@.contains(n) <==> i == j),
    ensures
        home_from(parts, n, k) == Some(j),
    decreases j - k,
{
    assert(parts[k].node_ids@.contains(n) <==> k == j);
    if k < j {
        lemma_home_is(parts, n, k + 1, j);
    }
}

/// Where a graph is cut at boundaries, every other edge that a node writes has a home, and is read in
/// no partition before it.
pub proof fn lemma_partitions_housed(
    dag: Dag,
    boundaries: Seq<EdgeId>,
    parts: Seq<PartitionDesc>,
    edges: Seq<EdgeId>,
)
    requires
        dag.ordered(),
        0 < boundaries.len() < usize::MAX,
        partitions_of(dag, boundaries, parts),
        forall|i: int|
            0 <= i < edges.len() ==> (#[trigger] edges[i]) < dag.num_edges && !boundaries.contains(edges[i])
                && dag.producers[edges[i] as int] is Some,
    ensures
        housed(dag, parts, edges),
{
    let np = choose|np: Seq<usize>| #[trigger] partitioned(dag, boundaries, np, parts);
    assert forall|i: int| 0 <= i < edges.len() implies dag.home(parts, #[trigger] edges[i]) == Some(
        np[dag.producers[edges[i] as int]->0 as int] as int,
    ) by {
        let v = dag.producers[edges[i] as int]->0;
        assert(v < dag.nodes.len());
        lemma_one_partition(dag, boundaries, np, parts, v as int);
        lemma_assigned_bound(dag, boundaries, np, v as int);
        lemma_home_is(parts, v, 0, np[v as int] as int);
    }
    assert forall|i: int, k: int, n: int|
        0 <= i < edges.len() && 0 <= k < parts.len() && #[trigger] dag.reads(n, edges[i] as int)
            && #[trigger] parts[k].node_ids@.contains(n as usize) implies dag.home(parts, edges[i])->0 <= k by {
        assert(edges[i] < dag.num_edges);
        lemma_one_partition(dag, boundaries, np, parts, n);
        lemma_partitions_forward(dag, boundaries, np, n, edges[i] as int);
    }
}

} // verus!
