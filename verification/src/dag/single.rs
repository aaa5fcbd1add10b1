//! Graphs whose nodes write one edge each: every run over blocks that tell the truth about what they
//! read can be followed, and the bits of range checks are the only thing left to hold.
use vstd::prelude::*;

use crate::commit::basefold::{BasefoldCommitmentData, BasefoldOpeningProof};
use crate::dag::accepted::{
    lemma_truth_accepted, lookups_held, range_fits, reduction_passes, truth_passes,
};
use crate::dag::backward::{
    edges_of, node_proof_view, node_proof_views, started, BlockReply, Pass, Scope,
};
use crate::dag::block::{Block, Op};
use crate::dag::check_pass::CheckReply;
use crate::dag::complete::{
    honest_run, lemma_extends_after, lemma_proved_event, lemma_schedule_claims,
    lemma_started_unproved,
};
use crate::dag::last_claim::lemma_event_adds;
use crate::dag::lockstep::{all_followable, followable, happened, lemma_replay};
use crate::dag::lookup_model::all_bits;
use crate::dag::outputs::{drawn_upto, random_claims};
use crate::dag::pass::{
    after, answered, digest_after, happens, is_block, lemma_claims_keep, lemma_edge_bound, local_reply,
    replayed, runs, seen, Event,
};
use crate::dag::prove::{is_whole, proof_from, DagProof};
use crate::dag::truth::{
    all_told, lemma_random_claims_told, lemma_told_after, lemma_told_started, records_told, told, told_of,
    true_block, true_openings, true_reducer,
};
use crate::dag::types::{claim_list, Assertion, Claim, Dag, EdgeId, NodeId};
use crate::dag::verify::{verifies, Checks};
use crate::dag::witness::{Role, Witness};
use crate::field::GoldilocksExt2;
use crate::sumcheck::SumcheckProof;
use crate::transcript::Digest;

verus! {

/// Every node writes one edge.
#[verifier::opaque]
pub open spec fn single_outputs(dag: Dag) -> bool {
    forall|v: int| 0 <= v < dag.nodes.len() ==> (#[trigger] dag.nodes[v]).outputs.len() == 1
}

/// The block answers with claims about edges that its node reads, or that it writes where writers
/// make claims about them.
pub open spec fn asks_inputs<B: Fn(NodeId, &Vec<EdgeId>, &Vec<Claim>, Digest) -> BlockReply>(
    dag: Dag,
    block: B,
) -> bool {
    forall|u: NodeId, local: Seq<Assertion>, s: Digest, r: BlockReply| #[trigger]
        answered(block, u, edges_of(dag, u), local, s, r) && u < dag.nodes.len() ==> about_inputs(
            dag,
            u,
            claim_list(r.claims@),
        )
}

/// The claims are about edges that node `u` reads, or that it writes where writers make claims about
/// them.
pub open spec fn about_inputs(dag: Dag, u: NodeId, claims: Seq<Assertion>) -> bool {
    forall|i: int|
        0 <= i < claims.len() ==> dag.nodes[u as int].inputs@.contains((#[trigger] claims[i]).edge_id) || (
        dag.self_claim_edges@.contains(claims[i].edge_id) && dag.nodes[u as int].outputs@.contains(
            claims[i].edge_id,
        ))
}

/// The reducer answers with one claim.
pub open spec fn reduces_to_one<R: Fn(NodeId, &Vec<EdgeId>, &Vec<Claim>, Digest) -> BlockReply>(
    dag: Dag,
    reduce: R,
) -> bool {
    forall|u: NodeId, es: Seq<EdgeId>, local: Seq<Assertion>, s: Digest, r: BlockReply| #[trigger]
        answered(reduce, u, es, local, s, r) && u < dag.nodes.len() ==> r.claims.len() == 1
}

/// Whoever waits has a claim about what it writes.
pub open spec fn waiting_claimed(dag: Dag, p: Pass) -> bool {
    forall|v: int|
        0 <= v < dag.nodes.len() && #[trigger] p.pending[v] ==> p.claims[dag.nodes[v].outputs[0] as int].len()
            > 0
}

/// Who waits after scheduling waited before, or writes an edge that is named.
proof fn lemma_schedule_waits(dag: Dag, scope: Scope, p: Pass, u: NodeId, cs: Seq<Assertion>, v: int)
    requires
        dag.ordered(),
        p.wf(dag),
        0 <= v < dag.nodes.len(),
        forall|i: int| 0 <= i < cs.len() ==> (#[trigger] cs[i]).edge_id < dag.num_edges,
        p.schedule_all(dag, scope, u, cs).pending[v],
    ensures
        p.schedule_all(dag, scope, u, cs).pending.len() == p.pending.len(),
        p.pending[v] || exists|i: int|
            0 <= i < cs.len() && dag.producers[(#[trigger] cs[i]).edge_id as int] == Some(v as usize),
    decreases cs.len(),
{
    if cs.len() > 0 {
        let head = cs.drop_last();
        assert forall|i: int| 0 <= i < head.len() implies (#[trigger] head[i]).edge_id < dag.num_edges by {
            assert(head[i] == cs[i]);
        }
        lemma_schedule_len(dag, scope, p, u, head);
        let mid = p.schedule_all(dag, scope, u, head);
        let last = cs[cs.len() - 1];
        assert(last == cs.last());
        if mid.pending[v] {
            lemma_schedule_waits(dag, scope, p, u, head, v);
            if !p.pending[v] {
                let i = choose|i: int|
                    0 <= i < head.len() && dag.producers[(#[trigger] head[i]).edge_id as int] == Some(
                        v as usize,
                    );
                assert(cs[i] == head[i]);
            }
        } else {
            assert(dag.producers[last.edge_id as int] == Some(v as usize));
        }
    }
    lemma_schedule_len(dag, scope, p, u, cs);
}

proof fn lemma_schedule_len(dag: Dag, scope: Scope, p: Pass, u: NodeId, cs: Seq<Assertion>)
    requires
        dag.ordered(),
        p.wf(dag),
        forall|i: int| 0 <= i < cs.len() ==> (#[trigger] cs[i]).edge_id < dag.num_edges,
    ensures
        p.schedule_all(dag, scope, u, cs).pending.len() == p.pending.len(),
    decreases cs.len(),
{
    if cs.len() > 0 {
        let head = cs.drop_last();
        assert forall|i: int| 0 <= i < head.len() implies (#[trigger] head[i]).edge_id < dag.num_edges by {
            assert(head[i] == cs[i]);
        }
        lemma_schedule_len(dag, scope, p, u, head);
        assert(cs[cs.len() - 1].edge_id < dag.num_edges);
        let e = cs.last().edge_id as int;
        assert(dag.producers[e] matches Some(v) ==> v < dag.nodes.len());
    }
}

/// New claims are among the claims about the edges that they name.
proof fn lemma_claims_added(p: Pass, new: Seq<Assertion>, i: int)
    requires
        0 <= i < new.len(),
        forall|i: int| 0 <= i < new.len() ==> (#[trigger] new[i]).edge_id < p.claims.len(),
    ensures
        p.with_claims(new).claims[new[i].edge_id as int].len() > 0,
    decreases new.len(),
{
    let head = new.drop_last();
    assert forall|i: int| 0 <= i < head.len() implies (#[trigger] head[i]).edge_id < p.claims.len() by {
        assert(head[i] == new[i]);
    }
    lemma_claims_keep(p, head);
    assert(new[i].edge_id < p.claims.len());
    assert(new[new.len() - 1].edge_id < p.claims.len());
    if i < head.len() {
        assert(head[i] == new[i]);
        lemma_claims_added(p, head, i);
    }
}

/// The only output of the writer of an edge is the edge.
proof fn lemma_sole_output(dag: Dag, e: int, v: int)
    requires
        dag.ordered(),
        single_outputs(dag),
        0 <= e < dag.num_edges,
        0 <= v < dag.nodes.len(),
        dag.producers[e] == Some(v as usize),
    ensures
        dag.nodes[v].outputs[0] == e,
{
    reveal(single_outputs);
    assert(dag.nodes[v].outputs.len() == 1);
    let w = dag.writes(v, e);
    assert(w);
    let k = choose|k: int| 0 <= k < dag.nodes[v].outputs.len() && dag.nodes[v].outputs@[k] == e as usize;
    assert(k == 0);
}

/// An event keeps the claims about what waits.
proof fn lemma_waiting_after(dag: Dag, scope: Scope, p: Pass, ev: Event)
    requires
        dag.ordered(),
        single_outputs(dag),
        scope.wf(&dag),
        p.wf(dag),
        waiting_claimed(dag, p),
        ev.node < dag.nodes.len(),
        local_reply(dag, ev.node, claim_list(ev.reply.claims@)),
    ensures
        waiting_claimed(dag, after(dag, scope, p, ev)),
{
    reveal(single_outputs);
    let u = ev.node;
    let new = claim_list(ev.reply.claims@);
    let q = p.take(u);
    let local = q.local_claims(dag, u);
    assert(dag.nodes[u as int].outputs.len() == 1);
    assert(dag.nodes[u as int].outputs[0] < dag.num_edges);
    let p1 = match ev.reduction {
        Some(r) => q.reduced(dag, u, r.proofs, claim_list(r.claims@)),
        None => q,
    };
    let p2 = Pass {
        node_proofs: p1.node_proofs.update(
            u as int,
            Some((ev.reply.proofs, new + seen(local, ev.reduction))),
        ),
        ..p1
    };
    assert forall|i: int| 0 <= i < new.len() implies (#[trigger] new[i]).edge_id < dag.num_edges by {
        assert(edges_of(dag, u).contains(new[i].edge_id));
        lemma_edge_bound(dag, u, new[i].edge_id);
    }
    let p3 = p2.with_claims(new);
    lemma_claims_keep(p2, new);
    lemma_schedule_claims(dag, scope, p3, u, new);
    lemma_extends_after(dag, scope, p, ev);
    let r = after(dag, scope, p, ev);
    assert(r == p3.schedule_all(dag, scope, u, new));
    assert forall|v: int| 0 <= v < dag.nodes.len() && #[trigger] r.pending[v] implies
        r.claims[dag.nodes[v].outputs[0] as int].len() > 0 by {
        lemma_schedule_waits(dag, scope, p3, u, new, v);
        assert(dag.nodes[v].outputs.len() == 1);
        assert(dag.nodes[v].outputs[0] < dag.num_edges);
        let out = dag.nodes[v].outputs[0] as int;
        if p3.pending[v] {
            assert(p.pending[v]);
            assert(r.claims[out].len() >= p.claims[out].len());
        } else {
            let i = choose|i: int|
                0 <= i < new.len() && dag.producers[(#[trigger] new[i]).edge_id as int] == Some(v as usize);
            lemma_sole_output(dag, new[i].edge_id as int, v);
            lemma_claims_added(p2, new, i);
        }
    }
}

/// A pass starts with claims about what waits.
proof fn lemma_waiting_started(dag: Dag, scope: Scope, init: Seq<(EdgeId, Assertion)>, k: nat)
    requires
        dag.ordered(),
        single_outputs(dag),
        scope.wf(&dag),
        k <= init.len(),
        forall|i: int| 0 <= i < init.len() ==> (#[trigger] init[i]).0 < dag.num_edges,
    ensures
        started(dag, scope, init, k).wf(dag),
        waiting_claimed(dag, started(dag, scope, init, k)),
    decreases k,
{
    reveal(single_outputs);
    if k > 0 {
        lemma_waiting_started(dag, scope, init, (k - 1) as nat);
        let before = started(dag, scope, init, (k - 1) as nat);
        let now = started(dag, scope, init, k);
        assert(init[k - 1].0 < dag.num_edges);
        let e = init[k - 1].0 as int;
        assert(dag.producers[e] matches Some(u) ==> u < dag.nodes.len());
        assert forall|v: int| 0 <= v < dag.nodes.len() && #[trigger] now.pending[v] implies
            now.claims[dag.nodes[v].outputs[0] as int].len() > 0 by {
            assert(dag.nodes[v].outputs.len() == 1);
            assert(dag.nodes[v].outputs[0] < dag.num_edges);
            if !before.pending[v] {
                assert(dag.producers[e] == Some(v as usize));
                lemma_sole_output(dag, e, v);
            }
        }
    }
}

/// An event over blocks that tell the truth about what they read can be followed.
proof fn lemma_event_followable<
    B: Fn(NodeId, &Vec<EdgeId>, &Vec<Claim>, Digest) -> BlockReply,
    R: Fn(NodeId, &Vec<EdgeId>, &Vec<Claim>, Digest) -> BlockReply,
>(dag: Dag, ws: Seq<Vec<Witness>>, block: B, reduce: R, p: Pass, s: Digest, ev: Event)
    requires
        dag.ordered(),
        single_outputs(dag),
        p.wf(dag),
        waiting_claimed(dag, p),
        all_told(ws, p.claims),
        asks_inputs(dag, block),
        reduces_to_one(dag, reduce),
        true_reducer(dag, ws, reduce),
        happens(dag, block, reduce, p, s, ev),
    ensures
        followable(dag, p, ev),
{
    reveal(single_outputs);
    let u = ev.node;
    let node = dag.nodes[u as int];
    let out = node.outputs[0];
    assert(dag.nodes[u as int].outputs.len() == 1);
    assert(dag.nodes[u as int].outputs[0] < dag.num_edges);
    assert(p.pending[u as int]);
    let local = p.local_claims(dag, u);
    assert(p.output_claims(node.outputs@, 0) =~= Seq::empty());
    assert(p.output_claims(node.outputs@, 1) =~= p.claims[out as int]);
    assert(local == p.claims[out as int]);
    assert(told_of(ws, out as int, p.claims[out as int]));
    let shown = seen(local, ev.reduction);
    if ev.reduction is Some {
        let r = ev.reduction->0;
        assert(answered(reduce, u, seq![node.outputs@.last()], local, s, r));
        assert(told_of(ws, out as int, claim_list(r.claims@)));
        assert(r.claims.len() == 1);
    }
    let mid = match ev.reduction {
        Some(r) => r.state,
        None => s,
    };
    assert(answered(block, u, edges_of(dag, u), shown, mid, ev.reply));
    assert(about_inputs(dag, u, claim_list(ev.reply.claims@)));
    assert(node.outputs@.contains(out));
    assert forall|i: int| 0 <= i < shown.len() implies node.outputs@.contains((#[trigger] shown[i]).edge_id)
        && (dag.self_claim_edges@.contains(shown[i].edge_id) ==> shown[i].edge_id == node.outputs[0]) by {
        assert(told_of(ws, out as int, shown));
    }
}

/// Every run over blocks that tell the truth about what they read can be followed, and keeps the claims
/// true.
proof fn lemma_run_followable<
    B: Fn(NodeId, &Vec<EdgeId>, &Vec<Claim>, Digest) -> BlockReply,
    R: Fn(NodeId, &Vec<EdgeId>, &Vec<Claim>, Digest) -> BlockReply,
>(
    dag: Dag,
    scope: Scope,
    ws: Seq<Vec<Witness>>,
    block: B,
    reduce: R,
    p: Pass,
    s: Digest,
    evs: Seq<Event>,
    k: nat,
)
    requires
        dag.ordered(),
        single_outputs(dag),
        scope.wf(&dag),
        p.wf(dag),
        waiting_claimed(dag, p),
        all_told(ws, p.claims),
        records_told(ws, p.node_proofs),
        is_block(dag, block),
        asks_inputs(dag, block),
        reduces_to_one(dag, reduce),
        true_block(dag, ws, block),
        true_reducer(dag, ws, reduce),
        k <= evs.len(),
        happened(dag, scope, block, reduce, p, s, evs, k),
    ensures
        waiting_claimed(dag, replayed(dag, scope, p, evs, k)),
        all_told(ws, replayed(dag, scope, p, evs, k).claims),
        records_told(ws, replayed(dag, scope, p, evs, k).node_proofs),
        forall|j: int|
            0 <= j < k ==> followable(dag, replayed(dag, scope, p, evs, j as nat), #[trigger] evs[j]),
    decreases k,
{
    if k > 0 {
        let m = (k - 1) as nat;
        lemma_run_followable(dag, scope, ws, block, reduce, p, s, evs, m);
        lemma_replay(dag, scope, block, reduce, p, s, evs, m);
        lemma_replay(dag, scope, block, reduce, p, s, evs, k);
        let mid = replayed(dag, scope, p, evs, m);
        let d = digest_after(s, evs, m);
        assert(happens(dag, block, reduce, mid, d, evs[m as int]));
        lemma_event_followable(dag, ws, block, reduce, mid, d, evs[m as int]);
        lemma_told_after(dag, scope, ws, block, reduce, mid, d, evs[m as int]);
        lemma_waiting_after(dag, scope, mid, evs[m as int]);
    }
}

/// No node reads the edge or makes claims about it as its writer, and it is no output.
#[verifier::opaque]
pub open spec fn silent(dag: Dag, ws: Seq<Vec<Witness>>, e: EdgeId) -> bool {
    &&& forall|v: int| 0 <= v < dag.nodes.len() ==> !(#[trigger] dag.nodes[v]).inputs@.contains(e)
    &&& !dag.self_claim_edges@.contains(e)
    &&& ws[e as int][0].role != Role::Output
}

proof fn lemma_silent_node(dag: Dag, ws: Seq<Vec<Witness>>, u: NodeId, e: EdgeId)
    requires
        silent(dag, ws, e),
        u < dag.nodes.len(),
    ensures
        !dag.nodes[u as int].inputs@.contains(e),
        !dag.self_claim_edges@.contains(e),
{
    reveal(silent);
}

/// A run makes no claims about a silent edge, so that its writer is never taken.
proof fn lemma_silent_replay<
    B: Fn(NodeId, &Vec<EdgeId>, &Vec<Claim>, Digest) -> BlockReply,
    R: Fn(NodeId, &Vec<EdgeId>, &Vec<Claim>, Digest) -> BlockReply,
>(
    dag: Dag,
    scope: Scope,
    ws: Seq<Vec<Witness>>,
    block: B,
    reduce: R,
    p: Pass,
    s: Digest,
    evs: Seq<Event>,
    k: nat,
    e: EdgeId,
)
    requires
        dag.ordered(),
        single_outputs(dag),
        scope.wf(&dag),
        p.wf(dag),
        is_block(dag, block),
        k <= evs.len(),
        happened(dag, scope, block, reduce, p, s, evs, k),
        all_followable(dag, scope, p, evs),
        e < dag.num_edges,
        silent(dag, ws, e),
        p.claims[e as int].len() == 0,
    ensures
        replayed(dag, scope, p, evs, k).claims[e as int].len() == 0,
        forall|j: int| 0 <= j < k ==> dag.nodes[(#[trigger] evs[j]).node as int].outputs[0] != e,
    decreases k,
{
    if k > 0 {
        let m = (k - 1) as nat;
        lemma_silent_replay(dag, scope, ws, block, reduce, p, s, evs, m, e);
        lemma_replay(dag, scope, block, reduce, p, s, evs, m);
        lemma_replay(dag, scope, block, reduce, p, s, evs, k);
        let mid = replayed(dag, scope, p, evs, m);
        let ev = evs[m as int];
        assert(followable(dag, mid, evs[m as int]));
        lemma_silent_node(dag, ws, ev.node, e);
        lemma_event_adds(dag, scope, mid, ev, e);
    }
}

/// The starting claims are about outputs.
proof fn lemma_silent_started(dag: Dag, scope: Scope, init: Seq<(EdgeId, Assertion)>, k: nat, e: EdgeId)
    requires
        k <= init.len(),
        e < dag.num_edges,
        forall|i: int| 0 <= i < init.len() ==> (#[trigger] init[i]).0 < dag.num_edges && init[i].0 != e,
    ensures
        started(dag, scope, init, k).claims.len() == dag.num_edges,
        started(dag, scope, init, k).claims[e as int].len() == 0,
    decreases k,
{
    if k > 0 {
        lemma_silent_started(dag, scope, init, (k - 1) as nat, e);
        assert(init[k - 1].0 < dag.num_edges);
    }
}

/// The claimed outputs are outputs.
proof fn lemma_outputs_role(dag: Dag, ws: Seq<Vec<Witness>>, k: nat)
    requires
        k <= dag.output_ports.len(),
    ensures
        forall|i: int|
            0 <= i < dag.outputs_upto(ws, k).len() ==> ws[(#[trigger] dag.outputs_upto(ws, k)[i]) as int][0].role
                == Role::Output,
    decreases k,
{
    if k > 0 {
        lemma_outputs_role(dag, ws, (k - 1) as nat);
        let rest = dag.outputs_upto(ws, (k - 1) as nat);
        let all = dag.outputs_upto(ws, k);
        assert forall|i: int| 0 <= i < all.len() implies ws[(#[trigger] all[i]) as int][0].role
            == Role::Output by {
            if i < rest.len() {
                assert(all[i] == rest[i]);
            }
        }
    }
}

/// The only lookups are checks that numbers are not negative; their bits are bits, and nothing else
/// touches them.
pub open spec fn nonnegative_only(dag: Dag, ws: Seq<Vec<Witness>>) -> bool {
    &&& dag.two_pow.len() == 0
    &&& forall|i: int|
        0 <= i < dag.range.len() ==> {
            &&& dag.nodes[(#[trigger] dag.range[i]) as int].kind@ == Block::Op(Op::NonNegative)
            &&& silent(dag, ws, dag.range_aux(i))
            &&& all_bits(ws[dag.range_aux(i) as int][0].data->0->Dense_0.evaluations@)
        }
}

/// The verifier accepts what a prover makes of a graph whose nodes write one edge each and whose only
/// lookups are checks that numbers are not negative: where the blocks, reducers and openings tell the
/// truth about the tensors, the blocks ask about what they read, and the given checks accept true
/// replies, every verdict on a proof from any run is that it is right, at the prover's digest. Output
/// ports are taken to be listed once.
pub proof fn lemma_single_accepted<
    B: Fn(NodeId, &Vec<EdgeId>, &Vec<Claim>, Digest) -> BlockReply,
    R: Fn(NodeId, &Vec<EdgeId>, &Vec<Claim>, Digest) -> BlockReply,
    O: Fn(usize, EdgeId, &Claim, GoldilocksExt2) -> BasefoldOpeningProof,
    V: Fn(NodeId, &Vec<Claim>, &Vec<SumcheckProof>, Digest) -> CheckReply,
    W: Fn(NodeId, &Vec<Claim>, &Vec<SumcheckProof>, Digest) -> CheckReply,
    P: Fn(usize, &BasefoldCommitmentData, &Claim, &BasefoldOpeningProof, GoldilocksExt2) -> bool,
>(
    dag: Dag,
    h: spec_fn(Digest, Digest) -> Digest,
    s: Digest,
    ws: Seq<Vec<Witness>>,
    com: Seq<Option<BasefoldCommitmentData>>,
    block: B,
    reduce: R,
    open: O,
    scope: Scope,
    evs: Seq<Event>,
    q: Pass,
    t: Digest,
    p: DagProof,
    end: Digest,
    checks: Checks<V, W, P>,
    r: Option<bool>,
    vend: Digest,
)
    requires
        dag.provable(ws, com),
        single_outputs(dag),
        nonnegative_only(dag, ws),
        dag.claimed_outputs(ws).no_duplicates(),
        is_block(dag, block),
        asks_inputs(dag, block),
        reduces_to_one(dag, reduce),
        true_block(dag, ws, block),
        true_reducer(dag, ws, reduce),
        true_openings(ws, dag.openable(ws, com, Seq::empty()), open, checks.opening),
        truth_passes(dag, ws, block, checks.block),
        reduction_passes(dag, ws, reduce, checks.reducer),
        is_whole(dag, scope),
        ({
            let outs = dag.claimed_outputs(ws);
            let init = random_claims(h, s, ws, outs);
            runs(
                dag,
                scope,
                block,
                reduce,
                started(dag, scope, init, init.len()),
                drawn_upto(h, s, ws, outs, outs.len()),
                evs,
                q,
                t,
            )
        }),
        proof_from(dag, h, ws, com, open, q, t, Some(p), end),
        verifies(dag, h, s, ws, com, p.0@, p.1@, p.2, p.3, p.4@, checks, r, vend),
    ensures
        r == Some(true),
        vend == end,
{
    reveal(silent);
    reveal(single_outputs);
    let outs = dag.claimed_outputs(ws);
    let init = random_claims(h, s, ws, outs);
    let s1 = drawn_upto(h, s, ws, outs, outs.len());
    let p0 = started(dag, scope, init, init.len());
    let n = evs.len();
    lemma_random_claims_told(h, s, ws, outs);
    lemma_outputs_role(dag, ws, dag.output_ports.len() as nat);
    assert forall|i: int| 0 <= i < init.len() implies (#[trigger] init[i]).0 < dag.num_edges
        && init[i].1.edge_id == init[i].0 && told(ws, init[i].1) by {
        assert(outs[i] < ws.len());
    }
    lemma_told_started(dag, scope, ws, init, init.len());
    lemma_started_unproved(dag, scope, init, init.len());
    lemma_waiting_started(dag, scope, init, init.len());
    assert(happened(dag, scope, block, reduce, p0, s1, evs, n));
    lemma_run_followable(dag, scope, ws, block, reduce, p0, s1, evs, n);
    assert(all_followable(dag, scope, p0, evs));
    assert(honest_run(dag, h, s, ws, block, reduce, scope, evs, q, t));
    lemma_replay(dag, scope, block, reduce, p0, s1, evs, n);
    assert forall|i: int| 0 <= i < dag.range.len() implies #[trigger] range_fits(
        dag,
        ws,
        q.claims,
        p.0@,
        checks.sf,
        i,
    ) by {
        assert(dag.range[i] < dag.nodes.len());
        let v = dag.range[i] as int;
        let e = dag.range_aux(i);
        assert(dag.nodes[v].kind@ == Block::Op(Op::NonNegative));
        assert(silent(dag, ws, e));
        assert(dag.nodes[v].outputs.len() == 1);
        assert(dag.nodes[v]@.aux_slot() == 0);
        assert(dag.nodes[v].outputs[0] < dag.num_edges);
        assert forall|j: int| 0 <= j < init.len() implies (#[trigger] init[j]).0 < dag.num_edges
            && init[j].0 != e by {
            assert(ws[outs[j] as int][0].role == Role::Output);
        }
        lemma_silent_started(dag, scope, init, init.len(), e);
        lemma_silent_replay(dag, scope, ws, block, reduce, p0, s1, evs, n, e);
        assert(q.node_proofs[v] is None) by {
            if q.node_proofs[v] is Some {
                lemma_proved_event(dag, scope, block, reduce, p0, s1, evs, n, v);
                let k = choose|k: int| 0 <= k < n && (#[trigger] evs[k]).node == v;
                assert(dag.nodes[evs[k].node as int].outputs[0] != e);
            }
        }
        assert(node_proof_views(p.0@)[v] == node_proof_view(p.0[v]));
    }
    assert(lookups_held(dag, ws, q.claims, p.0@, checks.sf));
    lemma_truth_accepted(
        dag,
        h,
        s,
        ws,
        com,
        block,
        reduce,
        open,
        scope,
        evs,
        q,
        t,
        p,
        end,
        checks,
        r,
        vend,
    );
}

} // verus!
