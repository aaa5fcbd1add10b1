//! Checking the proofs of the partitions of a graph and of what joins them.
use vstd::prelude::*;

use crate::commit::basefold::{BasefoldCommitmentData, BasefoldOpeningProof};
use crate::dag::backward::{clone_claims, starting, Scope};
use crate::dag::check_finish::opening_judged;
use crate::dag::check_pass::{is_check, Check, CheckReply, Checking};
use crate::dag::finish::opening_seed;
use crate::dag::openings::{edge_claims, find_last_pointed, last_pointed, witnesses_ok};
use crate::dag::parallel::{fork_digest, is_part};
use crate::dag::partition::PartitionDesc;
use crate::dag::reduction::same_point;
use crate::dag::types::{
    claim_list, claim_lists, claims_of, clone_point, Assertion, Claim, Dag, EdgeId, EdgeProof, NodeId,
    NodeProof, ParallelProof, PartitionProof,
};
use crate::dag::verify::{
    arrives, has_heads, head_claims, heads_present, redraw, redraw_heads, redrawn, stuck, Checks,
};
use crate::dag::witness::Witness;
use crate::field::GoldilocksExt2;
use crate::sumcheck::SumcheckProof;
use crate::transcript::{Digest, Transcript};

verus! {

/// The claims about the boundaries, as they were sent.
pub open spec fn sent_claims(
    evals: Seq<(EdgeId, Vec<GoldilocksExt2>, GoldilocksExt2)>,
    cuts: Seq<EdgeId>,
) -> Seq<(EdgeId, Assertion)> {
    Seq::new(
        cuts.len(),
        |i: int|
            (
                cuts[i],
                Assertion {
                    edge_id: cuts[i],
                    sparse_id: 0,
                    point: evals[i].1@,
                    eval: evals[i].2,
                },
            ),
    )
}

/// The claims about edge `e` of the first `k` checks, one after the other.
pub open spec fn joined_upto(qs: Seq<Check>, e: int, k: nat) -> Seq<Assertion>
    decreases k,
{
    if k == 0 {
        Seq::empty()
    } else {
        joined_upto(qs, e, (k - 1) as nat) + qs[k - 1].claims[e]
    }
}

/// The claims of all checks, edge by edge.
pub open spec fn joined_claims(qs: Seq<Check>, num_edges: nat) -> Seq<Seq<Assertion>> {
    Seq::new(num_edges, |e: int| joined_upto(qs, e, qs.len()))
}

/// All checks have passed.
pub open spec fn all_verified(qs: Seq<Check>) -> bool {
    forall|k: int| 0 <= k < qs.len() ==> (#[trigger] qs[k]).verified
}

/// The proof of node `n` in the last of the first `k` partitions that proves it.
pub open spec fn last_proof(pps: Seq<PartitionProof>, n: int, k: nat) -> Option<NodeProof>
    decreases k,
{
    if k == 0 {
        None
    } else if pps[k - 1].node_proofs[n] is Some {
        pps[k - 1].node_proofs[n]
    } else {
        last_proof(pps, n, (k - 1) as nat)
    }
}

/// The merged list has, for every node, the claims of the last partition that proves it.
pub open spec fn merges(pps: Seq<PartitionProof>, m: Seq<Option<NodeProof>>) -> bool {
    forall|n: int|
        0 <= n < m.len() ==> {
            let p = last_proof(pps, n, pps.len());
            &&& (#[trigger] m[n]) is Some <==> p is Some
            &&& claim_list(claims_of(m[n])) == claim_list(claims_of(p))
        }
}

/// The check of partition `k` gets stuck.
pub open spec fn part_stuck<
    V: Fn(NodeId, &Vec<Claim>, &Vec<SumcheckProof>, Digest) -> CheckReply,
    W: Fn(NodeId, &Vec<Claim>, &Vec<SumcheckProof>, Digest) -> CheckReply,
    P: Fn(usize, &BasefoldCommitmentData, &Claim, &BasefoldOpeningProof, GoldilocksExt2) -> bool,
>(
    dag: Dag,
    parts: Seq<PartitionDesc>,
    h: spec_fn(Digest, Digest) -> Digest,
    s: Digest,
    init: Seq<(EdgeId, Assertion)>,
    pps: Seq<PartitionProof>,
    checks: Checks<V, W, P>,
    k: int,
) -> bool {
    exists|scope: Scope|
        is_part(dag, parts[k], scope) && #[trigger] stuck(
            dag,
            pps[k].node_proofs@,
            pps[k].reducer_proofs@,
            checks,
            scope,
            dag.routed(parts, init, k),
            fork_digest(h, s, k),
        )
}

/// The check of partition `k` ends in `q`.
pub open spec fn part_arrives<
    V: Fn(NodeId, &Vec<Claim>, &Vec<SumcheckProof>, Digest) -> CheckReply,
    W: Fn(NodeId, &Vec<Claim>, &Vec<SumcheckProof>, Digest) -> CheckReply,
    P: Fn(usize, &BasefoldCommitmentData, &Claim, &BasefoldOpeningProof, GoldilocksExt2) -> bool,
>(
    dag: Dag,
    parts: Seq<PartitionDesc>,
    h: spec_fn(Digest, Digest) -> Digest,
    s: Digest,
    init: Seq<(EdgeId, Assertion)>,
    pps: Seq<PartitionProof>,
    checks: Checks<V, W, P>,
    k: int,
    q: Check,
) -> bool {
    exists|scope: Scope, t: Digest|
        is_part(dag, parts[k], scope) && #[trigger] arrives(
            dag,
            pps[k].node_proofs@,
            pps[k].reducer_proofs@,
            checks,
            scope,
            dag.routed(parts, init, k),
            fork_digest(h, s, k),
            q,
            t,
        )
}

/// The checks of all partitions end.
pub open spec fn all_arrive<
    V: Fn(NodeId, &Vec<Claim>, &Vec<SumcheckProof>, Digest) -> CheckReply,
    W: Fn(NodeId, &Vec<Claim>, &Vec<SumcheckProof>, Digest) -> CheckReply,
    P: Fn(usize, &BasefoldCommitmentData, &Claim, &BasefoldOpeningProof, GoldilocksExt2) -> bool,
>(
    dag: Dag,
    parts: Seq<PartitionDesc>,
    h: spec_fn(Digest, Digest) -> Digest,
    s: Digest,
    init: Seq<(EdgeId, Assertion)>,
    pps: Seq<PartitionProof>,
    checks: Checks<V, W, P>,
    qs: Seq<Check>,
) -> bool {
    &&& qs.len() == parts.len()
    &&& forall|k: int|
        0 <= k < qs.len() ==> part_arrives(
            dag,
            parts,
            h,
            s,
            init,
            pps,
            checks,
            k,
            #[trigger] qs[k],
        )
}

/// A claim about boundary `i` was sent.
pub open spec fn cut_sent(dag: Dag, proof: ParallelProof, i: int) -> bool {
    i < proof.boundary_evals.len() && proof.boundary_evals[i].0 == dag.boundary_edges[i]
}

/// Number of leading boundaries, out of `k`, about which claims were sent, at the points that are
/// drawn.
pub open spec fn cuts_passed(
    dag: Dag,
    h: spec_fn(Digest, Digest) -> Digest,
    s: Digest,
    proof: ParallelProof,
    k: nat,
) -> nat
    decreases k,
{
    if k == 0 {
        0
    } else {
        let p = cuts_passed(dag, h, s, proof, (k - 1) as nat);
        if p == k - 1 && cut_sent(dag, proof, k - 1) && redrawn(
            h,
            s,
            sent_claims(proof.boundary_evals@, dag.boundary_edges@),
            k,
        ).0 {
            k
        } else {
            p
        }
    }
}

/// A boundary that does not pass stops the count.
proof fn lemma_cuts_stop(
    dag: Dag,
    h: spec_fn(Digest, Digest) -> Digest,
    s: Digest,
    proof: ParallelProof,
    i: nat,
    k: nat,
)
    requires
        i < k,
        cuts_passed(dag, h, s, proof, i) == i,
        cuts_passed(dag, h, s, proof, (i + 1) as nat) == i,
    ensures
        cuts_passed(dag, h, s, proof, k) == i,
    decreases k,
{
    if k > i + 1 {
        lemma_cuts_stop(dag, h, s, proof, i, (k - 1) as nat);
    }
}

/// Boundaries whose claims were all sent, at the points that are drawn, pass.
pub proof fn lemma_cuts_pass(
    dag: Dag,
    h: spec_fn(Digest, Digest) -> Digest,
    s: Digest,
    proof: ParallelProof,
    k: nat,
)
    requires
        k <= dag.boundary_edges.len(),
        forall|i: int| 0 <= i < k ==> #[trigger] cut_sent(dag, proof, i),
        redrawn(h, s, sent_claims(proof.boundary_evals@, dag.boundary_edges@), k).0,
    ensures
        cuts_passed(dag, h, s, proof, k) == k,
    decreases k,
{
    if k > 0 {
        lemma_cuts_pass(dag, h, s, proof, (k - 1) as nat);
        assert(cut_sent(dag, proof, k - 1));
    }
}

/// The outcome `r` of the check of a proof in partitions: nothing where a check comes upon something
/// that is missing, and else the verdict. The boundaries are gone through in order before the
/// partitions, and the first claim at another point than the one that is drawn decides.
pub open spec fn verifies_parallel<
    V: Fn(NodeId, &Vec<Claim>, &Vec<SumcheckProof>, Digest) -> CheckReply,
    W: Fn(NodeId, &Vec<Claim>, &Vec<SumcheckProof>, Digest) -> CheckReply,
    P: Fn(usize, &BasefoldCommitmentData, &Claim, &BasefoldOpeningProof, GoldilocksExt2) -> bool,
>(
    dag: Dag,
    parts: Seq<PartitionDesc>,
    h: spec_fn(Digest, Digest) -> Digest,
    s: Digest,
    ws: Seq<Vec<Witness>>,
    com: Seq<Option<BasefoldCommitmentData>>,
    proof: ParallelProof,
    checks: Checks<V, W, P>,
    r: Option<bool>,
    end: Digest,
) -> bool {
    let outs = dag.claimed_outputs(ws);
    let eps = proof.edge_proofs@;
    let (ok, s1, s2, init) = parallel_start(dag, h, s, ws, proof);
    let pps = proof.partition_proofs@;
    let passed = cuts_passed(dag, h, s1, proof, dag.boundary_edges.len() as nat);
    if !heads_present(eps, outs) {
        r is None
    } else if passed < dag.boundary_edges.len() {
        if cut_sent(dag, proof, passed as int) {
            r == Some(false) && end == redrawn(
                h,
                s1,
                sent_claims(proof.boundary_evals@, dag.boundary_edges@),
                passed + 1,
            ).1
        } else {
            r is None
        }
    } else {
        ||| r is None && exists|k: int|
            0 <= k < parts.len() && #[trigger] part_stuck(dag, parts, h, s2, init, pps, checks, k)
        ||| exists|qs: Seq<Check>, m: Seq<Option<NodeProof>>|
            m.len() == dag.nodes.len() && #[trigger] all_arrive(
                dag,
                parts,
                h,
                s2,
                init,
                pps,
                checks,
                qs,
            ) && #[trigger] merges(pps, m) && dag.end_verdict(
                h,
                s2,
                ws,
                dag.openable(ws, com, dag.boundary_edges@),
                m,
                joined_claims(qs, dag.num_edges as nat),
                eps,
                proof.range_proof,
                proof.two_pow_proof,
                checks.sf,
                checks.opening,
                ok && all_verified(qs) && all_anchored(dag, com, proof),
                r,
                end,
            )
    }
}

/// A partition whose check got stuck is a witness.
proof fn lemma_part_stuck<
    V: Fn(NodeId, &Vec<Claim>, &Vec<SumcheckProof>, Digest) -> CheckReply,
    W: Fn(NodeId, &Vec<Claim>, &Vec<SumcheckProof>, Digest) -> CheckReply,
    P: Fn(usize, &BasefoldCommitmentData, &Claim, &BasefoldOpeningProof, GoldilocksExt2) -> bool,
>(
    dag: Dag,
    parts: Seq<PartitionDesc>,
    h: spec_fn(Digest, Digest) -> Digest,
    s: Digest,
    init: Seq<(EdgeId, Assertion)>,
    pps: Seq<PartitionProof>,
    checks: Checks<V, W, P>,
    k: int,
    scope: Scope,
)
    requires
        is_part(dag, parts[k], scope),
        stuck(
            dag,
            pps[k].node_proofs@,
            pps[k].reducer_proofs@,
            checks,
            scope,
            dag.routed(parts, init, k),
            fork_digest(h, s, k),
        ),
    ensures
        part_stuck(dag, parts, h, s, init, pps, checks, k),
{
}

/// A partition whose check ended is a witness.
proof fn lemma_part_arrives<
    V: Fn(NodeId, &Vec<Claim>, &Vec<SumcheckProof>, Digest) -> CheckReply,
    W: Fn(NodeId, &Vec<Claim>, &Vec<SumcheckProof>, Digest) -> CheckReply,
    P: Fn(usize, &BasefoldCommitmentData, &Claim, &BasefoldOpeningProof, GoldilocksExt2) -> bool,
>(
    dag: Dag,
    parts: Seq<PartitionDesc>,
    h: spec_fn(Digest, Digest) -> Digest,
    s: Digest,
    init: Seq<(EdgeId, Assertion)>,
    pps: Seq<PartitionProof>,
    checks: Checks<V, W, P>,
    k: int,
    q: Check,
    scope: Scope,
    t: Digest,
)
    requires
        is_part(dag, parts[k], scope),
        arrives(
            dag,
            pps[k].node_proofs@,
            pps[k].reducer_proofs@,
            checks,
            scope,
            dag.routed(parts, init, k),
            fork_digest(h, s, k),
            q,
            t,
        ),
    ensures
        part_arrives(dag, parts, h, s, init, pps, checks, k, q),
{
}

/// The claim that was sent about boundary `i` is among the claims about its edge, and one of these has
/// a point at which the edge is opened.
pub open spec fn anchored(dag: Dag, proof: ParallelProof, i: int) -> bool {
    let cs = claim_list(proof.edge_proofs[dag.boundary_edges[i] as int].claims@);
    &&& last_pointed(cs) is Some
    &&& cs.contains(sent_claims(proof.boundary_evals@, dag.boundary_edges@)[i].1)
}

/// Every boundary that is committed to is anchored.
pub open spec fn all_anchored(
    dag: Dag,
    com: Seq<Option<BasefoldCommitmentData>>,
    proof: ParallelProof,
) -> bool {
    forall|i: int|
        0 <= i < dag.boundary_edges.len() && com[(#[trigger] dag.boundary_edges[i]) as int] is Some
            ==> anchored(dag, proof, i)
}

/// Boundary `i` is opened: its edge has an opening proof that passes the check against the commitment
/// to the edge, for a claim about the edge at a point, and proves the value that is claimed. The claim
/// that was sent about the boundary is among the claims about the edge.
pub open spec fn cut_opened<
    P: Fn(usize, &BasefoldCommitmentData, &Claim, &BasefoldOpeningProof, GoldilocksExt2) -> bool,
>(
    dag: Dag,
    com: Seq<Option<BasefoldCommitmentData>>,
    proof: ParallelProof,
    check: P,
    i: int,
) -> bool {
    let b = dag.boundary_edges[i] as int;
    &&& anchored(dag, proof, i)
    &&& exists|t: int, k: int, seed: GoldilocksExt2| #[trigger]
        opening_passed(check, com[b]->0, proof.edge_proofs[b], t, k, seed)
}

/// The edge has an opening proof that passes the check as task `t`, for claim `k`, and proves the
/// value that is claimed.
pub open spec fn opening_passed<
    P: Fn(usize, &BasefoldCommitmentData, &Claim, &BasefoldOpeningProof, GoldilocksExt2) -> bool,
>(
    check: P,
    c: BasefoldCommitmentData,
    p: EdgeProof,
    t: int,
    k: int,
    seed: GoldilocksExt2,
) -> bool {
    &&& last_pointed(claim_list(p.claims@)) == Some(k as usize)
    &&& 0 <= k < p.claims.len()
    &&& p.claims[k].point.len() > 0
    &&& p.dense_opening_proof.len() > 0
    &&& p.dense_opening_proof[0].gpu_proof.eval@ == p.claims[k].eval@
    &&& opening_judged(check, t as usize, c, p.claims[k], p.dense_opening_proof[0], seed, true)
}

/// An accepted proof opens every boundary that is committed to.
proof fn lemma_cuts_opened<
    V: Fn(NodeId, &Vec<Claim>, &Vec<SumcheckProof>, Digest) -> CheckReply,
    W: Fn(NodeId, &Vec<Claim>, &Vec<SumcheckProof>, Digest) -> CheckReply,
    P: Fn(usize, &BasefoldCommitmentData, &Claim, &BasefoldOpeningProof, GoldilocksExt2) -> bool,
>(
    dag: Dag,
    h: spec_fn(Digest, Digest) -> Digest,
    s: Digest,
    ws: Seq<Vec<Witness>>,
    com: Seq<Option<BasefoldCommitmentData>>,
    proof: ParallelProof,
    m: Seq<Option<NodeProof>>,
    claims: Seq<Seq<Assertion>>,
    checks: Checks<V, W, P>,
    verified: bool,
    end: Digest,
)
    requires
        com.len() == dag.num_edges,
        proof.edge_proofs.len() == dag.num_edges,
        forall|i: int|
            0 <= i < dag.boundary_edges.len() ==> (#[trigger] dag.boundary_edges[i]) < dag.num_edges,
        verified ==> all_anchored(dag, com, proof),
        dag.end_verdict(
            h,
            s,
            ws,
            dag.openable(ws, com, dag.boundary_edges@),
            m,
            claims,
            proof.edge_proofs@,
            proof.range_proof,
            proof.two_pow_proof,
            checks.sf,
            checks.opening,
            verified,
            Some(true),
            end,
        ),
    ensures
        forall|i: int|
            0 <= i < dag.boundary_edges.len() && com[(#[trigger] dag.boundary_edges[i]) as int] is Some
                ==> cut_opened(dag, com, proof, checks.opening, i),
{
    let eps = proof.edge_proofs@;
    let oc = dag.openable(ws, com, dag.boundary_edges@);
    let (v1, d1) = dag.two_pow_verdict(h, s, m, proof.two_pow_proof);
    let (v2, d2) = dag.all_ranges_verdict(h, d1, m, ws, claims, checks.sf, proof.range_proof);
    let (ok3, d3) = dag.reducers_checked(h, d2, ws, oc, eps, dag.num_edges as nat);
    let cl = edge_claims(eps);
    let tasks = dag.tasks_upto(ws, oc, cl, dag.num_edges as nat);
    let seed = opening_seed(h, d3);
    assert(dag.last_word(checks.opening, oc, eps, tasks, seed, verified && ok3, Some(true)));
    let ok = choose|ok: bool| #[trigger]
        dag.openings_judged(checks.opening, oc, eps, tasks, seed, ok) && Some(true) == Some(
            ok && (verified && ok3),
        );
    let oks = choose|oks: Seq<(bool, bool)>| #[trigger]
        dag.openings_verdict(checks.opening, oc, eps, tasks, seed, oks, ok);
    assert forall|i: int|
        0 <= i < dag.boundary_edges.len() && com[(#[trigger] dag.boundary_edges[i]) as int] is Some implies cut_opened(
        dag,
        com,
        proof,
        checks.opening,
        i,
    ) by {
        let b = dag.boundary_edges[i];
        assert(anchored(dag, proof, i));
        assert(dag.boundary_edges@.contains(b));
        assert(dag.may_open(ws, dag.boundary_edges@, b as int));
        assert(oc[b as int] == com[b as int]);
        assert(cl[b as int] == claim_list(eps[b as int].claims@));
        let t = lemma_task_of(dag, ws, oc, cl, dag.num_edges as nat, b);
        assert(cl[b as int].len() == eps[b as int].claims.len());
        lemma_last_pointed(cl[b as int]);
        let k = tasks[t].1 as int;
        assert(oks[t].1);
        assert(dag.opening_verdict(checks.opening, oc, eps, tasks, seed, t, oks[t].0, oks[t].1));
        assert(eps[tasks[t].0 as int].dense_opening_proof.len() > 0);
        assert(opening_passed(checks.opening, com[b as int]->0, eps[b as int], t, k, seed));
    }
}

/// An edge that is opened and has a claim with a point has a task.
pub proof fn lemma_task_of(
    dag: Dag,
    ws: Seq<Vec<Witness>>,
    com: Seq<Option<BasefoldCommitmentData>>,
    claims: Seq<Seq<Assertion>>,
    k: nat,
    e: EdgeId,
) -> (t: int)
    requires
        e < k <= usize::MAX,
        com[e as int] is Some,
        last_pointed(claims[e as int]) is Some,
    ensures
        0 <= t < dag.tasks_upto(ws, com, claims, k).len(),
        dag.tasks_upto(ws, com, claims, k)[t] == (e, last_pointed(claims[e as int])->0),
    decreases k,
{
    let rest = dag.tasks_upto(ws, com, claims, (k - 1) as nat);
    if e == k - 1 {
        rest.len() as int
    } else {
        lemma_task_of(dag, ws, com, claims, (k - 1) as nat, e)
    }
}

/// The last claim with a point is one of the claims, and has a point.
pub proof fn lemma_last_pointed(cs: Seq<Assertion>)
    requires
        cs.len() <= usize::MAX,
    ensures
        last_pointed(cs) matches Some(i) ==> i < cs.len() && cs[i as int].point.len() > 0,
    decreases cs.len(),
{
    if cs.len() > 0 {
        lemma_last_pointed(cs.drop_last());
    }
}

/// Whether two claims are the same.
fn same_claim(a: &Claim, b: &(EdgeId, Vec<GoldilocksExt2>, GoldilocksExt2)) -> (r: bool)
    ensures
        r == (a@ == (Assertion { edge_id: b.0, sparse_id: 0, point: b.1@, eval: b.2 })),
{
    let r: bool = a.edge_id == b.0 && a.sparse_id == 0 && a.eval == b.2 && same_point(&a.point, &b.1);
    assert(r ==> a@ =~= (Assertion { edge_id: b.0, sparse_id: 0, point: b.1@, eval: b.2 }));
    r
}

impl Dag {
    /// Whether every boundary that is committed to is anchored.
    fn check_anchors(&self, proof: &ParallelProof, commitments: &[Option<BasefoldCommitmentData>]) -> (r: bool)
        requires
            commitments.len() == self.num_edges,
            proof.edge_proofs.len() == self.num_edges,
            self.cuts_ok(),
            forall|i: int| 0 <= i < self.boundary_edges.len() ==> #[trigger] cut_sent(*self, *proof, i),
        ensures
            r == all_anchored(*self, commitments@, *proof),
    {
        let mut i: usize = 0;
        while i < self.boundary_edges.len()
            invariant
                i <= self.boundary_edges.len(),
                commitments.len() == self.num_edges,
                proof.edge_proofs.len() == self.num_edges,
                self.cuts_ok(),
                forall|i: int| 0 <= i < self.boundary_edges.len() ==> #[trigger] cut_sent(*self, *proof, i),
                forall|k: int|
                    0 <= k < i && commitments[(#[trigger] self.boundary_edges[k]) as int] is Some
                        ==> anchored(*self, *proof, k),
            decreases self.boundary_edges.len() - i,
        {
            let b: EdgeId = self.boundary_edges[i];
            assert(self.boundary_edges[i as int] < self.num_edges);
            assert(cut_sent(*self, *proof, i as int));
            if commitments[b].is_some() {
                let here: bool = self.check_anchor(proof, i);
                if !here {
                    assert(commitments[self.boundary_edges[i as int] as int] is Some);
                    return false;
                }
            }
            i = i + 1;
        }
        true
    }

    /// Whether a boundary is anchored.
    fn check_anchor(&self, proof: &ParallelProof, i: usize) -> (r: bool)
        requires
            i < self.boundary_edges.len(),
                i < proof.boundary_evals.len(),
            proof.boundary_evals[i as int].0 == self.boundary_edges[i as int],
            self.boundary_edges[i as int] < proof.edge_proofs.len(),
        ensures
            r == anchored(*self, *proof, i as int),
    {
        let claims: &Vec<Claim> = &proof.edge_proofs[self.boundary_edges[i]].claims;
        let ghost cs = claim_list(claims@);
        let ghost c = sent_claims(proof.boundary_evals@, self.boundary_edges@)[i as int].1;
        if find_last_pointed(claims).is_none() {
            return false;
        }
        let mut k: usize = 0;
        while k < claims.len()
            invariant
                k <= claims.len(),
                i < self.boundary_edges.len(),
                i < proof.boundary_evals.len(),
                proof.boundary_evals[i as int].0 == self.boundary_edges[i as int],
                cs == claim_list(proof.edge_proofs[self.boundary_edges[i as int] as int].claims@),
                cs == claim_list(claims@),
                c == sent_claims(proof.boundary_evals@, self.boundary_edges@)[i as int].1,
                last_pointed(cs) is Some,
                forall|j: int| 0 <= j < k ==> #[trigger] cs[j] != c,
            decreases claims.len() - k,
        {
            assert(cs[k as int] == claims[k as int]@);
            if same_claim(&claims[k], &proof.boundary_evals[i]) {
                assert(cs[k as int] == c);
                return true;
            }
            k = k + 1;
        }
        assert(!cs.contains(c));
        false
    }
}

/// The digests and claims before the partitions are checked.
pub open spec fn parallel_start(
    dag: Dag,
    h: spec_fn(Digest, Digest) -> Digest,
    s: Digest,
    ws: Seq<Vec<Witness>>,
    proof: ParallelProof,
) -> (bool, Digest, Digest, Seq<(EdgeId, Assertion)>) {
    let heads = head_claims(proof.edge_proofs@, dag.claimed_outputs(ws));
    let cuts = sent_claims(proof.boundary_evals@, dag.boundary_edges@);
    let (ok, s1) = redrawn(h, s, heads, heads.len());
    (ok, s1, redrawn(h, s1, cuts, cuts.len()).1, heads + cuts)
}

/// A partition that got stuck leaves no verdict.
proof fn lemma_no_verdict<
    V: Fn(NodeId, &Vec<Claim>, &Vec<SumcheckProof>, Digest) -> CheckReply,
    W: Fn(NodeId, &Vec<Claim>, &Vec<SumcheckProof>, Digest) -> CheckReply,
    P: Fn(usize, &BasefoldCommitmentData, &Claim, &BasefoldOpeningProof, GoldilocksExt2) -> bool,
>(
    dag: Dag,
    parts: Seq<PartitionDesc>,
    h: spec_fn(Digest, Digest) -> Digest,
    s: Digest,
    ws: Seq<Vec<Witness>>,
    com: Seq<Option<BasefoldCommitmentData>>,
    proof: ParallelProof,
    checks: Checks<V, W, P>,
    end: Digest,
    k: int,
)
    requires
        heads_present(proof.edge_proofs@, dag.claimed_outputs(ws)),
        ({
            let (ok, s1, s2, init) = parallel_start(dag, h, s, ws, proof);
            let count = dag.boundary_edges.len() as nat;
            cuts_passed(dag, h, s1, proof, count) == count && 0 <= k < parts.len() && part_stuck(
                dag,
                parts,
                h,
                s2,
                init,
                proof.partition_proofs@,
                checks,
                k,
            )
        }),
    ensures
        verifies_parallel(dag, parts, h, s, ws, com, proof, checks, None, end),
{
}

/// Checks of all partitions that ended lead to a verdict.
proof fn lemma_verdict<
    V: Fn(NodeId, &Vec<Claim>, &Vec<SumcheckProof>, Digest) -> CheckReply,
    W: Fn(NodeId, &Vec<Claim>, &Vec<SumcheckProof>, Digest) -> CheckReply,
    P: Fn(usize, &BasefoldCommitmentData, &Claim, &BasefoldOpeningProof, GoldilocksExt2) -> bool,
>(
    dag: Dag,
    parts: Seq<PartitionDesc>,
    h: spec_fn(Digest, Digest) -> Digest,
    s: Digest,
    ws: Seq<Vec<Witness>>,
    com: Seq<Option<BasefoldCommitmentData>>,
    proof: ParallelProof,
    checks: Checks<V, W, P>,
    r: Option<bool>,
    end: Digest,
    qs: Seq<Check>,
    m: Seq<Option<NodeProof>>,
)
    requires
        heads_present(proof.edge_proofs@, dag.claimed_outputs(ws)),
        m.len() == dag.nodes.len(),
        merges(proof.partition_proofs@, m),
        ({
            let (ok, s1, s2, init) = parallel_start(dag, h, s, ws, proof);
            &&& cuts_passed(dag, h, s1, proof, dag.boundary_edges.len() as nat)
                == dag.boundary_edges.len()
            &&& all_arrive(dag, parts, h, s2, init, proof.partition_proofs@, checks, qs)
            &&& dag.end_verdict(
                h,
                s2,
                ws,
                dag.openable(ws, com, dag.boundary_edges@),
                m,
                joined_claims(qs, dag.num_edges as nat),
                proof.edge_proofs@,
                proof.range_proof,
                proof.two_pow_proof,
                checks.sf,
                checks.opening,
                ok && all_verified(qs) && all_anchored(dag, com, proof),
                r,
                end,
            )
        }),
    ensures
        verifies_parallel(dag, parts, h, s, ws, com, proof, checks, r, end),
{
}

/// The values of checks.
pub open spec fn check_views(cs: Seq<Checking>) -> Seq<Check> {
    cs.map_values(|c: Checking| c@)
}

/// Puts the claims of all checks together, edge by edge.
fn join_claims(results: &Vec<Checking>, num_edges: usize) -> (r: Vec<Vec<Claim>>)
    requires
        forall|k: int| 0 <= k < results.len() ==> (#[trigger] results[k]).claims.len() == num_edges,
    ensures
        claim_lists(r@) == joined_claims(check_views(results@), num_edges as nat),
        r.len() == num_edges,
{
    let ghost qs = check_views(results@);
    let mut r: Vec<Vec<Claim>> = Vec::new();
    let mut e: usize = 0;
    while e < num_edges
        invariant
            e <= num_edges,
            r.len() == e,
            qs == check_views(results@),
            forall|k: int|
                0 <= k < results.len() ==> (#[trigger] results[k]).claims.len() == num_edges,
            forall|f: int|
                0 <= f < e ==> claim_list((#[trigger] r[f])@) == joined_upto(qs, f, qs.len()),
        decreases num_edges - e,
    {
        let mut list: Vec<Claim> = Vec::new();
        let mut k: usize = 0;
        assert(claim_list(list@) =~= joined_upto(qs, e as int, 0));
        while k < results.len()
            invariant
                k <= results.len(),
                e < num_edges,
                qs == check_views(results@),
                forall|k: int|
                    0 <= k < results.len() ==> (#[trigger] results[k]).claims.len() == num_edges,
                claim_list(list@) == joined_upto(qs, e as int, k as nat),
            decreases results.len() - k,
        {
            assert(results[k as int].claims.len() == num_edges);
            let mut more: Vec<Claim> = clone_claims(&results[k].claims[e]);
            let ghost (a, b) = (list@, more@);
            list.append(&mut more);
            proof {
                assert(claim_list(list@) =~= claim_list(a) + claim_list(b));
                assert(qs[k as int].claims[e as int] == claim_list(results[k as int].claims[e as int]@));
            }
            k = k + 1;
        }
        r.push(list);
        e = e + 1;
    }
    assert(claim_lists(r@) =~= joined_claims(qs, num_edges as nat));
    r
}

/// The claims of the nodes, each from the last partition that proves it.
fn merge_proofs(pps: &Vec<PartitionProof>, num_nodes: usize) -> (m: Vec<Option<NodeProof>>)
    requires
        forall|k: int| 0 <= k < pps.len() ==> (#[trigger] pps[k]).node_proofs.len() == num_nodes,
    ensures
        m.len() == num_nodes,
        merges(pps@, m@),
{
    let mut m: Vec<Option<NodeProof>> = Vec::new();
    let mut n: usize = 0;
    while n < num_nodes
        invariant
            n <= num_nodes,
            m.len() == n,
            forall|k: int| 0 <= k < pps.len() ==> (#[trigger] pps[k]).node_proofs.len() == num_nodes,
            merges(pps@, m@),
        decreases num_nodes - n,
    {
        let ghost before = m@;
        let mut k: usize = pps.len();
        let mut found: Option<NodeProof> = None;
        while k > 0 && found.is_none()
            invariant
                k <= pps.len(),
                n < num_nodes,
                forall|k: int|
                    0 <= k < pps.len() ==> (#[trigger] pps[k]).node_proofs.len() == num_nodes,
                found is None ==> last_proof(pps@, n as int, k as nat) == last_proof(
                    pps@,
                    n as int,
                    pps.len() as nat,
                ),
                found is Some ==> last_proof(pps@, n as int, pps.len() as nat) is Some && claim_list(
                    claims_of(found),
                ) == claim_list(claims_of(last_proof(pps@, n as int, pps.len() as nat))),
            decreases k,
        {
            k = k - 1;
            assert(pps[k as int].node_proofs.len() == num_nodes);
            match &pps[k].node_proofs[n] {
                Some(np) => {
                    found = Some((Vec::new(), clone_claims(&np.1)));
                },
                None => {},
            }
        }
        m.push(found);
        assert forall|i: int| 0 <= i < m.len() implies {
            let p = last_proof(pps@, i, pps@.len());
            &&& (#[trigger] m@[i]) is Some <==> p is Some
            &&& claim_list(claims_of(m@[i])) == claim_list(claims_of(p))
        } by {
            if i < n {
                assert(m@[i] == before[i]);
            }
        }
        n = n + 1;
    }
    m
}

impl Dag {
    /// The lists of a proof in partitions have an entry per partition, node and edge.
    pub open spec fn proof_sized(&self, parts: Seq<PartitionDesc>, proof: ParallelProof) -> bool {
        &&& proof.edge_proofs.len() == self.num_edges
        &&& proof.partition_proofs.len() == parts.len()
        &&& forall|k: int|
            0 <= k < parts.len() ==> (#[trigger] proof.partition_proofs[k]).node_proofs.len()
                == self.nodes.len() && proof.partition_proofs[k].reducer_proofs.len()
                == self.nodes.len()
    }

    /// The boundaries are edges of the graph.
    pub open spec fn cuts_ok(&self) -> bool {
        forall|i: int|
            0 <= i < self.boundary_edges.len() ==> (#[trigger] self.boundary_edges[i]) < self.num_edges
    }

    /// Goes through the boundaries and draws the points of their claims again. All claims are given
    /// where they were sent at these points; otherwise what decides: a refusal at the first other
    /// point, and nothing where a claim is missing before that.
    fn redraw_cuts<F: Fn(Digest, Digest) -> Digest>(
        &self,
        proof: &ParallelProof,
        transcript: &mut Transcript<F>,
    ) -> (r: Result<Vec<(EdgeId, Claim)>, Option<bool>>)
        requires
            old(transcript).wf(),
        ensures
            final(transcript).compress == old(transcript).compress,
            ({
                let h = old(transcript).hash();
                let s = old(transcript).state;
                let count = self.boundary_edges.len() as nat;
                let sent = sent_claims(proof.boundary_evals@, self.boundary_edges@);
                let passed = cuts_passed(*self, h, s, *proof, count);
                match r {
                    Ok(cs) => {
                        &&& passed == count
                        &&& starting(cs@) == sent
                        &&& final(transcript).state == redrawn(h, s, sent, count).1
                        &&& forall|i: int| 0 <= i < count ==> #[trigger] cut_sent(*self, *proof, i)
                    },
                    Err(v) => {
                        &&& passed < count
                        &&& if cut_sent(*self, *proof, passed as int) {
                            v == Some(false) && final(transcript).state == redrawn(
                                h,
                                s,
                                sent,
                                passed + 1,
                            ).1
                        } else {
                            v is None
                        }
                    },
                }
            }),
    {
        let ghost h = transcript.hash();
        let ghost s = transcript.state;
        let ghost comp = transcript.compress;
        let ghost target = sent_claims(proof.boundary_evals@, self.boundary_edges@);
        let mut r: Vec<(EdgeId, Claim)> = Vec::new();
        let mut i: usize = 0;
        assert(starting(r@) =~= target.take(0));
        while i < self.boundary_edges.len()
            invariant
                i <= self.boundary_edges.len(),
                h == old(transcript).hash(),
                s == old(transcript).state,
                comp == old(transcript).compress,
                transcript.wf(),
                transcript.compress == comp,
                h == transcript.hash(),
                target == sent_claims(proof.boundary_evals@, self.boundary_edges@),
                starting(r@) == target.take(i as int),
                cuts_passed(*self, h, s, *proof, i as nat) == i,
                forall|k: int| 0 <= k < i ==> #[trigger] cut_sent(*self, *proof, k),
                (true, transcript.state) == redrawn(h, s, target, i as nat),
            decreases self.boundary_edges.len() - i,
        {
            let b: usize = self.boundary_edges[i];
            let ghost count = self.boundary_edges.len() as nat;
            if i >= proof.boundary_evals.len() || proof.boundary_evals[i].0 != b {
                proof {
                    assert(!cut_sent(*self, *proof, i as int));
                    lemma_cuts_stop(*self, h, s, *proof, i as nat, count);
                }
                return Err(None);
            }
            let ghost before = starting(r@);
            let point: Vec<GoldilocksExt2> = clone_point(proof.boundary_evals[i].1.as_slice());
            assert(target[i as int].1.point == point@);
            let ok: bool = redraw(&point, transcript);
            assert((ok, transcript.state) == redrawn(h, s, target, (i + 1) as nat));
            assert(cut_sent(*self, *proof, i as int));
            if !ok {
                proof {
                    lemma_cuts_stop(*self, h, s, *proof, i as nat, count);
                }
                return Err(Some(false));
            }
            let c: Claim = Claim { edge_id: b, sparse_id: 0, point, eval: proof.boundary_evals[i].2 };
            let ghost cv = c@;
            r.push((b, c));
            proof {
                assert(starting(r@) =~= before.push((b, cv)));
                assert(target[i as int] == (b, cv));
            }
            i = i + 1;
            assert(starting(r@) =~= target.take(i as int));
        }
        assert(target.take(i as int) =~= target);
        Ok(r)
    }

    /// Checks the proof of one partition, on a transcript of its own.
    fn verify_partition<
        V: Fn(NodeId, &Vec<Claim>, &Vec<SumcheckProof>, Digest) -> CheckReply,
        W: Fn(NodeId, &Vec<Claim>, &Vec<SumcheckProof>, Digest) -> CheckReply,
        P: Fn(usize, &BasefoldCommitmentData, &Claim, &BasefoldOpeningProof, GoldilocksExt2) -> bool,
    >(
        &self,
        part: &PartitionDesc,
        proof: &PartitionProof,
        starting_claims: Vec<(EdgeId, Claim)>,
        start: Digest,
        checks: &Checks<V, W, P>,
    ) -> (r: (Option<Checking>, Ghost<Scope>, Ghost<Digest>))
        requires
            self.ordered(),
            self.part_ok(*part),
            forall|i: int|
                0 <= i < starting_claims.len() ==> (#[trigger] starting_claims[i]).0 < self.num_edges,
            proof.node_proofs.len() == self.nodes.len(),
            proof.reducer_proofs.len() == self.nodes.len(),
            is_check(checks.block),
            is_check(checks.reducer),
        ensures
            is_part(*self, *part, r.1@),
            match r.0 {
                Some(q) => q@.wf(*self) && arrives(
                    *self,
                    proof.node_proofs@,
                    proof.reducer_proofs@,
                    *checks,
                    r.1@,
                    starting(starting_claims@),
                    start,
                    q@,
                    r.2@,
                ),
                None => stuck(
                    *self,
                    proof.node_proofs@,
                    proof.reducer_proofs@,
                    *checks,
                    r.1@,
                    starting(starting_claims@),
                    start,
                ),
            },
    {
        let scope: Scope = Scope::of_partition(self, part);
        let ghost cs = starting(starting_claims@);
        assert(cs.len() == starting_claims.len());
        let st: Checking = self.start_check(&scope, starting_claims);
        match self.run_check(
            &scope,
            proof.node_proofs.as_slice(),
            proof.reducer_proofs.as_slice(),
            st,
            start,
            &checks.block,
            &checks.reducer,
        ) {
            Some((q, t)) => (Some(q), Ghost(scope), Ghost(t)),
            None => (None, Ghost(scope), Ghost(start)),
        }
    }

    /// Checks the proofs of all partitions and of what joins them.
    #[verifier::rlimit(60)]
    pub fn verify_parallel<
        F: Fn(Digest, Digest) -> Digest + Copy,
        V: Fn(NodeId, &Vec<Claim>, &Vec<SumcheckProof>, Digest) -> CheckReply,
        W: Fn(NodeId, &Vec<Claim>, &Vec<SumcheckProof>, Digest) -> CheckReply,
        P: Fn(usize, &BasefoldCommitmentData, &Claim, &BasefoldOpeningProof, GoldilocksExt2) -> bool,
    >(
        &self,
        proof: &ParallelProof,
        witnesses: &[Vec<Witness>],
        commitments: &[Option<BasefoldCommitmentData>],
        transcript: &mut Transcript<F>,
        partitions: &[PartitionDesc],
        checks: &Checks<V, W, P>,
    ) -> (r: Option<bool>)
        requires
            self.ordered(),
            self.lookups_ok(),
            self.ports_ok(),
            self.parts_ok(partitions@),
            self.proof_sized(partitions@, *proof),
            self.cuts_ok(),
            witnesses_ok(witnesses@, self.num_edges as nat),
            commitments.len() == self.num_edges,
            old(transcript).wf(),
            is_check(checks.block),
            is_check(checks.reducer),
            forall|
                t: usize,
                c: &BasefoldCommitmentData,
                claim: &Claim,
                p: &BasefoldOpeningProof,
                s: GoldilocksExt2,
            | #[trigger] call_requires(checks.opening, (t, c, claim, p, s)),
        ensures
            final(transcript).compress == old(transcript).compress,
            verifies_parallel(
                *self,
                partitions@,
                old(transcript).hash(),
                old(transcript).state,
                witnesses@,
                commitments@,
                *proof,
                *checks,
                r,
                final(transcript).state,
            ),
            r == Some(true) ==> forall|i: int|
                0 <= i < self.boundary_edges.len() && commitments[(
                #[trigger] self.boundary_edges[i]) as int] is Some ==> cut_opened(
                    *self,
                    commitments@,
                    *proof,
                    checks.opening,
                    i,
                ),
    {
        let ghost h = transcript.hash();
        let ghost s = transcript.state;
        let ghost comp = transcript.compress;
        let ghost ws = witnesses@;
        let ghost parts = partitions@;
        let ghost pps = proof.partition_proofs@;
        proof {
            assert forall|i: int| 0 <= i < self.output_ports.len() implies (
            #[trigger] self.output_ports[i]) < witnesses.len() && witnesses[self.output_ports[i] as int].len()
                > 0 by {
                assert(ws[self.output_ports[i] as int].len() > 0);
            }
        }
        let outs: Vec<EdgeId> = self.output_edges(witnesses);
        if !has_heads(proof.edge_proofs.as_slice(), &outs) {
            return None;
        }
        let (ok, mut initial) = redraw_heads(proof.edge_proofs.as_slice(), &outs, transcript);
        let ghost first = initial@;
        let ghost s1 = transcript.state;
        assert(starting(first).len() == first.len());
        let mut cuts: Vec<(EdgeId, Claim)> = match self.redraw_cuts(proof, transcript) {
            Ok(cs) => cs,
            Err(v) => {
                return v;
            },
        };
        let ghost second = cuts@;
        let ghost s2 = transcript.state;
        initial.append(&mut cuts);
        let ghost init = starting(initial@);
        proof {
            assert(initial@ =~= first + second);
            assert(init =~= starting(first) + starting(second));
            assert((ok, s1, s2, init) == parallel_start(*self, h, s, ws, *proof));
            assert forall|i: int| 0 <= i < initial.len() implies (#[trigger] initial[i]).0
                < self.num_edges by {
                if i < first.len() {
                    assert(initial[i] == first[i]);
                } else {
                    let j = i - first.len();
                    assert(initial[i] == second[j]);
                    assert(starting(second).len() == second.len());
                    assert(starting(second)[j].0 == self.boundary_edges[j]);
                    assert(self.boundary_edges[j] < self.num_edges);
                }
            }
        }
        let mut results: Vec<Checking> = Vec::new();
        let mut verified: bool = true;
        let mut stopped: bool = false;
        let ghost mut at: int = 0;
        let mut k: usize = 0;
        while k < partitions.len() && !stopped
            invariant
                k <= partitions.len(),
                self.ordered(),
                parts == partitions@,
                pps == proof.partition_proofs@,
                self.parts_ok(parts),
                self.proof_sized(parts, *proof),
                transcript.wf(),
                transcript.compress == comp,
                comp == old(transcript).compress,
                h == transcript.hash(),
                transcript.state == s2,
                init == starting(initial@),
                forall|i: int| 0 <= i < initial.len() ==> (#[trigger] initial[i]).0 < self.num_edges,
                is_check(checks.block),
                is_check(checks.reducer),
                !stopped ==> results.len() == k,
                results.len() <= k,
                stopped ==> 0 <= at < parts.len() && part_stuck(
                    *self,
                    parts,
                    h,
                    s2,
                    init,
                    pps,
                    *checks,
                    at,
                ),
                forall|j: int| 0 <= j < results.len() ==> (#[trigger] results[j])@.wf(*self),
                forall|j: int|
                    0 <= j < results.len() ==> part_arrives(
                        *self,
                        parts,
                        h,
                        s2,
                        init,
                        pps,
                        *checks,
                        j,
                        (#[trigger] results[j])@,
                    ),
                verified <==> forall|j: int| 0 <= j < results.len() ==> (#[trigger] results[j]).verified,
            decreases partitions.len() - k,
        {
            let mine: Vec<(EdgeId, Claim)> = self.route(partitions, &initial, k);
            assert(self.part_ok(parts[k as int]));
            assert(proof.partition_proofs[k as int].node_proofs.len() == self.nodes.len());
            let fork: Transcript<F> = transcript.fork(k);
            let (end, scope, digest) = self.verify_partition(
                &partitions[k],
                &proof.partition_proofs[k],
                mine,
                fork.state,
                checks,
            );
            match end {
                Some(q) => {
                    let ghost before = results@;
                    proof {
                        lemma_part_arrives(
                            *self,
                            parts,
                            h,
                            s2,
                            init,
                            pps,
                            *checks,
                            k as int,
                            q@,
                            scope@,
                            digest@,
                        );
                    }
                    let good: bool = q.verified;
                    results.push(q);
                    proof {
                        assert forall|j: int| 0 <= j < before.len() implies #[trigger] results@[j]
                            == before[j] by {}
                        if !verified {
                            let j = choose|j: int|
                                0 <= j < before.len() && !(#[trigger] before[j]).verified;
                            assert(!results@[j].verified);
                        } else if !good {
                            assert(!results@[k as int].verified);
                        }
                    }
                    verified = verified && good;
                },
                None => {
                    proof {
                        at = k as int;
                        lemma_part_stuck(
                            *self,
                            parts,
                            h,
                            s2,
                            init,
                            pps,
                            *checks,
                            k as int,
                            scope@,
                        );
                    }
                    stopped = true;
                },
            }
            k = k + 1;
        }
        if stopped {
            proof {
                lemma_no_verdict(
                    *self,
                    parts,
                    h,
                    s,
                    ws,
                    commitments@,
                    *proof,
                    *checks,
                    transcript.state,
                    at,
                );
            }
            return None;
        }
        let ghost qs = check_views(results@);
        proof {
            assert forall|j: int| 0 <= j < results.len() implies (#[trigger] results[j]).claims.len()
                == self.num_edges by {
                assert(results[j]@.wf(*self));
            }
            assert forall|j: int| 0 <= j < pps.len() implies (#[trigger] pps[j]).node_proofs.len()
                == self.nodes.len() by {
                assert(proof.partition_proofs[j].node_proofs.len() == self.nodes.len());
            }
            assert(verified <==> all_verified(qs)) by {
                if all_verified(qs) {
                    assert forall|j: int| 0 <= j < results.len() implies (
                    #[trigger] results[j]).verified by {
                        assert(qs[j].verified);
                    }
                }
            }
        }
        let claims: Vec<Vec<Claim>> = join_claims(&results, self.num_edges);
        let merged: Vec<Option<NodeProof>> = merge_proofs(&proof.partition_proofs, self.nodes.len());
        assert(all_arrive(*self, parts, h, s2, init, pps, *checks, qs));
        let openable: Vec<Option<BasefoldCommitmentData>> = self.list_openable(
            witnesses,
            commitments,
            &self.boundary_edges,
        );
        let anchors: bool = self.check_anchors(proof, commitments);
        let r: Option<bool> = self.check_finish(
            witnesses,
            openable.as_slice(),
            merged.as_slice(),
            claims.as_slice(),
            proof.edge_proofs.as_slice(),
            &proof.range_proof,
            &proof.two_pow_proof,
            checks.sf,
            ok && verified && anchors,
            transcript,
            &checks.opening,
        );
        proof {
            lemma_verdict(
                *self,
                parts,
                h,
                s,
                ws,
                commitments@,
                *proof,
                *checks,
                r,
                transcript.state,
                qs,
                merged@,
            );
            if r == Some(true) {
                lemma_cuts_opened(
                    *self,
                    h,
                    s2,
                    ws,
                    commitments@,
                    *proof,
                    merged@,
                    joined_claims(qs, self.num_edges as nat),
                    *checks,
                    ok && all_verified(qs) && all_anchored(*self, commitments@, *proof),
                    transcript.state,
                );
            }
        }
        r
    }
}

} // verus!
