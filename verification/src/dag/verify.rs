//! Checking the proof of a graph, whole or partition by partition.
use vstd::prelude::*;

use crate::commit::basefold::{BasefoldCommitmentData, BasefoldOpeningProof};
use crate::dag::backward::{starting, Scope};
use crate::dag::check_pass::{
    check_started, gets_stuck, is_check, reaches, Check, CheckReply, Checking,
};
use crate::dag::openings::witnesses_ok;
use crate::dag::prove::is_whole;
use crate::dag::reduction::same_point;
use crate::dag::types::{Assertion, Claim, Dag, EdgeId, EdgeProof, LookupProof, NodeId, NodeProof};
use crate::dag::witness::Witness;
use crate::field::{ext_elems, GoldilocksExt2};
use crate::sumcheck::fiat_shamir::{lemma_words_of, words_of};
use crate::sumcheck::SumcheckProof;
use crate::transcript::{draw_many, drawn, Digest, Label, Transcript};

verus! {

/// The point is the one that is drawn from digest `s`.
pub open spec fn point_drawn(
    h: spec_fn(Digest, Digest) -> Digest,
    s: Digest,
    point: Seq<GoldilocksExt2>,
) -> bool {
    point == words_of(drawn(h, s, Label::Challenge, point.len()))
}

/// Whether the points are those that are drawn one after the other, and the digest after that.
pub open spec fn redrawn(
    h: spec_fn(Digest, Digest) -> Digest,
    s: Digest,
    cs: Seq<(EdgeId, Assertion)>,
    k: nat,
) -> (bool, Digest)
    decreases k,
{
    if k == 0 {
        (true, s)
    } else {
        let (ok, d) = redrawn(h, s, cs, (k - 1) as nat);
        let point = cs[k - 1].1.point;
        (ok && point_drawn(h, d, point), draw_many(h, d, Label::Challenge, point.len()))
    }
}

/// Every listed edge has a claim.
pub open spec fn heads_present(eps: Seq<EdgeProof>, edges: Seq<EdgeId>) -> bool {
    forall|i: int| 0 <= i < edges.len() ==> eps[#[trigger] edges[i] as int].claims.len() > 0
}

/// The first claims about the listed edges.
pub open spec fn head_claims(eps: Seq<EdgeProof>, edges: Seq<EdgeId>) -> Seq<(EdgeId, Assertion)> {
    Seq::new(edges.len(), |i: int| (edges[i], eps[edges[i] as int].claims[0]@))
}

/// Draws a point and compares.
pub(crate) fn redraw<F: Fn(Digest, Digest) -> Digest>(
    point: &Vec<GoldilocksExt2>,
    transcript: &mut Transcript<F>,
) -> (ok: bool)
    requires
        old(transcript).wf(),
    ensures
        final(transcript).compress == old(transcript).compress,
        ok == point_drawn(old(transcript).hash(), old(transcript).state, point@),
        final(transcript).state == draw_many(
            old(transcript).hash(),
            old(transcript).state,
            Label::Challenge,
            point.len() as nat,
        ),
{
    let drawn_point: Vec<GoldilocksExt2> = transcript.challenges_ext2(Label::Challenge, point.len());
    proof {
        assert(ext_elems(drawn_point@).len() == point.len());
        lemma_words_of(drawn_point@);
    }
    same_point(point, &drawn_point)
}

/// Draws the points of the first claims about the given edges again and compares.
pub(crate) fn redraw_heads<F: Fn(Digest, Digest) -> Digest>(
    edge_proofs: &[EdgeProof],
    edges: &Vec<EdgeId>,
    transcript: &mut Transcript<F>,
) -> (r: (bool, Vec<(EdgeId, Claim)>))
    requires
        old(transcript).wf(),
        forall|i: int| 0 <= i < edges.len() ==> (#[trigger] edges[i]) < edge_proofs.len(),
        heads_present(edge_proofs@, edges@),
    ensures
        final(transcript).compress == old(transcript).compress,
        starting(r.1@) == head_claims(edge_proofs@, edges@),
        r.1.len() == edges.len(),
        forall|i: int| 0 <= i < r.1.len() ==> (#[trigger] r.1[i]).0 == edges[i],
        (r.0, final(transcript).state) == redrawn(
            old(transcript).hash(),
            old(transcript).state,
            head_claims(edge_proofs@, edges@),
            edges.len() as nat,
        ),
{
    let ghost h = transcript.hash();
    let ghost s = transcript.state;
    let ghost comp = transcript.compress;
    let ghost target = head_claims(edge_proofs@, edges@);
    let mut verified: bool = true;
    let mut r: Vec<(EdgeId, Claim)> = Vec::new();
    let mut i: usize = 0;
    assert(starting(r@) =~= target.take(0));
    while i < edges.len()
        invariant
            i <= edges.len(),
            transcript.wf(),
            transcript.compress == comp,
            h == transcript.hash(),
            forall|i: int| 0 <= i < edges.len() ==> (#[trigger] edges[i]) < edge_proofs.len(),
            heads_present(edge_proofs@, edges@),
            target == head_claims(edge_proofs@, edges@),
            starting(r@) == target.take(i as int),
            r.len() == i,
            forall|k: int| 0 <= k < r.len() ==> (#[trigger] r[k]).0 == edges[k],
            (verified, transcript.state) == redrawn(h, s, target, i as nat),
        decreases edges.len() - i,
    {
        let e: usize = edges[i];
        assert(edge_proofs[edges[i as int] as int].claims.len() > 0);
        let ghost before = starting(r@);
        let c: Claim = edge_proofs[e].claims[0].clone();
        let ghost cv = c@;
        let ok: bool = redraw(&c.point, transcript);
        verified = verified && ok;
        r.push((e, c));
        proof {
            assert(starting(r@) =~= before.push((e, cv)));
            assert(target[i as int] == (e, cv));
        }
        i = i + 1;
        assert(starting(r@) =~= target.take(i as int));
    }
    assert(target.take(i as int) =~= target);
    (verified, r)
}

/// Whether every listed edge has a claim.
pub(crate) fn has_heads(edge_proofs: &[EdgeProof], edges: &Vec<EdgeId>) -> (r: bool)
    requires
        forall|i: int| 0 <= i < edges.len() ==> (#[trigger] edges[i]) < edge_proofs.len(),
    ensures
        r == heads_present(edge_proofs@, edges@),
{
    let mut i: usize = 0;
    while i < edges.len()
        invariant
            i <= edges.len(),
            forall|i: int| 0 <= i < edges.len() ==> (#[trigger] edges[i]) < edge_proofs.len(),
            forall|k: int| 0 <= k < i ==> edge_proofs[#[trigger] edges[k] as int].claims.len() > 0,
        decreases edges.len() - i,
    {
        if edge_proofs[edges[i]].claims.len() == 0 {
            return false;
        }
        i = i + 1;
    }
    true
}

/// The functions that check blocks, combined claims of nodes, and openings, and the scale.
pub struct Checks<V, W, P> {
    pub block: V,
    pub reducer: W,
    pub opening: P,
    pub sf: u64,
}

/// The check over `scope` from the given claims gets stuck.
pub open spec fn stuck<
    V: Fn(NodeId, &Vec<Claim>, &Vec<SumcheckProof>, Digest) -> CheckReply,
    W: Fn(NodeId, &Vec<Claim>, &Vec<SumcheckProof>, Digest) -> CheckReply,
    P: Fn(usize, &BasefoldCommitmentData, &Claim, &BasefoldOpeningProof, GoldilocksExt2) -> bool,
>(
    dag: Dag,
    nps: Seq<Option<NodeProof>>,
    rps: Seq<Option<Vec<SumcheckProof>>>,
    checks: Checks<V, W, P>,
    scope: Scope,
    init: Seq<(EdgeId, Assertion)>,
    s: Digest,
) -> bool {
    gets_stuck(
        dag,
        scope,
        nps,
        rps,
        checks.block,
        checks.reducer,
        check_started(dag, scope, init, init.len()),
        s,
    )
}

/// The check over `scope` from the given claims ends in `q` at digest `t`.
pub open spec fn arrives<
    V: Fn(NodeId, &Vec<Claim>, &Vec<SumcheckProof>, Digest) -> CheckReply,
    W: Fn(NodeId, &Vec<Claim>, &Vec<SumcheckProof>, Digest) -> CheckReply,
    P: Fn(usize, &BasefoldCommitmentData, &Claim, &BasefoldOpeningProof, GoldilocksExt2) -> bool,
>(
    dag: Dag,
    nps: Seq<Option<NodeProof>>,
    rps: Seq<Option<Vec<SumcheckProof>>>,
    checks: Checks<V, W, P>,
    scope: Scope,
    init: Seq<(EdgeId, Assertion)>,
    s: Digest,
    q: Check,
    t: Digest,
) -> bool {
    &&& q.done()
    &&& reaches(
        dag,
        scope,
        nps,
        rps,
        checks.block,
        checks.reducer,
        check_started(dag, scope, init, init.len()),
        s,
        q,
        t,
    )
}

/// The outcome `r` of the check of a proof: nothing where the proof lacks what a check needs, and
/// else the verdict.
pub open spec fn verifies<
    V: Fn(NodeId, &Vec<Claim>, &Vec<SumcheckProof>, Digest) -> CheckReply,
    W: Fn(NodeId, &Vec<Claim>, &Vec<SumcheckProof>, Digest) -> CheckReply,
    P: Fn(usize, &BasefoldCommitmentData, &Claim, &BasefoldOpeningProof, GoldilocksExt2) -> bool,
>(
    dag: Dag,
    h: spec_fn(Digest, Digest) -> Digest,
    s: Digest,
    ws: Seq<Vec<Witness>>,
    com: Seq<Option<BasefoldCommitmentData>>,
    nps: Seq<Option<NodeProof>>,
    eps: Seq<EdgeProof>,
    range_proof: LookupProof,
    two_pow_proof: LookupProof,
    rps: Seq<Option<Vec<SumcheckProof>>>,
    checks: Checks<V, W, P>,
    r: Option<bool>,
    end: Digest,
) -> bool {
    let outs = dag.claimed_outputs(ws);
    let init = head_claims(eps, outs);
    let (ok, s1) = redrawn(h, s, init, outs.len());
    if !heads_present(eps, outs) {
        r is None
    } else {
        ||| r is None && exists|scope: Scope|
            is_whole(dag, scope) && #[trigger] stuck(dag, nps, rps, checks, scope, init, s1)
        ||| exists|scope: Scope, q: Check, t: Digest|
            is_whole(dag, scope) && #[trigger] arrives(
                dag,
                nps,
                rps,
                checks,
                scope,
                init,
                s1,
                q,
                t,
            ) && dag.end_verdict(
                h,
                t,
                ws,
                dag.openable(ws, com, Seq::empty()),
                nps,
                q.claims,
                eps,
                range_proof,
                two_pow_proof,
                checks.sf,
                checks.opening,
                ok && q.verified,
                r,
                end,
            )
    }
}

/// A check that got stuck is a witness.
proof fn lemma_verifies_stuck<
    V: Fn(NodeId, &Vec<Claim>, &Vec<SumcheckProof>, Digest) -> CheckReply,
    W: Fn(NodeId, &Vec<Claim>, &Vec<SumcheckProof>, Digest) -> CheckReply,
    P: Fn(usize, &BasefoldCommitmentData, &Claim, &BasefoldOpeningProof, GoldilocksExt2) -> bool,
>(
    dag: Dag,
    h: spec_fn(Digest, Digest) -> Digest,
    s: Digest,
    ws: Seq<Vec<Witness>>,
    com: Seq<Option<BasefoldCommitmentData>>,
    nps: Seq<Option<NodeProof>>,
    eps: Seq<EdgeProof>,
    range_proof: LookupProof,
    two_pow_proof: LookupProof,
    rps: Seq<Option<Vec<SumcheckProof>>>,
    checks: Checks<V, W, P>,
    end: Digest,
    scope: Scope,
)
    requires
        heads_present(eps, dag.claimed_outputs(ws)),
        is_whole(dag, scope),
        ({
            let outs = dag.claimed_outputs(ws);
            let init = head_claims(eps, outs);
            stuck(dag, nps, rps, checks, scope, init, redrawn(h, s, init, outs.len()).1)
        }),
    ensures
        verifies(dag, h, s, ws, com, nps, eps, range_proof, two_pow_proof, rps, checks, None, end),
{
}

/// A check that ended is a witness.
proof fn lemma_verifies<
    V: Fn(NodeId, &Vec<Claim>, &Vec<SumcheckProof>, Digest) -> CheckReply,
    W: Fn(NodeId, &Vec<Claim>, &Vec<SumcheckProof>, Digest) -> CheckReply,
    P: Fn(usize, &BasefoldCommitmentData, &Claim, &BasefoldOpeningProof, GoldilocksExt2) -> bool,
>(
    dag: Dag,
    h: spec_fn(Digest, Digest) -> Digest,
    s: Digest,
    ws: Seq<Vec<Witness>>,
    com: Seq<Option<BasefoldCommitmentData>>,
    nps: Seq<Option<NodeProof>>,
    eps: Seq<EdgeProof>,
    range_proof: LookupProof,
    two_pow_proof: LookupProof,
    rps: Seq<Option<Vec<SumcheckProof>>>,
    checks: Checks<V, W, P>,
    r: Option<bool>,
    end: Digest,
    scope: Scope,
    q: Check,
    t: Digest,
)
    requires
        heads_present(eps, dag.claimed_outputs(ws)),
        is_whole(dag, scope),
        ({
            let outs = dag.claimed_outputs(ws);
            let init = head_claims(eps, outs);
            let (ok, s1) = redrawn(h, s, init, outs.len());
            &&& arrives(dag, nps, rps, checks, scope, init, s1, q, t)
            &&& dag.end_verdict(
                h,
                t,
                ws,
                dag.openable(ws, com, Seq::empty()),
                nps,
                q.claims,
                eps,
                range_proof,
                two_pow_proof,
                checks.sf,
                checks.opening,
                ok && q.verified,
                r,
                end,
            )
        }),
    ensures
        verifies(dag, h, s, ws, com, nps, eps, range_proof, two_pow_proof, rps, checks, r, end),
{
}

impl Dag {
    /// Checks the proof of a graph, on the same transcript as it was made. Where the proof lacks
    /// what a check needs there is no verdict.
    pub fn verify<
        F: Fn(Digest, Digest) -> Digest,
        V: Fn(NodeId, &Vec<Claim>, &Vec<SumcheckProof>, Digest) -> CheckReply,
        W: Fn(NodeId, &Vec<Claim>, &Vec<SumcheckProof>, Digest) -> CheckReply,
        P: Fn(usize, &BasefoldCommitmentData, &Claim, &BasefoldOpeningProof, GoldilocksExt2) -> bool,
    >(
        &self,
        node_proofs: &[Option<NodeProof>],
        edge_proofs: &[EdgeProof],
        range_proof: &LookupProof,
        two_pow_proof: &LookupProof,
        reducer_proofs: &[Option<Vec<SumcheckProof>>],
        witnesses: &[Vec<Witness>],
        commitments: &[Option<BasefoldCommitmentData>],
        transcript: &mut Transcript<F>,
        checks: &Checks<V, W, P>,
    ) -> (r: Option<bool>)
        requires
            self.ordered(),
            self.lookups_ok(),
            self.ports_ok(),
            witnesses_ok(witnesses@, self.num_edges as nat),
            commitments.len() == self.num_edges,
            node_proofs.len() == self.nodes.len(),
            edge_proofs.len() == self.num_edges,
            reducer_proofs.len() == self.nodes.len(),
            old(transcript).wf(),
            is_check(checks.block),
            is_check(checks.reducer),
            forall|
                t: usize,
                c: &BasefoldCommitmentData,
                claim: &Claim,
                p: &BasefoldOpeningProof,
                s: GoldilocksExt2,
            | #[trigger] call_requires(checks.opening, (t, c, claim, p, s)),
        ensures
            final(transcript).compress == old(transcript).compress,
            verifies(
                *self,
                old(transcript).hash(),
                old(transcript).state,
                witnesses@,
                commitments@,
                node_proofs@,
                edge_proofs@,
                *range_proof,
                *two_pow_proof,
                reducer_proofs@,
                *checks,
                r,
                final(transcript).state,
            ),
    {
        let ghost h = transcript.hash();
        let ghost s = transcript.state;
        let ghost ws = witnesses@;
        proof {
            assert forall|i: int| 0 <= i < self.output_ports.len() implies (
            #[trigger] self.output_ports[i]) < witnesses.len() && witnesses[self.output_ports[i] as int].len()
                > 0 by {
                assert(ws[self.output_ports[i] as int].len() > 0);
            }
        }
        let outs: Vec<EdgeId> = self.output_edges(witnesses);
        if !has_heads(edge_proofs, &outs) {
            return None;
        }
        let (ok, initial) = redraw_heads(edge_proofs, &outs, transcript);
        let ghost init = head_claims(edge_proofs@, outs@);
        let ghost s1 = transcript.state;
        let scope: Scope = Scope::whole(self);
        assert(is_whole(*self, scope));
        let st: Checking = self.start_check(&scope, initial);
        match self.run_check(
            &scope,
            node_proofs,
            reducer_proofs,
            st,
            transcript.state,
            &checks.block,
            &checks.reducer,
        ) {
            None => {
                assert(stuck(*self, node_proofs@, reducer_proofs@, *checks, scope, init, s1));
                proof {
                    lemma_verifies_stuck(
                        *self,
                        h,
                        s,
                        ws,
                        commitments@,
                        node_proofs@,
                        edge_proofs@,
                        *range_proof,
                        *two_pow_proof,
                        reducer_proofs@,
                        *checks,
                        transcript.state,
                        scope,
                    );
                }
                None
            },
            Some((q, t)) => {
                transcript.state = t;
                assert(arrives(
                    *self,
                    node_proofs@,
                    reducer_proofs@,
                    *checks,
                    scope,
                    init,
                    s1,
                    q@,
                    t,
                ));
                let no_cuts: Vec<EdgeId> = Vec::new();
                let openable: Vec<Option<BasefoldCommitmentData>> = self.list_openable(
                    witnesses,
                    commitments,
                    &no_cuts,
                );
                assert(no_cuts@ =~= Seq::<EdgeId>::empty());
                let r: Option<bool> = self.check_finish(
                    witnesses,
                    openable.as_slice(),
                    node_proofs,
                    q.claims.as_slice(),
                    edge_proofs,
                    range_proof,
                    two_pow_proof,
                    checks.sf,
                    ok && q.verified,
                    transcript,
                    &checks.opening,
                );
                proof {
                    lemma_verifies(
                        *self,
                        h,
                        s,
                        ws,
                        commitments@,
                        node_proofs@,
                        edge_proofs@,
                        *range_proof,
                        *two_pow_proof,
                        reducer_proofs@,
                        *checks,
                        r,
                        transcript.state,
                        scope,
                        q@,
                        t,
                    );
                }
                r
            },
        }
    }
}

} // verus!
