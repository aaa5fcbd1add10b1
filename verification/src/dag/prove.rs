//! Proving a graph: the backward pass from random points of the outputs, then lookups and
//! openings.
use vstd::prelude::*;

use crate::commit::basefold::{BasefoldCommitmentData, BasefoldOpeningProof};
use crate::dag::backward::{node_proof_views, started, Backward, BlockReply, Pass, Scope};
use crate::dag::openings::witnesses_ok;
use crate::dag::outputs::{claim_at_points, drawn_upto, edges_known, random_claims};
use crate::dag::pass::{is_block, is_reducer, passes};
use crate::dag::types::{Claim, Dag, EdgeId, EdgeProof, LookupProof, NodeId, NodeProof};
use crate::dag::witness::Witness;
use crate::field::GoldilocksExt2;
use crate::sumcheck::SumcheckProof;
use crate::transcript::{Digest, Transcript};

verus! {

/// The proofs of the nodes, of the edges, of the range checks, of the lookups of powers of two,
/// and of the combined claims of the nodes.
pub type DagProof = (
    Vec<Option<NodeProof>>,
    Vec<EdgeProof>,
    LookupProof,
    LookupProof,
    Vec<Option<Vec<SumcheckProof>>>,
);

/// The scope is the whole graph.
pub open spec fn is_whole(dag: Dag, scope: Scope) -> bool {
    &&& scope.wf(&dag)
    &&& forall|n: int| 0 <= n < scope.inside.len() ==> #[trigger] scope.inside[n]
    &&& forall|e: int| 0 <= e < scope.stop.len() ==> !#[trigger] scope.stop[e]
}

/// `r` is what comes of a pass that ended in `q` at digest `t`.
pub open spec fn proof_from<O: Fn(usize, EdgeId, &Claim, GoldilocksExt2) -> BasefoldOpeningProof>(
    dag: Dag,
    h: spec_fn(Digest, Digest) -> Digest,
    ws: Seq<Vec<Witness>>,
    com: Seq<Option<BasefoldCommitmentData>>,
    open: O,
    q: Pass,
    t: Digest,
    r: Option<DagProof>,
    end: Digest,
) -> bool {
    &&& r is Some <==> dag.can_finish(h, t, ws, dag.openable(ws, com, Seq::empty()), q.claims)
    &&& r matches Some(p) ==> {
        &&& node_proof_views(p.0@) == q.node_proofs
        &&& p.4@ == q.reducer_proofs
        &&& dag.finished(
            h,
            t,
            ws,
            dag.openable(ws, com, Seq::empty()),
            q.claims,
            open,
            p.1@,
            p.2,
            p.3,
            end,
        )
    }
}

/// `r` is what comes of a backward pass from random points of the outputs.
pub open spec fn proves<
    B: Fn(NodeId, &Vec<EdgeId>, &Vec<Claim>, Digest) -> BlockReply,
    R: Fn(NodeId, &Vec<EdgeId>, &Vec<Claim>, Digest) -> BlockReply,
    O: Fn(usize, EdgeId, &Claim, GoldilocksExt2) -> BasefoldOpeningProof,
>(
    dag: Dag,
    h: spec_fn(Digest, Digest) -> Digest,
    s: Digest,
    ws: Seq<Vec<Witness>>,
    com: Seq<Option<BasefoldCommitmentData>>,
    block: B,
    reduce: R,
    open: O,
    r: Option<DagProof>,
    end: Digest,
) -> bool {
    let outs = dag.claimed_outputs(ws);
    let init = random_claims(h, s, ws, outs);
    let s1 = drawn_upto(h, s, ws, outs, outs.len());
    exists|scope: Scope, q: Pass, t: Digest|
        is_whole(dag, scope) && #[trigger] passes(
            dag,
            scope,
            block,
            reduce,
            started(dag, scope, init, init.len()),
            s1,
            q,
            t,
        ) && proof_from(dag, h, ws, com, open, q, t, r, end)
}

/// A pass and what came of it make a proof.
proof fn lemma_proves<
    B: Fn(NodeId, &Vec<EdgeId>, &Vec<Claim>, Digest) -> BlockReply,
    R: Fn(NodeId, &Vec<EdgeId>, &Vec<Claim>, Digest) -> BlockReply,
    O: Fn(usize, EdgeId, &Claim, GoldilocksExt2) -> BasefoldOpeningProof,
>(
    dag: Dag,
    h: spec_fn(Digest, Digest) -> Digest,
    s: Digest,
    ws: Seq<Vec<Witness>>,
    com: Seq<Option<BasefoldCommitmentData>>,
    block: B,
    reduce: R,
    open: O,
    r: Option<DagProof>,
    end: Digest,
    scope: Scope,
    q: Pass,
    t: Digest,
)
    requires
        is_whole(dag, scope),
        ({
            let outs = dag.claimed_outputs(ws);
            let init = random_claims(h, s, ws, outs);
            passes(
                dag,
                scope,
                block,
                reduce,
                started(dag, scope, init, init.len()),
                drawn_upto(h, s, ws, outs, outs.len()),
                q,
                t,
            )
        }),
        proof_from(dag, h, ws, com, open, q, t, r, end),
    ensures
        proves(dag, h, s, ws, com, block, reduce, open, r, end),
{
}

impl Dag {
    /// What a graph and its tensors have to be for a proof to start.
    pub open spec fn provable(
        &self,
        ws: Seq<Vec<Witness>>,
        com: Seq<Option<BasefoldCommitmentData>>,
    ) -> bool {
        &&& self.ordered()
        &&& self.lookups_ok()
        &&& self.ports_ok()
        &&& witnesses_ok(ws, self.num_edges as nat)
        &&& com.len() == self.num_edges
        &&& edges_known(ws, self.claimed_outputs(ws))
    }

    /// The output ports are edges of the graph.
    pub open spec fn ports_ok(&self) -> bool {
        forall|i: int|
            0 <= i < self.output_ports.len() ==> (#[trigger] self.output_ports[i]) < self.num_edges
    }

    /// Proves a graph. What a block makes of claims, how claims about a node are combined and how
    /// a claim is opened are the functions `block`, `reduce` and `open`. There is no proof where
    /// the claims that the blocks answer do not give the lookups what they need.
    pub fn prove<
        F: Fn(Digest, Digest) -> Digest,
        B: Fn(NodeId, &Vec<EdgeId>, &Vec<Claim>, Digest) -> BlockReply,
        R: Fn(NodeId, &Vec<EdgeId>, &Vec<Claim>, Digest) -> BlockReply,
        O: Fn(usize, EdgeId, &Claim, GoldilocksExt2) -> BasefoldOpeningProof,
    >(
        &self,
        witnesses: &[Vec<Witness>],
        commitments: &[Option<BasefoldCommitmentData>],
        transcript: &mut Transcript<F>,
        block: &B,
        reduce: &R,
        open: &O,
    ) -> (r: Option<DagProof>)
        requires
            self.provable(witnesses@, commitments@),
            old(transcript).wf(),
            is_block(*self, *block),
            is_reducer(*self, *reduce),
            forall|t: usize, e: EdgeId, c: &Claim, s: GoldilocksExt2| #[trigger]
                call_requires(*open, (t, e, c, s)),
        ensures
            final(transcript).compress == old(transcript).compress,
            proves(
                *self,
                old(transcript).hash(),
                old(transcript).state,
                witnesses@,
                commitments@,
                *block,
                *reduce,
                *open,
                r,
                final(transcript).state,
            ),
    {
        let ghost h = transcript.hash();
        let ghost s = transcript.state;
        let ghost ws = witnesses@;
        let ghost com = commitments@;
        proof {
            assert forall|i: int| 0 <= i < self.output_ports.len() implies (
            #[trigger] self.output_ports[i]) < witnesses.len() && witnesses[self.output_ports[i] as int].len()
                > 0 by {
                assert(ws[self.output_ports[i] as int].len() > 0);
            }
        }
        let outs: Vec<EdgeId> = self.output_edges(witnesses);
        let initial: Vec<(EdgeId, Claim)> = claim_at_points(witnesses, &outs, transcript);
        let scope: Scope = Scope::whole(self);
        let start: Backward = self.start_pass(&scope, initial);
        let (state, digest) = self.run_pass(&scope, start, transcript.state, block, reduce);
        let ghost q = state@;
        transcript.state = digest;
        let ghost t = transcript.state;
        let no_cuts: Vec<EdgeId> = Vec::new();
        let openable: Vec<Option<BasefoldCommitmentData>> = self.list_openable(
            witnesses,
            commitments,
            &no_cuts,
        );
        assert(no_cuts@ =~= Seq::<EdgeId>::empty());
        let r: Option<DagProof> = match self.finish(
            witnesses,
            openable.as_slice(),
            state.claims,
            transcript,
            open,
        ) {
            Some((eps, range_proof, two_pow_proof)) => Some(
                (state.node_proofs, eps, range_proof, two_pow_proof, state.reducer_proofs),
            ),
            None => None,
        };
        proof {
            assert(proof_from(*self, h, ws, com, *open, q, t, r, transcript.state));
            lemma_proves(
                *self,
                h,
                s,
                ws,
                com,
                *block,
                *reduce,
                *open,
                r,
                transcript.state,
                scope,
                q,
                t,
            );
        }
        r
    }
}

} // verus!
