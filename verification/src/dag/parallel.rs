//! Proving the partitions of a graph one by one, joined by claims about the boundaries.
use vstd::prelude::*;

use crate::commit::basefold::{BasefoldCommitmentData, BasefoldOpeningProof};
use crate::dag::backward::{
    clone_claims, node_proof_views, started, starting, Backward, BlockReply, Pass, Scope,
};
use crate::dag::commit::has_edge;
use crate::dag::outputs::{claim_at_points, drawn_upto, edges_known, random_claims};
use crate::dag::partition::{
    among, describes, entering, lemma_nodes_in, partitioned, partitions_of, PartitionDesc,
};
use crate::dag::pass::{is_block, is_reducer, passes};
use crate::dag::types::{
    claim_list, claim_lists, clone_point, Assertion, Claim, Dag, EdgeId, NodeId, ParallelProof,
    PartitionProof,
};
use crate::dag::witness::Witness;
use crate::field::GoldilocksExt2;
use crate::transcript::{absorb, Digest, Label, Transcript};

verus! {

/// The first partition, from the `k`-th on, that has node `n`.
pub open spec fn home_from(parts: Seq<PartitionDesc>, n: NodeId, k: int) -> Option<int>
    decreases parts.len() - k,
{
    if k >= parts.len() {
        None
    } else if parts[k].node_ids@.contains(n) {
        Some(k)
    } else {
        home_from(parts, n, k + 1)
    }
}

impl Dag {
    /// The partition that a claim about edge `e` starts from: the first that has its writer.
    pub open spec fn home(&self, parts: Seq<PartitionDesc>, e: EdgeId) -> Option<int> {
        match self.producers[e as int] {
            Some(n) => home_from(parts, n, 0),
            None => None,
        }
    }

    /// Those of the first `k` claims that partition `p` starts from.
    pub open spec fn routed_upto(
        &self,
        parts: Seq<PartitionDesc>,
        init: Seq<(EdgeId, Assertion)>,
        p: int,
        k: nat,
    ) -> Seq<(EdgeId, Assertion)>
        decreases k,
    {
        if k == 0 {
            Seq::empty()
        } else {
            let rest = self.routed_upto(parts, init, p, (k - 1) as nat);
            if self.home(parts, init[k - 1].0) == Some(p) {
                rest.push(init[k - 1])
            } else {
                rest
            }
        }
    }

    /// The claims that partition `p` starts from.
    pub open spec fn routed(
        &self,
        parts: Seq<PartitionDesc>,
        init: Seq<(EdgeId, Assertion)>,
        p: int,
    ) -> Seq<(EdgeId, Assertion)> {
        self.routed_upto(parts, init, p, init.len())
    }

    /// The partitions name nodes and edges of the graph.
    pub open spec fn parts_ok(&self, parts: Seq<PartitionDesc>) -> bool {
        forall|k: int| 0 <= k < parts.len() ==> self.part_ok(#[trigger] parts[k])
    }

    /// The partition names nodes and edges of the graph.
    pub open spec fn part_ok(&self, part: PartitionDesc) -> bool {
        &&& forall|i: int|
            0 <= i < part.node_ids.len() ==> (#[trigger] part.node_ids[i]) < self.nodes.len()
        &&& forall|i: int|
            0 <= i < part.boundary_input_edges.len() ==> (#[trigger] part.boundary_input_edges[i])
                < self.num_edges
    }

    /// The partition that a claim about an edge starts from.
    pub fn find_home(&self, parts: &[PartitionDesc], e: EdgeId) -> (r: Option<usize>)
        requires
            e < self.producers.len(),
        ensures
            r is Some <==> self.home(parts@, e) is Some,
            r matches Some(k) ==> self.home(parts@, e) == Some(k as int) && k < parts.len(),
    {
        match self.producers[e] {
            Some(n) => {
                let mut k: usize = 0;
                while k < parts.len()
                    invariant
                        k <= parts.len(),
                        e < self.producers.len(),
                        self.producers[e as int] == Some(n),
                        home_from(parts@, n, k as int) == home_from(parts@, n, 0),
                    decreases parts.len() - k,
                {
                    if has_edge(&parts[k].node_ids, n) {
                        return Some(k);
                    }
                    k = k + 1;
                }
                None
            },
            None => None,
        }
    }

    /// The claims that partition `p` starts from.
    pub fn route(&self, parts: &[PartitionDesc], initial: &Vec<(EdgeId, Claim)>, p: usize) -> (r: Vec<
        (EdgeId, Claim),
    >)
        requires
            self.producers.len() == self.num_edges,
            forall|i: int| 0 <= i < initial.len() ==> (#[trigger] initial[i]).0 < self.num_edges,
        ensures
            starting(r@) == self.routed(parts@, starting(initial@), p as int),
            forall|i: int| 0 <= i < r.len() ==> (#[trigger] r[i]).0 < self.num_edges,
    {
        let ghost init = starting(initial@);
        let mut r: Vec<(EdgeId, Claim)> = Vec::new();
        let mut i: usize = 0;
        assert(starting(r@) =~= Seq::<(EdgeId, Assertion)>::empty());
        while i < initial.len()
            invariant
                i <= initial.len(),
                init == starting(initial@),
                self.producers.len() == self.num_edges,
                forall|i: int| 0 <= i < initial.len() ==> (#[trigger] initial[i]).0 < self.num_edges,
                starting(r@) == self.routed_upto(parts@, init, p as int, i as nat),
                forall|i: int| 0 <= i < r.len() ==> (#[trigger] r[i]).0 < self.num_edges,
            decreases initial.len() - i,
        {
            let e: usize = initial[i].0;
            assert(init[i as int] == (e, initial[i as int].1@));
            let ghost before = starting(r@);
            match self.find_home(parts, e) {
                Some(k) => {
                    if k == p {
                        let c: Claim = initial[i].1.clone();
                        let ghost cv = c@;
                        r.push((e, c));
                        assert(starting(r@) =~= before.push((e, cv)));
                    }
                },
                None => {},
            }
            i = i + 1;
        }
        r
    }
}

/// The claims about edge `e` of the first `k` passes, one after the other.
pub open spec fn merged_upto(qs: Seq<Pass>, e: int, k: nat) -> Seq<Assertion>
    decreases k,
{
    if k == 0 {
        Seq::empty()
    } else {
        merged_upto(qs, e, (k - 1) as nat) + qs[k - 1].claims[e]
    }
}

/// The claims of all passes, edge by edge.
pub open spec fn merged(qs: Seq<Pass>, num_edges: nat) -> Seq<Seq<Assertion>> {
    Seq::new(num_edges, |e: int| merged_upto(qs, e, qs.len()))
}

/// The values of passes.
pub open spec fn pass_views(bs: Seq<Backward>) -> Seq<Pass> {
    bs.map_values(|b: Backward| b@)
}

/// Puts the claims of all passes together, edge by edge.
fn merge(passes: &Vec<Backward>, num_edges: usize) -> (r: Vec<Vec<Claim>>)
    requires
        forall|k: int| 0 <= k < passes.len() ==> (#[trigger] passes[k]).claims.len() == num_edges,
    ensures
        claim_lists(r@) == merged(pass_views(passes@), num_edges as nat),
        r.len() == num_edges,
{
    let ghost qs = pass_views(passes@);
    let mut r: Vec<Vec<Claim>> = Vec::new();
    let mut e: usize = 0;
    while e < num_edges
        invariant
            e <= num_edges,
            r.len() == e,
            qs == pass_views(passes@),
            forall|k: int| 0 <= k < passes.len() ==> (#[trigger] passes[k]).claims.len() == num_edges,
            forall|f: int|
                0 <= f < e ==> claim_list((#[trigger] r[f])@) == merged_upto(qs, f, qs.len()),
        decreases num_edges - e,
    {
        let mut list: Vec<Claim> = Vec::new();
        let mut k: usize = 0;
        assert(claim_list(list@) =~= merged_upto(qs, e as int, 0));
        while k < passes.len()
            invariant
                k <= passes.len(),
                e < num_edges,
                qs == pass_views(passes@),
                forall|k: int|
                    0 <= k < passes.len() ==> (#[trigger] passes[k]).claims.len() == num_edges,
                claim_list(list@) == merged_upto(qs, e as int, k as nat),
            decreases passes.len() - k,
        {
            assert(passes[k as int].claims.len() == num_edges);
            let mut more: Vec<Claim> = clone_claims(&passes[k].claims[e]);
            let ghost (a, b) = (list@, more@);
            list.append(&mut more);
            proof {
                assert(claim_list(list@) =~= claim_list(a) + claim_list(b));
                assert(qs[k as int].claims[e as int] == claim_list(passes[k as int].claims[e as int]@));
            }
            k = k + 1;
        }
        r.push(list);
        e = e + 1;
    }
    assert(claim_lists(r@) =~= merged(qs, num_edges as nat));
    r
}

/// The scope is partition `part`.
pub open spec fn is_part(dag: Dag, part: PartitionDesc, scope: Scope) -> bool {
    &&& scope.wf(&dag)
    &&& forall|n: int|
        0 <= n < scope.inside.len() ==> #[trigger] scope.inside[n] == part.node_ids@.contains(n as usize)
    &&& forall|e: int|
        0 <= e < scope.stop.len() ==> #[trigger] scope.stop[e] == part.boundary_input_edges@.contains(
            e as usize,
        )
}

/// The digest that partition `k` starts from.
pub open spec fn fork_digest(h: spec_fn(Digest, Digest) -> Digest, s: Digest, k: int) -> Digest {
    absorb(h, s, Label::Fork, k as u64, 0)
}

/// A backward pass over partition `k`, from its claims and its own digest, ends in `q`.
pub open spec fn part_passes<
    B: Fn(NodeId, &Vec<EdgeId>, &Vec<Claim>, Digest) -> BlockReply,
    R: Fn(NodeId, &Vec<EdgeId>, &Vec<Claim>, Digest) -> BlockReply,
>(
    dag: Dag,
    parts: Seq<PartitionDesc>,
    h: spec_fn(Digest, Digest) -> Digest,
    s: Digest,
    init: Seq<(EdgeId, Assertion)>,
    block: B,
    reduce: R,
    k: int,
    q: Pass,
) -> bool {
    let cs = dag.routed(parts, init, k);
    exists|scope: Scope, t: Digest|
        is_part(dag, parts[k], scope) && #[trigger] passes(
            dag,
            scope,
            block,
            reduce,
            started(dag, scope, cs, cs.len()),
            fork_digest(h, s, k),
            q,
            t,
        )
}

/// A pass over a partition is a witness.
proof fn lemma_part_passes<
    B: Fn(NodeId, &Vec<EdgeId>, &Vec<Claim>, Digest) -> BlockReply,
    R: Fn(NodeId, &Vec<EdgeId>, &Vec<Claim>, Digest) -> BlockReply,
>(
    dag: Dag,
    parts: Seq<PartitionDesc>,
    h: spec_fn(Digest, Digest) -> Digest,
    s: Digest,
    init: Seq<(EdgeId, Assertion)>,
    block: B,
    reduce: R,
    k: int,
    q: Pass,
    scope: Scope,
    t: Digest,
)
    requires
        is_part(dag, parts[k], scope),
        ({
            let cs = dag.routed(parts, init, k);
            passes(
                dag,
                scope,
                block,
                reduce,
                started(dag, scope, cs, cs.len()),
                fork_digest(h, s, k),
                q,
                t,
            )
        }),
    ensures
        part_passes(dag, parts, h, s, init, block, reduce, k, q),
{
}

/// A claim about a boundary, as it is sent.
pub open spec fn boundary_eval(
    c: (EdgeId, Assertion),
    b: (EdgeId, Vec<GoldilocksExt2>, GoldilocksExt2),
) -> bool {
    b.0 == c.0 && b.1@ == c.1.point && b.2 == c.1.eval
}

/// `r` is what comes of the passes `qs` over the partitions.
pub open spec fn parallel_from<
    O: Fn(usize, EdgeId, &Claim, GoldilocksExt2) -> BasefoldOpeningProof,
>(
    dag: Dag,
    h: spec_fn(Digest, Digest) -> Digest,
    s: Digest,
    ws: Seq<Vec<Witness>>,
    com: Seq<Option<BasefoldCommitmentData>>,
    open: O,
    boundary: Seq<(EdgeId, Assertion)>,
    qs: Seq<Pass>,
    r: Option<ParallelProof>,
    end: Digest,
) -> bool {
    let claims = merged(qs, dag.num_edges as nat);
    &&& r is Some <==> dag.can_finish(h, s, ws, dag.openable(ws, com, dag.boundary_edges@), claims)
    &&& r matches Some(p) ==> {
        &&& p.boundary_evals.len() == boundary.len()
        &&& forall|i: int|
            0 <= i < boundary.len() ==> boundary_eval(boundary[i], #[trigger] p.boundary_evals[i])
        &&& p.partition_proofs.len() == qs.len()
        &&& forall|k: int|
            0 <= k < qs.len() ==> proof_of_pass(qs[k], #[trigger] p.partition_proofs[k])
        &&& dag.finished(
            h,
            s,
            ws,
            dag.openable(ws, com, dag.boundary_edges@),
            claims,
            open,
            p.edge_proofs@,
            p.range_proof,
            p.two_pow_proof,
            end,
        )
    }
}

/// The proof of a partition holds what its pass has proved.
pub open spec fn proof_of_pass(q: Pass, p: PartitionProof) -> bool {
    node_proof_views(p.node_proofs@) == q.node_proofs && p.reducer_proofs@ == q.reducer_proofs
}

/// `r` is what comes of passes over all partitions.
pub open spec fn proves_parallel<
    B: Fn(NodeId, &Vec<EdgeId>, &Vec<Claim>, Digest) -> BlockReply,
    R: Fn(NodeId, &Vec<EdgeId>, &Vec<Claim>, Digest) -> BlockReply,
    O: Fn(usize, EdgeId, &Claim, GoldilocksExt2) -> BasefoldOpeningProof,
>(
    dag: Dag,
    parts: Seq<PartitionDesc>,
    h: spec_fn(Digest, Digest) -> Digest,
    s: Digest,
    ws: Seq<Vec<Witness>>,
    com: Seq<Option<BasefoldCommitmentData>>,
    block: B,
    reduce: R,
    open: O,
    r: Option<ParallelProof>,
    end: Digest,
) -> bool {
    let outs = dag.claimed_outputs(ws);
    let cuts = dag.boundary_edges@;
    let s1 = drawn_upto(h, s, ws, outs, outs.len());
    let s2 = drawn_upto(h, s1, ws, cuts, cuts.len());
    let boundary = random_claims(h, s1, ws, cuts);
    let init = random_claims(h, s, ws, outs) + boundary;
    exists|qs: Seq<Pass>| #[trigger]
        all_parts_pass(dag, parts, h, s2, init, block, reduce, qs) && parallel_from(
            dag,
            h,
            s2,
            ws,
            com,
            open,
            boundary,
            qs,
            r,
            end,
        )
}

/// There is a pass over every partition.
pub open spec fn all_parts_pass<
    B: Fn(NodeId, &Vec<EdgeId>, &Vec<Claim>, Digest) -> BlockReply,
    R: Fn(NodeId, &Vec<EdgeId>, &Vec<Claim>, Digest) -> BlockReply,
>(
    dag: Dag,
    parts: Seq<PartitionDesc>,
    h: spec_fn(Digest, Digest) -> Digest,
    s: Digest,
    init: Seq<(EdgeId, Assertion)>,
    block: B,
    reduce: R,
    qs: Seq<Pass>,
) -> bool {
    &&& qs.len() == parts.len()
    &&& forall|k: int|
        0 <= k < qs.len() ==> part_passes(
            dag,
            parts,
            h,
            s,
            init,
            block,
            reduce,
            k,
            #[trigger] qs[k],
        )
}

/// Copies of boundary claims, as they are sent.
fn boundary_list(claims: &Vec<(EdgeId, Claim)>) -> (r: Vec<(EdgeId, Vec<GoldilocksExt2>, GoldilocksExt2)>)
    ensures
        r.len() == claims.len(),
        forall|i: int|
            0 <= i < r.len() ==> boundary_eval(starting(claims@)[i], #[trigger] r[i]),
{
    let mut r: Vec<(EdgeId, Vec<GoldilocksExt2>, GoldilocksExt2)> = Vec::new();
    let mut i: usize = 0;
    while i < claims.len()
        invariant
            i <= claims.len(),
            r.len() == i,
            forall|k: int| 0 <= k < i ==> boundary_eval(starting(claims@)[k], #[trigger] r[k]),
        decreases claims.len() - i,
    {
        let point: Vec<GoldilocksExt2> = clone_point(claims[i].1.point.as_slice());
        r.push((claims[i].0, point, claims[i].1.eval));
        i = i + 1;
    }
    r
}

impl Dag {
    /// A backward pass over one partition, on a transcript of its own.
    fn prove_partition<
        B: Fn(NodeId, &Vec<EdgeId>, &Vec<Claim>, Digest) -> BlockReply,
        R: Fn(NodeId, &Vec<EdgeId>, &Vec<Claim>, Digest) -> BlockReply,
    >(
        &self,
        part: &PartitionDesc,
        starting_claims: Vec<(EdgeId, Claim)>,
        start: Digest,
        block: &B,
        reduce: &R,
    ) -> (r: (Backward, Ghost<Scope>, Ghost<Digest>))
        requires
            self.ordered(),
            self.part_ok(*part),
            forall|i: int|
                0 <= i < starting_claims.len() ==> (#[trigger] starting_claims[i]).0 < self.num_edges,
            is_block(*self, *block),
            is_reducer(*self, *reduce),
        ensures
            r.0@.wf(*self),
            is_part(*self, *part, r.1@),
            passes(
                *self,
                r.1@,
                *block,
                *reduce,
                started(*self, r.1@, starting(starting_claims@), starting_claims.len() as nat),
                start,
                r.0@,
                r.2@,
            ),
    {
        let scope: Scope = Scope::of_partition(self, part);
        let st: Backward = self.start_pass(&scope, starting_claims);
        let (end, digest) = self.run_pass(&scope, st, start, block, reduce);
        (end, Ghost(scope), Ghost(digest))
    }

    /// Proves a graph partition by partition. Each partition has a transcript of its own and starts
    /// from the claims about the edges that it writes; their claims meet at the boundaries.
    #[verifier::rlimit(40)]
    pub fn prove_parallel<
        F: Fn(Digest, Digest) -> Digest + Copy,
        B: Fn(NodeId, &Vec<EdgeId>, &Vec<Claim>, Digest) -> BlockReply,
        R: Fn(NodeId, &Vec<EdgeId>, &Vec<Claim>, Digest) -> BlockReply,
        O: Fn(usize, EdgeId, &Claim, GoldilocksExt2) -> BasefoldOpeningProof,
    >(
        &self,
        witnesses: &[Vec<Witness>],
        commitments: &[Option<BasefoldCommitmentData>],
        transcript: &mut Transcript<F>,
        partitions: &[PartitionDesc],
        block: &B,
        reduce: &R,
        open: &O,
    ) -> (r: Option<ParallelProof>)
        requires
            self.provable(witnesses@, commitments@),
            self.parts_ok(partitions@),
            edges_known(witnesses@, self.boundary_edges@),
            old(transcript).wf(),
            is_block(*self, *block),
            is_reducer(*self, *reduce),
            forall|t: usize, e: EdgeId, c: &Claim, s: GoldilocksExt2| #[trigger]
                call_requires(*open, (t, e, c, s)),
        ensures
            final(transcript).compress == old(transcript).compress,
            proves_parallel(
                *self,
                partitions@,
                old(transcript).hash(),
                old(transcript).state,
                witnesses@,
                commitments@,
                *block,
                *reduce,
                *open,
                r,
                final(transcript).state,
            ),
    {
        let ghost h = transcript.hash();
        let ghost s = transcript.state;
        let ghost comp = transcript.compress;
        let ghost ws = witnesses@;
        let ghost com = commitments@;
        let ghost parts = partitions@;
        proof {
            assert forall|i: int| 0 <= i < self.output_ports.len() implies (
            #[trigger] self.output_ports[i]) < witnesses.len() && witnesses[self.output_ports[i] as int].len()
                > 0 by {
                assert(ws[self.output_ports[i] as int].len() > 0);
            }
        }
        let outs: Vec<EdgeId> = self.output_edges(witnesses);
        let mut initial: Vec<(EdgeId, Claim)> = claim_at_points(witnesses, &outs, transcript);
        let ghost first = initial@;
        let ghost s1 = transcript.state;
        let mut cuts: Vec<(EdgeId, Claim)> = claim_at_points(
            witnesses,
            &self.boundary_edges,
            transcript,
        );
        let ghost s2 = transcript.state;
        let ghost second = cuts@;
        let boundary_evals: Vec<(EdgeId, Vec<GoldilocksExt2>, GoldilocksExt2)> = boundary_list(&cuts);
        initial.append(&mut cuts);
        let ghost init = starting(initial@);
        proof {
            assert(initial@ =~= first + second);
            assert(init =~= starting(first) + starting(second));
            assert forall|i: int| 0 <= i < initial.len() implies (#[trigger] initial[i]).0
                < self.num_edges by {
                if i < first.len() {
                    assert(initial[i] == first[i]);
                } else {
                    assert(initial[i] == second[i - first.len()]);
                    assert(self.boundary_edges@[i - first.len()] < ws.len());
                }
            }
        }
        let mut results: Vec<Backward> = Vec::new();
        let mut k: usize = 0;
        while k < partitions.len()
            invariant
                k <= partitions.len(),
                self.ordered(),
                parts == partitions@,
                self.parts_ok(parts),
                transcript.wf(),
                transcript.compress == comp,
                comp == old(transcript).compress,
                h == transcript.hash(),
                transcript.state == s2,
                init == starting(initial@),
                forall|i: int| 0 <= i < initial.len() ==> (#[trigger] initial[i]).0 < self.num_edges,
                is_block(*self, *block),
                is_reducer(*self, *reduce),
                results.len() == k,
                forall|j: int| 0 <= j < k ==> (#[trigger] results[j])@.wf(*self),
                forall|j: int|
                    0 <= j < k ==> part_passes(
                        *self,
                        parts,
                        h,
                        s2,
                        init,
                        *block,
                        *reduce,
                        j,
                        (#[trigger] results[j])@,
                    ),
            decreases partitions.len() - k,
        {
            let mine: Vec<(EdgeId, Claim)> = self.route(partitions, &initial, k);
            assert(self.part_ok(parts[k as int]));
            let fork: Transcript<F> = transcript.fork(k);
            let ghost cs = starting(mine@);
            assert(cs.len() == mine.len());
            let (end, scope, digest) = self.prove_partition(
                &partitions[k],
                mine,
                fork.state,
                block,
                reduce,
            );
            proof {
                lemma_part_passes(
                    *self,
                    parts,
                    h,
                    s2,
                    init,
                    *block,
                    *reduce,
                    k as int,
                    end@,
                    scope@,
                    digest@,
                );
            }
            results.push(end);
            k = k + 1;
        }
        let ghost qs = pass_views(results@);
        proof {
            assert forall|j: int| 0 <= j < results.len() implies (#[trigger] results[j]).claims.len()
                == self.num_edges by {
                assert(results[j]@.wf(*self));
            }
        }
        let claims: Vec<Vec<Claim>> = merge(&results, self.num_edges);
        let partition_proofs: Vec<PartitionProof> = proofs_of(results);
        assert(all_parts_pass(*self, parts, h, s2, init, *block, *reduce, qs));
        let openable: Vec<Option<BasefoldCommitmentData>> = self.list_openable(
            witnesses,
            commitments,
            &self.boundary_edges,
        );
        let r: Option<ParallelProof> = match self.finish(
            witnesses,
            openable.as_slice(),
            claims,
            transcript,
            open,
        ) {
            Some((edge_proofs, range_proof, two_pow_proof)) => Some(
                ParallelProof {
                    boundary_evals,
                    partition_proofs,
                    edge_proofs,
                    range_proof,
                    two_pow_proof,
                },
            ),
            None => None,
        };
        assert(parallel_from(
            *self,
            h,
            s2,
            ws,
            com,
            *open,
            starting(second),
            qs,
            r,
            transcript.state,
        ));
        r
    }
}

/// The proofs of passes.
fn proofs_of(results: Vec<Backward>) -> (r: Vec<PartitionProof>)
    ensures
        r.len() == results.len(),
        forall|k: int|
            0 <= k < r.len() ==> proof_of_pass(pass_views(results@)[k], #[trigger] r[k]),
{
    let ghost all = results@;
    let mut results: Vec<Backward> = results;
    let mut back: Vec<PartitionProof> = Vec::new();
    while results.len() > 0
        invariant
            results@ == all.take(results.len() as int),
            results.len() + back.len() == all.len(),
            forall|k: int|
                0 <= k < back.len() ==> proof_of_pass(all[all.len() - 1 - k]@, #[trigger] back[k]),
        decreases results.len(),
    {
        let ghost n = results.len();
        match results.pop() {
            Some(b) => {
                assert(b == all[n - 1]);
                back.push(
                    PartitionProof {
                        node_proofs: b.node_proofs,
                        reducer_proofs: b.reducer_proofs,
                    },
                );
            },
            None => {},
        }
        assert(results@ =~= all.take(results.len() as int));
    }
    let mut r: Vec<PartitionProof> = Vec::new();
    let ghost rev = back@;
    while back.len() > 0
        invariant
            rev.len() == all.len(),
            back@ == rev.take(back.len() as int),
            back.len() + r.len() == all.len(),
            forall|k: int|
                0 <= k < rev.len() ==> proof_of_pass(all[all.len() - 1 - k]@, #[trigger] rev[k]),
            forall|k: int| 0 <= k < r.len() ==> proof_of_pass(all[k]@, #[trigger] r[k]),
        decreases back.len(),
    {
        let ghost n = back.len();
        match back.pop() {
            Some(p) => {
                assert(p == rev[n - 1]);
                r.push(p);
            },
            None => {},
        }
        assert(back@ =~= rev.take(back.len() as int));
    }
    r
}

/// The edges of a list that are boundaries are in the list.
proof fn lemma_among(edges: Seq<EdgeId>, boundaries: Seq<EdgeId>, n: nat)
    requires
        forall|i: int| 0 <= i < edges.len() ==> (#[trigger] edges[i]) < n,
    ensures
        forall|i: int|
            0 <= i < among(edges, boundaries).len() ==> (#[trigger] among(edges, boundaries)[i]) < n,
    decreases edges.len(),
{
    if edges.len() > 0 {
        let head = edges.drop_last();
        assert forall|i: int| 0 <= i < head.len() implies (#[trigger] head[i]) < n by {
            assert(edges[i] < n);
        }
        lemma_among(head, boundaries, n);
        let rest = among(head, boundaries);
        let all = among(edges, boundaries);
        assert forall|i: int| 0 <= i < all.len() implies (#[trigger] all[i]) < n by {
            if i < rest.len() {
                assert(all[i] == rest[i]);
            } else {
                assert(all[i] == edges[edges.len() - 1]);
            }
        }
    }
}

/// The edges that enter a partition are edges of the graph.
proof fn lemma_entering(dag: Dag, np: Seq<usize>, k: usize, n: nat)
    requires
        n <= usize::MAX,
    ensures
        forall|i: int|
            0 <= i < entering(dag, np, k, n).len() ==> (#[trigger] entering(dag, np, k, n)[i]) < n,
    decreases n,
{
    if n > 0 {
        lemma_entering(dag, np, k, (n - 1) as nat);
        let rest = entering(dag, np, k, (n - 1) as nat);
        let all = entering(dag, np, k, n);
        assert forall|i: int| 0 <= i < all.len() implies (#[trigger] all[i]) < n by {
            if i < rest.len() {
                assert(all[i] == rest[i]);
            }
        }
    }
}

/// The partitions of a graph name nodes and edges of the graph.
pub proof fn lemma_partitions_ok(dag: Dag, boundaries: Seq<EdgeId>, parts: Seq<PartitionDesc>)
    requires
        dag.linked(),
        partitions_of(dag, boundaries, parts),
        boundaries.len() < usize::MAX,
    ensures
        dag.parts_ok(parts),
{
    assert forall|k: int| 0 <= k < parts.len() implies dag.part_ok(#[trigger] parts[k]) by {
        let part = parts[k];
        if boundaries.len() == 0 {
            assert forall|i: int| 0 <= i < part.node_ids.len() implies (#[trigger] part.node_ids[i])
                < dag.nodes.len() by {
                assert(dag.topo@[i] < dag.nodes.len());
            }
        } else {
            let np = choose|np: Seq<usize>| #[trigger] partitioned(dag, boundaries, np, parts);
            assert(describes(dag, boundaries, np, k as usize, parts[k]));
            assert forall|i: int| 0 <= i < part.node_ids.len() implies (#[trigger] part.node_ids[i])
                < dag.nodes.len() by {
                let v = part.node_ids@[i];
                lemma_nodes_in(dag.topo@, np, k as usize, dag.topo.len() as nat, v);
                assert(part.node_ids@.contains(v));
                let p = choose|p: int| 0 <= p < dag.topo.len() && dag.topo@[p] == v;
                assert(dag.topo@[p] < dag.nodes.len());
            }
            lemma_entering(dag, np, k as usize, dag.num_edges as nat);
            lemma_among(part.input_edges@, boundaries, dag.num_edges as nat);
        }
    }
}

} // verus!
