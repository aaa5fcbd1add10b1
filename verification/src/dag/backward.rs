//! The backward pass: from claims about outputs to claims about inputs.
//!
//! Nodes are taken from the last to the first. Each one turns the claims about
//! its outputs into claims about its inputs; where an output has several
//! claims, they are first combined into one. What a block does with claims is
//! not decided here: it is a function that the pass is given.
use vstd::prelude::*;

use crate::dag::partition::PartitionDesc;
use crate::dag::types::{claim_list, claim_lists, Assertion, Claim, Dag, EdgeId, NodeId, NodeProof};
use crate::dag::witness::clone_words;
use crate::sumcheck::SumcheckProof;
use crate::transcript::Digest;

verus! {

/// What a block answers: proofs, claims about its edges, and the digest of the transcript after
/// it.
pub struct BlockReply {
    pub proofs: Vec<SumcheckProof>,
    pub claims: Vec<Claim>,
    pub state: Digest,
}

/// The part of a graph that a pass covers: the nodes inside, and the edges at which it stops.
pub struct Scope {
    pub inside: Vec<bool>,
    pub stop: Vec<bool>,
}

/// A list of equal flags.
fn flags(n: usize, b: bool) -> (r: Vec<bool>)
    ensures
        r@ == Seq::new(n as nat, |i: int| b),
{
    let mut r: Vec<bool> = Vec::new();
    while r.len() < n
        invariant
            r.len() <= n,
            r@ == Seq::new(r.len() as nat, |i: int| b),
        decreases n - r.len(),
    {
        r.push(b);
        assert(r@ =~= Seq::new(r.len() as nat, |i: int| b));
    }
    r
}

/// Flags for the listed positions.
fn marked(n: usize, ids: &Vec<usize>) -> (r: Vec<bool>)
    requires
        forall|i: int| 0 <= i < ids.len() ==> (#[trigger] ids[i]) < n,
    ensures
        r.len() == n,
        forall|v: int| 0 <= v < n ==> #[trigger] r[v] == ids@.contains(v as usize),
{
    let mut r: Vec<bool> = flags(n, false);
    let mut i: usize = 0;
    while i < ids.len()
        invariant
            i <= ids.len(),
            r.len() == n,
            forall|i: int| 0 <= i < ids.len() ==> (#[trigger] ids[i]) < n,
            forall|v: int|
                0 <= v < n ==> (#[trigger] r[v] <==> exists|k: int| 0 <= k < i && ids@[k] == v),
        decreases ids.len() - i,
    {
        assert(ids[i as int] < n);
        let ghost before = r@;
        r.set(ids[i], true);
        proof {
            assert forall|v: int| 0 <= v < n implies (#[trigger] r[v] <==> exists|k: int|
                0 <= k < i + 1 && ids@[k] == v) by {
                assert(before[v] <==> exists|k: int| 0 <= k < i && ids@[k] == v);
                if v == ids[i as int] {
                    assert(ids@[i as int] == v);
                }
            }
        }
        i = i + 1;
    }
    proof {
        assert forall|v: int| 0 <= v < n implies #[trigger] r[v] == ids@.contains(v as usize) by {
            if ids@.contains(v as usize) {
                let k = choose|k: int| 0 <= k < ids.len() && ids@[k] == v as usize;
                assert(ids@[k] == v);
            }
        }
    }
    r
}

impl Scope {
    /// The scope has a flag per node and per edge.
    pub open spec fn wf(&self, dag: &Dag) -> bool {
        self.inside.len() == dag.nodes.len() && self.stop.len() == dag.num_edges
    }

    /// The whole graph.
    pub fn whole(dag: &Dag) -> (r: Self)
        ensures
            r.wf(dag),
            forall|n: int| 0 <= n < r.inside.len() ==> #[trigger] r.inside[n],
            forall|e: int| 0 <= e < r.stop.len() ==> !#[trigger] r.stop[e],
    {
        Scope { inside: flags(dag.nodes.len(), true), stop: flags(dag.num_edges, false) }
    }

    /// One partition; the pass stops at the boundaries that it reads.
    pub fn of_partition(dag: &Dag, part: &PartitionDesc) -> (r: Self)
        requires
            forall|i: int|
                0 <= i < part.node_ids.len() ==> (#[trigger] part.node_ids[i]) < dag.nodes.len(),
            forall|i: int|
                0 <= i < part.boundary_input_edges.len() ==> (#[trigger] part.boundary_input_edges[i])
                    < dag.num_edges,
        ensures
            r.wf(dag),
            forall|n: int|
                0 <= n < r.inside.len() ==> #[trigger] r.inside[n] == part.node_ids@.contains(
                    n as usize,
                ),
            forall|e: int|
                0 <= e < r.stop.len() ==> #[trigger] r.stop[e] == part.boundary_input_edges@.contains(
                    e as usize,
                ),
    {
        Scope {
            inside: marked(dag.nodes.len(), &part.node_ids),
            stop: marked(dag.num_edges, &part.boundary_input_edges),
        }
    }
}

/// How far a pass has come.
pub struct Backward {
    pub claims: Vec<Vec<Claim>>,
    pub node_proofs: Vec<Option<NodeProof>>,
    pub reducer_proofs: Vec<Option<Vec<SumcheckProof>>>,
    pub pending: Vec<bool>,
}

/// The mathematical value of a pass.
#[verifier::ext_equal]
pub struct Pass {
    pub claims: Seq<Seq<Assertion>>,
    pub node_proofs: Seq<Option<(Vec<SumcheckProof>, Seq<Assertion>)>>,
    pub reducer_proofs: Seq<Option<Vec<SumcheckProof>>>,
    pub pending: Seq<bool>,
}

/// The value of the proof of a node.
pub open spec fn node_proof_view(p: Option<NodeProof>) -> Option<(Vec<SumcheckProof>, Seq<Assertion>)> {
    match p {
        Some(x) => Some((x.0, claim_list(x.1@))),
        None => None,
    }
}

/// The values of the proofs of the nodes.
pub open spec fn node_proof_views(p: Seq<Option<NodeProof>>) -> Seq<
    Option<(Vec<SumcheckProof>, Seq<Assertion>)>,
> {
    p.map_values(|x: Option<NodeProof>| node_proof_view(x))
}

impl View for Backward {
    type V = Pass;

    open spec fn view(&self) -> Pass {
        Pass {
            claims: claim_lists(self.claims@),
            node_proofs: node_proof_views(self.node_proofs@),
            reducer_proofs: self.reducer_proofs@,
            pending: self.pending@,
        }
    }
}

impl Pass {
    /// The lists have an entry per edge or per node.
    pub open spec fn wf(self, dag: Dag) -> bool {
        &&& self.claims.len() == dag.num_edges
        &&& self.node_proofs.len() == dag.nodes.len()
        &&& self.reducer_proofs.len() == dag.nodes.len()
        &&& self.pending.len() == dag.nodes.len()
    }

    /// A further claim about an edge.
    pub open spec fn with_claim(self, e: EdgeId, c: Assertion) -> Pass {
        Pass { claims: self.claims.update(e as int, self.claims[e as int].push(c)), ..self }
    }

    /// Further claims, each about the edge it names.
    pub open spec fn with_claims(self, cs: Seq<Assertion>) -> Pass
        decreases cs.len(),
    {
        if cs.len() == 0 {
            self
        } else {
            self.with_claims(cs.drop_last()).with_claim(cs.last().edge_id, cs.last())
        }
    }

    /// A node waits to be taken.
    pub open spec fn with_pending(self, n: NodeId) -> Pass {
        Pass { pending: self.pending.update(n as int, true), ..self }
    }

    /// `u` is the last node that waits.
    pub open spec fn is_next(self, u: NodeId) -> bool {
        &&& u < self.pending.len()
        &&& self.pending[u as int]
        &&& forall|v: int| u < v < self.pending.len() ==> !#[trigger] self.pending[v]
    }

    /// No node waits.
    pub open spec fn done(self) -> bool {
        forall|v: int| 0 <= v < self.pending.len() ==> !#[trigger] self.pending[v]
    }

    /// The claims about the first `k` outputs of a node.
    pub open spec fn output_claims(self, outputs: Seq<EdgeId>, k: nat) -> Seq<Assertion>
        decreases k,
    {
        if k == 0 {
            Seq::empty()
        } else {
            self.output_claims(outputs, (k - 1) as nat) + self.claims[outputs[k - 1] as int]
        }
    }

    /// The claims about the outputs of node `u`.
    pub open spec fn local_claims(self, dag: Dag, u: NodeId) -> Seq<Assertion> {
        let outs = dag.nodes[u as int].outputs@;
        self.output_claims(outs, outs.len())
    }

    /// The writer of `e` waits, if it is inside, is not `u`, and the pass does not stop at `e`.
    pub open spec fn schedule(self, dag: Dag, scope: Scope, u: Option<NodeId>, e: EdgeId) -> Pass {
        match dag.producers[e as int] {
            Some(p) => if !scope.stop[e as int] && scope.inside[p as int] && u != Some(p) {
                self.with_pending(p)
            } else {
                self
            },
            None => self,
        }
    }

    /// The writers of the edges that the claims name wait.
    pub open spec fn schedule_all(self, dag: Dag, scope: Scope, u: NodeId, cs: Seq<Assertion>) -> Pass
        decreases cs.len(),
    {
        if cs.len() == 0 {
            self
        } else {
            self.schedule_all(dag, scope, u, cs.drop_last()).schedule(
                dag,
                scope,
                Some(u),
                cs.last().edge_id,
            )
        }
    }

    /// Node `u` is taken.
    pub open spec fn take(self, u: NodeId) -> Pass {
        Pass { pending: self.pending.update(u as int, false), ..self }
    }

    /// The claims about the outputs of `u` were combined.
    pub open spec fn reduced(
        self,
        dag: Dag,
        u: NodeId,
        proofs: Vec<SumcheckProof>,
        rc: Seq<Assertion>,
    ) -> Pass {
        if rc.len() == 0 {
            self
        } else {
            let p = self.with_claim(dag.nodes[u as int].outputs[0], rc[0]);
            Pass { reducer_proofs: p.reducer_proofs.update(u as int, Some(proofs)), ..p }
        }
    }

    /// Node `u` was proved from the claims `local` about its outputs.
    pub open spec fn proved(
        self,
        dag: Dag,
        scope: Scope,
        u: NodeId,
        local: Seq<Assertion>,
        proofs: Vec<SumcheckProof>,
        new: Seq<Assertion>,
    ) -> Pass {
        let p = Pass {
            node_proofs: self.node_proofs.update(u as int, Some((proofs, new + local))),
            ..self
        };
        p.with_claims(new).schedule_all(dag, scope, u, new)
    }
}

/// The pass before it starts.
pub open spec fn empty_pass(dag: Dag) -> Pass {
    Pass {
        claims: Seq::new(dag.num_edges as nat, |e: int| Seq::empty()),
        node_proofs: Seq::new(dag.nodes.len() as nat, |n: int| None),
        reducer_proofs: Seq::new(dag.nodes.len() as nat, |n: int| None),
        pending: Seq::new(dag.nodes.len() as nat, |n: int| false),
    }
}

/// The claims that a pass starts from.
pub open spec fn starting(c: Seq<(EdgeId, Claim)>) -> Seq<(EdgeId, Assertion)> {
    c.map_values(|x: (EdgeId, Claim)| (x.0, x.1@))
}

/// The pass after the first `k` starting claims.
pub open spec fn started(dag: Dag, scope: Scope, cs: Seq<(EdgeId, Assertion)>, k: nat) -> Pass
    decreases k,
{
    if k == 0 {
        empty_pass(dag)
    } else {
        let (e, c) = cs[k - 1];
        started(dag, scope, cs, (k - 1) as nat).with_claim(e, c).enter(dag, scope, e)
    }
}

impl Pass {
    /// The writer of `e` waits, if it is inside.
    pub open spec fn enter(self, dag: Dag, scope: Scope, e: EdgeId) -> Pass {
        match dag.producers[e as int] {
            Some(p) => if scope.inside[p as int] {
                self.with_pending(p)
            } else {
                self
            },
            None => self,
        }
    }
}

/// The edges of a node: what it reads, then what it writes.
pub open spec fn edges_of(dag: Dag, u: NodeId) -> Seq<EdgeId> {
    dag.nodes[u as int].inputs@ + dag.nodes[u as int].outputs@
}

impl Backward {
    /// Nothing claimed, nothing proved, nothing pending.
    fn empty(dag: &Dag) -> (r: Self)
        ensures
            r@ == empty_pass(*dag),
            r@.wf(*dag),
    {
        let mut claims: Vec<Vec<Claim>> = Vec::new();
        while claims.len() < dag.num_edges
            invariant
                claims.len() <= dag.num_edges,
                claim_lists(claims@) == Seq::new(
                    claims.len() as nat,
                    |e: int| Seq::<Assertion>::empty(),
                ),
            decreases dag.num_edges - claims.len(),
        {
            let ghost before = claims@;
            let row: Vec<Claim> = Vec::new();
            assert(claim_list(row@) =~= Seq::<Assertion>::empty());
            claims.push(row);
            proof {
                assert forall|e: int| 0 <= e < claims.len() implies claim_lists(claims@)[e]
                    == Seq::<Assertion>::empty() by {
                    if e < before.len() {
                        assert(claim_lists(before)[e] == Seq::<Assertion>::empty());
                        assert(claims@[e] == before[e]);
                    }
                }
                assert(claim_lists(claims@) =~= Seq::new(
                    claims.len() as nat,
                    |e: int| Seq::<Assertion>::empty(),
                ));
            }
        }
        let mut node_proofs: Vec<Option<NodeProof>> = Vec::new();
        let mut reducer_proofs: Vec<Option<Vec<SumcheckProof>>> = Vec::new();
        let n: usize = dag.nodes.len();
        while node_proofs.len() < n
            invariant
                node_proofs.len() <= n,
                reducer_proofs.len() == node_proofs.len(),
                forall|k: int| 0 <= k < node_proofs.len() ==> (#[trigger] node_proofs[k]) is None,
                forall|k: int|
                    0 <= k < reducer_proofs.len() ==> (#[trigger] reducer_proofs[k]) is None,
            decreases n - node_proofs.len(),
        {
            node_proofs.push(None);
            reducer_proofs.push(None);
        }
        let r: Backward = Backward { claims, node_proofs, reducer_proofs, pending: flags(n, false) };
        proof {
            assert(r@.node_proofs =~= empty_pass(*dag).node_proofs);
            assert(r@.reducer_proofs =~= empty_pass(*dag).reducer_proofs);
            assert(r@ =~= empty_pass(*dag));
        }
        r
    }

    /// The last node that waits.
    pub fn next(&self) -> (r: Option<NodeId>)
        ensures
            match r {
                Some(u) => self@.is_next(u),
                None => self@.done(),
            },
    {
        let mut k: usize = self.pending.len();
        while k > 0
            invariant
                k <= self.pending.len(),
                forall|v: int| k <= v < self.pending.len() ==> !#[trigger] self.pending[v],
            decreases k,
        {
            k = k - 1;
            if self.pending[k] {
                return Some(k);
            }
        }
        None
    }

    /// A further claim about an edge.
    pub fn push_claim(&mut self, e: EdgeId, c: Claim)
        requires
            e < old(self).claims.len(),
        ensures
            final(self)@ == old(self)@.with_claim(e, c@),
            final(self).claims.len() == old(self).claims.len(),
    {
        let ghost before = self@;
        let ghost cv = c@;
        self.claims[e].push(c);
        proof {
            assert(self@.claims[e as int] =~= before.claims[e as int].push(cv));
            assert(self@.claims =~= before.claims.update(
                e as int,
                before.claims[e as int].push(cv),
            ));
            assert(self@ =~= before.with_claim(e, cv));
        }
    }
}

impl Dag {
    /// The pass that starts from the given claims.
    pub fn start_pass(&self, scope: &Scope, initial: Vec<(EdgeId, Claim)>) -> (r: Backward)
        requires
            self.linked(),
            scope.wf(self),
            forall|i: int| 0 <= i < initial.len() ==> (#[trigger] initial[i]).0 < self.num_edges,
        ensures
            r@ == started(*self, *scope, starting(initial@), initial.len() as nat),
            r@.wf(*self),
    {
        let mut r: Backward = Backward::empty(self);
        let ghost cs = starting(initial@);
        let mut i: usize = 0;
        while i < initial.len()
            invariant
                i <= initial.len(),
                self.linked(),
                scope.wf(self),
                cs == starting(initial@),
                forall|i: int| 0 <= i < initial.len() ==> (#[trigger] initial[i]).0 < self.num_edges,
                r@ == started(*self, *scope, cs, i as nat),
                r@.wf(*self),
            decreases initial.len() - i,
        {
            let e: EdgeId = initial[i].0;
            assert(initial[i as int].0 < self.num_edges);
            let c: Claim = initial[i].1.clone();
            assert(cs[i as int] == (e, c@));
            r.push_claim(e, c);
            let ghost mid = r@;
            match self.producers[e] {
                Some(p) => {
                    assert(p < self.nodes.len());
                    if scope.inside[p] {
                        r.pending.set(p, true);
                        assert(r@ =~= mid.with_pending(p));
                    }
                },
                None => {},
            }
            i = i + 1;
        }
        r
    }

    /// The edges of a node: what it reads, then what it writes.
    pub fn edge_ids(&self, u: NodeId) -> (r: Vec<EdgeId>)
        requires
            u < self.nodes.len(),
        ensures
            r@ == edges_of(*self, u),
    {
        let mut r: Vec<EdgeId> = clone_words(self.nodes[u].inputs.as_slice());
        let mut outs: Vec<EdgeId> = clone_words(self.nodes[u].outputs.as_slice());
        r.append(&mut outs);
        r
    }

    /// The claims about the outputs of a node.
    pub fn local_claims(&self, st: &Backward, u: NodeId) -> (r: Vec<Claim>)
        requires
            self.edges_ok(),
            st@.wf(*self),
            u < self.nodes.len(),
        ensures
            claim_list(r@) == st@.local_claims(*self, u),
    {
        let ghost outs = self.nodes[u as int].outputs@;
        let ghost p = st@;
        let mut r: Vec<Claim> = Vec::new();
        let mut k: usize = 0;
        assert(claim_list(r@) =~= Seq::<Assertion>::empty());
        while k < self.nodes[u].outputs.len()
            invariant
                u < self.nodes.len(),
                k <= self.nodes[u as int].outputs.len(),
                outs == self.nodes[u as int].outputs@,
                p == st@,
                self.edges_ok(),
                st@.wf(*self),
                claim_list(r@) == p.output_claims(outs, k as nat),
            decreases self.nodes[u as int].outputs.len() - k,
        {
            let e: EdgeId = self.nodes[u].outputs[k];
            assert(self.nodes[u as int].outputs[k as int] < self.num_edges);
            let ghost before = claim_list(r@);
            let mut i: usize = 0;
            assert(before + p.claims[e as int].take(0) =~= before);
            while i < st.claims[e].len()
                invariant
                    e < st.claims.len(),
                    i <= st.claims[e as int].len(),
                    p == st@,
                    claim_list(r@) == before + p.claims[e as int].take(i as int),
                decreases st.claims[e as int].len() - i,
            {
                let ghost rb = r@;
                r.push(st.claims[e][i].clone());
                i = i + 1;
                proof {
                    let row = p.claims[e as int];
                    assert(row == claim_list(st.claims[e as int]@));
                    assert(claim_list(r@) =~= claim_list(rb).push(row[i - 1]));
                    assert(before + row.take(i as int) =~= (before + row.take(i - 1)).push(row[i - 1]));
                }
            }
            assert(p.claims[e as int].take(i as int) =~= p.claims[e as int]);
            k = k + 1;
        }
        r
    }

    /// The node is taken.
    pub fn take_node(&self, st: &mut Backward, u: NodeId)
        requires
            u < old(st).pending.len(),
        ensures
            final(st)@ == old(st)@.take(u),
    {
        let ghost before = st@;
        st.pending.set(u, false);
        assert(st@ =~= before.take(u));
    }

    /// Records that the claims about the outputs of `u` were combined.
    pub fn record_reduction(&self, st: &mut Backward, u: NodeId, proofs: Vec<SumcheckProof>, rc: &Vec<Claim>)
        requires
            self.edges_ok(),
            old(st)@.wf(*self),
            u < self.nodes.len(),
            self.nodes[u as int].outputs.len() > 0,
        ensures
            final(st)@ == old(st)@.reduced(*self, u, proofs, claim_list(rc@)),
            final(st)@.wf(*self),
    {
        if rc.len() > 0 {
            let e: EdgeId = self.nodes[u].outputs[0];
            assert(self.nodes[u as int].outputs[0] < self.num_edges);
            let c: Claim = rc[0].clone();
            assert(claim_list(rc@)[0] == c@);
            st.push_claim(e, c);
            let ghost mid = st@;
            st.reducer_proofs.set(u, Some(proofs));
            assert(st@ =~= (Pass {
                reducer_proofs: mid.reducer_proofs.update(u as int, Some(proofs)),
                ..mid
            }));
        }
    }

    /// The writer of an edge waits, if it is inside, is not `u`, and the pass does not stop there.
    fn schedule(&self, scope: &Scope, st: &mut Backward, u: NodeId, e: EdgeId)
        requires
            self.linked(),
            scope.wf(self),
            old(st)@.wf(*self),
            e < self.num_edges,
        ensures
            final(st)@ == old(st)@.schedule(*self, *scope, Some(u), e),
            final(st)@.wf(*self),
    {
        let ghost before = st@;
        match self.producers[e] {
            Some(p) => {
                assert(p < self.nodes.len());
                if !scope.stop[e] && scope.inside[p] && p != u {
                    st.pending.set(p, true);
                    assert(st@ =~= before.with_pending(p));
                }
            },
            None => {},
        }
    }

    /// Records what a block answered for node `u`: its proofs, and its claims about edges, whose
    /// writers have to be taken next.
    pub fn record_node(
        &self,
        scope: &Scope,
        st: &mut Backward,
        u: NodeId,
        local: &Vec<Claim>,
        proofs: Vec<SumcheckProof>,
        new: &Vec<Claim>,
    )
        requires
            self.linked(),
            scope.wf(self),
            old(st)@.wf(*self),
            u < self.nodes.len(),
            forall|i: int| 0 <= i < new.len() ==> (#[trigger] new[i]).edge_id < self.num_edges,
        ensures
            final(st)@ == old(st)@.proved(
                *self,
                *scope,
                u,
                claim_list(local@),
                proofs,
                claim_list(new@),
            ),
            final(st)@.wf(*self),
    {
        let ghost before = st@;
        let ghost nc = claim_list(new@);
        let node_claims: Vec<Claim> = joined(new, local);
        st.node_proofs.set(u, Some((proofs, node_claims)));
        let ghost p0 = Pass {
            node_proofs: before.node_proofs.update(u as int, Some((proofs, nc + claim_list(local@)))),
            ..before
        };
        assert(st@ =~= p0);
        let mut i: usize = 0;
        assert(nc.take(0) =~= Seq::<Assertion>::empty());
        while i < new.len()
            invariant
                i <= new.len(),
                self.linked(),
                nc == claim_list(new@),
                forall|i: int| 0 <= i < new.len() ==> (#[trigger] new[i]).edge_id < self.num_edges,
                st@.wf(*self),
                st@ == p0.with_claims(nc.take(i as int)),
            decreases new.len() - i,
        {
            assert(new[i as int].edge_id < self.num_edges);
            proof {
                assert(nc.take(i as int + 1).drop_last() =~= nc.take(i as int));
                assert(nc.take(i as int + 1).last() == new[i as int]@);
            }
            st.push_claim(new[i].edge_id, new[i].clone());
            i = i + 1;
        }
        assert(nc.take(i as int) =~= nc);
        let ghost p1 = st@;
        let mut k: usize = 0;
        while k < new.len()
            invariant
                k <= new.len(),
                self.linked(),
                scope.wf(self),
                nc == claim_list(new@),
                forall|i: int| 0 <= i < new.len() ==> (#[trigger] new[i]).edge_id < self.num_edges,
                st@.wf(*self),
                st@ == p1.schedule_all(*self, *scope, u, nc.take(k as int)),
            decreases new.len() - k,
        {
            assert(new[k as int].edge_id < self.num_edges);
            proof {
                assert(nc.take(k as int + 1).drop_last() =~= nc.take(k as int));
                assert(nc.take(k as int + 1).last() == new[k as int]@);
            }
            self.schedule(scope, st, u, new[k].edge_id);
            k = k + 1;
        }
        assert(nc.take(k as int) =~= nc);
    }
}

/// Copies of the claims of two lists, one after the other.
pub fn joined(a: &Vec<Claim>, b: &Vec<Claim>) -> (r: Vec<Claim>)
    ensures
        claim_list(r@) == claim_list(a@) + claim_list(b@),
{
    let mut r: Vec<Claim> = clone_claims(a);
    let mut more: Vec<Claim> = clone_claims(b);
    let ghost (x, y) = (r@, more@);
    r.append(&mut more);
    assert(claim_list(r@) =~= claim_list(x) + claim_list(y));
    r
}

/// Copies of claims.
pub fn clone_claims(a: &Vec<Claim>) -> (r: Vec<Claim>)
    ensures
        claim_list(r@) == claim_list(a@),
        r.len() == a.len(),
{
    let mut r: Vec<Claim> = Vec::new();
    let mut i: usize = 0;
    while i < a.len()
        invariant
            i <= a.len(),
            r.len() == i,
            forall|k: int| 0 <= k < i ==> (#[trigger] r[k])@ == a[k]@,
        decreases a.len() - i,
    {
        r.push(a[i].clone());
        i = i + 1;
    }
    assert(claim_list(r@) =~= claim_list(a@));
    r
}

} // verus!
