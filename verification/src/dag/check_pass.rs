//! Checking the proofs of a backward pass.
//!
//! The verifier takes the nodes in the order in which the prover took them and
//! repeats what the claims in the proof say. Whether the proof of a block
//! holds is not decided here: it is a function that the check is given.
use vstd::prelude::*;

use crate::dag::backward::Scope;
use crate::dag::types::{
    claim_list, claim_lists, claims_of, Assertion, Claim, Dag, EdgeId, NodeId, NodeProof,
};
use crate::sumcheck::SumcheckProof;
use crate::transcript::Digest;

verus! {

broadcast use vstd::std_specs::hash::group_hash_axioms;

/// Whether a proof holds, and the digest of the transcript after it.
pub struct CheckReply {
    pub ok: bool,
    pub state: Digest,
}

/// How far the check of a pass has come.
pub struct Checking {
    pub claims: Vec<Vec<Claim>>,
    pub pending: Vec<bool>,
    pub verified: bool,
}

/// The mathematical value of a check.
#[verifier::ext_equal]
pub struct Check {
    pub claims: Seq<Seq<Assertion>>,
    pub pending: Seq<bool>,
    pub verified: bool,
}

impl View for Checking {
    type V = Check;

    open spec fn view(&self) -> Check {
        Check {
            claims: claim_lists(self.claims@),
            pending: self.pending@,
            verified: self.verified,
        }
    }
}

/// The claims of the proof of a node.
pub open spec fn local_of(np: Option<NodeProof>) -> Seq<Assertion> {
    claim_list(claims_of(np))
}

impl Check {
    /// There is an entry per edge and per node.
    pub open spec fn wf(self, dag: Dag) -> bool {
        self.claims.len() == dag.num_edges && self.pending.len() == dag.nodes.len()
    }

    /// A further claim about an edge.
    pub open spec fn with_claim(self, e: EdgeId, c: Assertion) -> Check {
        Check { claims: self.claims.update(e as int, self.claims[e as int].push(c)), ..self }
    }

    /// A node waits to be taken.
    pub open spec fn with_pending(self, n: NodeId) -> Check {
        Check { pending: self.pending.update(n as int, true), ..self }
    }

    /// `u` is the last node that waits.
    pub open spec fn is_next(self, u: NodeId) -> bool {
        &&& u < self.pending.len()
        &&& self.pending[u as int]
        &&& forall|v: int| u < v < self.pending.len() ==> !#[trigger] self.pending[v]
    }

    /// No node waits.
    pub open spec fn done(self) -> bool {
        forall|v: int| 0 <= v < self.pending.len() ==> !#[trigger] self.pending[v]
    }

    /// Several claims about the first output of `u` have to be combined.
    pub open spec fn several(self, dag: Dag, u: NodeId) -> bool {
        self.claims[dag.nodes[u as int].outputs[0] as int].len() > 1
    }

    /// A claim of the proof of `u` is repeated, if it is about an input or about an output that
    /// is opened for its own sake.
    pub open spec fn repeat(self, dag: Dag, u: NodeId, c: Assertion) -> Check {
        let node = dag.nodes[u as int];
        if node.inputs@.contains(c.edge_id) || (dag.self_claim_edges@.contains(c.edge_id)
            && node.outputs@.contains(c.edge_id)) {
            self.with_claim(c.edge_id, c)
        } else {
            self
        }
    }

    pub open spec fn repeat_all(self, dag: Dag, u: NodeId, cs: Seq<Assertion>) -> Check
        decreases cs.len(),
    {
        if cs.len() == 0 {
            self
        } else {
            self.repeat_all(dag, u, cs.drop_last()).repeat(dag, u, cs.last())
        }
    }

    /// The writer of an input that the claim is about waits, if it is inside and the check does
    /// not stop there.
    pub open spec fn follow(self, dag: Dag, scope: Scope, u: NodeId, c: Assertion) -> Check {
        let e = c.edge_id;
        if dag.nodes[u as int].inputs@.contains(e) && !scope.stop[e as int] {
            match dag.producers[e as int] {
                Some(p) => if scope.inside[p as int] {
                    self.with_pending(p)
                } else {
                    self
                },
                None => self,
            }
        } else {
            self
        }
    }

    pub open spec fn follow_all(self, dag: Dag, scope: Scope, u: NodeId, cs: Seq<Assertion>) -> Check
        decreases cs.len(),
    {
        if cs.len() == 0 {
            self
        } else {
            self.follow_all(dag, scope, u, cs.drop_last()).follow(dag, scope, u, cs.last())
        }
    }

    /// Node `u` is taken.
    pub open spec fn take(self, u: NodeId) -> Check {
        Check { pending: self.pending.update(u as int, false), ..self }
    }

    /// The outcome of one more check.
    pub open spec fn and(self, ok: bool) -> Check {
        Check { verified: self.verified && ok, ..self }
    }
}

/// The proof has what the check of node `u` needs.
pub open spec fn supplied(
    dag: Dag,
    node_proofs: Seq<Option<NodeProof>>,
    reducer_proofs: Seq<Option<Vec<SumcheckProof>>>,
    p: Check,
    u: NodeId,
) -> bool {
    let local = local_of(node_proofs[u as int]);
    &&& node_proofs[u as int] is Some
    &&& forall|i: int| 0 <= i < local.len() ==> (#[trigger] local[i]).edge_id < dag.num_edges
    &&& p.several(dag, u) ==> reducer_proofs[u as int] is Some && local.len() > 0
}

/// `r` is an answer of the given check for node `u`.
pub open spec fn judged<V: Fn(NodeId, &Vec<Claim>, &Vec<SumcheckProof>, Digest) -> CheckReply>(
    check: V,
    u: NodeId,
    cs: Seq<Assertion>,
    proofs: Vec<SumcheckProof>,
    s: Digest,
    r: CheckReply,
) -> bool {
    exists|c: &Vec<Claim>|
        claim_list(c@) == cs && #[trigger] call_ensures(check, (u, c, &proofs, s), r)
}

/// The check accepts every request.
pub open spec fn is_check<V: Fn(NodeId, &Vec<Claim>, &Vec<SumcheckProof>, Digest) -> CheckReply>(
    check: V,
) -> bool {
    forall|u: NodeId, c: &Vec<Claim>, p: &Vec<SumcheckProof>, s: Digest| #[trigger]
        call_requires(check, (u, c, p, s))
}

/// What happened to one node.
pub struct Judgement {
    pub node: NodeId,
    pub reduction: Option<CheckReply>,
    pub reply: CheckReply,
}

/// The check after a node was judged.
pub open spec fn judge(
    dag: Dag,
    scope: Scope,
    node_proofs: Seq<Option<NodeProof>>,
    p: Check,
    j: Judgement,
) -> Check {
    let u = j.node;
    let local = local_of(node_proofs[u as int]);
    let q = p.take(u);
    let q = match j.reduction {
        Some(r) => q.with_claim(dag.nodes[u as int].outputs[0], local.last()).and(r.ok),
        None => q,
    };
    q.and(j.reply.ok).repeat_all(dag, u, local).follow_all(dag, scope, u, local)
}

/// The judgement is what the given checks say of the last node that waits.
pub open spec fn pronounced<
    V: Fn(NodeId, &Vec<Claim>, &Vec<SumcheckProof>, Digest) -> CheckReply,
    W: Fn(NodeId, &Vec<Claim>, &Vec<SumcheckProof>, Digest) -> CheckReply,
>(
    dag: Dag,
    node_proofs: Seq<Option<NodeProof>>,
    reducer_proofs: Seq<Option<Vec<SumcheckProof>>>,
    check: V,
    check_reducer: W,
    p: Check,
    s: Digest,
    j: Judgement,
) -> bool {
    let u = j.node;
    let local = local_of(node_proofs[u as int]);
    let out = dag.nodes[u as int].outputs[0] as int;
    &&& p.is_next(u)
    &&& supplied(dag, node_proofs, reducer_proofs, p, u)
    &&& j.reduction is Some <==> p.several(dag, u)
    &&& j.reduction matches Some(r) ==> judged(
        check_reducer,
        u,
        p.claims[out].push(local.last()),
        reducer_proofs[u as int]->0,
        s,
        r,
    )
    &&& judged(
        check,
        u,
        local,
        (node_proofs[u as int]->0).0,
        match j.reduction {
            Some(r) => r.state,
            None => s,
        },
        j.reply,
    )
}

/// The check after the first `k` judgements.
pub open spec fn judged_upto(
    dag: Dag,
    scope: Scope,
    node_proofs: Seq<Option<NodeProof>>,
    p: Check,
    js: Seq<Judgement>,
    k: nat,
) -> Check
    decreases k,
{
    if k == 0 {
        p
    } else {
        judge(
            dag,
            scope,
            node_proofs,
            judged_upto(dag, scope, node_proofs, p, js, (k - 1) as nat),
            js[k - 1],
        )
    }
}

/// The digest after the first `k` judgements.
pub open spec fn judged_digest(s: Digest, js: Seq<Judgement>, k: nat) -> Digest {
    if k == 0 {
        s
    } else {
        js[k - 1].reply.state
    }
}

/// The judgements lead from `p` and `s` to `q` and `t`.
pub open spec fn leads<
    V: Fn(NodeId, &Vec<Claim>, &Vec<SumcheckProof>, Digest) -> CheckReply,
    W: Fn(NodeId, &Vec<Claim>, &Vec<SumcheckProof>, Digest) -> CheckReply,
>(
    dag: Dag,
    scope: Scope,
    node_proofs: Seq<Option<NodeProof>>,
    reducer_proofs: Seq<Option<Vec<SumcheckProof>>>,
    check: V,
    check_reducer: W,
    p: Check,
    s: Digest,
    js: Seq<Judgement>,
    q: Check,
    t: Digest,
) -> bool {
    &&& forall|k: int|
        0 <= k < js.len() ==> pronounced(
            dag,
            node_proofs,
            reducer_proofs,
            check,
            check_reducer,
            judged_upto(dag, scope, node_proofs, p, js, k as nat),
            judged_digest(s, js, k as nat),
            #[trigger] js[k],
        )
    &&& q == judged_upto(dag, scope, node_proofs, p, js, js.len())
    &&& t == judged_digest(s, js, js.len())
}

/// One judgement leads from `p` and `s` to `q` and `t`.
pub open spec fn one_judgement<
    V: Fn(NodeId, &Vec<Claim>, &Vec<SumcheckProof>, Digest) -> CheckReply,
    W: Fn(NodeId, &Vec<Claim>, &Vec<SumcheckProof>, Digest) -> CheckReply,
>(
    dag: Dag,
    scope: Scope,
    node_proofs: Seq<Option<NodeProof>>,
    reducer_proofs: Seq<Option<Vec<SumcheckProof>>>,
    check: V,
    check_reducer: W,
    p: Check,
    s: Digest,
    q: Check,
    t: Digest,
) -> bool {
    exists|j: Judgement| #[trigger]
        pronounced(dag, node_proofs, reducer_proofs, check, check_reducer, p, s, j) && q == judge(
            dag,
            scope,
            node_proofs,
            p,
            j,
        ) && t == j.reply.state
}

/// Some judgements lead from `p` and `s` to `q` and `t`.
pub open spec fn reaches<
    V: Fn(NodeId, &Vec<Claim>, &Vec<SumcheckProof>, Digest) -> CheckReply,
    W: Fn(NodeId, &Vec<Claim>, &Vec<SumcheckProof>, Digest) -> CheckReply,
>(
    dag: Dag,
    scope: Scope,
    node_proofs: Seq<Option<NodeProof>>,
    reducer_proofs: Seq<Option<Vec<SumcheckProof>>>,
    check: V,
    check_reducer: W,
    p: Check,
    s: Digest,
    q: Check,
    t: Digest,
) -> bool {
    exists|js: Seq<Judgement>| #[trigger]
        leads(dag, scope, node_proofs, reducer_proofs, check, check_reducer, p, s, js, q, t)
}

/// The check gets stuck at a node for which the proof lacks something.
pub open spec fn gets_stuck<
    V: Fn(NodeId, &Vec<Claim>, &Vec<SumcheckProof>, Digest) -> CheckReply,
    W: Fn(NodeId, &Vec<Claim>, &Vec<SumcheckProof>, Digest) -> CheckReply,
>(
    dag: Dag,
    scope: Scope,
    node_proofs: Seq<Option<NodeProof>>,
    reducer_proofs: Seq<Option<Vec<SumcheckProof>>>,
    check: V,
    check_reducer: W,
    p: Check,
    s: Digest,
) -> bool {
    exists|q: Check, t: Digest|
        #![trigger reaches(dag, scope, node_proofs, reducer_proofs, check, check_reducer, p, s, q, t)]
        reaches(dag, scope, node_proofs, reducer_proofs, check, check_reducer, p, s, q, t)
            && exists|u: NodeId| #[trigger]
            q.is_next(u) && !supplied(dag, node_proofs, reducer_proofs, q, u)
}

/// The check before it starts.
pub open spec fn empty_check(dag: Dag) -> Check {
    Check {
        claims: Seq::new(dag.num_edges as nat, |e: int| Seq::empty()),
        pending: Seq::new(dag.nodes.len() as nat, |n: int| false),
        verified: true,
    }
}

/// The check after the first `k` starting claims.
pub open spec fn check_started(dag: Dag, scope: Scope, cs: Seq<(EdgeId, Assertion)>, k: nat) -> Check
    decreases k,
{
    if k == 0 {
        empty_check(dag)
    } else {
        let (e, c) = cs[k - 1];
        let q = check_started(dag, scope, cs, (k - 1) as nat).with_claim(e, c);
        match dag.producers[e as int] {
            Some(p) => if scope.inside[p as int] {
                q.with_pending(p)
            } else {
                q
            },
            None => q,
        }
    }
}

impl Checking {
    fn empty(dag: &Dag) -> (r: Self)
        ensures
            r@ == empty_check(*dag),
            r@.wf(*dag),
    {
        let mut claims: Vec<Vec<Claim>> = Vec::new();
        while claims.len() < dag.num_edges
            invariant
                claims.len() <= dag.num_edges,
                forall|e: int| 0 <= e < claims.len() ==> (#[trigger] claims[e]).len() == 0,
            decreases dag.num_edges - claims.len(),
        {
            claims.push(Vec::new());
        }
        let mut pending: Vec<bool> = Vec::new();
        while pending.len() < dag.nodes.len()
            invariant
                pending.len() <= dag.nodes.len(),
                forall|e: int| 0 <= e < pending.len() ==> !#[trigger] pending[e],
            decreases dag.nodes.len() - pending.len(),
        {
            pending.push(false);
        }
        let r: Checking = Checking { claims, pending, verified: true };
        proof {
            assert forall|e: int| 0 <= e < r@.claims.len() implies r@.claims[e] == Seq::<
                Assertion,
            >::empty() by {
                assert(claim_list(claims[e]@) =~= Seq::<Assertion>::empty());
            }
            assert(r@.claims =~= empty_check(*dag).claims);
            assert(r@ =~= empty_check(*dag));
        }
        r
    }

    fn next(&self) -> (r: Option<NodeId>)
        ensures
            match r {
                Some(u) => self@.is_next(u),
                None => self@.done(),
            },
    {
        let mut k: usize = self.pending.len();
        while k > 0
            invariant
                k <= self.pending.len(),
                forall|v: int| k <= v < self.pending.len() ==> !#[trigger] self.pending[v],
            decreases k,
        {
            k = k - 1;
            if self.pending[k] {
                return Some(k);
            }
        }
        None
    }

    fn push_claim(&mut self, e: EdgeId, c: Claim)
        requires
            e < old(self).claims.len(),
        ensures
            final(self)@ == old(self)@.with_claim(e, c@),
            final(self).claims.len() == old(self).claims.len(),
            final(self).pending.len() == old(self).pending.len(),
    {
        let ghost before = self@;
        let ghost cv = c@;
        self.claims[e].push(c);
        proof {
            assert(self@.claims[e as int] =~= before.claims[e as int].push(cv));
            assert(self@.claims =~= before.claims.update(
                e as int,
                before.claims[e as int].push(cv),
            ));
            assert(self@ =~= before.with_claim(e, cv));
        }
    }
}

/// Whether a list holds an edge.
pub(crate) fn lists(v: &Vec<usize>, e: usize) -> (r: bool)
    ensures
        r == v@.contains(e),
{
    let mut i: usize = 0;
    while i < v.len()
        invariant
            i <= v.len(),
            forall|k: int| 0 <= k < i ==> v@[k] != e,
        decreases v.len() - i,
    {
        if v[i] == e {
            assert(v@[i as int] == e);
            return true;
        }
        i = i + 1;
    }
    false
}

impl Dag {
    /// The check that starts from the given claims.
    pub fn start_check(&self, scope: &Scope, initial: Vec<(EdgeId, Claim)>) -> (r: Checking)
        requires
            self.linked(),
            scope.wf(self),
            forall|i: int| 0 <= i < initial.len() ==> (#[trigger] initial[i]).0 < self.num_edges,
        ensures
            r@ == check_started(
                *self,
                *scope,
                crate::dag::backward::starting(initial@),
                initial.len() as nat,
            ),
            r@.wf(*self),
    {
        let mut r: Checking = Checking::empty(self);
        let ghost cs = crate::dag::backward::starting(initial@);
        let mut i: usize = 0;
        while i < initial.len()
            invariant
                i <= initial.len(),
                self.linked(),
                scope.wf(self),
                cs == crate::dag::backward::starting(initial@),
                forall|i: int| 0 <= i < initial.len() ==> (#[trigger] initial[i]).0 < self.num_edges,
                r@ == check_started(*self, *scope, cs, i as nat),
                r@.wf(*self),
            decreases initial.len() - i,
        {
            let e: EdgeId = initial[i].0;
            assert(initial[i as int].0 < self.num_edges);
            let c: Claim = initial[i].1.clone();
            assert(cs[i as int] == (e, c@));
            r.push_claim(e, c);
            let ghost mid = r@;
            match self.producers[e] {
                Some(p) => {
                    assert(p < self.nodes.len());
                    if scope.inside[p] {
                        r.pending.set(p, true);
                        assert(r@ =~= mid.with_pending(p));
                    }
                },
                None => {},
            }
            i = i + 1;
        }
        r
    }

    /// Repeats the claims of the proof of a node and schedules the writers of its inputs.
    fn repeat_claims(&self, scope: &Scope, st: &mut Checking, u: NodeId, local: &Vec<Claim>)
        requires
            self.ordered(),
            scope.wf(self),
            old(st)@.wf(*self),
            u < self.nodes.len(),
            forall|i: int| 0 <= i < local.len() ==> (#[trigger] local[i]).edge_id < self.num_edges,
        ensures
            final(st)@ == old(st)@.repeat_all(*self, u, claim_list(local@)).follow_all(
                *self,
                *scope,
                u,
                claim_list(local@),
            ),
            final(st)@.wf(*self),
            forall|v: int|
                u <= v < final(st)@.pending.len() ==> #[trigger] final(st)@.pending[v] == old(
                    st,
                )@.pending[v],
    {
        let ghost p0 = st@;
        let ghost cs = claim_list(local@);
        let mut i: usize = 0;
        assert(cs.take(0) =~= Seq::<Assertion>::empty());
        while i < local.len()
            invariant
                i <= local.len(),
                self.ordered(),
                u < self.nodes.len(),
                cs == claim_list(local@),
                forall|i: int|
                    0 <= i < local.len() ==> (#[trigger] local[i]).edge_id < self.num_edges,
                st@.wf(*self),
                st@ == p0.repeat_all(*self, u, cs.take(i as int)),
                st@.pending == p0.pending,
            decreases local.len() - i,
        {
            let e: EdgeId = local[i].edge_id;
            assert(local[i as int].edge_id < self.num_edges);
            proof {
                assert(cs.take(i as int + 1).drop_last() =~= cs.take(i as int));
                assert(cs.take(i as int + 1).last() == local[i as int]@);
            }
            if lists(&self.nodes[u].inputs, e) || (self.self_claim_edges.contains(&e) && lists(
                &self.nodes[u].outputs,
                e,
            )) {
                st.push_claim(e, local[i].clone());
            }
            i = i + 1;
        }
        assert(cs.take(i as int) =~= cs);
        let ghost p1 = st@;
        let mut k: usize = 0;
        while k < local.len()
            invariant
                k <= local.len(),
                self.ordered(),
                scope.wf(self),
                u < self.nodes.len(),
                cs == claim_list(local@),
                forall|i: int|
                    0 <= i < local.len() ==> (#[trigger] local[i]).edge_id < self.num_edges,
                st@.wf(*self),
                p1.pending == p0.pending,
                p0.pending.len() == st@.pending.len(),
                st@ == p1.follow_all(*self, *scope, u, cs.take(k as int)),
                forall|v: int|
                    u <= v < st@.pending.len() ==> #[trigger] st@.pending[v] == p0.pending[v],
            decreases local.len() - k,
        {
            let e: EdgeId = local[k].edge_id;
            assert(local[k as int].edge_id < self.num_edges);
            proof {
                assert(cs.take(k as int + 1).drop_last() =~= cs.take(k as int));
                assert(cs.take(k as int + 1).last() == local[k as int]@);
            }
            let ghost before = st@;
            if lists(&self.nodes[u].inputs, e) && !scope.stop[e] {
                match self.producers[e] {
                    Some(p) => {
                        assert(p < self.nodes.len());
                        assert(self.reads(u as int, e as int));
                        assert(p < u);
                        if scope.inside[p] {
                            st.pending.set(p, true);
                            assert(st@ =~= before.with_pending(p));
                        }
                    },
                    None => {},
                }
            }
            k = k + 1;
        }
        assert(cs.take(k as int) =~= cs);
    }

    /// Takes one node and checks its proof.
    #[verifier::rlimit(40)]
    fn judge_node<
        V: Fn(NodeId, &Vec<Claim>, &Vec<SumcheckProof>, Digest) -> CheckReply,
        W: Fn(NodeId, &Vec<Claim>, &Vec<SumcheckProof>, Digest) -> CheckReply,
    >(
        &self,
        scope: &Scope,
        node_proofs: &[Option<NodeProof>],
        reducer_proofs: &[Option<Vec<SumcheckProof>>],
        st: &mut Checking,
        u: NodeId,
        start: Digest,
        check: &V,
        check_reducer: &W,
    ) -> (state: Digest)
        requires
            self.ordered(),
            scope.wf(self),
            old(st)@.wf(*self),
            node_proofs.len() == self.nodes.len(),
            reducer_proofs.len() == self.nodes.len(),
            is_check(*check),
            is_check(*check_reducer),
            old(st)@.is_next(u),
            supplied(*self, node_proofs@, reducer_proofs@, old(st)@, u),
        ensures
            final(st)@.wf(*self),
            forall|v: int| u <= v < final(st)@.pending.len() ==> !#[trigger] final(st)@.pending[v],
            one_judgement(
                *self,
                *scope,
                node_proofs@,
                reducer_proofs@,
                *check,
                *check_reducer,
                old(st)@,
                start,
                final(st)@,
                state,
            ),
    {
        let ghost p = st@;
        let ghost dag = *self;
        let ghost nps = node_proofs@;
        let ghost rps = reducer_proofs@;
        let mut state: Digest = start;
        assert(self.nodes[u as int].outputs.len() > 0);
        assert(self.nodes[u as int].outputs[0] < self.num_edges);
        match &node_proofs[u] {
            None => {},
            Some(np) => {
                let local: &Vec<Claim> = &np.1;
                let ghost lv = local_of(nps[u as int]);
                assert(claim_list(local@) == lv);
                proof {
                    assert forall|i: int| 0 <= i < local.len() implies (#[trigger] local[i]).edge_id
                        < self.num_edges by {
                        assert(lv[i].edge_id < dag.num_edges);
                    }
                }
                st.pending.set(u, false);
                assert(st@ =~= p.take(u));
                let out: EdgeId = self.nodes[u].outputs[0];
                let ghost mut red: Option<CheckReply> = None;
                assert(claim_list(st.claims[out as int]@) == p.claims[out as int]);
                if st.claims[out].len() > 1 {
                    match &reducer_proofs[u] {
                        None => {},
                        Some(rp) => {
                            let k: usize = local.len() - 1;
                            let last: Claim = local[k].clone();
                            assert(last@ == lv.last());
                            let mut all: Vec<Claim> = crate::dag::backward::clone_claims(
                                &st.claims[out],
                            );
                            let ghost av = claim_list(all@);
                            all.push(last.clone());
                            assert(claim_list(all@) =~= av.push(lv.last()));
                            let rr: CheckReply = check_reducer(u, &all, rp, state);
                            proof {
                                assert(call_ensures(*check_reducer, (u, &all, rp, start), rr));
                                let a = judged(
                                    *check_reducer,
                                    u,
                                    p.claims[out as int].push(lv.last()),
                                    *rp,
                                    start,
                                    rr,
                                );
                                assert(a);
                                red = Some(rr);
                            }
                            state = rr.state;
                            st.push_claim(out, last);
                            let ghost mid = st@;
                            st.verified = st.verified && rr.ok;
                            assert(st@ =~= mid.and(rr.ok));
                        },
                    }
                }
                let ghost mid2 = st@;
                let reply: CheckReply = check(u, local, &np.0, state);
                proof {
                    assert(call_ensures(*check, (u, local, &np.0, state), reply));
                    let a = judged(*check, u, lv, np.0, state, reply);
                    assert(a);
                }
                state = reply.state;
                st.verified = st.verified && reply.ok;
                assert(st@ =~= mid2.and(reply.ok));
                self.repeat_claims(scope, st, u, local);
                proof {
                    let j = Judgement { node: u, reduction: red, reply };
                    assert(st@ == judge(dag, *scope, nps, p, j));
                    let pr = pronounced(dag, nps, rps, *check, *check_reducer, p, start, j);
                    assert(pr);
                }
            },
        }
        state
    }

    /// Takes nodes until none waits, or until the proof lacks something.
    pub fn run_check<
        V: Fn(NodeId, &Vec<Claim>, &Vec<SumcheckProof>, Digest) -> CheckReply,
        W: Fn(NodeId, &Vec<Claim>, &Vec<SumcheckProof>, Digest) -> CheckReply,
    >(
        &self,
        scope: &Scope,
        node_proofs: &[Option<NodeProof>],
        reducer_proofs: &[Option<Vec<SumcheckProof>>],
        st: Checking,
        start: Digest,
        check: &V,
        check_reducer: &W,
    ) -> (r: Option<(Checking, Digest)>)
        requires
            self.ordered(),
            scope.wf(self),
            st@.wf(*self),
            node_proofs.len() == self.nodes.len(),
            reducer_proofs.len() == self.nodes.len(),
            is_check(*check),
            is_check(*check_reducer),
        ensures
            match r {
                Some((q, t)) => q@.wf(*self) && q@.done() && reaches(
                    *self,
                    *scope,
                    node_proofs@,
                    reducer_proofs@,
                    *check,
                    *check_reducer,
                    st@,
                    start,
                    q@,
                    t,
                ),
                None => gets_stuck(
                    *self,
                    *scope,
                    node_proofs@,
                    reducer_proofs@,
                    *check,
                    *check_reducer,
                    st@,
                    start,
                ),
            },
    {
        let ghost p0 = st@;
        let ghost dag = *self;
        let ghost sc = *scope;
        let ghost nps = node_proofs@;
        let ghost rps = reducer_proofs@;
        let mut st: Checking = st;
        let mut state: Digest = start;
        let mut bound: usize = self.nodes.len();
        let mut go: bool = true;
        let mut stuck: bool = false;
        proof {
            lemma_reaches(
                dag,
                sc,
                nps,
                rps,
                *check,
                *check_reducer,
                p0,
                start,
                Seq::empty(),
                st@,
                state,
            );
        }
        while go
            invariant
                dag == *self,
                sc == *scope,
                nps == node_proofs@,
                rps == reducer_proofs@,
                self.ordered(),
                scope.wf(self),
                node_proofs.len() == self.nodes.len(),
                reducer_proofs.len() == self.nodes.len(),
                is_check(*check),
                is_check(*check_reducer),
                st@.wf(dag),
                bound <= self.nodes.len(),
                forall|v: int| bound <= v < st@.pending.len() ==> !#[trigger] st@.pending[v],
                reaches(dag, sc, nps, rps, *check, *check_reducer, p0, start, st@, state),
                !go ==> stuck || st@.done(),
                stuck ==> gets_stuck(dag, sc, nps, rps, *check, *check_reducer, p0, start),
            decreases bound, (if go { 1int } else { 0int }),
        {
            match st.next() {
                None => {
                    go = false;
                },
                Some(u) => {
                    let ghost p = st@;
                    let ghost s0 = state;
                    assert(self.nodes[u as int].outputs.len() > 0);
                    if !self.is_supplied(node_proofs, reducer_proofs, &st, u) {
                        proof {
                            lemma_stuck(
                                dag,
                                sc,
                                nps,
                                rps,
                                *check,
                                *check_reducer,
                                p0,
                                start,
                                p,
                                s0,
                                u,
                            );
                        }
                        stuck = true;
                        go = false;
                    } else {
                        state = self.judge_node(
                            scope,
                            node_proofs,
                            reducer_proofs,
                            &mut st,
                            u,
                            state,
                            check,
                            check_reducer,
                        );
                        proof {
                            lemma_reaches_step(
                                dag,
                                sc,
                                nps,
                                rps,
                                *check,
                                *check_reducer,
                                p0,
                                start,
                                p,
                                s0,
                                st@,
                                state,
                            );
                        }
                        bound = u;
                    }
                },
            }
        }
        if stuck {
            None
        } else {
            Some((st, state))
        }
    }

    /// Whether the proof has what the check of a node needs.
    fn is_supplied(
        &self,
        node_proofs: &[Option<NodeProof>],
        reducer_proofs: &[Option<Vec<SumcheckProof>>],
        st: &Checking,
        u: NodeId,
    ) -> (r: bool)
        requires
            self.edges_ok(),
            st@.wf(*self),
            u < self.nodes.len(),
            self.nodes[u as int].outputs.len() > 0,
            node_proofs.len() == self.nodes.len(),
            reducer_proofs.len() == self.nodes.len(),
        ensures
            r == supplied(*self, node_proofs@, reducer_proofs@, st@, u),
    {
        match &node_proofs[u] {
            None => false,
            Some(np) => {
                let ghost local = local_of(node_proofs[u as int]);
                let mut i: usize = 0;
                while i < np.1.len()
                    invariant
                        i <= np.1.len(),
                        u < node_proofs.len(),
                        node_proofs[u as int] == Some(*np),
                        local == local_of(node_proofs[u as int]),
                        local == claim_list(np.1@),
                        forall|k: int| 0 <= k < i ==> (#[trigger] local[k]).edge_id < self.num_edges,
                    decreases np.1.len() - i,
                {
                    assert(local[i as int] == np.1[i as int]@);
                    if np.1[i].edge_id >= self.num_edges {
                        return false;
                    }
                    i = i + 1;
                }
                assert(self.nodes[u as int].outputs[0] < self.num_edges);
                let out: EdgeId = self.nodes[u].outputs[0];
                if st.claims[out].len() > 1 {
                    reducer_proofs[u].is_some() && np.1.len() > 0
                } else {
                    true
                }
            },
        }
    }
}

proof fn lemma_reaches<
    V: Fn(NodeId, &Vec<Claim>, &Vec<SumcheckProof>, Digest) -> CheckReply,
    W: Fn(NodeId, &Vec<Claim>, &Vec<SumcheckProof>, Digest) -> CheckReply,
>(
    dag: Dag,
    scope: Scope,
    node_proofs: Seq<Option<NodeProof>>,
    reducer_proofs: Seq<Option<Vec<SumcheckProof>>>,
    check: V,
    check_reducer: W,
    p: Check,
    s: Digest,
    js: Seq<Judgement>,
    q: Check,
    t: Digest,
)
    requires
        leads(dag, scope, node_proofs, reducer_proofs, check, check_reducer, p, s, js, q, t),
    ensures
        reaches(dag, scope, node_proofs, reducer_proofs, check, check_reducer, p, s, q, t),
{
}

proof fn lemma_upto_push(
    dag: Dag,
    scope: Scope,
    node_proofs: Seq<Option<NodeProof>>,
    p: Check,
    js: Seq<Judgement>,
    j: Judgement,
    k: nat,
)
    requires
        k <= js.len(),
    ensures
        judged_upto(dag, scope, node_proofs, p, js.push(j), k) == judged_upto(
            dag,
            scope,
            node_proofs,
            p,
            js,
            k,
        ),
    decreases k,
{
    if k > 0 {
        lemma_upto_push(dag, scope, node_proofs, p, js, j, (k - 1) as nat);
        assert(js.push(j)[k - 1] == js[k - 1]);
    }
}

proof fn lemma_leads_push<
    V: Fn(NodeId, &Vec<Claim>, &Vec<SumcheckProof>, Digest) -> CheckReply,
    W: Fn(NodeId, &Vec<Claim>, &Vec<SumcheckProof>, Digest) -> CheckReply,
>(
    dag: Dag,
    scope: Scope,
    node_proofs: Seq<Option<NodeProof>>,
    reducer_proofs: Seq<Option<Vec<SumcheckProof>>>,
    check: V,
    check_reducer: W,
    p: Check,
    s: Digest,
    js: Seq<Judgement>,
    q: Check,
    t: Digest,
    j: Judgement,
)
    requires
        leads(dag, scope, node_proofs, reducer_proofs, check, check_reducer, p, s, js, q, t),
        pronounced(dag, node_proofs, reducer_proofs, check, check_reducer, q, t, j),
    ensures
        leads(
            dag,
            scope,
            node_proofs,
            reducer_proofs,
            check,
            check_reducer,
            p,
            s,
            js.push(j),
            judge(dag, scope, node_proofs, q, j),
            j.reply.state,
        ),
{
    let all = js.push(j);
    assert forall|k: int| 0 <= k < all.len() implies pronounced(
        dag,
        node_proofs,
        reducer_proofs,
        check,
        check_reducer,
        judged_upto(dag, scope, node_proofs, p, all, k as nat),
        judged_digest(s, all, k as nat),
        #[trigger] all[k],
    ) by {
        lemma_upto_push(dag, scope, node_proofs, p, js, j, k as nat);
        if k > 0 {
            assert(all[k - 1] == js[k - 1]);
        }
        if k < js.len() {
            assert(all[k] == js[k]);
        }
    }
    lemma_upto_push(dag, scope, node_proofs, p, js, j, js.len());
}

proof fn lemma_reaches_step<
    V: Fn(NodeId, &Vec<Claim>, &Vec<SumcheckProof>, Digest) -> CheckReply,
    W: Fn(NodeId, &Vec<Claim>, &Vec<SumcheckProof>, Digest) -> CheckReply,
>(
    dag: Dag,
    scope: Scope,
    node_proofs: Seq<Option<NodeProof>>,
    reducer_proofs: Seq<Option<Vec<SumcheckProof>>>,
    check: V,
    check_reducer: W,
    p: Check,
    s: Digest,
    q: Check,
    t: Digest,
    q2: Check,
    t2: Digest,
)
    requires
        reaches(dag, scope, node_proofs, reducer_proofs, check, check_reducer, p, s, q, t),
        one_judgement(dag, scope, node_proofs, reducer_proofs, check, check_reducer, q, t, q2, t2),
    ensures
        reaches(dag, scope, node_proofs, reducer_proofs, check, check_reducer, p, s, q2, t2),
{
    let js = choose|js: Seq<Judgement>| #[trigger]
        leads(dag, scope, node_proofs, reducer_proofs, check, check_reducer, p, s, js, q, t);
    let j = choose|j: Judgement| #[trigger]
        pronounced(dag, node_proofs, reducer_proofs, check, check_reducer, q, t, j) && q2 == judge(
            dag,
            scope,
            node_proofs,
            q,
            j,
        ) && t2 == j.reply.state;
    lemma_leads_push(
        dag,
        scope,
        node_proofs,
        reducer_proofs,
        check,
        check_reducer,
        p,
        s,
        js,
        q,
        t,
        j,
    );
    lemma_reaches(
        dag,
        scope,
        node_proofs,
        reducer_proofs,
        check,
        check_reducer,
        p,
        s,
        js.push(j),
        q2,
        t2,
    );
}

proof fn lemma_stuck<
    V: Fn(NodeId, &Vec<Claim>, &Vec<SumcheckProof>, Digest) -> CheckReply,
    W: Fn(NodeId, &Vec<Claim>, &Vec<SumcheckProof>, Digest) -> CheckReply,
>(
    dag: Dag,
    scope: Scope,
    node_proofs: Seq<Option<NodeProof>>,
    reducer_proofs: Seq<Option<Vec<SumcheckProof>>>,
    check: V,
    check_reducer: W,
    p: Check,
    s: Digest,
    q: Check,
    t: Digest,
    u: NodeId,
)
    requires
        reaches(dag, scope, node_proofs, reducer_proofs, check, check_reducer, p, s, q, t),
        q.is_next(u),
        !supplied(dag, node_proofs, reducer_proofs, q, u),
    ensures
        gets_stuck(dag, scope, node_proofs, reducer_proofs, check, check_reducer, p, s),
{
    let r = reaches(dag, scope, node_proofs, reducer_proofs, check, check_reducer, p, s, q, t);
    let n = q.is_next(u);
    assert(r && n);
}

} // verus!
