//! Running the backward pass with given blocks.
use vstd::prelude::*;

use crate::dag::backward::{edges_of, Backward, BlockReply, Pass, Scope};
use crate::dag::compile::{compiled, writes};
use crate::dag::graph::{node_in_order, Graph};
use crate::dag::types::{claim_list, Assertion, Claim, Dag, EdgeId, NodeId};
use crate::transcript::Digest;

verus! {

impl Dag {
    /// Every node has an output, and nodes read only what nodes with lower numbers write.
    pub open spec fn ordered(&self) -> bool {
        &&& self.linked()
        &&& forall|v: int| 0 <= v < self.nodes.len() ==> (#[trigger] self.nodes[v]).outputs.len() > 0
        &&& forall|v: int, e: int|
            #[trigger] self.reads(v, e) ==> (self.producers[e] matches Some(u) ==> u < v)
    }
}

/// A compiled graph is ordered.
pub proof fn lemma_compiled_ordered(g: Graph, dag: Dag)
    requires
        g.wf(),
        compiled(g, dag),
    ensures
        dag.ordered(),
{
    crate::dag::partition::lemma_compiled_linked(g, dag);
    assert forall|v: int| 0 <= v < dag.nodes.len() implies dag.nodes[v]@ == g.nodes[v] && (
    #[trigger] dag.nodes[v]).outputs.len() > 0 by {
        assert(crate::dag::types::node_list(dag.nodes@)[v] == dag.nodes[v]@);
        assert(node_in_order(g.nodes[v], v, g.first_output(v), g.values.len()));
    }
    assert forall|v: int, e: int| #[trigger] dag.reads(v, e) implies (dag.producers[e] matches Some(
        u,
    ) ==> u < v) by {
        if dag.producers[e] is Some {
            let u = dag.producers[e]->0 as int;
            assert(dag.nodes[v].outputs.len() > 0);
            assert(dag.nodes[u].outputs.len() > 0);
            let w = writes(g.nodes, u, e as usize);
            assert(w);
            assert(node_in_order(g.nodes[v], v, g.first_output(v), g.values.len()));
            assert(node_in_order(g.nodes[u], u, g.first_output(u), g.values.len()));
            let s = choose|s: int| 0 <= s < g.nodes[v].inputs.len() && g.nodes[v].inputs[s] == e as usize;
            assert(g.nodes[v].inputs[s] < g.first_output(v));
            let t = choose|t: int|
                0 <= t < g.nodes[u].outputs.len() && g.nodes[u].outputs[t] == e as usize;
            assert(g.nodes[u].outputs[t] == g.first_output(u) + t);
            if v < u {
                assert(g.first_output(v) + g.nodes[v].outputs.len() <= g.first_output(u));
            }
        }
    }
}

/// The claims are about edges of node `u`.
pub open spec fn local_reply(dag: Dag, u: NodeId, claims: Seq<Assertion>) -> bool {
    forall|i: int|
        0 <= i < claims.len() ==> edges_of(dag, u).contains((#[trigger] claims[i]).edge_id)
}

/// `r` is an answer of the block to the claims `local` about node `u`, from digest `s`.
pub open spec fn answered<B: Fn(NodeId, &Vec<EdgeId>, &Vec<Claim>, Digest) -> BlockReply>(
    block: B,
    u: NodeId,
    edges: Seq<EdgeId>,
    local: Seq<Assertion>,
    s: Digest,
    r: BlockReply,
) -> bool {
    exists|es: &Vec<EdgeId>, cs: &Vec<Claim>|
        es@ == edges && claim_list(cs@) == local && #[trigger] call_ensures(block, (u, es, cs, s), r)
}

/// The block accepts every request and answers with claims about edges of the node.
pub open spec fn is_block<B: Fn(NodeId, &Vec<EdgeId>, &Vec<Claim>, Digest) -> BlockReply>(
    dag: Dag,
    block: B,
) -> bool {
    &&& forall|u: NodeId, es: &Vec<EdgeId>, cs: &Vec<Claim>, s: Digest|
        u < dag.nodes.len() ==> #[trigger] call_requires(block, (u, es, cs, s))
    &&& forall|u: NodeId, es: &Vec<EdgeId>, cs: &Vec<Claim>, s: Digest, r: BlockReply| #[trigger]
        call_ensures(block, (u, es, cs, s), r) && u < dag.nodes.len() ==> local_reply(
            dag,
            u,
            claim_list(r.claims@),
        )
}

/// The reducer accepts every request.
pub open spec fn is_reducer<R: Fn(NodeId, &Vec<EdgeId>, &Vec<Claim>, Digest) -> BlockReply>(
    dag: Dag,
    reduce: R,
) -> bool {
    forall|u: NodeId, es: &Vec<EdgeId>, cs: &Vec<Claim>, s: Digest|
        u < dag.nodes.len() ==> #[trigger] call_requires(reduce, (u, es, cs, s))
}

/// What happened to one node: how its claims were combined, if there were several, and what the
/// block answered.
pub struct Event {
    pub node: NodeId,
    pub reduction: Option<BlockReply>,
    pub reply: BlockReply,
}

/// The claims that the block sees.
pub open spec fn seen(local: Seq<Assertion>, reduction: Option<BlockReply>) -> Seq<Assertion> {
    match reduction {
        Some(r) => if r.claims@.len() > 0 {
            claim_list(r.claims@)
        } else {
            local
        },
        None => local,
    }
}

/// The pass after an event.
pub open spec fn after(dag: Dag, scope: Scope, p: Pass, ev: Event) -> Pass {
    let u = ev.node;
    let q = p.take(u);
    let local = q.local_claims(dag, u);
    let q = match ev.reduction {
        Some(r) => q.reduced(dag, u, r.proofs, claim_list(r.claims@)),
        None => q,
    };
    q.proved(
        dag,
        scope,
        u,
        seen(local, ev.reduction),
        ev.reply.proofs,
        claim_list(ev.reply.claims@),
    )
}

/// The event is what the given blocks do to the last node that waits.
pub open spec fn happens<
    B: Fn(NodeId, &Vec<EdgeId>, &Vec<Claim>, Digest) -> BlockReply,
    R: Fn(NodeId, &Vec<EdgeId>, &Vec<Claim>, Digest) -> BlockReply,
>(dag: Dag, block: B, reduce: R, p: Pass, s: Digest, ev: Event) -> bool {
    let u = ev.node;
    let local = p.local_claims(dag, u);
    let outs = dag.nodes[u as int].outputs@;
    &&& p.is_next(u)
    &&& ev.reduction is Some <==> local.len() > 1
    &&& ev.reduction matches Some(r) ==> answered(reduce, u, seq![outs.last()], local, s, r)
    &&& answered(
        block,
        u,
        edges_of(dag, u),
        seen(local, ev.reduction),
        match ev.reduction {
            Some(r) => r.state,
            None => s,
        },
        ev.reply,
    )
}

/// The pass after the first `k` events.
pub open spec fn replayed(dag: Dag, scope: Scope, p: Pass, evs: Seq<Event>, k: nat) -> Pass
    decreases k,
{
    if k == 0 {
        p
    } else {
        after(dag, scope, replayed(dag, scope, p, evs, (k - 1) as nat), evs[k - 1])
    }
}

/// The digest after the first `k` events.
pub open spec fn digest_after(s: Digest, evs: Seq<Event>, k: nat) -> Digest {
    if k == 0 {
        s
    } else {
        evs[k - 1].reply.state
    }
}

/// The events lead from `p` and `s` to a pass in which no node waits.
pub open spec fn runs<
    B: Fn(NodeId, &Vec<EdgeId>, &Vec<Claim>, Digest) -> BlockReply,
    R: Fn(NodeId, &Vec<EdgeId>, &Vec<Claim>, Digest) -> BlockReply,
>(
    dag: Dag,
    scope: Scope,
    block: B,
    reduce: R,
    p: Pass,
    s: Digest,
    evs: Seq<Event>,
    q: Pass,
    t: Digest,
) -> bool {
    &&& forall|k: int|
        0 <= k < evs.len() ==> happens(
            dag,
            block,
            reduce,
            replayed(dag, scope, p, evs, k as nat),
            digest_after(s, evs, k as nat),
            #[trigger] evs[k],
        )
    &&& q == replayed(dag, scope, p, evs, evs.len())
    &&& t == digest_after(s, evs, evs.len())
    &&& q.done()
}

/// Some run of the pass leads from `p` and `s` to `q` and `t`.
pub open spec fn passes<
    B: Fn(NodeId, &Vec<EdgeId>, &Vec<Claim>, Digest) -> BlockReply,
    R: Fn(NodeId, &Vec<EdgeId>, &Vec<Claim>, Digest) -> BlockReply,
>(
    dag: Dag,
    scope: Scope,
    block: B,
    reduce: R,
    p: Pass,
    s: Digest,
    q: Pass,
    t: Digest,
) -> bool {
    exists|evs: Seq<Event>| #[trigger] runs(dag, scope, block, reduce, p, s, evs, q, t)
}

/// Scheduling the writers of the edges of `u` makes only nodes before `u` wait.
proof fn lemma_schedule_below(dag: Dag, scope: Scope, p: Pass, u: NodeId, cs: Seq<Assertion>)
    requires
        dag.ordered(),
        scope.wf(&dag),
        p.wf(dag),
        u < dag.nodes.len(),
        local_reply(dag, u, cs),
        forall|v: int| u <= v < p.pending.len() ==> !#[trigger] p.pending[v],
    ensures
        p.schedule_all(dag, scope, u, cs).wf(dag),
        forall|v: int|
            u <= v < p.pending.len() ==> !#[trigger] p.schedule_all(dag, scope, u, cs).pending[v],
    decreases cs.len(),
{
    if cs.len() > 0 {
        let m = cs.drop_last();
        assert forall|i: int| 0 <= i < m.len() implies edges_of(dag, u).contains(
            (#[trigger] m[i]).edge_id,
        ) by {
            assert(edges_of(dag, u).contains(cs[i].edge_id));
        }
        lemma_schedule_below(dag, scope, p, u, m);
        let q = p.schedule_all(dag, scope, u, m);
        let e = cs[cs.len() - 1].edge_id;
        assert(edges_of(dag, u).contains(e));
        let es = edges_of(dag, u);
        let i = choose|i: int| 0 <= i < es.len() && es[i] == e;
        let ins = dag.nodes[u as int].inputs@;
        let outs = dag.nodes[u as int].outputs@;
        assert(e < dag.num_edges) by {
            if i < ins.len() {
                assert(dag.nodes[u as int].inputs[i] < dag.num_edges);
            } else {
                assert(dag.nodes[u as int].outputs[i - ins.len()] < dag.num_edges);
            }
        }
        if dag.producers[e as int] is Some {
            let w = dag.producers[e as int]->0;
            assert(w < dag.nodes.len());
            if i < ins.len() {
                assert(ins.contains(e));
                assert(dag.reads(u as int, e as int));
                assert(w < u);
            } else {
                assert(outs[i - ins.len()] == e);
                assert(outs.contains(e));
                let wr = dag.writes(u as int, e as int);
                assert(wr);
                assert(w == u);
            }
        }
    }
}

pub proof fn lemma_claims_keep(p: Pass, cs: Seq<Assertion>)
    requires
        forall|i: int| 0 <= i < cs.len() ==> (#[trigger] cs[i]).edge_id < p.claims.len(),
    ensures
        p.with_claims(cs).pending == p.pending,
        p.with_claims(cs).claims.len() == p.claims.len(),
        p.with_claims(cs).node_proofs == p.node_proofs,
        p.with_claims(cs).reducer_proofs == p.reducer_proofs,
    decreases cs.len(),
{
    if cs.len() > 0 {
        let m = cs.drop_last();
        assert forall|i: int| 0 <= i < m.len() implies (#[trigger] m[i]).edge_id < p.claims.len() by {
            assert(cs[i].edge_id < p.claims.len());
        }
        lemma_claims_keep(p, m);
        assert(cs[cs.len() - 1].edge_id < p.claims.len());
    }
}

/// Taking the last waiting node leaves only nodes before it waiting.
pub proof fn lemma_event_below(dag: Dag, scope: Scope, p: Pass, ev: Event)
    requires
        dag.ordered(),
        scope.wf(&dag),
        p.wf(dag),
        p.is_next(ev.node),
        local_reply(dag, ev.node, claim_list(ev.reply.claims@)),
    ensures
        after(dag, scope, p, ev).wf(dag),
        forall|v: int|
            ev.node <= v < p.pending.len() ==> !#[trigger] after(dag, scope, p, ev).pending[v],
{
    let u = ev.node;
    let q = p.take(u);
    let local = q.local_claims(dag, u);
    let q2 = match ev.reduction {
        Some(r) => q.reduced(dag, u, r.proofs, claim_list(r.claims@)),
        None => q,
    };
    let new = claim_list(ev.reply.claims@);
    let q3 = Pass {
        node_proofs: q2.node_proofs.update(
            u as int,
            Some((ev.reply.proofs, new + seen(local, ev.reduction))),
        ),
        ..q2
    };
    assert(dag.nodes[u as int].outputs.len() > 0);
    assert(dag.nodes[u as int].outputs[0] < dag.num_edges);
    assert(q3.claims.len() == p.claims.len());
    assert forall|i: int| 0 <= i < new.len() implies (#[trigger] new[i]).edge_id < q3.claims.len() by {
        assert(edges_of(dag, u).contains(new[i].edge_id));
        lemma_edge_bound(dag, u, new[i].edge_id);
    }
    lemma_claims_keep(q3, new);
    let q4 = q3.with_claims(new);
    assert(q4.pending == p.pending.update(u as int, false));
    lemma_schedule_below(dag, scope, q4, u, new);
}

/// Nobody who reads an output of the last waiting node waits: the claims about its outputs are
/// complete when it is taken.
pub proof fn lemma_readers_done(dag: Dag, p: Pass, u: NodeId, v: int, e: int)
    requires
        dag.ordered(),
        p.wf(dag),
        p.is_next(u),
        dag.writes(u as int, e),
        dag.reads(v, e),
    ensures
        !p.pending[v],
{
    let wr = dag.writes(u as int, e);
    assert(dag.producers[e] == Some(u));
    assert(u < v);
}

/// Taking a node does not change the claims.
proof fn lemma_take_claims(dag: Dag, p: Pass, u: NodeId, outs: Seq<EdgeId>, k: nat)
    ensures
        p.take(u).output_claims(outs, k) == p.output_claims(outs, k),
    decreases k,
{
    if k > 0 {
        lemma_take_claims(dag, p, u, outs, (k - 1) as nat);
    }
}

impl Dag {
    /// Takes nodes until none waits. Every node is taken when all claims about its outputs are
    /// there, from the last node to the first.
    #[verifier::rlimit(60)]
    pub fn run_pass<
        B: Fn(NodeId, &Vec<EdgeId>, &Vec<Claim>, Digest) -> BlockReply,
        R: Fn(NodeId, &Vec<EdgeId>, &Vec<Claim>, Digest) -> BlockReply,
    >(&self, scope: &Scope, st: Backward, start: Digest, block: &B, reduce: &R) -> (r: (
        Backward,
        Digest,
    ))
        requires
            self.ordered(),
            scope.wf(self),
            st@.wf(*self),
            is_block(*self, *block),
            is_reducer(*self, *reduce),
        ensures
            r.0@.wf(*self),
            passes(*self, *scope, *block, *reduce, st@, start, r.0@, r.1),
    {
        let ghost p0 = st@;
        let ghost dag = *self;
        let ghost sc = *scope;
        let mut st: Backward = st;
        let mut state: Digest = start;
        let ghost mut evs: Seq<Event> = Seq::empty();
        let mut bound: usize = self.nodes.len();
        let mut go: bool = true;
        while go
            invariant
                dag == *self,
                sc == *scope,
                self.ordered(),
                scope.wf(self),
                is_block(*self, *block),
                is_reducer(*self, *reduce),
                st@.wf(dag),
                bound <= self.nodes.len(),
                forall|v: int| bound <= v < st@.pending.len() ==> !#[trigger] st@.pending[v],
                st@ == replayed(dag, sc, p0, evs, evs.len()),
                state == digest_after(start, evs, evs.len()),
                forall|k: int|
                    0 <= k < evs.len() ==> happens(
                        dag,
                        *block,
                        *reduce,
                        replayed(dag, sc, p0, evs, k as nat),
                        digest_after(start, evs, k as nat),
                        #[trigger] evs[k],
                    ),
                !go ==> st@.done(),
            decreases bound, (if go { 1int } else { 0int }),
        {
            match st.next() {
                None => {
                    go = false;
                },
                Some(u) => {
                    let ghost p = st@;
                    let ghost s0 = state;
                    assert(u < bound);
                    assert(self.nodes[u as int].outputs.len() > 0);
                    self.take_node(&mut st, u);
                    proof {
                        let outs = self.nodes[u as int].outputs@;
                        lemma_take_claims(dag, p, u, outs, outs.len());
                    }
                    let edges: Vec<EdgeId> = self.edge_ids(u);
                    let local: Vec<Claim> = self.local_claims(&st, u);
                    let ghost lv = p.local_claims(dag, u);
                    assert(claim_list(local@) == lv);
                    assert(local.len() == lv.len());
                    let mut used: Vec<Claim> = local;
                    let ghost mut red: Option<BlockReply> = None;
                    if used.len() > 1 {
                        let mut last: Vec<EdgeId> = Vec::new();
                        last.push(edges[edges.len() - 1]);
                        assert(last@ =~= seq![self.nodes[u as int].outputs@.last()]);
                        let rr: BlockReply = reduce(u, &last, &used, state);
                        proof {
                            assert(call_ensures(*reduce, (u, &last, &used, s0), rr));
                            let a = answered(*reduce, u, last@, lv, s0, rr);
                            assert(a);
                            red = Some(rr);
                        }
                        state = rr.state;
                        let ghost rcl = claim_list(rr.claims@);
                        self.record_reduction(&mut st, u, rr.proofs, &rr.claims);
                        if rr.claims.len() > 0 {
                            used = rr.claims;
                        }
                    }
                    assert(claim_list(used@) == seen(lv, red));
                    let reply: BlockReply = block(u, &edges, &used, state);
                    let ghost ev = Event { node: u, reduction: red, reply };
                    proof {
                        assert(call_ensures(*block, (u, &edges, &used, state), reply));
                        let a = answered(*block, u, edges@, claim_list(used@), state, reply);
                        assert(a);
                        assert(local_reply(dag, u, claim_list(reply.claims@)));
                        assert(happens(dag, *block, *reduce, p, s0, ev));
                        lemma_event_below(dag, sc, p, ev);
                        assert forall|i: int| 0 <= i < reply.claims.len() implies (
                        #[trigger] reply.claims[i]).edge_id < self.num_edges by {
                            assert(claim_list(reply.claims@)[i].edge_id == reply.claims[i].edge_id);
                            lemma_edge_bound(dag, u, reply.claims[i].edge_id);
                        }
                    }
                    state = reply.state;
                    self.record_node(scope, &mut st, u, &used, reply.proofs, &reply.claims);
                    proof {
                        let before = evs;
                        evs = evs.push(ev);
                        lemma_replay_push(dag, sc, p0, before, ev, before.len());
                        assert(st@ == after(dag, sc, p, ev));
                        assert forall|k: int| 0 <= k < evs.len() implies happens(
                            dag,
                            *block,
                            *reduce,
                            replayed(dag, sc, p0, evs, k as nat),
                            digest_after(start, evs, k as nat),
                            #[trigger] evs[k],
                        ) by {
                            lemma_replay_push(dag, sc, p0, before, ev, k as nat);
                            if k < before.len() {
                                assert(evs[k] == before[k]);
                                if k > 0 {
                                    assert(evs[k - 1] == before[k - 1]);
                                }
                            } else if k > 0 {
                                assert(evs[k - 1] == before[k - 1]);
                            }
                        }
                    }
                    bound = u;
                },
            }
        }
        proof {
            lemma_passes(dag, sc, *block, *reduce, p0, start, evs, st@, state);
        }
        (st, state)
    }
}

proof fn lemma_passes<
    B: Fn(NodeId, &Vec<EdgeId>, &Vec<Claim>, Digest) -> BlockReply,
    R: Fn(NodeId, &Vec<EdgeId>, &Vec<Claim>, Digest) -> BlockReply,
>(
    dag: Dag,
    scope: Scope,
    block: B,
    reduce: R,
    p: Pass,
    s: Digest,
    evs: Seq<Event>,
    q: Pass,
    t: Digest,
)
    requires
        runs(dag, scope, block, reduce, p, s, evs, q, t),
    ensures
        passes(dag, scope, block, reduce, p, s, q, t),
{
}

/// Later events do not change earlier states.
proof fn lemma_replay_push(dag: Dag, scope: Scope, p: Pass, evs: Seq<Event>, ev: Event, k: nat)
    requires
        k <= evs.len(),
    ensures
        replayed(dag, scope, p, evs.push(ev), k) == replayed(dag, scope, p, evs, k),
    decreases k,
{
    if k > 0 {
        lemma_replay_push(dag, scope, p, evs, ev, (k - 1) as nat);
        assert(evs.push(ev)[k - 1] == evs[k - 1]);
    }
}

/// The edges of a node are edges of the graph.
pub proof fn lemma_edge_bound(dag: Dag, u: NodeId, e: EdgeId)
    requires
        dag.edges_ok(),
        u < dag.nodes.len(),
        edges_of(dag, u).contains(e),
    ensures
        e < dag.num_edges,
{
    let es = edges_of(dag, u);
    let i = choose|i: int| 0 <= i < es.len() && es[i] == e;
    let ins = dag.nodes[u as int].inputs@;
    if i < ins.len() {
        assert(dag.nodes[u as int].inputs[i] < dag.num_edges);
    } else {
        assert(dag.nodes[u as int].outputs[i - ins.len()] < dag.num_edges);
    }
}

} // verus!
