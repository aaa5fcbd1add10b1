//! Which claims are opened, and how several claims about an edge become one.
use vstd::prelude::*;

use crate::commit::basefold::BasefoldCommitmentData;
use crate::dag::commit::has_edge;
use crate::dag::reduction::{
    all_hold, at_points, check_reduction, combined_claim, lemma_reduction_complete, lemma_table_len,
    pointed, pointed_claims, reduce_claims, reduction_challenges, reduction_check_end,
    reduction_end, reduction_ok, reduction_polys, reduction_start,
};
use crate::dag::types::{claim_list, claim_lists, Assertion, Claim, Dag, EdgeId, EdgeProof};
use crate::dag::witness::{Role, Witness};
use crate::field::elem::Elem;
use crate::poly::MLPoly;
use crate::sumcheck::fiat_shamir::honest_proof;
use crate::sumcheck::SumcheckProof;
use crate::transcript::{Digest, Transcript};

verus! {

/// Every edge has a tensor, and the polynomials of the tensors are well formed.
pub open spec fn witnesses_ok(ws: Seq<Vec<Witness>>, num_edges: nat) -> bool {
    &&& ws.len() == num_edges
    &&& forall|e: int| 0 <= e < num_edges ==> (#[trigger] ws[e]).len() > 0
    &&& forall|e: int|
        0 <= e < num_edges ==> ((#[trigger] ws[e])[0].data matches Some(d) ==> d.wf() && d.vars()
            < usize::BITS)
}

/// The values of the polynomial on edge `e`.
pub open spec fn edge_table(ws: Seq<Vec<Witness>>, e: int) -> Seq<Elem> {
    ws[e][0].data->0.table()
}

/// The number of variables of the polynomial on edge `e`.
pub open spec fn edge_vars(ws: Seq<Vec<Witness>>, e: int) -> nat {
    ws[e][0].data->0.vars()
}

/// Position of the last claim with a point.
pub open spec fn last_pointed(cs: Seq<Assertion>) -> Option<usize>
    decreases cs.len(),
{
    if cs.len() == 0 {
        None
    } else if cs.last().point.len() > 0 {
        Some((cs.len() - 1) as usize)
    } else {
        last_pointed(cs.drop_last())
    }
}

/// The proof that combines the claims about edge `e`, where there is one.
pub type OpeningReducer = Option<Vec<SumcheckProof>>;

impl Dag {
    /// Claims about edge `e` may be opened: it is not a plain output, or it is one of the cuts at which
    /// partitions meet.
    pub open spec fn may_open(&self, ws: Seq<Vec<Witness>>, cuts: Seq<EdgeId>, e: int) -> bool {
        ws[e][0].role == Role::Output ==> self.self_claim_edges@.contains(e as usize) || cuts.contains(
            e as usize,
        )
    }

    /// The commitments against which claims are opened.
    pub open spec fn openable(
        &self,
        ws: Seq<Vec<Witness>>,
        commitments: Seq<Option<BasefoldCommitmentData>>,
        cuts: Seq<EdgeId>,
    ) -> Seq<Option<BasefoldCommitmentData>> {
        Seq::new(
            commitments.len(),
            |e: int|
                if self.may_open(ws, cuts, e) {
                    commitments[e]
                } else {
                    None
                },
        )
    }

    /// The commitments against which claims are opened.
    pub fn list_openable(
        &self,
        witnesses: &[Vec<Witness>],
        commitments: &[Option<BasefoldCommitmentData>],
        cuts: &Vec<EdgeId>,
    ) -> (r: Vec<Option<BasefoldCommitmentData>>)
        requires
            witnesses_ok(witnesses@, self.num_edges as nat),
            commitments.len() == self.num_edges,
        ensures
            r@ == self.openable(witnesses@, commitments@, cuts@),
    {
        let ghost all = self.openable(witnesses@, commitments@, cuts@);
        let mut r: Vec<Option<BasefoldCommitmentData>> = Vec::new();
        let mut e: usize = 0;
        while e < commitments.len()
            invariant
                e <= commitments.len(),
                witnesses_ok(witnesses@, self.num_edges as nat),
                commitments.len() == self.num_edges,
                all == self.openable(witnesses@, commitments@, cuts@),
                r@ == all.take(e as int),
            decreases commitments.len() - e,
        {
            assert(witnesses@[e as int].len() > 0);
            if witnesses[e][0].role != Role::Output || self.self_claim_edges.contains(&e) || has_edge(cuts, e) {
                r.push(commitments[e]);
            } else {
                r.push(None);
            }
            e = e + 1;
            assert(r@ =~= all.take(e as int));
        }
        assert(r@ =~= all);
        r
    }

    /// Claims about edge `e` are opened.
    pub open spec fn opened(&self, commitments: Seq<Option<BasefoldCommitmentData>>, e: int) -> bool {
        commitments[e] is Some
    }

    /// Several claims about edge `e` are combined before it is opened.
    pub open spec fn is_reduced(
        &self,
        ws: Seq<Vec<Witness>>,
        commitments: Seq<Option<BasefoldCommitmentData>>,
        claims: Seq<Seq<Assertion>>,
        e: int,
    ) -> bool {
        &&& self.opened(commitments, e)
        &&& ws[e][0].data is Some
        &&& pointed(claims[e]).len() > 1
    }

    /// The claims that are combined are about points of their polynomials.
    pub open spec fn points_fit(
        &self,
        ws: Seq<Vec<Witness>>,
        commitments: Seq<Option<BasefoldCommitmentData>>,
        claims: Seq<Seq<Assertion>>,
    ) -> bool {
        forall|e: int|
            0 <= e < claims.len() && #[trigger] self.is_reduced(ws, commitments, claims, e)
                ==> at_points(pointed(claims[e]), edge_vars(ws, e))
    }

    /// The claims and the digest after the first `k` edges were combined.
    pub open spec fn reduced_upto(
        &self,
        h: spec_fn(Digest, Digest) -> Digest,
        s: Digest,
        ws: Seq<Vec<Witness>>,
        commitments: Seq<Option<BasefoldCommitmentData>>,
        claims: Seq<Seq<Assertion>>,
        k: nat,
    ) -> (Seq<Seq<Assertion>>, Digest)
        decreases k,
    {
        if k == 0 {
            (claims, s)
        } else {
            let e = k - 1;
            let (cs, d) = self.reduced_upto(h, s, ws, commitments, claims, e as nat);
            if self.is_reduced(ws, commitments, claims, e) {
                let ps = pointed(claims[e]);
                let t = edge_table(ws, e);
                let n = edge_vars(ws, e) as usize;
                (
                    cs.update(e, claims[e].push(combined_claim(h, d, e as usize, t, ps, n))),
                    reduction_end(h, d, t, ps, n),
                )
            } else {
                (cs, d)
            }
        }
    }

    /// The proof of edge `e` is present where its claims are combined, and is that of an honest
    /// prover.
    pub open spec fn reducer_honest(
        &self,
        h: spec_fn(Digest, Digest) -> Digest,
        s: Digest,
        ws: Seq<Vec<Witness>>,
        commitments: Seq<Option<BasefoldCommitmentData>>,
        claims: Seq<Seq<Assertion>>,
        e: int,
        r: OpeningReducer,
    ) -> bool {
        let d = self.reduced_upto(h, s, ws, commitments, claims, e as nat).1;
        let ps = pointed(claims[e]);
        let n = edge_vars(ws, e) as usize;
        &&& r is Some <==> self.is_reduced(ws, commitments, claims, e)
        &&& r matches Some(v) ==> {
            &&& v.len() == 1
            &&& honest_proof(
                h,
                reduction_start(h, d, n),
                reduction_polys(h, d, edge_table(ws, e), ps),
                n as nat,
                v[0],
            )
        }
    }

    /// The claims to open: the last one with a point, for each of the first `k` edges.
    pub open spec fn tasks_upto(
        &self,
        ws: Seq<Vec<Witness>>,
        commitments: Seq<Option<BasefoldCommitmentData>>,
        claims: Seq<Seq<Assertion>>,
        k: nat,
    ) -> Seq<(EdgeId, usize)>
        decreases k,
    {
        if k == 0 {
            Seq::empty()
        } else {
            let rest = self.tasks_upto(ws, commitments, claims, (k - 1) as nat);
            match last_pointed(claims[k - 1]) {
                Some(i) => if self.opened(commitments, k - 1) {
                    rest.push(((k - 1) as usize, i))
                } else {
                    rest
                },
                None => rest,
            }
        }
    }

    /// Whether the claims that have to be combined are about points of their polynomials.
    pub fn check_points(
        &self,
        witnesses: &[Vec<Witness>],
        commitments: &[Option<BasefoldCommitmentData>],
        claims: &Vec<Vec<Claim>>,
    ) -> (r: bool)
        requires
            witnesses_ok(witnesses@, self.num_edges as nat),
            commitments.len() == self.num_edges,
            claims.len() == self.num_edges,
        ensures
            r == self.points_fit(witnesses@, commitments@, claim_lists(claims@)),
    {
        let ghost cl = claim_lists(claims@);
        let ghost ws = witnesses@;
        let mut fit: bool = true;
        let mut e: usize = 0;
        while e < self.num_edges
            invariant
                e <= self.num_edges,
                witnesses_ok(witnesses@, self.num_edges as nat),
                commitments.len() == self.num_edges,
                claims.len() == self.num_edges,
                cl == claim_lists(claims@),
                ws == witnesses@,
                fit <==> forall|k: int|
                    0 <= k < e && #[trigger] self.is_reduced(ws, commitments@, cl, k) ==> at_points(
                        pointed(cl[k]),
                        edge_vars(ws, k),
                    ),
            decreases self.num_edges - e,
        {
            let ghost before = fit;
            assert(ws[e as int].len() > 0);
            assert(cl[e as int] == claim_list(claims[e as int]@));
            if commitments[e].is_some() {
                match &witnesses[e][0].data {
                    Some(data) => {
                        let ps: Vec<Claim> = pointed_claims(&claims[e]);
                        if ps.len() > 1 {
                            let n: usize = data.n();
                            let here: bool = all_at(&ps, n);
                            fit = fit && here;
                        }
                    },
                    None => {},
                }
            }
            proof {
                let now = self.is_reduced(ws, commitments@, cl, e as int);
                if !before {
                    let k = choose|k: int|
                        0 <= k < e && #[trigger] self.is_reduced(ws, commitments@, cl, k) && !at_points(
                            pointed(cl[k]),
                            edge_vars(ws, k),
                        );
                    assert(self.is_reduced(ws, commitments@, cl, k));
                }
            }
            e = e + 1;
        }
        fit
    }

    /// Combines the claims about every edge that is opened and has several.
    #[verifier::rlimit(40)]
    pub fn reduce_openings<F: Fn(Digest, Digest) -> Digest>(
        &self,
        witnesses: &[Vec<Witness>],
        commitments: &[Option<BasefoldCommitmentData>],
        claims: &mut Vec<Vec<Claim>>,
        transcript: &mut Transcript<F>,
    ) -> (r: Vec<OpeningReducer>)
        requires
            old(transcript).wf(),
            witnesses_ok(witnesses@, self.num_edges as nat),
            commitments.len() == self.num_edges,
            old(claims).len() == self.num_edges,
            self.points_fit(witnesses@, commitments@, claim_lists(old(claims)@)),
        ensures
            final(transcript).compress == old(transcript).compress,
            final(claims).len() == self.num_edges,
            (claim_lists(final(claims)@), final(transcript).state) == self.reduced_upto(
                old(transcript).hash(),
                old(transcript).state,
                witnesses@,
                commitments@,
                claim_lists(old(claims)@),
                self.num_edges as nat,
            ),
            r.len() == self.num_edges,
            forall|e: int|
                0 <= e < r.len() ==> self.reducer_honest(
                    old(transcript).hash(),
                    old(transcript).state,
                    witnesses@,
                    commitments@,
                    claim_lists(old(claims)@),
                    e,
                    #[trigger] r[e],
                ),
    {
        let ghost h = transcript.hash();
        let ghost s = transcript.state;
        let ghost comp = transcript.compress;
        let ghost ws = witnesses@;
        let ghost com = commitments@;
        let ghost cl = claim_lists(claims@);
        let mut r: Vec<OpeningReducer> = Vec::new();
        let mut e: usize = 0;
        while e < self.num_edges
            invariant
                e <= self.num_edges,
                transcript.wf(),
                transcript.compress == comp,
                h == transcript.hash(),
                ws == witnesses@,
                com == commitments@,
                witnesses_ok(ws, self.num_edges as nat),
                commitments.len() == self.num_edges,
                claims.len() == self.num_edges,
                cl.len() == self.num_edges,
                self.points_fit(ws, com, cl),
                (claim_lists(claims@), transcript.state) == self.reduced_upto(
                    h,
                    s,
                    ws,
                    com,
                    cl,
                    e as nat,
                ),
                forall|k: int|
                    e <= k < self.num_edges ==> claim_list((#[trigger] claims[k])@) == cl[k],
                r.len() == e,
                forall|k: int|
                    0 <= k < e ==> self.reducer_honest(h, s, ws, com, cl, k, #[trigger] r[k]),
            decreases self.num_edges - e,
        {
            assert(ws[e as int].len() > 0);
            assert(claim_list(claims[e as int]@) == cl[e as int]);
            let ghost now = claim_lists(claims@);
            let ghost d = transcript.state;
            let mut entry: OpeningReducer = None;
            if commitments[e].is_some() {
                match &witnesses[e][0].data {
                    Some(data) => {
                        let ps: Vec<Claim> = pointed_claims(&claims[e]);
                        if ps.len() > 1 {
                            proof {
                                assert(self.is_reduced(ws, com, cl, e as int));
                                lemma_pointed(cl[e as int]);
                                assert(pointed(cl[e as int])[0].point.len() > 0);
                            }
                            let (p, c) = reduce_claims(data, e, &ps, transcript);
                            let mut list: Vec<SumcheckProof> = Vec::new();
                            list.push(p);
                            let ghost cv = c@;
                            claims[e].push(c);
                            proof {
                                assert(claim_list(claims[e as int]@) =~= cl[e as int].push(cv));
                                assert(claim_lists(claims@) =~= now.update(
                                    e as int,
                                    cl[e as int].push(cv),
                                ));
                            }
                            entry = Some(list);
                        }
                    },
                    None => {},
                }
            }
            r.push(entry);
            e = e + 1;
        }
        r
    }

    /// The claims to open: the last one with a point, for each edge that is opened.
    pub fn opening_tasks(
        &self,
        witnesses: &[Vec<Witness>],
        commitments: &[Option<BasefoldCommitmentData>],
        claims: &Vec<Vec<Claim>>,
    ) -> (r: Vec<(EdgeId, usize)>)
        requires
            witnesses_ok(witnesses@, self.num_edges as nat),
            commitments.len() == self.num_edges,
            claims.len() == self.num_edges,
        ensures
            r@ == self.tasks_upto(
                witnesses@,
                commitments@,
                claim_lists(claims@),
                self.num_edges as nat,
            ),
            forall|t: int|
                0 <= t < r.len() ==> (#[trigger] r[t]).0 < self.num_edges && r[t].1
                    < claims[r[t].0 as int].len(),
    {
        let ghost cl = claim_lists(claims@);
        let mut r: Vec<(EdgeId, usize)> = Vec::new();
        let mut e: usize = 0;
        while e < self.num_edges
            invariant
                e <= self.num_edges,
                witnesses_ok(witnesses@, self.num_edges as nat),
                commitments.len() == self.num_edges,
                claims.len() == self.num_edges,
                cl == claim_lists(claims@),
                r@ == self.tasks_upto(witnesses@, commitments@, cl, e as nat),
                forall|t: int|
                    0 <= t < r.len() ==> (#[trigger] r[t]).0 < self.num_edges && r[t].1
                        < claims[r[t].0 as int].len(),
            decreases self.num_edges - e,
        {
            assert(witnesses@[e as int].len() > 0);
            assert(cl[e as int] == claim_list(claims[e as int]@));
            if commitments[e].is_some() {
                match find_last_pointed(&claims[e]) {
                    Some(i) => r.push((e, i)),
                    None => {},
                }
            }
            e = e + 1;
        }
        r
    }
}

/// Whether all claims are about points in `n` variables.
fn all_at(claims: &Vec<Claim>, n: usize) -> (r: bool)
    ensures
        r == at_points(claim_list(claims@), n as nat),
{
    let ghost cs = claim_list(claims@);
    let mut i: usize = 0;
    while i < claims.len()
        invariant
            i <= claims.len(),
            cs == claim_list(claims@),
            forall|k: int| 0 <= k < i ==> (#[trigger] cs[k]).point.len() == n,
        decreases claims.len() - i,
    {
        assert(cs[i as int] == claims[i as int]@);
        if claims[i].point.len() != n {
            return false;
        }
        i = i + 1;
    }
    true
}

/// Position of the last claim with a point.
pub fn find_last_pointed(claims: &Vec<Claim>) -> (r: Option<usize>)
    ensures
        r == last_pointed(claim_list(claims@)),
        r matches Some(i) ==> i < claims.len() && claims[i as int].point.len() > 0,
{
    let ghost cs = claim_list(claims@);
    let mut i: usize = claims.len();
    assert(cs.take(i as int) =~= cs);
    while i > 0
        invariant
            i <= claims.len(),
            cs == claim_list(claims@),
            last_pointed(cs.take(i as int)) == last_pointed(cs),
        decreases i,
    {
        i = i - 1;
        proof {
            assert(cs.take(i as int + 1).last() == claims[i as int]@);
            assert(cs.take(i as int + 1).drop_last() =~= cs.take(i as int));
        }
        if claims[i].point.len() > 0 {
            return Some(i);
        }
    }
    None
}

/// The claims with a point have a point.
pub proof fn lemma_pointed(cs: Seq<Assertion>)
    ensures
        forall|i: int| 0 <= i < pointed(cs).len() ==> (#[trigger] pointed(cs)[i]).point.len() > 0,
    decreases cs.len(),
{
    if cs.len() > 0 {
        let rest = pointed(cs.drop_last());
        lemma_pointed(cs.drop_last());
        assert forall|i: int| 0 <= i < pointed(cs).len() implies (#[trigger] pointed(cs)[i]).point.len()
            > 0 by {
            if i < rest.len() {
                assert(pointed(cs)[i] == rest[i]);
            }
        }
    }
}

/// The claims about the edges, as their proofs have them.
pub open spec fn edge_claims(eps: Seq<EdgeProof>) -> Seq<Seq<Assertion>> {
    eps.map_values(|p: EdgeProof| claim_list(p.claims@))
}

/// Where a proof combines claims, it has a sum-check proof and the combined claim.
pub open spec fn reducer_present(p: EdgeProof) -> bool {
    p.opening_reducer matches Some(v) ==> v.len() > 0 && p.claims.len() > 0
}

impl Dag {
    /// The verdict on the combined claims of the first `k` edges, and the digest after them.
    pub open spec fn reducers_checked(
        &self,
        h: spec_fn(Digest, Digest) -> Digest,
        s: Digest,
        ws: Seq<Vec<Witness>>,
        commitments: Seq<Option<BasefoldCommitmentData>>,
        eps: Seq<EdgeProof>,
        k: nat,
    ) -> (bool, Digest)
        decreases k,
    {
        if k == 0 {
            (true, s)
        } else {
            let (ok, d) = self.reducers_checked(h, s, ws, commitments, eps, (k - 1) as nat);
            let p = eps[k - 1];
            match p.opening_reducer {
                Some(v) => if self.opened(commitments, k - 1) {
                    let cs = claim_list(p.claims@);
                    let ps = pointed(cs.drop_last());
                    (
                        ok && reduction_ok(h, d, ps, cs.last(), v[0]),
                        reduction_check_end(h, d, ps, cs.last().point.len(), v[0]),
                    )
                } else {
                    (ok, d)
                },
                None => (ok, d),
            }
        }
    }

    /// Where an edge that is opened combines claims, its proof has what that needs.
    pub open spec fn reducers_present(
        &self,
        ws: Seq<Vec<Witness>>,
        commitments: Seq<Option<BasefoldCommitmentData>>,
        eps: Seq<EdgeProof>,
    ) -> bool {
        forall|e: int|
            0 <= e < eps.len() && #[trigger] self.opened(commitments, e) ==> reducer_present(eps[e])
    }

    /// Whether the edges that are opened have what the check of combined claims needs.
    pub fn has_reducers(
        &self,
        witnesses: &[Vec<Witness>],
        commitments: &[Option<BasefoldCommitmentData>],
        edge_proofs: &[EdgeProof],
    ) -> (r: bool)
        requires
            witnesses_ok(witnesses@, self.num_edges as nat),
            commitments.len() == self.num_edges,
            edge_proofs.len() == self.num_edges,
        ensures
            r == self.reducers_present(witnesses@, commitments@, edge_proofs@),
    {
        let mut e: usize = 0;
        while e < edge_proofs.len()
            invariant
                e <= edge_proofs.len(),
                witnesses_ok(witnesses@, self.num_edges as nat),
                commitments.len() == self.num_edges,
                edge_proofs.len() == self.num_edges,
                forall|k: int|
                    0 <= k < e && #[trigger] self.opened(commitments@, k)
                        ==> reducer_present(edge_proofs[k]),
            decreases edge_proofs.len() - e,
        {
            assert(witnesses@[e as int].len() > 0);
            let present: bool = match &edge_proofs[e].opening_reducer {
                Some(v) => v.len() > 0 && edge_proofs[e].claims.len() > 0,
                None => true,
            };
            if commitments[e].is_some() && !present {
                assert(self.opened(commitments@, e as int));
                return false;
            }
            e = e + 1;
        }
        true
    }

    /// Checks the combined claims of all edges.
    pub fn check_reducers<F: Fn(Digest, Digest) -> Digest>(
        &self,
        witnesses: &[Vec<Witness>],
        commitments: &[Option<BasefoldCommitmentData>],
        edge_proofs: &[EdgeProof],
        transcript: &mut Transcript<F>,
    ) -> (ok: bool)
        requires
            old(transcript).wf(),
            witnesses_ok(witnesses@, self.num_edges as nat),
            commitments.len() == self.num_edges,
            edge_proofs.len() == self.num_edges,
            self.reducers_present(witnesses@, commitments@, edge_proofs@),
        ensures
            final(transcript).compress == old(transcript).compress,
            (ok, final(transcript).state) == self.reducers_checked(
                old(transcript).hash(),
                old(transcript).state,
                witnesses@,
                commitments@,
                edge_proofs@,
                self.num_edges as nat,
            ),
    {
        let ghost h = transcript.hash();
        let ghost s = transcript.state;
        let ghost comp = transcript.compress;
        let mut verified: bool = true;
        let mut e: usize = 0;
        while e < self.num_edges
            invariant
                e <= self.num_edges,
                transcript.wf(),
                transcript.compress == comp,
                h == transcript.hash(),
                witnesses_ok(witnesses@, self.num_edges as nat),
                commitments.len() == self.num_edges,
                edge_proofs.len() == self.num_edges,
                self.reducers_present(witnesses@, commitments@, edge_proofs@),
                (verified, transcript.state) == self.reducers_checked(
                    h,
                    s,
                    witnesses@,
                    commitments@,
                    edge_proofs@,
                    e as nat,
                ),
            decreases self.num_edges - e,
        {
            assert(witnesses@[e as int].len() > 0);
            if commitments[e].is_some() {
                match &edge_proofs[e].opening_reducer {
                    Some(v) => {
                        assert(self.opened(commitments@, e as int));
                        let claims: &Vec<Claim> = &edge_proofs[e].claims;
                        let ghost cs = claim_list(claims@);
                        let ps: Vec<Claim> = pointed_claims(&all_but_last(claims));
                        let last: usize = claims.len() - 1;
                        let ok: bool = check_reduction(&ps, &claims[last], &v[0], transcript);
                        verified = verified && ok;
                    },
                    None => {},
                }
            }
            e = e + 1;
        }
        verified
    }
}

/// A copy of a list of claims without the last one.
fn all_but_last(claims: &Vec<Claim>) -> (r: Vec<Claim>)
    requires
        claims.len() > 0,
    ensures
        claim_list(r@) == claim_list(claims@).drop_last(),
{
    let ghost cs = claim_list(claims@);
    let mut r: Vec<Claim> = Vec::new();
    let mut i: usize = 0;
    assert(claim_list(r@) =~= cs.take(0));
    while i + 1 < claims.len()
        invariant
            i < claims.len(),
            cs == claim_list(claims@),
            claim_list(r@) == cs.take(i as int),
        decreases claims.len() - i,
    {
        let ghost before = claim_list(r@);
        r.push(claims[i].clone());
        assert(claim_list(r@) =~= before.push(cs[i as int]));
        i = i + 1;
        assert(claim_list(r@) =~= cs.take(i as int));
    }
    assert(cs.take(i as int) =~= cs.drop_last());
    r
}

/// Combining claims adds the combined claim to the edges that are combined, and nothing else.
pub proof fn lemma_reduced_entry(
    dag: Dag,
    h: spec_fn(Digest, Digest) -> Digest,
    s: Digest,
    ws: Seq<Vec<Witness>>,
    com: Seq<Option<BasefoldCommitmentData>>,
    claims: Seq<Seq<Assertion>>,
    k: nat,
    e: int,
)
    requires
        k <= claims.len(),
        0 <= e < claims.len(),
    ensures
        dag.reduced_upto(h, s, ws, com, claims, k).0.len() == claims.len(),
        dag.reduced_upto(h, s, ws, com, claims, k).0[e] == if e < k && dag.is_reduced(
            ws,
            com,
            claims,
            e,
        ) {
            claims[e].push(
                combined_claim(
                    h,
                    dag.reduced_upto(h, s, ws, com, claims, e as nat).1,
                    e as usize,
                    edge_table(ws, e),
                    pointed(claims[e]),
                    edge_vars(ws, e) as usize,
                ),
            )
        } else {
            claims[e]
        },
    decreases k,
{
    if k > 0 {
        lemma_reduced_entry(dag, h, s, ws, com, claims, (k - 1) as nat, e);
    }
}

/// The verifier accepts the combined claims of an honest prover whose claims are true, and ends
/// at the digest of the prover.
pub proof fn lemma_reducers_complete(
    dag: Dag,
    h: spec_fn(Digest, Digest) -> Digest,
    s: Digest,
    ws: Seq<Vec<Witness>>,
    com: Seq<Option<BasefoldCommitmentData>>,
    claims: Seq<Seq<Assertion>>,
    eps: Seq<EdgeProof>,
    k: nat,
)
    requires
        witnesses_ok(ws, dag.num_edges as nat),
        claims.len() == dag.num_edges,
        dag.points_fit(ws, com, claims),
        edge_claims(eps) == dag.reduced_upto(h, s, ws, com, claims, dag.num_edges as nat).0,
        forall|e: int|
            0 <= e < dag.num_edges ==> dag.reducer_honest(
                h,
                s,
                ws,
                com,
                claims,
                e,
                (#[trigger] eps[e]).opening_reducer,
            ),
        forall|e: int|
            0 <= e < dag.num_edges && #[trigger] dag.is_reduced(ws, com, claims, e) ==> all_hold(
                edge_table(ws, e),
                pointed(claims[e]),
            ),
        k <= dag.num_edges,
    ensures
        dag.reducers_checked(h, s, ws, com, eps, k) == (
            true,
            dag.reduced_upto(h, s, ws, com, claims, k).1,
        ),
    decreases k,
{
    if k > 0 {
        let e = k - 1;
        let d = dag.reduced_upto(h, s, ws, com, claims, e as nat).1;
        lemma_reducers_complete(dag, h, s, ws, com, claims, eps, e as nat);
        lemma_reduced_entry(dag, h, s, ws, com, claims, dag.num_edges as nat, e);
        assert(edge_claims(eps)[e] == claim_list(eps[e].claims@));
        assert(dag.reducer_honest(h, s, ws, com, claims, e, eps[e].opening_reducer));
        if dag.is_reduced(ws, com, claims, e) {
            let n = edge_vars(ws, e) as usize;
            let ps = pointed(claims[e]);
            let t = edge_table(ws, e);
            assert(ws[e].len() > 0);
            assert(ws[e][0].data->0.wf());
            lemma_table_len(ws[e][0].data->0);
            lemma_reduction_complete(h, d, e as usize, t, ps, n, eps[e].opening_reducer->0[0]);
            let c = combined_claim(h, d, e as usize, t, ps, n);
            assert(claims[e].push(c).drop_last() =~= claims[e]);
            lemma_challenges_len(h, d, t, ps, n);
        }
    }
}

/// A reduction in `n` variables has `n` challenges.
proof fn lemma_challenges_len(
    h: spec_fn(Digest, Digest) -> Digest,
    s: Digest,
    table: Seq<Elem>,
    cs: Seq<Assertion>,
    n: usize,
)
    ensures
        reduction_challenges(h, s, table, cs, n).len() == n,
{
    crate::sumcheck::fiat_shamir::lemma_honest_prefix(
        h,
        reduction_start(h, s, n),
        reduction_polys(h, s, table, cs),
        n as nat,
        n as nat,
        n as nat,
    );
}

} // verus!
