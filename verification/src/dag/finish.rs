//! The last part of a proof: lookups, combined claims and openings.
use vstd::prelude::*;

use crate::commit::basefold::{BasefoldCommitmentData, BasefoldOpeningProof};
use crate::dag::backward::clone_claims;
use crate::dag::openings::{edge_claims, witnesses_ok, OpeningReducer};
use crate::dag::range::{
    bool_digest, group_sizes, item_sizes, range_beta, range_challenges, range_honest, range_mid,
    range_parts, range_words, with_range_claims,
};
use crate::dag::two_pow::{
    lemma_word_of, two_pow_beta, two_pow_challenges, two_pow_honest, two_pow_polys, two_pow_start, with_item_claims,
};
use crate::dag::types::{claim_list, claim_lists, Assertion, Claim, Dag, EdgeId, EdgeProof, LookupProof};
use crate::dag::witness::Witness;
use crate::field::GoldilocksExt2;
use crate::sumcheck::fiat_shamir::{honest, word_of};
use crate::transcript::{digest_elem, draw, Digest, Label, Transcript};

verus! {

/// A lookup proof about nothing.
pub open spec fn no_lookups(p: LookupProof) -> bool {
    &&& p.table_proofs.len() == 0
    &&& p.middle_claims.len() == 0
    &&& p.bool_proofs.len() == 0
}

/// `p` is an answer to the request to open claim `c` about edge `e` as task `t`.
pub open spec fn opening_answered<
    O: Fn(usize, EdgeId, &Claim, GoldilocksExt2) -> BasefoldOpeningProof,
>(open: O, t: usize, e: EdgeId, c: Assertion, seed: GoldilocksExt2, p: BasefoldOpeningProof) -> bool {
    exists|claim: &Claim| claim@ == c && #[trigger] call_ensures(open, (t, e, claim, seed), p)
}

/// The seed of the openings.
pub open spec fn opening_seed(h: spec_fn(Digest, Digest) -> Digest, s: Digest) -> GoldilocksExt2 {
    word_of(digest_elem(draw(h, s, Label::OpeningSeed)))
}

impl Dag {
    /// The claims and the digest after the lookups of powers of two were proved.
    pub open spec fn after_two_pow(
        &self,
        h: spec_fn(Digest, Digest) -> Digest,
        s: Digest,
        ws: Seq<Vec<Witness>>,
        claims: Seq<Seq<Assertion>>,
    ) -> (Seq<Seq<Assertion>>, Digest) {
        if self.two_pow.len() == 0 {
            (claims, s)
        } else {
            let items = self.two_pow_items(ws, claims);
            (
                with_item_claims(claims, items, two_pow_challenges(h, s, items), items.len()),
                honest(h, two_pow_start(h, s), two_pow_polys(items, two_pow_beta(h, s)), 4, 4).1,
            )
        }
    }

    /// The claims and the digest after the range checks were proved.
    pub open spec fn after_range(
        &self,
        h: spec_fn(Digest, Digest) -> Digest,
        s: Digest,
        ws: Seq<Vec<Witness>>,
        claims: Seq<Seq<Assertion>>,
    ) -> (Seq<Seq<Assertion>>, Digest) {
        if self.range.len() == 0 {
            (claims, s)
        } else {
            let items = self.range_items(ws, claims);
            let groups = group_sizes(item_sizes(items));
            (
                with_range_claims(
                    claims,
                    items,
                    range_words(h, s, items),
                    range_parts(h, s, items),
                    range_challenges(h, s, items),
                    items.len(),
                ),
                bool_digest(
                    h,
                    range_mid(h, s, items),
                    items,
                    range_beta(h, s),
                    groups,
                    groups.len(),
                ),
            )
        }
    }

    /// The claims and the digest after all lookups were proved.
    pub open spec fn after_lookups(
        &self,
        h: spec_fn(Digest, Digest) -> Digest,
        s: Digest,
        ws: Seq<Vec<Witness>>,
        claims: Seq<Seq<Assertion>>,
    ) -> (Seq<Seq<Assertion>>, Digest) {
        let (c, d) = self.after_two_pow(h, s, ws, claims);
        self.after_range(h, d, ws, c)
    }

    /// The lookups have what they need, and the claims that are combined are about points of their
    /// polynomials.
    pub open spec fn can_finish(
        &self,
        h: spec_fn(Digest, Digest) -> Digest,
        s: Digest,
        ws: Seq<Vec<Witness>>,
        commitments: Seq<Option<BasefoldCommitmentData>>,
        claims: Seq<Seq<Assertion>>,
    ) -> bool {
        &&& self.two_pow_all_ready(ws, claims)
        &&& self.range_all_ready(ws, self.after_two_pow(h, s, ws, claims).0)
        &&& self.points_fit(ws, commitments, self.after_lookups(h, s, ws, claims).0)
    }

    /// The proofs of the lookups are those of an honest prover.
    pub open spec fn lookups_honest(
        &self,
        h: spec_fn(Digest, Digest) -> Digest,
        s: Digest,
        ws: Seq<Vec<Witness>>,
        claims: Seq<Seq<Assertion>>,
        range_proof: LookupProof,
        two_pow_proof: LookupProof,
    ) -> bool {
        let (c, d) = self.after_two_pow(h, s, ws, claims);
        &&& if self.two_pow.len() == 0 {
            no_lookups(two_pow_proof)
        } else {
            two_pow_honest(h, s, self.two_pow_items(ws, claims), two_pow_proof)
        }
        &&& if self.range.len() == 0 {
            no_lookups(range_proof)
        } else {
            range_honest(h, d, self.range_items(ws, c), range_proof)
        }
    }

    /// The claims after the lookups and the combination, and the digest after them.
    pub open spec fn final_claims(
        &self,
        h: spec_fn(Digest, Digest) -> Digest,
        s: Digest,
        ws: Seq<Vec<Witness>>,
        commitments: Seq<Option<BasefoldCommitmentData>>,
        claims: Seq<Seq<Assertion>>,
    ) -> (Seq<Seq<Assertion>>, Digest) {
        let (c, d) = self.after_lookups(h, s, ws, claims);
        self.reduced_upto(h, d, ws, commitments, c, self.num_edges as nat)
    }

    /// The openings answer the tasks, and there are no others.
    pub open spec fn openings_done<
        O: Fn(usize, EdgeId, &Claim, GoldilocksExt2) -> BasefoldOpeningProof,
    >(
        &self,
        open: O,
        tasks: Seq<(EdgeId, usize)>,
        claims: Seq<Seq<Assertion>>,
        seed: GoldilocksExt2,
        eps: Seq<EdgeProof>,
    ) -> bool {
        &&& forall|t: int|
            0 <= t < tasks.len() ==> task_done(open, t, #[trigger] tasks[t], claims, seed, eps)
        &&& forall|e: int|
            0 <= e < eps.len() && !has_task(tasks, e) ==> (#[trigger] eps[e]).dense_opening_proof.len()
                == 0
    }

    /// What is added to the proofs of the nodes, from the claims `claims` and the digest `s`.
    pub open spec fn finished<O: Fn(usize, EdgeId, &Claim, GoldilocksExt2) -> BasefoldOpeningProof>(
        &self,
        h: spec_fn(Digest, Digest) -> Digest,
        s: Digest,
        ws: Seq<Vec<Witness>>,
        commitments: Seq<Option<BasefoldCommitmentData>>,
        claims: Seq<Seq<Assertion>>,
        open: O,
        eps: Seq<EdgeProof>,
        range_proof: LookupProof,
        two_pow_proof: LookupProof,
        end: Digest,
    ) -> bool {
        let (c, d) = self.after_lookups(h, s, ws, claims);
        let (fc, fd) = self.final_claims(h, s, ws, commitments, claims);
        let tasks = self.tasks_upto(ws, commitments, fc, self.num_edges as nat);
        &&& self.lookups_honest(h, s, ws, claims, range_proof, two_pow_proof)
        &&& edge_claims(eps) == fc
        &&& forall|e: int|
            0 <= e < eps.len() ==> self.reducer_honest(
                h,
                d,
                ws,
                commitments,
                c,
                e,
                (#[trigger] eps[e]).opening_reducer,
            )
        &&& forall|e: int| 0 <= e < eps.len() ==> (#[trigger] eps[e]).sparse_opening_proof.len() == 0
        &&& self.openings_done(open, tasks, fc, opening_seed(h, fd), eps)
        &&& end == draw(h, fd, Label::OpeningSeed)
    }
}

/// Edge `e` is opened by one of the tasks.
pub open spec fn has_task(tasks: Seq<(EdgeId, usize)>, e: int) -> bool {
    exists|t: int| 0 <= t < tasks.len() && (#[trigger] tasks[t]).0 == e
}

/// The edge of task `t` has one opening proof, which answers the task.
pub open spec fn task_done<O: Fn(usize, EdgeId, &Claim, GoldilocksExt2) -> BasefoldOpeningProof>(
    open: O,
    t: int,
    task: (EdgeId, usize),
    claims: Seq<Seq<Assertion>>,
    seed: GoldilocksExt2,
    eps: Seq<EdgeProof>,
) -> bool {
    let p = eps[task.0 as int].dense_opening_proof;
    &&& p.len() == 1
    &&& opening_answered(
        open,
        t as usize,
        task.0,
        claims[task.0 as int][task.1 as int],
        seed,
        p[0],
    )
}

/// Tasks are about different edges, in order.
pub proof fn lemma_tasks_ordered(
    dag: Dag,
    ws: Seq<Vec<Witness>>,
    com: Seq<Option<BasefoldCommitmentData>>,
    claims: Seq<Seq<Assertion>>,
    k: nat,
)
    requires
        k <= usize::MAX,
    ensures
        forall|t: int|
            0 <= t < dag.tasks_upto(ws, com, claims, k).len() ==> (#[trigger] dag.tasks_upto(
                ws,
                com,
                claims,
                k,
            )[t]).0 < k,
        forall|t: int, u: int|
            0 <= t < u < dag.tasks_upto(ws, com, claims, k).len() ==> (#[trigger] dag.tasks_upto(
                ws,
                com,
                claims,
                k,
            )[t]).0 < (#[trigger] dag.tasks_upto(ws, com, claims, k)[u]).0,
    decreases k,
{
    if k > 0 {
        lemma_tasks_ordered(dag, ws, com, claims, (k - 1) as nat);
        let rest = dag.tasks_upto(ws, com, claims, (k - 1) as nat);
        let all = dag.tasks_upto(ws, com, claims, k);
        assert forall|t: int| 0 <= t < all.len() implies (#[trigger] all[t]).0 < k by {
            if t < rest.len() {
                assert(all[t] == rest[t]);
            }
        }
        assert forall|t: int, u: int| 0 <= t < u < all.len() implies (#[trigger] all[t]).0 < (
        #[trigger] all[u]).0 by {
            assert(all[t] == rest[t]);
            if u < rest.len() {
                assert(all[u] == rest[u]);
            }
        }
    }
}

/// The proofs of the edges before anything is opened.
fn gather(claims: &Vec<Vec<Claim>>, reducers: Vec<OpeningReducer>) -> (r: Vec<EdgeProof>)
    requires
        reducers.len() == claims.len(),
    ensures
        edge_claims(r@) == claim_lists(claims@),
        r.len() == claims.len(),
        forall|e: int| 0 <= e < r.len() ==> (#[trigger] r[e]).opening_reducer == reducers[e],
        forall|e: int| 0 <= e < r.len() ==> (#[trigger] r[e]).dense_opening_proof.len() == 0,
        forall|e: int| 0 <= e < r.len() ==> (#[trigger] r[e]).sparse_opening_proof.len() == 0,
{
    let ghost rs = reducers@;
    let mut reducers: Vec<OpeningReducer> = reducers;
    let mut r: Vec<EdgeProof> = Vec::new();
    let mut e: usize = 0;
    while e < claims.len()
        invariant
            e <= claims.len(),
            reducers.len() == claims.len(),
            rs.len() == claims.len(),
            r.len() == e,
            forall|k: int| e <= k < rs.len() ==> (#[trigger] reducers[k]) == rs[k],
            forall|k: int|
                0 <= k < e ==> claim_list((#[trigger] r[k]).claims@) == claim_list(claims[k]@),
            forall|k: int| 0 <= k < e ==> (#[trigger] r[k]).opening_reducer == rs[k],
            forall|k: int| 0 <= k < e ==> (#[trigger] r[k]).dense_opening_proof.len() == 0,
            forall|k: int| 0 <= k < e ==> (#[trigger] r[k]).sparse_opening_proof.len() == 0,
        decreases claims.len() - e,
    {
        let mut p: EdgeProof = EdgeProof::new();
        p.claims = clone_claims(&claims[e]);
        assert(reducers[e as int] == rs[e as int]);
        p.opening_reducer = reducers[e].take();
        r.push(p);
        e = e + 1;
    }
    assert(edge_claims(r@) =~= claim_lists(claims@));
    r
}

impl Dag {
    /// Opens the claims of the tasks, one after the other.
    fn open_all<O: Fn(usize, EdgeId, &Claim, GoldilocksExt2) -> BasefoldOpeningProof>(
        &self,
        tasks: &Vec<(EdgeId, usize)>,
        claims: &Vec<Vec<Claim>>,
        seed: GoldilocksExt2,
        eps: &mut Vec<EdgeProof>,
        open: &O,
    )
        requires
            old(eps).len() == claims.len(),
            forall|t: int|
                0 <= t < tasks.len() ==> (#[trigger] tasks[t]).0 < claims.len() && tasks[t].1
                    < claims[tasks[t].0 as int].len(),
            forall|t: int, u: int|
                0 <= t < u < tasks.len() ==> (#[trigger] tasks[t]).0 < (#[trigger] tasks[u]).0,
            forall|e: int|
                0 <= e < old(eps).len() ==> (#[trigger] old(eps)[e]).dense_opening_proof.len() == 0,
            forall|t: usize, e: EdgeId, c: &Claim, s: GoldilocksExt2| #[trigger]
                call_requires(*open, (t, e, c, s)),
        ensures
            final(eps).len() == old(eps).len(),
            forall|e: int|
                0 <= e < old(eps).len() ==> (#[trigger] final(eps)[e]).claims == old(eps)[e].claims
                    && final(eps)[e].opening_reducer == old(eps)[e].opening_reducer
                    && final(eps)[e].sparse_opening_proof == old(eps)[e].sparse_opening_proof,
            self.openings_done(*open, tasks@, claim_lists(claims@), seed, final(eps)@),
    {
        let ghost cl = claim_lists(claims@);
        let ghost before = eps@;
        let mut t: usize = 0;
        while t < tasks.len()
            invariant
                t <= tasks.len(),
                cl == claim_lists(claims@),
                eps.len() == claims.len(),
                before.len() == claims.len(),
                forall|t: int|
                    0 <= t < tasks.len() ==> (#[trigger] tasks[t]).0 < claims.len() && tasks[t].1
                        < claims[tasks[t].0 as int].len(),
                forall|t: int, u: int|
                    0 <= t < u < tasks.len() ==> (#[trigger] tasks[t]).0 < (#[trigger] tasks[u]).0,
                forall|e: int|
                    0 <= e < before.len() ==> (#[trigger] before[e]).dense_opening_proof.len() == 0,
                forall|t: usize, e: EdgeId, c: &Claim, s: GoldilocksExt2| #[trigger]
                    call_requires(*open, (t, e, c, s)),
                forall|e: int|
                    0 <= e < before.len() ==> (#[trigger] eps[e]).claims == before[e].claims
                        && eps[e].opening_reducer == before[e].opening_reducer
                        && eps[e].sparse_opening_proof == before[e].sparse_opening_proof,
                forall|k: int| 0 <= k < t ==> task_done(*open, k, #[trigger] tasks[k], cl, seed, eps@),
                forall|e: int|
                    0 <= e < before.len() && !has_task(tasks@.take(t as int), e) ==> (
                    #[trigger] eps[e]).dense_opening_proof.len() == 0,
            decreases tasks.len() - t,
        {
            let e: usize = tasks[t].0;
            let i: usize = tasks[t].1;
            let ghost mid = eps@;
            assert(cl[e as int] == claim_list(claims[e as int]@));
            assert(!has_task(tasks@.take(t as int), e as int)) by {
                if has_task(tasks@.take(t as int), e as int) {
                    let u = choose|u: int|
                        0 <= u < t && (#[trigger] tasks@.take(t as int)[u]).0 == e;
                    assert(tasks[u].0 < tasks[t as int].0);
                }
            }
            assert(eps[e as int].dense_opening_proof.len() == 0);
            let proof: BasefoldOpeningProof = open(t, e, &claims[e][i], seed);
            let ghost pv = proof;
            assert(opening_answered(*open, t, e, cl[e as int][i as int], seed, proof));
            eps[e].dense_opening_proof.push(proof);
            proof {
                assert(eps[e as int].dense_opening_proof@ =~= seq![pv]);
                assert(task_done(*open, t as int, tasks[t as int], cl, seed, eps@));
                assert forall|k: int| 0 <= k < t + 1 implies task_done(
                    *open,
                    k,
                    #[trigger] tasks[k],
                    cl,
                    seed,
                    eps@,
                ) by {
                    if k < t {
                        assert(tasks[k].0 < tasks[t as int].0);
                        assert(task_done(*open, k, tasks[k], cl, seed, mid));
                    }
                }
                assert forall|f: int|
                    0 <= f < before.len() && !has_task(tasks@.take(t as int + 1), f) implies (
                #[trigger] eps[f]).dense_opening_proof.len() == 0 by {
                    if has_task(tasks@.take(t as int), f) {
                        let u = choose|u: int|
                            0 <= u < t && (#[trigger] tasks@.take(t as int)[u]).0 == f;
                        assert(tasks@.take(t as int + 1)[u].0 == f);
                    }
                    assert(tasks@.take(t as int + 1)[t as int].0 == e);
                    assert(f != e);
                    assert(mid[f].dense_opening_proof.len() == 0);
                }
            }
            t = t + 1;
        }
        assert(tasks@.take(t as int) =~= tasks@);
    }

    /// Proves the lookups, combines claims and opens them. Without the claims that the lookups
    /// need, or with claims that are not about points of their polynomials, there is no proof.
    pub fn finish<
        F: Fn(Digest, Digest) -> Digest,
        O: Fn(usize, EdgeId, &Claim, GoldilocksExt2) -> BasefoldOpeningProof,
    >(
        &self,
        witnesses: &[Vec<Witness>],
        commitments: &[Option<BasefoldCommitmentData>],
        claims: Vec<Vec<Claim>>,
        transcript: &mut Transcript<F>,
        open: &O,
    ) -> (r: Option<(Vec<EdgeProof>, LookupProof, LookupProof)>)
        requires
            self.lookups_ok(),
            witnesses_ok(witnesses@, self.num_edges as nat),
            commitments.len() == self.num_edges,
            claims.len() == self.num_edges,
            old(transcript).wf(),
            forall|t: usize, e: EdgeId, c: &Claim, s: GoldilocksExt2| #[trigger]
                call_requires(*open, (t, e, c, s)),
        ensures
            final(transcript).compress == old(transcript).compress,
            r is Some <==> self.can_finish(
                old(transcript).hash(),
                old(transcript).state,
                witnesses@,
                commitments@,
                claim_lists(claims@),
            ),
            r matches Some(p) ==> self.finished(
                old(transcript).hash(),
                old(transcript).state,
                witnesses@,
                commitments@,
                claim_lists(claims@),
                *open,
                p.0@,
                p.1,
                p.2,
                final(transcript).state,
            ),
    {
        let ghost h = transcript.hash();
        let ghost s = transcript.state;
        let ghost ws = witnesses@;
        let ghost com = commitments@;
        let ghost cl = claim_lists(claims@);
        let mut claims: Vec<Vec<Claim>> = claims;
        if !self.two_pow_can_prove(witnesses, &claims) {
            return None;
        }
        let two_pow_proof: LookupProof = self.prove_two_pow(witnesses, &mut claims, transcript);
        assert((claim_lists(claims@), transcript.state) == self.after_two_pow(h, s, ws, cl));
        let ghost c1 = claim_lists(claims@);
        let ghost s1 = transcript.state;
        if !self.range_can_prove(witnesses, &claims) {
            return None;
        }
        let range_proof: LookupProof = self.prove_range(witnesses, &mut claims, transcript);
        assert((claim_lists(claims@), transcript.state) == self.after_range(h, s1, ws, c1));
        let ghost c2 = claim_lists(claims@);
        let ghost s2 = transcript.state;
        if !self.check_points(witnesses, commitments, &claims) {
            return None;
        }
        let reducers: Vec<OpeningReducer> = self.reduce_openings(
            witnesses,
            commitments,
            &mut claims,
            transcript,
        );
        let ghost s3 = transcript.state;
        let seed: GoldilocksExt2 = transcript.challenge_ext2(Label::OpeningSeed);
        proof {
            lemma_word_of(seed);
        }
        let tasks: Vec<(EdgeId, usize)> = self.opening_tasks(witnesses, commitments, &claims);
        proof {
            lemma_tasks_ordered(*self, ws, com, claim_lists(claims@), self.num_edges as nat);
        }
        let ghost rs = reducers@;
        let mut eps: Vec<EdgeProof> = gather(&claims, reducers);
        let ghost before = eps@;
        self.open_all(&tasks, &claims, seed, &mut eps, open);
        proof {
            assert(edge_claims(eps@) =~= edge_claims(before)) by {
                assert forall|e: int| 0 <= e < eps.len() implies edge_claims(eps@)[e] == edge_claims(
                    before,
                )[e] by {
                    assert(eps[e].claims == before[e].claims);
                }
            }
            assert forall|e: int| 0 <= e < eps.len() implies self.reducer_honest(
                h,
                s2,
                ws,
                com,
                c2,
                e,
                (#[trigger] eps[e]).opening_reducer,
            ) by {
                assert(before[e].opening_reducer == rs[e]);
                assert(self.reducer_honest(h, s2, ws, com, c2, e, rs[e]));
            }
            assert forall|e: int| 0 <= e < eps.len() implies (
            #[trigger] eps[e]).sparse_opening_proof.len() == 0 by {
                assert(before[e].sparse_opening_proof.len() == 0);
            }
        }
        Some((eps, range_proof, two_pow_proof))
    }
}

} // verus!
