//! Checking the last part of a proof: lookups, combined claims and openings.
use vstd::prelude::*;

use crate::commit::basefold::{BasefoldCommitmentData, BasefoldOpeningProof};
use crate::dag::backward::clone_claims;
use crate::dag::finish::opening_seed;
use crate::dag::openings::{edge_claims, witnesses_ok};
use crate::dag::range::range_verdict;
use crate::dag::two_pow::lemma_word_of;
use crate::dag::types::{
    claim_list, claim_lists, Assertion, Claim, Dag, EdgeId, EdgeProof, LookupProof, NodeProof,
};
use crate::dag::witness::Witness;
use crate::field::{ext2_field_eq, GoldilocksExt2};
use crate::transcript::{draw, Digest, Label, Transcript};

verus! {

impl Dag {
    /// The verdict on the range checks, and the digest after it.
    pub open spec fn all_ranges_verdict(
        &self,
        h: spec_fn(Digest, Digest) -> Digest,
        s: Digest,
        node_proofs: Seq<Option<NodeProof>>,
        ws: Seq<Vec<Witness>>,
        claims: Seq<Seq<Assertion>>,
        sf: u64,
        proof: LookupProof,
    ) -> (Option<bool>, Digest) {
        if self.range.len() == 0 {
            (Some(true), s)
        } else {
            range_verdict(h, s, self.range_checks(node_proofs, ws, claims, sf), proof)
        }
    }
}

/// `r` is an answer to the request to check an opening.
pub open spec fn opening_judged<
    P: Fn(usize, &BasefoldCommitmentData, &Claim, &BasefoldOpeningProof, GoldilocksExt2) -> bool,
>(
    check: P,
    t: usize,
    c: BasefoldCommitmentData,
    claim: Claim,
    proof: BasefoldOpeningProof,
    seed: GoldilocksExt2,
    r: bool,
) -> bool {
    call_ensures(check, (t, &c, &claim, &proof, seed), r)
}

impl Dag {
    /// Every task has an opening proof.
    pub open spec fn openings_present(&self, tasks: Seq<(EdgeId, usize)>, eps: Seq<EdgeProof>) -> bool {
        forall|t: int|
            0 <= t < tasks.len() ==> eps[(#[trigger] tasks[t]).0 as int].dense_opening_proof.len() > 0
    }

    /// The verdict `ok` on task `t`: the opening passes its check, and proves the claimed value.
    pub open spec fn opening_verdict<
        P: Fn(usize, &BasefoldCommitmentData, &Claim, &BasefoldOpeningProof, GoldilocksExt2) -> bool,
    >(
        &self,
        check: P,
        com: Seq<Option<BasefoldCommitmentData>>,
        eps: Seq<EdgeProof>,
        tasks: Seq<(EdgeId, usize)>,
        seed: GoldilocksExt2,
        t: int,
        passed: bool,
        ok: bool,
    ) -> bool {
        let (e, i) = tasks[t];
        let p = eps[e as int];
        &&& opening_judged(
            check,
            t as usize,
            com[e as int]->0,
            p.claims[i as int],
            p.dense_opening_proof[0],
            seed,
            passed,
        )
        &&& ok == (passed && p.dense_opening_proof[0].gpu_proof.eval@ == p.claims[i as int].eval@)
    }

    /// The verdicts `passed` of the given check lead to the verdict `ok` on all openings.
    pub open spec fn openings_verdict<
        P: Fn(usize, &BasefoldCommitmentData, &Claim, &BasefoldOpeningProof, GoldilocksExt2) -> bool,
    >(
        &self,
        check: P,
        com: Seq<Option<BasefoldCommitmentData>>,
        eps: Seq<EdgeProof>,
        tasks: Seq<(EdgeId, usize)>,
        seed: GoldilocksExt2,
        oks: Seq<(bool, bool)>,
        ok: bool,
    ) -> bool {
        &&& oks.len() == tasks.len()
        &&& forall|t: int|
            0 <= t < tasks.len() ==> self.opening_verdict(
                check,
                com,
                eps,
                tasks,
                seed,
                t,
                (#[trigger] oks[t]).0,
                oks[t].1,
            )
        &&& ok <==> forall|t: int| 0 <= t < tasks.len() ==> (#[trigger] oks[t]).1
    }

    /// Some verdicts of the given check lead to the verdict `ok` on all openings.
    pub open spec fn openings_judged<
        P: Fn(usize, &BasefoldCommitmentData, &Claim, &BasefoldOpeningProof, GoldilocksExt2) -> bool,
    >(
        &self,
        check: P,
        com: Seq<Option<BasefoldCommitmentData>>,
        eps: Seq<EdgeProof>,
        tasks: Seq<(EdgeId, usize)>,
        seed: GoldilocksExt2,
        ok: bool,
    ) -> bool {
        exists|oks: Seq<(bool, bool)>| #[trigger]
            self.openings_verdict(check, com, eps, tasks, seed, oks, ok)
    }

    /// Whether every task has an opening proof.
    fn has_openings(&self, tasks: &Vec<(EdgeId, usize)>, edge_proofs: &[EdgeProof]) -> (r: bool)
        requires
            forall|t: int| 0 <= t < tasks.len() ==> (#[trigger] tasks[t]).0 < edge_proofs.len(),
        ensures
            r == self.openings_present(tasks@, edge_proofs@),
    {
        let mut t: usize = 0;
        while t < tasks.len()
            invariant
                t <= tasks.len(),
                forall|t: int| 0 <= t < tasks.len() ==> (#[trigger] tasks[t]).0 < edge_proofs.len(),
                forall|k: int|
                    0 <= k < t ==> edge_proofs[(#[trigger] tasks[k]).0 as int].dense_opening_proof.len()
                        > 0,
            decreases tasks.len() - t,
        {
            if edge_proofs[tasks[t].0].dense_opening_proof.len() == 0 {
                return false;
            }
            t = t + 1;
        }
        true
    }

    /// Checks the openings of all tasks.
    fn check_openings<
        P: Fn(usize, &BasefoldCommitmentData, &Claim, &BasefoldOpeningProof, GoldilocksExt2) -> bool,
    >(
        &self,
        tasks: &Vec<(EdgeId, usize)>,
        commitments: &[Option<BasefoldCommitmentData>],
        edge_proofs: &[EdgeProof],
        seed: GoldilocksExt2,
        check: &P,
    ) -> (ok: bool)
        requires
            edge_proofs.len() == commitments.len(),
            forall|t: int|
                0 <= t < tasks.len() ==> (#[trigger] tasks[t]).0 < edge_proofs.len() && tasks[t].1
                    < edge_proofs[tasks[t].0 as int].claims.len() && commitments[tasks[t].0 as int] is Some,
            self.openings_present(tasks@, edge_proofs@),
            forall|
                t: usize,
                c: &BasefoldCommitmentData,
                claim: &Claim,
                p: &BasefoldOpeningProof,
                s: GoldilocksExt2,
            | #[trigger] call_requires(*check, (t, c, claim, p, s)),
        ensures
            self.openings_judged(*check, commitments@, edge_proofs@, tasks@, seed, ok),
    {
        let ghost mut oks: Seq<(bool, bool)> = Seq::empty();
        let mut all: bool = true;
        let mut t: usize = 0;
        while t < tasks.len()
            invariant
                t <= tasks.len(),
                edge_proofs.len() == commitments.len(),
                forall|t: int|
                    0 <= t < tasks.len() ==> (#[trigger] tasks[t]).0 < edge_proofs.len() && tasks[t].1
                        < edge_proofs[tasks[t].0 as int].claims.len()
                        && commitments[tasks[t].0 as int] is Some,
                self.openings_present(tasks@, edge_proofs@),
                forall|
                    t: usize,
                    c: &BasefoldCommitmentData,
                    claim: &Claim,
                    p: &BasefoldOpeningProof,
                    s: GoldilocksExt2,
                | #[trigger] call_requires(*check, (t, c, claim, p, s)),
                oks.len() == t,
                forall|k: int|
                    0 <= k < t ==> self.opening_verdict(
                        *check,
                        commitments@,
                        edge_proofs@,
                        tasks@,
                        seed,
                        k,
                        (#[trigger] oks[k]).0,
                        oks[k].1,
                    ),
                all <==> forall|k: int| 0 <= k < t ==> (#[trigger] oks[k]).1,
            decreases tasks.len() - t,
        {
            let (e, i) = tasks[t];
            assert(edge_proofs[tasks[t as int].0 as int].dense_opening_proof.len() > 0);
            let ghost old_oks = oks;
            match &commitments[e] {
                Some(c) => {
                    let claim: &Claim = &edge_proofs[e].claims[i];
                    let p: &BasefoldOpeningProof = &edge_proofs[e].dense_opening_proof[0];
                    let passed: bool = check(t, c, claim, p, seed);
                    let ok: bool = passed && ext2_field_eq(p.gpu_proof.eval, claim.eval);
                    proof {
                        oks = oks.push((passed, ok));
                        assert(self.opening_verdict(
                            *check,
                            commitments@,
                            edge_proofs@,
                            tasks@,
                            seed,
                            t as int,
                            passed,
                            ok,
                        ));
                        assert forall|k: int| 0 <= k < t + 1 implies self.opening_verdict(
                            *check,
                            commitments@,
                            edge_proofs@,
                            tasks@,
                            seed,
                            k,
                            (#[trigger] oks[k]).0,
                            oks[k].1,
                        ) by {
                            if k < t {
                                assert(oks[k] == old_oks[k]);
                            }
                        }
                        assert forall|k: int| 0 <= k < t implies oks[k] == #[trigger] old_oks[k] by {}
                        if !all {
                            let k = choose|k: int| 0 <= k < t && !(#[trigger] old_oks[k]).1;
                            assert(!oks[k].1);
                        } else if ok {
                            assert forall|k: int| 0 <= k < t + 1 implies (#[trigger] oks[k]).1 by {
                                if k < t {
                                    assert(old_oks[k].1);
                                }
                            }
                        } else {
                            assert(!oks[t as int].1);
                        }
                    }
                    all = all && ok;
                },
                None => {
                    assert(false);
                },
            }
            t = t + 1;
        }
        proof {
            assert(self.openings_verdict(
                *check,
                commitments@,
                edge_proofs@,
                tasks@,
                seed,
                oks,
                all,
            ));
        }
        all
    }
}

/// Copies of the claims about the edges.
fn claims_of_edges(edge_proofs: &[EdgeProof]) -> (r: Vec<Vec<Claim>>)
    ensures
        claim_lists(r@) == edge_claims(edge_proofs@),
        r.len() == edge_proofs.len(),
        forall|e: int| 0 <= e < r.len() ==> (#[trigger] r[e]).len() == edge_proofs[e].claims.len(),
{
    let mut r: Vec<Vec<Claim>> = Vec::new();
    let mut e: usize = 0;
    while e < edge_proofs.len()
        invariant
            e <= edge_proofs.len(),
            r.len() == e,
            forall|k: int|
                0 <= k < e ==> claim_list((#[trigger] r[k])@) == claim_list(edge_proofs[k].claims@)
                    && r[k].len() == edge_proofs[k].claims.len(),
        decreases edge_proofs.len() - e,
    {
        r.push(clone_claims(&edge_proofs[e].claims));
        e = e + 1;
    }
    assert(claim_lists(r@) =~= edge_claims(edge_proofs@));
    r
}

impl Dag {
    /// The outcome `r`, given the verdict on all but the openings.
    pub open spec fn last_word<
        P: Fn(usize, &BasefoldCommitmentData, &Claim, &BasefoldOpeningProof, GoldilocksExt2) -> bool,
    >(
        &self,
        check: P,
        com: Seq<Option<BasefoldCommitmentData>>,
        eps: Seq<EdgeProof>,
        tasks: Seq<(EdgeId, usize)>,
        seed: GoldilocksExt2,
        rest: bool,
        r: Option<bool>,
    ) -> bool {
        exists|ok: bool| #[trigger]
            self.openings_judged(check, com, eps, tasks, seed, ok) && r == Some(ok && rest)
    }

    /// The outcome `r` of the checks that follow the backward pass, given the verdict `verified`
    /// on what went before. The checks are made in order, and a lookup that is refused decides at
    /// once; where a check comes upon something that is missing there is no verdict.
    pub open spec fn end_verdict<
        P: Fn(usize, &BasefoldCommitmentData, &Claim, &BasefoldOpeningProof, GoldilocksExt2) -> bool,
    >(
        &self,
        h: spec_fn(Digest, Digest) -> Digest,
        s: Digest,
        ws: Seq<Vec<Witness>>,
        com: Seq<Option<BasefoldCommitmentData>>,
        node_proofs: Seq<Option<NodeProof>>,
        claims: Seq<Seq<Assertion>>,
        eps: Seq<EdgeProof>,
        range_proof: LookupProof,
        two_pow_proof: LookupProof,
        sf: u64,
        check: P,
        verified: bool,
        r: Option<bool>,
        end: Digest,
    ) -> bool {
        let (v1, d1) = self.two_pow_verdict(h, s, node_proofs, two_pow_proof);
        let (v2, d2) = self.all_ranges_verdict(h, d1, node_proofs, ws, claims, sf, range_proof);
        let (ok3, d3) = self.reducers_checked(h, d2, ws, com, eps, self.num_edges as nat);
        let tasks = self.tasks_upto(ws, com, edge_claims(eps), self.num_edges as nat);
        if v1 != Some(true) {
            r == v1 && (r is Some ==> end == d1)
        } else if v2 != Some(true) {
            r == v2 && (r is Some ==> end == d2)
        } else if !self.reducers_present(ws, com, eps) || !self.openings_present(tasks, eps) {
            r is None
        } else {
            &&& end == draw(h, d3, Label::OpeningSeed)
            &&& self.last_word(check, com, eps, tasks, opening_seed(h, d3), verified && ok3, r)
        }
    }

    /// Checks lookups, combined claims and openings, given the verdict on what went before.
    pub fn check_finish<
        F: Fn(Digest, Digest) -> Digest,
        P: Fn(usize, &BasefoldCommitmentData, &Claim, &BasefoldOpeningProof, GoldilocksExt2) -> bool,
    >(
        &self,
        witnesses: &[Vec<Witness>],
        commitments: &[Option<BasefoldCommitmentData>],
        node_proofs: &[Option<NodeProof>],
        claims: &[Vec<Claim>],
        edge_proofs: &[EdgeProof],
        range_proof: &LookupProof,
        two_pow_proof: &LookupProof,
        sf: u64,
        verified: bool,
        transcript: &mut Transcript<F>,
        check: &P,
    ) -> (r: Option<bool>)
        requires
            self.lookups_ok(),
            witnesses_ok(witnesses@, self.num_edges as nat),
            commitments.len() == self.num_edges,
            node_proofs.len() == self.nodes.len(),
            claims.len() == self.num_edges,
            edge_proofs.len() == self.num_edges,
            old(transcript).wf(),
            forall|
                t: usize,
                c: &BasefoldCommitmentData,
                claim: &Claim,
                p: &BasefoldOpeningProof,
                s: GoldilocksExt2,
            | #[trigger] call_requires(*check, (t, c, claim, p, s)),
        ensures
            final(transcript).compress == old(transcript).compress,
            self.end_verdict(
                old(transcript).hash(),
                old(transcript).state,
                witnesses@,
                commitments@,
                node_proofs@,
                claim_lists(claims@),
                edge_proofs@,
                *range_proof,
                *two_pow_proof,
                sf,
                *check,
                verified,
                r,
                final(transcript).state,
            ),
    {
        let ghost h = transcript.hash();
        let ghost s = transcript.state;
        let ghost ws = witnesses@;
        let ghost com = commitments@;
        let v1: Option<bool> = self.verify_two_pow(node_proofs, two_pow_proof, transcript);
        match v1 {
            Some(true) => {},
            _ => {
                return v1;
            },
        }
        let v2: Option<bool> = self.verify_range(
            node_proofs,
            witnesses,
            claims,
            range_proof,
            sf,
            transcript,
        );
        match v2 {
            Some(true) => {},
            _ => {
                return v2;
            },
        }
        if !self.has_reducers(witnesses, commitments, edge_proofs) {
            return None;
        }
        let final_claims: Vec<Vec<Claim>> = claims_of_edges(edge_proofs);
        let tasks: Vec<(EdgeId, usize)> = self.opening_tasks(witnesses, commitments, &final_claims);
        proof {
            lemma_tasks_opened(*self, ws, com, edge_claims(edge_proofs@), self.num_edges as nat);
            assert forall|t: int| 0 <= t < tasks.len() implies (#[trigger] tasks[t]).0 < edge_proofs.len()
                && tasks[t].1 < edge_proofs[tasks[t].0 as int].claims.len()
                && commitments[tasks[t].0 as int] is Some by {
                assert(final_claims[tasks[t].0 as int].len() == edge_proofs[tasks[t].0 as int].claims.len());
            }
        }
        if !self.has_openings(&tasks, edge_proofs) {
            return None;
        }
        let ok3: bool = self.check_reducers(witnesses, commitments, edge_proofs, transcript);
        let ghost d3 = transcript.state;
        let seed: GoldilocksExt2 = transcript.challenge_ext2(Label::OpeningSeed);
        proof {
            lemma_word_of(seed);
        }
        let ok: bool = self.check_openings(&tasks, commitments, edge_proofs, seed, check);
        let r: Option<bool> = Some(ok && (verified && ok3));
        assert(self.last_word(
            *check,
            com,
            edge_proofs@,
            tasks@,
            seed,
            verified && ok3,
            r,
        ));
        r
    }
}

/// The edges of tasks are committed to.
proof fn lemma_tasks_opened(
    dag: Dag,
    ws: Seq<Vec<Witness>>,
    com: Seq<Option<BasefoldCommitmentData>>,
    claims: Seq<Seq<Assertion>>,
    k: nat,
)
    requires
        k <= usize::MAX,
    ensures
        forall|t: int|
            0 <= t < dag.tasks_upto(ws, com, claims, k).len() ==> com[(#[trigger] dag.tasks_upto(
                ws,
                com,
                claims,
                k,
            )[t]).0 as int] is Some,
    decreases k,
{
    if k > 0 {
        lemma_tasks_opened(dag, ws, com, claims, (k - 1) as nat);
        let rest = dag.tasks_upto(ws, com, claims, (k - 1) as nat);
        let all = dag.tasks_upto(ws, com, claims, k);
        assert forall|t: int| 0 <= t < all.len() implies com[(#[trigger] all[t]).0 as int] is Some by {
            if t < rest.len() {
                assert(all[t] == rest[t]);
            }
        }
    }
}

} // verus!
