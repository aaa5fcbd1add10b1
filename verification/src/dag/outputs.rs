//! The claims that a proof starts from: values at random points.
use vstd::prelude::*;

use crate::dag::backward::starting;
use crate::dag::openings::{edge_table, edge_vars, witnesses_ok};
use crate::dag::two_pow::lemma_word_of;
use crate::dag::types::{Assertion, Claim, Dag, EdgeId};
use crate::dag::witness::{PolyData, Role, Witness};
use crate::field::elem::lemma_add_zero;
use crate::field::{ext2_add, ext_elems, GoldilocksExt2};
use crate::poly::model::mle;
use crate::poly::MLPoly;
use crate::sumcheck::fiat_shamir::{lemma_words_of, word_of, words_of};
use crate::transcript::{draw_many, drawn, Digest, Label, Transcript};

verus! {

/// The true claim about edge `e` at the point drawn from digest `s`.
pub open spec fn claim_at_random(
    h: spec_fn(Digest, Digest) -> Digest,
    s: Digest,
    ws: Seq<Vec<Witness>>,
    e: EdgeId,
) -> Assertion {
    let point = drawn(h, s, Label::Challenge, edge_vars(ws, e as int));
    Assertion {
        edge_id: e,
        sparse_id: 0,
        point: words_of(point),
        eval: word_of(mle(edge_table(ws, e as int), point)),
    }
}

/// The digest after the points of the first `k` edges were drawn.
pub open spec fn drawn_upto(
    h: spec_fn(Digest, Digest) -> Digest,
    s: Digest,
    ws: Seq<Vec<Witness>>,
    edges: Seq<EdgeId>,
    k: nat,
) -> Digest
    decreases k,
{
    if k == 0 {
        s
    } else {
        draw_many(
            h,
            drawn_upto(h, s, ws, edges, (k - 1) as nat),
            Label::Challenge,
            edge_vars(ws, edges[k - 1] as int),
        )
    }
}

/// The true claims about the given edges, each at a point drawn in turn.
pub open spec fn random_claims(
    h: spec_fn(Digest, Digest) -> Digest,
    s: Digest,
    ws: Seq<Vec<Witness>>,
    edges: Seq<EdgeId>,
) -> Seq<(EdgeId, Assertion)> {
    Seq::new(
        edges.len(),
        |i: int|
            (edges[i], claim_at_random(h, drawn_upto(h, s, ws, edges, i as nat), ws, edges[i])),
    )
}

/// The edges have tensors with polynomials.
pub open spec fn edges_known(ws: Seq<Vec<Witness>>, edges: Seq<EdgeId>) -> bool {
    forall|i: int|
        0 <= i < edges.len() ==> (#[trigger] edges[i]) < ws.len() && ws[edges[i] as int][0].data is Some
}

/// Evaluates the tensors of the given edges, each at a point drawn in turn.
pub fn claim_at_points<F: Fn(Digest, Digest) -> Digest>(
    witnesses: &[Vec<Witness>],
    edges: &Vec<EdgeId>,
    transcript: &mut Transcript<F>,
) -> (r: Vec<(EdgeId, Claim)>)
    requires
        old(transcript).wf(),
        witnesses_ok(witnesses@, witnesses.len() as nat),
        edges_known(witnesses@, edges@),
    ensures
        final(transcript).compress == old(transcript).compress,
        final(transcript).state == drawn_upto(
            old(transcript).hash(),
            old(transcript).state,
            witnesses@,
            edges@,
            edges.len() as nat,
        ),
        starting(r@) == random_claims(
            old(transcript).hash(),
            old(transcript).state,
            witnesses@,
            edges@,
        ),
        r.len() == edges.len(),
        forall|i: int| 0 <= i < r.len() ==> (#[trigger] r[i]).0 == edges[i],
{
    let ghost h = transcript.hash();
    let ghost s = transcript.state;
    let ghost comp = transcript.compress;
    let ghost ws = witnesses@;
    let ghost target = random_claims(h, s, ws, edges@);
    let mut r: Vec<(EdgeId, Claim)> = Vec::new();
    let mut i: usize = 0;
    assert(starting(r@) =~= target.take(0));
    while i < edges.len()
        invariant
            i <= edges.len(),
            transcript.wf(),
            transcript.compress == comp,
            h == transcript.hash(),
            ws == witnesses@,
            witnesses_ok(ws, ws.len()),
            edges_known(ws, edges@),
            target == random_claims(h, s, ws, edges@),
            transcript.state == drawn_upto(h, s, ws, edges@, i as nat),
            starting(r@) == target.take(i as int),
            r.len() == i,
            forall|k: int| 0 <= k < r.len() ==> (#[trigger] r[k]).0 == edges[k],
        decreases edges.len() - i,
    {
        let e: usize = edges[i];
        assert(ws[e as int].len() > 0);
        let ghost d = transcript.state;
        let ghost before = starting(r@);
        match &witnesses[e][0].data {
            Some(data) => {
                let n: usize = data.n();
                let point: Vec<GoldilocksExt2> = transcript.challenges_ext2(Label::Challenge, n);
                let ghost p = drawn(h, d, Label::Challenge, n as nat);
                assert(ext_elems(point@).len() == p.len());
                let eval: GoldilocksExt2 = evaluate(data, &point);
                proof {
                    lemma_words_of(point@);
                }
                let c: Claim = Claim { edge_id: e, sparse_id: 0, point, eval };
                let ghost cv = c@;
                assert(cv == claim_at_random(h, d, ws, e));
                r.push((e, c));
                assert(starting(r@) =~= before.push((e, cv)));
            },
            None => {
                assert(false);
            },
        }
        i = i + 1;
        assert(starting(r@) =~= target.take(i as int));
    }
    assert(target.take(i as int) =~= target);
    r
}

/// The value of a polynomial at a point, as a canonical word.
pub fn evaluate(data: &PolyData, point: &Vec<GoldilocksExt2>) -> (r: GoldilocksExt2)
    requires
        data.wf(),
        point.len() == data.vars(),
    ensures
        r == word_of(mle(data.table(), ext_elems(point@))),
{
    let v: GoldilocksExt2 = data.evaluate_at_point_ext2(point.as_slice());
    assert(ext_elems(point@).take(data.vars() as int) =~= ext_elems(point@));
    let r: GoldilocksExt2 = ext2_add(v, GoldilocksExt2::zero());
    proof {
        lemma_add_zero(v@);
        lemma_word_of(r);
    }
    r
}

impl Dag {
    /// The first `k` output ports whose tensor is an output.
    pub open spec fn outputs_upto(&self, ws: Seq<Vec<Witness>>, k: nat) -> Seq<EdgeId>
        decreases k,
    {
        if k == 0 {
            Seq::empty()
        } else {
            let rest = self.outputs_upto(ws, (k - 1) as nat);
            let e = self.output_ports[k - 1];
            if ws[e as int][0].role == Role::Output {
                rest.push(e)
            } else {
                rest
            }
        }
    }

    /// The output ports whose tensor is an output.
    pub open spec fn claimed_outputs(&self, ws: Seq<Vec<Witness>>) -> Seq<EdgeId> {
        self.outputs_upto(ws, self.output_ports.len() as nat)
    }

    /// The output ports whose tensor is an output.
    pub fn output_edges(&self, witnesses: &[Vec<Witness>]) -> (r: Vec<EdgeId>)
        requires
            forall|i: int|
                0 <= i < self.output_ports.len() ==> (#[trigger] self.output_ports[i])
                    < witnesses.len() && witnesses[self.output_ports[i] as int].len() > 0,
        ensures
            r@ == self.claimed_outputs(witnesses@),
            forall|i: int|
                0 <= i < r.len() ==> (#[trigger] r[i]) < witnesses.len() && witnesses[r[i] as int][0].role
                    == Role::Output && self.output_ports@.contains(r[i]),
    {
        let mut r: Vec<EdgeId> = Vec::new();
        let mut k: usize = 0;
        while k < self.output_ports.len()
            invariant
                k <= self.output_ports.len(),
                forall|i: int|
                    0 <= i < self.output_ports.len() ==> (#[trigger] self.output_ports[i])
                        < witnesses.len() && witnesses[self.output_ports[i] as int].len() > 0,
                r@ == self.outputs_upto(witnesses@, k as nat),
                forall|i: int|
                    0 <= i < r.len() ==> (#[trigger] r[i]) < witnesses.len()
                        && witnesses[r[i] as int][0].role == Role::Output
                        && self.output_ports@.contains(r[i]),
            decreases self.output_ports.len() - k,
        {
            let e: usize = self.output_ports[k];
            assert(self.output_ports@.contains(e));
            if witnesses[e][0].role == Role::Output {
                r.push(e);
            }
            k = k + 1;
        }
        r
    }
}

} // verus!
