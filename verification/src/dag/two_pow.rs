//! Lookups in the table of powers of two.
use vstd::arithmetic::power2::*;
use vstd::prelude::*;

use crate::dag::lookup_model::{
    combined, inner, lemma_combined_inner, lemma_total_two, selected, selections, two_pow_table, weighted,
};
use crate::dag::types::{
    claim_list, claim_lists, claims_of, clone_point, Assertion, Claim, Dag, EdgeId, LookupProof, NodeProof,
};
use crate::dag::witness::{PolyData, Witness};
use crate::field::elem::{embed, zero, Elem};
use crate::field::sums::{lemma_sum_canon, power, sum};
use crate::field::{ext2_add, ext2_mul, ext_elems, GoldilocksExt2, GoldilocksField};
use crate::poly::basis::{evaluate_lagrange_basis_ext2, pow2_u64};
use crate::poly::model::{all_canon, eq_weight, mle};
use crate::poly::{MLPoly, SparseMLPoly};
use crate::sumcheck::cpu_ext2_prover::poly_elems;
use crate::sumcheck::fiat_shamir::{
    accepts, honest, honest_challenges, honest_proof, lemma_honest_prefix,
    preamble, word_of, words_of,
};
use crate::sumcheck::model::tables;
use crate::sumcheck::verify::{lemma_honest_end, sumcheck_end};
use crate::sumcheck::{CpuLinearSumcheckProverExt2, SumcheckProof, SumcheckVerifier};
use crate::transcript::{digest_elem, draw, Digest, Label, Transcript};
use crate::util::arith::calc_pow_vec_ext2;

verus! {

/// A canonical word is the word of the element it stands for.
pub proof fn lemma_word_of(e: GoldilocksExt2)
    requires
        e.canonical(),
    ensures
        word_of(e@) == e,
{
}

/// `sum_y a[y] * b[y]`.
pub fn inner_product(a: &Vec<GoldilocksExt2>, b: &Vec<GoldilocksExt2>) -> (r: GoldilocksExt2)
    requires
        a.len() == b.len(),
    ensures
        r@ == inner(ext_elems(a@), ext_elems(b@)),
        r.canonical(),
{
    let mut acc: GoldilocksExt2 = GoldilocksExt2::zero();
    let ghost (ea, eb) = (ext_elems(a@), ext_elems(b@));
    let ghost f = |y: int| ea[y] * eb[y];
    let mut y: usize = 0;
    while y < a.len()
        invariant
            y <= a.len(),
            a.len() == b.len(),
            ea == ext_elems(a@),
            eb == ext_elems(b@),
            f == (|y: int| ea[y] * eb[y]),
            acc@ == sum(y as nat, f),
            acc.canonical(),
        decreases a.len() - y,
    {
        acc = ext2_add(acc, ext2_mul(a[y], b[y]));
        assert(f(y as int) == a[y as int]@ * b[y as int]@);
        y = y + 1;
    }
    acc
}

/// The combination of tables with the given weights.
pub(crate) fn combine(
    parts: &Vec<Vec<GoldilocksExt2>>,
    betas: &Vec<GoldilocksExt2>,
    size: usize,
    Ghost(beta): Ghost<Elem>,
) -> (r: Vec<GoldilocksExt2>)
    requires
        betas.len() == parts.len(),
        forall|i: int| 0 <= i < parts.len() ==> (#[trigger] parts[i]).len() == size,
        forall|i: int| 0 <= i < betas.len() ==> (#[trigger] betas[i])@ == power(beta, i as nat),
    ensures
        ext_elems(r@) == combined(poly_elems(parts@), beta, size as nat),
        r.len() == size,
{
    let mut r: Vec<GoldilocksExt2> = Vec::new();
    let ghost ps = poly_elems(parts@);
    let ghost target = combined(ps, beta, size as nat);
    let mut y: usize = 0;
    while y < size
        invariant
            y <= size,
            r.len() == y,
            betas.len() == parts.len(),
            ps == poly_elems(parts@),
            target == combined(ps, beta, size as nat),
            forall|i: int| 0 <= i < parts.len() ==> (#[trigger] parts[i]).len() == size,
            forall|i: int| 0 <= i < betas.len() ==> (#[trigger] betas[i])@ == power(beta, i as nat),
            forall|j: int| 0 <= j < y ==> (#[trigger] r[j])@ == target[j],
        decreases size - y,
    {
        let mut acc: GoldilocksExt2 = GoldilocksExt2::zero();
        let ghost f = |i: int| power(beta, i as nat) * ps[i][y as int];
        let mut i: usize = 0;
        while i < parts.len()
            invariant
                i <= parts.len(),
                y < size,
                betas.len() == parts.len(),
                ps == poly_elems(parts@),
                f == (|i: int| power(beta, i as nat) * ps[i][y as int]),
                forall|i: int| 0 <= i < parts.len() ==> (#[trigger] parts[i]).len() == size,
                forall|i: int|
                    0 <= i < betas.len() ==> (#[trigger] betas[i])@ == power(beta, i as nat),
                acc@ == sum(i as nat, f),
            decreases parts.len() - i,
        {
            assert(parts[i as int].len() == size);
            acc = ext2_add(acc, ext2_mul(betas[i], parts[i][y]));
            assert(f(i as int) == betas[i as int]@ * parts[i as int][y as int]@);
            i = i + 1;
        }
        r.push(acc);
        y = y + 1;
    }
    assert(ext_elems(r@) =~= target);
    r
}

/// The combination of values with the given weights.
pub(crate) fn combine_values(
    values: &Vec<GoldilocksExt2>,
    betas: &Vec<GoldilocksExt2>,
    Ghost(beta): Ghost<Elem>,
) -> (r: GoldilocksExt2)
    requires
        betas.len() == values.len(),
        forall|i: int| 0 <= i < betas.len() ==> (#[trigger] betas[i])@ == power(beta, i as nat),
    ensures
        r@ == weighted(ext_elems(values@), beta),
        r.canonical(),
{
    let mut acc: GoldilocksExt2 = GoldilocksExt2::zero();
    let ghost vs = ext_elems(values@);
    let ghost f = |i: int| power(beta, i as nat) * vs[i];
    let mut i: usize = 0;
    while i < values.len()
        invariant
            i <= values.len(),
            betas.len() == values.len(),
            vs == ext_elems(values@),
            f == (|i: int| power(beta, i as nat) * vs[i]),
            forall|i: int| 0 <= i < betas.len() ==> (#[trigger] betas[i])@ == power(beta, i as nat),
            acc@ == sum(i as nat, f),
            acc.canonical(),
        decreases values.len() - i,
    {
        acc = ext2_add(acc, ext2_mul(betas[i], values[i]));
        assert(f(i as int) == betas[i as int]@ * values[i as int]@);
        i = i + 1;
    }
    acc
}

/// The table `2^15, .., 2, 1`.
pub fn two_pow_words() -> (r: Vec<GoldilocksExt2>)
    ensures
        r.len() == 16,
        ext_elems(r@) == two_pow_table(),
{
    let mut r: Vec<GoldilocksExt2> = Vec::new();
    let mut j: usize = 0;
    while j < 16
        invariant
            j <= 16,
            r.len() == j,
            forall|k: int| 0 <= k < j ==> (#[trigger] r[k])@ == embed(pow2((15 - k) as nat) as int),
        decreases 16 - j,
    {
        r.push(GoldilocksExt2::from_base(GoldilocksField(pow2_u64(15 - j as u64))));
        j = j + 1;
    }
    assert(ext_elems(r@) =~= two_pow_table());
    r
}

/// The weight that each entry of the table of powers is selected with at a point.
pub fn select_part(sparse: &SparseMLPoly, point: &[GoldilocksExt2]) -> (r: Vec<GoldilocksExt2>)
    requires
        point.len() == sparse.selection.input_num_vars,
        point.len() < usize::BITS,
    ensures
        r.len() == 16,
        ext_elems(r@) == selections(
            sparse.selection.selection@,
            sparse.selection.input_num_vars as nat,
            ext_elems(point@),
        ),
{
    let eq: Vec<GoldilocksExt2> = evaluate_lagrange_basis_ext2(point);
    let mut r: Vec<GoldilocksExt2> = Vec::new();
    let mut t: usize = 0;
    while t < 16
        invariant
            t <= 16,
            r.len() == t,
            forall|k: int| 0 <= k < t ==> (#[trigger] r[k])@ == zero(),
        decreases 16 - t,
    {
        r.push(GoldilocksExt2::zero());
        t = t + 1;
    }
    let ghost sel = sparse.selection.selection@;
    let ghost n = sparse.selection.input_num_vars as nat;
    let ghost pt = ext_elems(point@);
    let mut i: usize = 0;
    proof {
        assert(sel.take(0) =~= Seq::<(usize, usize)>::empty());
        assert(forall|t: int| selected(sel.take(0), n, pt, t) == zero());
    }
    while i < sparse.selection.selection.len()
        invariant
            i <= sparse.selection.selection.len(),
            r.len() == 16,
            sel == sparse.selection.selection@,
            eq.len() == pow2(n),
            forall|x: int| 0 <= x < eq.len() ==> (#[trigger] eq[x])@ == eq_weight(x, pt),
            forall|k: int| 0 <= k < 16 ==> (#[trigger] r[k])@ == selected(sel.take(i as int), n, pt, k),
        decreases sparse.selection.selection.len() - i,
    {
        let (input_idx, table_idx) = sparse.selection.selection[i];
        proof {
            assert(sel.take(i as int + 1).drop_last() =~= sel.take(i as int));
            assert(sel.take(i as int + 1).last() == sel[i as int]);
        }
        if input_idx < eq.len() && table_idx < 16 {
            let v: GoldilocksExt2 = ext2_add(r[table_idx], eq[input_idx]);
            r.set(table_idx, v);
        }
        i = i + 1;
    }
    assert(sel.take(i as int) =~= sel);
    assert(ext_elems(r@) =~= selections(sel, n, pt));
    r
}

/// What a lookup in the table of powers of two reads: the edge of the selection, the selection,
/// and the point of the last claim about the output.
pub struct TwoPowItem {
    pub inp: EdgeId,
    pub sparse: SparseMLPoly,
    pub point: Seq<GoldilocksExt2>,
}

impl TwoPowItem {
    /// Number of variables of the inputs.
    pub open spec fn n(self) -> nat {
        self.sparse.selection.input_num_vars as nat
    }

    /// The part of the claimed point that belongs to the inputs.
    pub open spec fn input_point(self) -> Seq<GoldilocksExt2> {
        self.point.take(self.n() as int)
    }

    /// The weights with which the entries of the table are selected.
    pub open spec fn part(self) -> Seq<Elem> {
        selections(self.sparse.selection.selection@, self.n(), ext_elems(self.input_point()))
    }

    /// The claim about the selection at the challenges of the table.
    pub open spec fn claim(self, chs: Seq<Elem>) -> Assertion {
        let point = self.input_point() + words_of(chs);
        Assertion {
            edge_id: self.inp,
            sparse_id: 0,
            point,
            eval: word_of(
                mle(self.sparse.table(), ext_elems(point).take(self.sparse.n as int)),
            ),
        }
    }
}

/// The tables of the combined lookup.
pub open spec fn two_pow_polys(items: Seq<TwoPowItem>, beta: Elem) -> Seq<Seq<Elem>> {
    seq![combined(item_parts(items), beta, 16), two_pow_table()]
}

/// The selections of all lookups.
pub open spec fn item_parts(items: Seq<TwoPowItem>) -> Seq<Seq<Elem>> {
    Seq::new(items.len(), |i: int| items[i].part())
}

/// What the lookups come to.
pub open spec fn item_sums(items: Seq<TwoPowItem>) -> Seq<Elem> {
    Seq::new(items.len(), |i: int| inner(items[i].part(), two_pow_table()))
}

/// The challenge that combines the lookups.
pub open spec fn two_pow_beta(h: spec_fn(Digest, Digest) -> Digest, s: Digest) -> Elem {
    digest_elem(draw(h, s, Label::TwoPowBeta))
}

/// The digest at which the combined lookup starts.
pub open spec fn two_pow_start(h: spec_fn(Digest, Digest) -> Digest, s: Digest) -> Digest {
    preamble(h, draw(h, s, Label::TwoPowBeta), Label::NumVar, 4, Label::NumPoly, 2)
}

/// The challenges of the combined lookup.
pub open spec fn two_pow_challenges(
    h: spec_fn(Digest, Digest) -> Digest,
    s: Digest,
    items: Seq<TwoPowItem>,
) -> Seq<Elem> {
    honest_challenges(h, two_pow_start(h, s), two_pow_polys(items, two_pow_beta(h, s)), 4)
}

/// The claims after those of the first `k` lookups were added.
pub open spec fn with_item_claims(
    claims: Seq<Seq<Assertion>>,
    items: Seq<TwoPowItem>,
    chs: Seq<Elem>,
    k: nat,
) -> Seq<Seq<Assertion>>
    decreases k,
{
    if k == 0 {
        claims
    } else {
        let before = with_item_claims(claims, items, chs, (k - 1) as nat);
        let e = items[k - 1].inp as int;
        before.update(e, before[e].push(items[k - 1].claim(chs)))
    }
}

/// What an honest prover sends for lookups in the table of powers of two.
pub open spec fn two_pow_honest(
    h: spec_fn(Digest, Digest) -> Digest,
    s: Digest,
    items: Seq<TwoPowItem>,
    proof: LookupProof,
) -> bool {
    &&& proof.table_proofs.len() == 1
    &&& honest_proof(
        h,
        two_pow_start(h, s),
        two_pow_polys(items, two_pow_beta(h, s)),
        4,
        proof.table_proofs[0],
    )
    &&& proof.middle_claims.len() == items.len()
    &&& forall|i: int|
        0 <= i < items.len() ==> (#[trigger] proof.middle_claims[i])@ == seq![
            word_of(item_sums(items)[i]),
        ]
    &&& proof.bool_proofs.len() == 0
}

impl Dag {
    /// The edge that selects the entries of lookup `i`.
    pub open spec fn two_pow_inp(&self, i: int) -> EdgeId {
        self.nodes[self.two_pow[i] as int].inputs[0]
    }

    /// The edge with the results of lookup `i`.
    pub open spec fn two_pow_out(&self, i: int) -> EdgeId {
        self.nodes[self.two_pow[i] as int].outputs[0]
    }

    /// What lookup `i` reads.
    pub open spec fn two_pow_item(
        &self,
        witnesses: Seq<Vec<Witness>>,
        claims: Seq<Seq<Assertion>>,
        i: int,
    ) -> TwoPowItem {
        TwoPowItem {
            inp: self.two_pow_inp(i),
            sparse: witnesses[self.two_pow_inp(i) as int][0].data->0->Sparse_0,
            point: claims[self.two_pow_out(i) as int].last().point,
        }
    }

    /// What all lookups read.
    pub open spec fn two_pow_items(
        &self,
        witnesses: Seq<Vec<Witness>>,
        claims: Seq<Seq<Assertion>>,
    ) -> Seq<TwoPowItem> {
        Seq::new(self.two_pow.len() as nat, |i: int| self.two_pow_item(witnesses, claims, i))
    }

    /// Every lookup node has an input and an output within the graph.
    pub open spec fn two_pow_nodes_ok(&self) -> bool {
        forall|i: int|
            0 <= i < self.two_pow.len() ==> (#[trigger] self.two_pow[i]) < self.nodes.len()
                && self.nodes[self.two_pow[i] as int].inputs.len() > 0
                && self.nodes[self.two_pow[i] as int].outputs.len() > 0
    }

    /// The selection of lookup `i` is known and the output has a claim at a point that covers it.
    pub open spec fn two_pow_ready(
        &self,
        witnesses: Seq<Vec<Witness>>,
        claims: Seq<Seq<Assertion>>,
        i: int,
    ) -> bool {
        let item = self.two_pow_item(witnesses, claims, i);
        &&& witnesses[self.two_pow_inp(i) as int].len() > 0
        &&& witnesses[self.two_pow_inp(i) as int][0].data is Some
        &&& witnesses[self.two_pow_inp(i) as int][0].data->0 is Sparse
        &&& claims[self.two_pow_out(i) as int].len() > 0
        &&& item.sparse.wf()
        &&& item.n() < usize::BITS
        &&& item.n() <= item.point.len()
        &&& item.sparse.n <= item.n() + 4
    }

    /// Proves that outputs are the powers of two that their selections name, and claims what the
    /// selections have to be at the challenges.
    #[verifier::rlimit(40)]
    pub fn prove_two_pow<F: Fn(Digest, Digest) -> Digest>(
        &self,
        witnesses: &[Vec<Witness>],
        claims: &mut Vec<Vec<Claim>>,
        transcript: &mut Transcript<F>,
    ) -> (proof: LookupProof)
        requires
            self.edges_ok(),
            self.two_pow_nodes_ok(),
            witnesses.len() == self.num_edges,
            old(claims).len() == self.num_edges,
            old(transcript).wf(),
            forall|i: int|
                0 <= i < self.two_pow.len() ==> #[trigger] self.two_pow_ready(
                    witnesses@,
                    claim_lists(old(claims)@),
                    i,
                ),
            forall|i: int, j: int|
                0 <= i < self.two_pow.len() && 0 <= j < self.two_pow.len()
                    ==> #[trigger] self.two_pow_inp(i) != #[trigger] self.two_pow_out(j),
        ensures
            final(transcript).compress == old(transcript).compress,
            final(claims).len() == old(claims).len(),
            self.two_pow.len() == 0 ==> {
                &&& proof.table_proofs.len() == 0
                &&& proof.middle_claims.len() == 0
                &&& proof.bool_proofs.len() == 0
                &&& final(transcript).state == old(transcript).state
                &&& claim_lists(final(claims)@) == claim_lists(old(claims)@)
            },
            self.two_pow.len() > 0 ==> {
                let items = self.two_pow_items(witnesses@, claim_lists(old(claims)@));
                let h = old(transcript).hash();
                let s = old(transcript).state;
                let chs = two_pow_challenges(h, s, items);
                &&& two_pow_honest(h, s, items, proof)
                &&& final(transcript).state == honest(
                    h,
                    two_pow_start(h, s),
                    two_pow_polys(items, two_pow_beta(h, s)),
                    4,
                    4,
                ).1
                &&& claim_lists(final(claims)@) == with_item_claims(
                    claim_lists(old(claims)@),
                    items,
                    chs,
                    items.len(),
                )
            },
    {
        if self.two_pow.len() == 0 {
            return LookupProof {
                table_proofs: Vec::new(),
                middle_claims: Vec::new(),
                bool_proofs: Vec::new(),
            };
        }
        let ghost h = transcript.hash();
        let ghost s = transcript.state;
        let ghost before = claim_lists(claims@);
        let ghost items = self.two_pow_items(witnesses@, before);
        let ghost b = two_pow_beta(h, s);
        let count: usize = self.two_pow.len();
        let beta: GoldilocksExt2 = transcript.challenge_ext2(Label::TwoPowBeta);
        let betas: Vec<GoldilocksExt2> = calc_pow_vec_ext2(beta, count);
        let table: Vec<GoldilocksExt2> = two_pow_words();
        let mut parts: Vec<Vec<GoldilocksExt2>> = Vec::new();
        let mut middle_claims: Vec<Vec<GoldilocksExt2>> = Vec::new();
        let mut i: usize = 0;
        while i < count
            invariant
                i <= count,
                count == self.two_pow.len(),
                self.edges_ok(),
                self.two_pow_nodes_ok(),
                witnesses.len() == self.num_edges,
                claims.len() == self.num_edges,
                before == claim_lists(claims@),
                items == self.two_pow_items(witnesses@, before),
                forall|i: int|
                    0 <= i < self.two_pow.len() ==> #[trigger] self.two_pow_ready(
                        witnesses@,
                        before,
                        i,
                    ),
                table.len() == 16,
                ext_elems(table@) == two_pow_table(),
                parts.len() == i,
                middle_claims.len() == i,
                forall|k: int|
                    0 <= k < i ==> ext_elems((#[trigger] parts[k])@) == items[k].part()
                        && parts[k].len() == 16,
                forall|k: int|
                    0 <= k < i ==> (#[trigger] middle_claims[k])@ == seq![
                        word_of(item_sums(items)[k]),
                    ],
            decreases count - i,
        {
            let nid: usize = self.two_pow[i];
            assert(self.two_pow_ready(witnesses@, before, i as int));
            let inp_edge: usize = self.nodes[nid].inputs[0];
            let out_edge: usize = self.nodes[nid].outputs[0];
            assert(self.nodes[nid as int].inputs[0] < self.num_edges);
            assert(self.nodes[nid as int].outputs[0] < self.num_edges);
            assert(before[out_edge as int] == claim_list(claims[out_edge as int]@));
            let ghost item = items[i as int];
            let last: usize = claims[out_edge].len() - 1;
            let out_point: &Vec<GoldilocksExt2> = &claims[out_edge][last].point;
            assert(item.point == out_point@);
            match &witnesses[inp_edge][0].data {
                Some(PolyData::Sparse(sparse)) => {
                    let n: usize = sparse.selection.input_num_vars;
                    let point: &[GoldilocksExt2] = vstd::slice::slice_subrange(
                        out_point.as_slice(),
                        0,
                        n,
                    );
                    assert(point@ =~= item.input_point());
                    let part: Vec<GoldilocksExt2> = select_part(sparse, point);
                    let mc: GoldilocksExt2 = inner_product(&part, &table);
                    let mut row: Vec<GoldilocksExt2> = Vec::new();
                    row.push(mc);
                    proof {
                        lemma_word_of(mc);
                        assert(row@ =~= seq![word_of(item_sums(items)[i as int])]);
                    }
                    middle_claims.push(row);
                    parts.push(part);
                },
                _ => {},
            }
            i = i + 1;
        }
        let combined_aux: Vec<GoldilocksExt2> = combine(&parts, &betas, 16, Ghost(b));
        let mut polys: Vec<Vec<GoldilocksExt2>> = Vec::new();
        polys.push(combined_aux);
        polys.push(table);
        proof {
            lemma2_to64();
            assert(poly_elems(parts@) =~= item_parts(items));
            assert(poly_elems(polys@) =~= two_pow_polys(items, b));
        }
        let mut prover: CpuLinearSumcheckProverExt2 = CpuLinearSumcheckProverExt2::new(
            4,
            2,
            transcript,
        );
        let table_proof: SumcheckProof = prover.prove(&mut polys, transcript);
        let ghost chs = two_pow_challenges(h, s, items);
        let challenges: Vec<GoldilocksExt2> = prover.challenges;
        assert(challenges@ =~= words_of(chs));
        proof {
            lemma_honest_prefix(h, two_pow_start(h, s), two_pow_polys(items, b), 4, 4, 4);
        }
        let mut k: usize = 0;
        while k < count
            invariant
                k <= count,
                count == self.two_pow.len(),
                self.edges_ok(),
                self.two_pow_nodes_ok(),
                witnesses.len() == self.num_edges,
                claims.len() == self.num_edges,
                before.len() == self.num_edges,
                items == self.two_pow_items(witnesses@, before),
                forall|i: int|
                    0 <= i < self.two_pow.len() ==> #[trigger] self.two_pow_ready(
                        witnesses@,
                        before,
                        i,
                    ),
                forall|i: int, j: int|
                    0 <= i < self.two_pow.len() && 0 <= j < self.two_pow.len()
                        ==> #[trigger] self.two_pow_inp(i) != #[trigger] self.two_pow_out(j),
                chs.len() == 4,
                challenges@ == words_of(chs),
                claim_lists(claims@) == with_item_claims(before, items, chs, k as nat),
                forall|j: int|
                    0 <= j < self.two_pow.len() ==> claim_lists(
                        claims@,
                    )[#[trigger] self.two_pow_out(j) as int] == before[self.two_pow_out(j) as int],
            decreases count - k,
        {
            let nid: usize = self.two_pow[k];
            assert(self.two_pow_ready(witnesses@, before, k as int));
            let inp_edge: usize = self.nodes[nid].inputs[0];
            let out_edge: usize = self.nodes[nid].outputs[0];
            assert(self.nodes[nid as int].inputs[0] < self.num_edges);
            assert(self.nodes[nid as int].outputs[0] < self.num_edges);
            let ghost item = items[k as int];
            let ghost now = claim_lists(claims@);
            assert(inp_edge == self.two_pow_inp(k as int));
            assert(out_edge == self.two_pow_out(k as int));
            assert(now[out_edge as int] == claim_list(claims[out_edge as int]@));
            let last: usize = claims[out_edge].len() - 1;
            assert(item.point == claims[out_edge as int][last as int].point@);
            match &witnesses[inp_edge][0].data {
                Some(PolyData::Sparse(sparse)) => {
                    let n: usize = sparse.selection.input_num_vars;
                    let head: &[GoldilocksExt2] = vstd::slice::slice_subrange(
                        claims[out_edge][last].point.as_slice(),
                        0,
                        n,
                    );
                    assert(head@ =~= item.input_point());
                    let mut point: Vec<GoldilocksExt2> = clone_point(head);
                    let mut t: usize = 0;
                    while t < challenges.len()
                        invariant
                            t <= challenges.len(),
                            point@ == item.input_point() + challenges@.take(t as int),
                        decreases challenges.len() - t,
                    {
                        point.push(challenges[t]);
                        t = t + 1;
                        assert(point@ =~= item.input_point() + challenges@.take(t as int));
                    }
                    assert(challenges@.take(t as int) =~= challenges@);
                    let eval: GoldilocksExt2 = sparse.evaluate_at_point_ext2(point.as_slice());
                    proof {
                        lemma_word_of(eval);
                    }
                    let claim: Claim = Claim { edge_id: inp_edge, sparse_id: 0, point, eval };
                    assert(claim@ == item.claim(chs));
                    claims[inp_edge].push(claim);
                    proof {
                        let after = claim_lists(claims@);
                        assert(after[inp_edge as int] =~= now[inp_edge as int].push(item.claim(chs)));
                        assert(after =~= now.update(
                            inp_edge as int,
                            now[inp_edge as int].push(item.claim(chs)),
                        ));
                    }
                },
                _ => {},
            }
            k = k + 1;
        }
        let mut table_proofs: Vec<SumcheckProof> = Vec::new();
        table_proofs.push(table_proof);
        LookupProof { table_proofs, middle_claims, bool_proofs: Vec::new() }
    }
}

/// The first middle claim of every lookup.
pub open spec fn first_claims(middle: Seq<Vec<GoldilocksExt2>>) -> Seq<GoldilocksExt2> {
    Seq::new(middle.len(), |i: int| middle[i][0])
}

/// The sum that the combined lookup has to come to.
pub open spec fn two_pow_expected(
    h: spec_fn(Digest, Digest) -> Digest,
    s: Digest,
    proof: LookupProof,
) -> GoldilocksExt2 {
    word_of(weighted(ext_elems(first_claims(proof.middle_claims@)), two_pow_beta(h, s)))
}

impl Dag {
    /// The value of the output of lookup `i`, as the last claim of its node has it.
    pub open spec fn two_pow_eval(&self, node_proofs: Seq<Option<NodeProof>>, i: int) -> GoldilocksExt2 {
        claims_of(node_proofs[self.two_pow[i] as int]).last().eval
    }

    /// The middle claims are the values of the outputs.
    pub open spec fn two_pow_matches(
        &self,
        node_proofs: Seq<Option<NodeProof>>,
        proof: LookupProof,
    ) -> bool {
        forall|i: int|
            0 <= i < self.two_pow.len() ==> #[trigger] self.two_pow_eval(node_proofs, i)
                == proof.middle_claims[i][0]
    }

    /// The proof of the lookups of powers of two has all that its check reads.
    pub open spec fn two_pow_shaped(
        &self,
        node_proofs: Seq<Option<NodeProof>>,
        proof: LookupProof,
    ) -> bool {
        &&& self.two_pow.len() > 0 ==> proof.middle_claims.len() == self.two_pow.len()
            && proof.table_proofs.len() > 0
        &&& forall|i: int| 0 <= i < self.two_pow.len() ==> #[trigger] self.two_pow_there(node_proofs, proof, i)
    }

    /// What the check of lookup `i` reads is there: the claims of its node and its middle claim.
    pub open spec fn two_pow_there(
        &self,
        node_proofs: Seq<Option<NodeProof>>,
        proof: LookupProof,
        i: int,
    ) -> bool {
        &&& self.two_pow[i] < node_proofs.len()
        &&& node_proofs[self.two_pow[i] as int] is Some
        &&& claims_of(node_proofs[self.two_pow[i] as int]).len() > 0
        &&& i < proof.middle_claims.len()
        &&& proof.middle_claims[i].len() > 0
    }

    /// Number of leading lookups, out of `k`, whose middle claims are there and are the values of the
    /// outputs.
    pub open spec fn two_pow_passed(
        &self,
        node_proofs: Seq<Option<NodeProof>>,
        proof: LookupProof,
        k: nat,
    ) -> nat
        decreases k,
    {
        if k == 0 {
            0
        } else {
            let p = self.two_pow_passed(node_proofs, proof, (k - 1) as nat);
            if p == k - 1 && self.two_pow_there(node_proofs, proof, k - 1) && self.two_pow_eval(
                node_proofs,
                k - 1,
            ) == proof.middle_claims[k - 1][0] {
                k
            } else {
                p
            }
        }
    }

    /// The verdict on the lookups of powers of two, and the digest after it. The lookups are gone
    /// through in order: the first whose middle claim is not the value of its output is refused, and
    /// there is no verdict where something that is read is missing before that. Then the combined
    /// lookup has to add up; there is no verdict where its proof is missing, or where there are more
    /// middle claims than lookups.
    pub open spec fn two_pow_verdict(
        &self,
        h: spec_fn(Digest, Digest) -> Digest,
        s: Digest,
        node_proofs: Seq<Option<NodeProof>>,
        proof: LookupProof,
    ) -> (Option<bool>, Digest) {
        let start = two_pow_start(h, s);
        let expected = two_pow_expected(h, s, proof);
        let k = self.two_pow.len() as nat;
        let passed = self.two_pow_passed(node_proofs, proof, k);
        if k == 0 {
            (Some(true), s)
        } else if passed < k {
            if self.two_pow_there(node_proofs, proof, passed as int) {
                (Some(false), draw(h, s, Label::TwoPowBeta))
            } else {
                (None, s)
            }
        } else if proof.middle_claims.len() != k || proof.table_proofs.len() == 0 {
            (None, s)
        } else {
            (
                Some(accepts(h, start, proof.table_proofs[0], expected, 4, 2)),
                sumcheck_end(h, start, proof.table_proofs[0], expected, 4, 2),
            )
        }
    }

    /// Accepts if the middle claims are the values of the outputs and the combined lookup adds up.
    /// There is no verdict where what decides is missing.
    pub fn verify_two_pow<F: Fn(Digest, Digest) -> Digest>(
        &self,
        node_proofs: &[Option<NodeProof>],
        two_pow_proof: &LookupProof,
        transcript: &mut Transcript<F>,
    ) -> (r: Option<bool>)
        requires
            old(transcript).wf(),
        ensures
            final(transcript).compress == old(transcript).compress,
            ({
                let (v, d) = self.two_pow_verdict(
                    old(transcript).hash(),
                    old(transcript).state,
                    node_proofs@,
                    *two_pow_proof,
                );
                r == v && (r is Some ==> final(transcript).state == d)
            }),
    {
        if self.two_pow.len() == 0 {
            return Some(true);
        }
        let ghost h = transcript.hash();
        let ghost s = transcript.state;
        let count: usize = self.two_pow.len();
        let beta: GoldilocksExt2 = transcript.challenge_ext2(Label::TwoPowBeta);
        let betas: Vec<GoldilocksExt2> = calc_pow_vec_ext2(beta, count);
        let mut values: Vec<GoldilocksExt2> = Vec::new();
        let mut i: usize = 0;
        while i < count
            invariant
                i <= count,
                0 < count,
                count == self.two_pow.len(),
                i <= two_pow_proof.middle_claims.len(),
                h == old(transcript).hash(),
                s == old(transcript).state,
                transcript.compress == old(transcript).compress,
                transcript.state == draw(h, s, Label::TwoPowBeta),
                values@ == first_claims(two_pow_proof.middle_claims@).take(i as int),
                self.two_pow_passed(node_proofs@, *two_pow_proof, i as nat) == i,
            decreases count - i,
        {
            let nid: usize = self.two_pow[i];
            proof {
                lemma_two_pow_stop(*self, node_proofs@, *two_pow_proof, i as nat, count as nat);
            }
            if nid >= node_proofs.len() || i >= two_pow_proof.middle_claims.len()
                || two_pow_proof.middle_claims[i].len() == 0 {
                return None;
            }
            let mc: GoldilocksExt2 = two_pow_proof.middle_claims[i][0];
            match &node_proofs[nid] {
                Some(np) => {
                    if np.1.len() == 0 {
                        return None;
                    }
                    let out_eval: GoldilocksExt2 = np.1[np.1.len() - 1].eval;
                    assert(out_eval == self.two_pow_eval(node_proofs@, i as int));
                    if out_eval != mc {
                        return Some(false);
                    }
                },
                None => {
                    return None;
                },
            }
            values.push(mc);
            i = i + 1;
            assert(values@ =~= first_claims(two_pow_proof.middle_claims@).take(i as int));
        }
        if two_pow_proof.middle_claims.len() != count || two_pow_proof.table_proofs.len() == 0 {
            return None;
        }
        assert(values@ =~= first_claims(two_pow_proof.middle_claims@));
        let expected: GoldilocksExt2 = combine_values(&values, &betas, Ghost(two_pow_beta(h, s)));
        proof {
            lemma_word_of(expected);
        }
        let (ok, challenges) = SumcheckVerifier::verify(
            &two_pow_proof.table_proofs[0],
            expected,
            4,
            2,
            transcript,
        );
        Some(ok)
    }
}

/// A lookup that does not pass stops the count.
proof fn lemma_two_pow_stop(
    dag: Dag,
    node_proofs: Seq<Option<NodeProof>>,
    proof: LookupProof,
    i: nat,
    k: nat,
)
    requires
        i < k,
        dag.two_pow_passed(node_proofs, proof, i) == i,
    ensures
        dag.two_pow_passed(node_proofs, proof, (i + 1) as nat) == i ==> dag.two_pow_passed(
            node_proofs,
            proof,
            k,
        ) == i,
    decreases k,
{
    if k > i + 1 {
        lemma_two_pow_stop(dag, node_proofs, proof, i, (k - 1) as nat);
    }
}

/// Lookups that are there and whose middle claims are the values of the outputs pass.
pub proof fn lemma_two_pow_pass(
    dag: Dag,
    node_proofs: Seq<Option<NodeProof>>,
    proof: LookupProof,
    k: nat,
)
    requires
        k <= dag.two_pow.len(),
        dag.two_pow_matches(node_proofs, proof),
        forall|i: int| 0 <= i < k ==> #[trigger] dag.two_pow_there(node_proofs, proof, i),
    ensures
        dag.two_pow_passed(node_proofs, proof, k) == k,
    decreases k,
{
    if k > 0 {
        lemma_two_pow_pass(dag, node_proofs, proof, (k - 1) as nat);
        assert(dag.two_pow_there(node_proofs, proof, k - 1));
        assert(dag.two_pow_eval(node_proofs, k - 1) == proof.middle_claims[k - 1][0]);
    }
}

/// The verifier accepts the combined lookup of an honest prover and ends at its digest.
pub proof fn lemma_two_pow_complete(
    h: spec_fn(Digest, Digest) -> Digest,
    s: Digest,
    items: Seq<TwoPowItem>,
    proof: LookupProof,
)
    requires
        two_pow_honest(h, s, items, proof),
    ensures
        accepts(
            h,
            two_pow_start(h, s),
            proof.table_proofs[0],
            two_pow_expected(h, s, proof),
            4,
            2,
        ),
        sumcheck_end(
            h,
            two_pow_start(h, s),
            proof.table_proofs[0],
            two_pow_expected(h, s, proof),
            4,
            2,
        ) == honest(h, two_pow_start(h, s), two_pow_polys(items, two_pow_beta(h, s)), 4, 4).1,
{
    let beta = two_pow_beta(h, s);
    let polys = two_pow_polys(items, beta);
    let parts = item_parts(items);
    let sums = item_sums(items);
    let comb = combined(parts, beta, 16);
    lemma2_to64();
    lemma_combined_inner(parts, beta, two_pow_table(), sums);
    assert forall|y: int| 0 <= y < 16 implies (#[trigger] comb[y]).canon() by {
        lemma_sum_canon(parts.len(), |i: int| power(beta, i as nat) * parts[i][y]);
    }
    lemma_total_two(comb, two_pow_table(), 16);
    assert(tables(polys, 16)) by {
        assert forall|i: int| 0 <= i < 2 implies (#[trigger] polys[i]).len() == 16 && all_canon(
            polys[i],
        ) by {}
    }
    let firsts = first_claims(proof.middle_claims@);
    assert(ext_elems(firsts) =~= sums) by {
        assert forall|i: int| 0 <= i < items.len() implies ext_elems(firsts)[i] == sums[i] by {
            assert(proof.middle_claims[i]@ == seq![word_of(sums[i])]);
            lemma_sum_canon(16, |y: int| items[i].part()[y] * two_pow_table()[y]);
        }
    }
    lemma_sum_canon(sums.len(), |i: int| power(beta, i as nat) * sums[i]);
    let claimed = two_pow_expected(h, s, proof);
    lemma_honest_end(h, two_pow_start(h, s), polys, 4, proof.table_proofs[0], claimed);
}

} // verus!
