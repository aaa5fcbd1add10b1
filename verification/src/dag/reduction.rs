//! Combining several claims about one polynomial into one.
//!
//! A random combination of claims `f(p_i) = v_i` is the sum
//! `sum_x f(x) * (sum_i alpha^i eq(x, p_i)) = sum_i alpha^i v_i`; a sum-check
//! turns it into one claim about `f` at the challenges.
use vstd::arithmetic::power2::*;
use vstd::prelude::*;

use crate::dag::lookup_model::{combined, eq_table, inner, lemma_combined_inner, lemma_total_two, weighted};
use crate::dag::two_pow::{combine, combine_values, lemma_word_of};
use crate::dag::types::{claim_list, Assertion, Claim, EdgeId};
use crate::dag::witness::PolyData;
use crate::field::elem::{lemma_add_canon, lemma_mul_comm, lemma_mul_one, one, Elem};
use crate::field::sums::{lemma_sum_canon, lemma_sum_eq, power, prod};
use crate::field::{
    ext2_add, ext2_field_eq, ext2_mul, ext2_sub, ext_elems, GoldilocksExt2,
};
use crate::poly::basis::evaluate_lagrange_basis_ext2;
use crate::poly::dense::{lemma_base_canon, lift};
use crate::poly::model::{
    all_canon, bit, bit_factor, eq_weight, fold, fold_all, lemma_eq_weight_first, lemma_fold_all_canon, lemma_fold_all_len, lemma_line_scale, lemma_mle_first,
    lemma_mle_scale, lemma_mle_sum, line, mle, table_scale,
};
use crate::poly::MLPoly;
use crate::sumcheck::cpu_ext2_prover::poly_elems;
use crate::sumcheck::fiat_shamir::{
    accepts, honest, honest_challenges, honest_proof, lemma_honest_prefix, lemma_rounds_passed,
    lemma_same_digests, lemma_words_of, preamble, rounds_passed, verifier_challenge, word_of, words_of,
};
use crate::sumcheck::model::{final_product, tables, total};
use crate::sumcheck::verify::{lemma_honest_end, sumcheck_end};
use crate::sumcheck::{CpuLinearSumcheckProverExt2, SumcheckProof, SumcheckVerifier};
use crate::transcript::{digest_elem, draw, Digest, Label, Transcript};
use crate::util::arith::{calc_pow_vec_ext2, pow2_usize};

verus! {

/// The claims that have a point.
pub open spec fn pointed(cs: Seq<Assertion>) -> Seq<Assertion>
    decreases cs.len(),
{
    if cs.len() == 0 {
        Seq::empty()
    } else {
        let rest = pointed(cs.drop_last());
        if cs.last().point.len() > 0 {
            rest.push(cs.last())
        } else {
            rest
        }
    }
}

/// All claims are about points of a polynomial in `n` variables.
pub open spec fn at_points(cs: Seq<Assertion>, n: nat) -> bool {
    forall|i: int| 0 <= i < cs.len() ==> (#[trigger] cs[i]).point.len() == n
}

/// The equality tables of the points.
pub open spec fn point_tables(cs: Seq<Assertion>) -> Seq<Seq<Elem>> {
    Seq::new(cs.len(), |i: int| eq_table(ext_elems(cs[i].point)))
}

/// The values that the claims assert.
pub open spec fn claimed_values(cs: Seq<Assertion>) -> Seq<Elem> {
    Seq::new(cs.len(), |i: int| cs[i].eval@)
}

/// The challenge that combines the claims.
pub open spec fn reducer_alpha(h: spec_fn(Digest, Digest) -> Digest, s: Digest) -> Elem {
    digest_elem(draw(h, s, Label::ReducerAlpha))
}

/// The digest at which the combined claim is proved.
pub open spec fn reduction_start(h: spec_fn(Digest, Digest) -> Digest, s: Digest, n: usize) -> Digest {
    preamble(h, draw(h, s, Label::ReducerAlpha), Label::NumVar, n, Label::NumPoly, 2)
}

/// The polynomial and the combined equality table.
pub open spec fn reduction_polys(
    h: spec_fn(Digest, Digest) -> Digest,
    s: Digest,
    table: Seq<Elem>,
    cs: Seq<Assertion>,
) -> Seq<Seq<Elem>> {
    seq![table, combined(point_tables(cs), reducer_alpha(h, s), table.len())]
}

/// The challenges of the reduction.
pub open spec fn reduction_challenges(
    h: spec_fn(Digest, Digest) -> Digest,
    s: Digest,
    table: Seq<Elem>,
    cs: Seq<Assertion>,
    n: usize,
) -> Seq<Elem> {
    honest_challenges(h, reduction_start(h, s, n), reduction_polys(h, s, table, cs), n as nat)
}

/// The digest after the reduction.
pub open spec fn reduction_end(
    h: spec_fn(Digest, Digest) -> Digest,
    s: Digest,
    table: Seq<Elem>,
    cs: Seq<Assertion>,
    n: usize,
) -> Digest {
    honest(
        h,
        reduction_start(h, s, n),
        reduction_polys(h, s, table, cs),
        n as nat,
        n as nat,
    ).1
}

/// The claim that is left.
pub open spec fn combined_claim(
    h: spec_fn(Digest, Digest) -> Digest,
    s: Digest,
    e: EdgeId,
    table: Seq<Elem>,
    cs: Seq<Assertion>,
    n: usize,
) -> Assertion {
    let chs = reduction_challenges(h, s, table, cs, n);
    Assertion { edge_id: e, sparse_id: 0, point: words_of(chs), eval: word_of(mle(table, chs)) }
}

/// The claims of a list that have a point.
pub fn pointed_claims(claims: &Vec<Claim>) -> (r: Vec<Claim>)
    ensures
        claim_list(r@) == pointed(claim_list(claims@)),
        r.len() == pointed(claim_list(claims@)).len(),
{
    let ghost cs = claim_list(claims@);
    let mut r: Vec<Claim> = Vec::new();
    let mut i: usize = 0;
    assert(cs.take(0) =~= Seq::<Assertion>::empty());
    assert(claim_list(r@) =~= Seq::<Assertion>::empty());
    while i < claims.len()
        invariant
            i <= claims.len(),
            cs == claim_list(claims@),
            claim_list(r@) == pointed(cs.take(i as int)),
        decreases claims.len() - i,
    {
        proof {
            assert(cs.take(i as int + 1).drop_last() =~= cs.take(i as int));
            assert(cs.take(i as int + 1).last() == claims[i as int]@);
        }
        if claims[i].point.len() > 0 {
            let ghost before = claim_list(r@);
            r.push(claims[i].clone());
            assert(claim_list(r@) =~= before.push(claims[i as int]@));
        }
        i = i + 1;
    }
    assert(cs.take(i as int) =~= cs);
    assert(claim_list(r@).len() == r.len());
    r
}

/// Combines claims about one polynomial into one claim at the challenges of a sum-check.
#[verifier::rlimit(40)]
pub fn reduce_claims<F: Fn(Digest, Digest) -> Digest>(
    data: &PolyData,
    e: EdgeId,
    claims: &Vec<Claim>,
    transcript: &mut Transcript<F>,
) -> (r: (SumcheckProof, Claim))
    requires
        old(transcript).wf(),
        data.wf(),
        data.vars() > 0,
        data.vars() < usize::BITS,
        at_points(claim_list(claims@), data.vars()),
    ensures
        final(transcript).compress == old(transcript).compress,
        ({
            let h = old(transcript).hash();
            let s = old(transcript).state;
            let cs = claim_list(claims@);
            let n = data.vars() as usize;
            &&& honest_proof(
                h,
                reduction_start(h, s, n),
                reduction_polys(h, s, data.table(), cs),
                n as nat,
                r.0,
            )
            &&& r.1@ == combined_claim(h, s, e, data.table(), cs, n)
            &&& final(transcript).state == reduction_end(h, s, data.table(), cs, n)
        }),
{
    let ghost h = transcript.hash();
    let ghost s = transcript.state;
    let ghost cs = claim_list(claims@);
    let ghost a = reducer_alpha(h, s);
    let n: usize = data.n();
    let size: usize = pow2_usize(n);
    let alpha: GoldilocksExt2 = transcript.challenge_ext2(Label::ReducerAlpha);
    let alphas: Vec<GoldilocksExt2> = calc_pow_vec_ext2(alpha, claims.len());
    let mut rows: Vec<Vec<GoldilocksExt2>> = Vec::new();
    let mut i: usize = 0;
    while i < claims.len()
        invariant
            i <= claims.len(),
            cs == claim_list(claims@),
            n < usize::BITS,
            size == pow2(n as nat),
            at_points(cs, n as nat),
            rows.len() == i,
            forall|k: int|
                0 <= k < i ==> (#[trigger] rows[k]).len() == size && ext_elems(rows[k]@) == eq_table(
                    ext_elems(cs[k].point),
                ),
        decreases claims.len() - i,
    {
        assert(cs[i as int].point.len() == n);
        let row: Vec<GoldilocksExt2> = evaluate_lagrange_basis_ext2(claims[i].point.as_slice());
        assert(ext_elems(row@) =~= eq_table(ext_elems(cs[i as int].point)));
        rows.push(row);
        i = i + 1;
    }
    let eq_combined: Vec<GoldilocksExt2> = combine(&rows, &alphas, size, Ghost(a));
    let words: Vec<crate::field::GoldilocksField> = data.evaluations();
    let x: Vec<GoldilocksExt2> = lift(&words);
    let ghost table = data.table();
    proof {
        lemma_table_len(*data);
        assert(poly_elems(rows@) =~= point_tables(cs));
    }
    let mut polys: Vec<Vec<GoldilocksExt2>> = Vec::new();
    polys.push(x);
    polys.push(eq_combined);
    assert(poly_elems(polys@) =~= reduction_polys(h, s, table, cs));
    let mut prover: CpuLinearSumcheckProverExt2 = CpuLinearSumcheckProverExt2::new(
        n,
        2,
        transcript,
    );
    let proof: SumcheckProof = prover.prove(&mut polys, transcript);
    let eval: GoldilocksExt2 = prover.final_eval(0);
    let point: Vec<GoldilocksExt2> = prover.challenges;
    proof {
        assert(point@ =~= words_of(reduction_challenges(h, s, table, cs, n)));
        lemma_word_of(eval);
    }
    (proof, Claim { edge_id: e, sparse_id: 0, point, eval })
}

/// The table of a polynomial has an entry per corner.
pub proof fn lemma_table_len(data: PolyData)
    requires
        data.wf(),
    ensures
        data.table().len() == pow2(data.vars()),
        all_canon(data.table()),
{
    match data {
        PolyData::Dense(p) => {
            lemma_base_canon(p.evaluations@);
        },
        PolyData::Sparse(p) => {},
    }
}

/// The line through `1 - p` and `p`, at `r`: one where `p` and `r` are the same bit, zero where
/// they are different bits.
pub open spec fn agree(p: Elem, r: Elem) -> Elem {
    line(one() - p, p, r)
}

/// `eq(p, r)`: the product of the agreements of the coordinates.
pub open spec fn eq_at(p: Seq<Elem>, r: Seq<Elem>) -> Elem
    decreases p.len(),
{
    if p.len() == 0 {
        one()
    } else {
        agree(p[0], r[0]) * eq_at(p.drop_first(), r.drop_first())
    }
}

/// The values at `r` of the equality polynomials of the points.
pub open spec fn eq_values(cs: Seq<Assertion>, r: Seq<Elem>) -> Seq<Elem> {
    Seq::new(cs.len(), |i: int| eq_at(ext_elems(cs[i].point), r))
}

/// The equality polynomial of `p` is multilinear: its table extends to `eq_at`.
pub proof fn lemma_eq_at(p: Seq<Elem>, r: Seq<Elem>)
    requires
        p.len() == r.len(),
        all_canon(p),
    ensures
        mle(eq_table(p), r) == eq_at(p, r),
    decreases p.len(),
{
    let t = eq_table(p);
    lemma2_to64();
    if p.len() == 0 {
        assert(fold_all(t, r) == t);
        assert(t[0] == one());
    } else {
        let (q, u) = (p.drop_first(), r.drop_first());
        let a = agree(p[0], r[0]);
        lemma_pow2_unfold(p.len());
        lemma_mle_first(t, r);
        assert(fold(t, r[0]) =~= table_scale(a, eq_table(q))) by {
            assert forall|j: int| 0 <= j < pow2(q.len()) implies fold(t, r[0])[j] == table_scale(
                a,
                eq_table(q),
            )[j] by {
                let e = eq_weight(j, q);
                lemma_eq_weight_first(2 * j, p);
                lemma_eq_weight_first(2 * j + 1, p);
                lemma_mul_comm(one() - p[0], e);
                lemma_mul_comm(p[0], e);
                assert(p[0].canon());
                lemma_add_canon(one(), p[0]);
                lemma_line_scale(e, one() - p[0], p[0], r[0]);
                lemma_mul_comm(e, a);
            }
        }
        assert(all_canon(eq_table(q))) by {
            lemma_eq_table_canon(q);
        }
        lemma_mle_scale(a, eq_table(q), u);
        assert(all_canon(q)) by {
            assert forall|i: int| 0 <= i < q.len() implies (#[trigger] q[i]).canon() by {
                assert(p[i + 1].canon());
            }
        }
        lemma_eq_at(q, u);
    }
}

/// Equality tables are canonical.
pub proof fn lemma_eq_table_canon(p: Seq<Elem>)
    ensures
        all_canon(eq_table(p)),
{
    assert forall|x: int| 0 <= x < pow2(p.len()) implies (#[trigger] eq_table(p)[x]).canon() by {
        lemma_prod_canon(p.len(), |i: int| bit_factor(bit(x, i), p[i]));
    }
}

/// Products are canonical.
proof fn lemma_prod_canon(n: nat, f: spec_fn(int) -> Elem)
    ensures
        prod(n, f).canon(),
{
    if n > 0 {
        lemma_add_canon(prod((n - 1) as nat, f), f(n - 1));
    }
}

/// `eq(p, r)`.
pub fn eq_at_point(p: &Vec<GoldilocksExt2>, r: &Vec<GoldilocksExt2>) -> (v: GoldilocksExt2)
    requires
        p.len() == r.len(),
    ensures
        v@ == eq_at(ext_elems(p@), ext_elems(r@)),
        v.canonical(),
{
    let ghost (ep, er) = (ext_elems(p@), ext_elems(r@));
    let unit: GoldilocksExt2 = GoldilocksExt2::one();
    let mut acc: GoldilocksExt2 = GoldilocksExt2::one();
    let mut k: usize = p.len();
    while k > 0
        invariant
            k <= p.len(),
            p.len() == r.len(),
            ep == ext_elems(p@),
            er == ext_elems(r@),
            unit@ == one(),
            acc@ == eq_at(ep.skip(k as int), er.skip(k as int)),
            acc.canonical(),
        decreases k,
    {
        k = k - 1;
        let a: GoldilocksExt2 = ext2_sub(unit, p[k]);
        let factor: GoldilocksExt2 = ext2_add(a, ext2_mul(r[k], ext2_sub(p[k], a)));
        acc = ext2_mul(factor, acc);
        proof {
            assert(ep.skip(k as int).drop_first() =~= ep.skip(k + 1));
            assert(er.skip(k as int).drop_first() =~= er.skip(k + 1));
        }
    }
    proof {
        assert(ep.skip(0) =~= ep);
        assert(er.skip(0) =~= er);
    }
    acc
}

/// The sum that the combined claims have to come to.
pub open spec fn reduction_expected(
    h: spec_fn(Digest, Digest) -> Digest,
    s: Digest,
    cs: Seq<Assertion>,
) -> GoldilocksExt2 {
    word_of(weighted(claimed_values(cs), reducer_alpha(h, s)))
}

/// The challenges that the verifier draws for a proof in `n` variables.
pub open spec fn drawn_challenges(
    h: spec_fn(Digest, Digest) -> Digest,
    s: Digest,
    proof: SumcheckProof,
    n: nat,
) -> Seq<Elem> {
    Seq::new(n, |k: int| verifier_challenge(h, s, proof.round_messages@, k))
}

/// The claim `c` follows from the claims `cs` by the proof.
pub open spec fn reduction_ok(
    h: spec_fn(Digest, Digest) -> Digest,
    s: Digest,
    cs: Seq<Assertion>,
    c: Assertion,
    proof: SumcheckProof,
) -> bool {
    let n = c.point.len();
    let start = reduction_start(h, s, n as usize);
    let chs = drawn_challenges(h, start, proof, n);
    &&& accepts(h, start, proof, reduction_expected(h, s, cs), n, 2)
    &&& at_points(cs, n)
    &&& c.point == words_of(chs)
    &&& proof.final_eval@ == c.eval@ * weighted(eq_values(cs, chs), reducer_alpha(h, s))
}

/// The digest after a reduction to a claim in `n` variables was checked.
pub open spec fn reduction_check_end(
    h: spec_fn(Digest, Digest) -> Digest,
    s: Digest,
    cs: Seq<Assertion>,
    n: nat,
    proof: SumcheckProof,
) -> Digest {
    sumcheck_end(
        h,
        reduction_start(h, s, n as usize),
        proof,
        reduction_expected(h, s, cs),
        n,
        2,
    )
}

/// Two lists of words are the same.
pub fn same_point(a: &Vec<GoldilocksExt2>, b: &Vec<GoldilocksExt2>) -> (r: bool)
    ensures
        r == (a@ == b@),
{
    if a.len() != b.len() {
        return false;
    }
    let mut i: usize = 0;
    while i < a.len()
        invariant
            i <= a.len(),
            a.len() == b.len(),
            forall|k: int| 0 <= k < i ==> a[k] == b[k],
        decreases a.len() - i,
    {
        if a[i] != b[i] {
            assert(a@[i as int] != b@[i as int]);
            return false;
        }
        i = i + 1;
    }
    assert(a@ =~= b@);
    true
}

/// Checks that the claim `combined_claim` follows from the claims by the proof.
#[verifier::rlimit(40)]
pub fn check_reduction<F: Fn(Digest, Digest) -> Digest>(
    claims: &Vec<Claim>,
    combined_claim: &Claim,
    proof: &SumcheckProof,
    transcript: &mut Transcript<F>,
) -> (ok: bool)
    requires
        old(transcript).wf(),
    ensures
        final(transcript).compress == old(transcript).compress,
        ok <==> reduction_ok(
            old(transcript).hash(),
            old(transcript).state,
            claim_list(claims@),
            combined_claim@,
            *proof,
        ),
        final(transcript).state == reduction_check_end(
            old(transcript).hash(),
            old(transcript).state,
            claim_list(claims@),
            combined_claim.point.len() as nat,
            *proof,
        ),
{
    let ghost h = transcript.hash();
    let ghost s = transcript.state;
    let ghost cs = claim_list(claims@);
    let ghost a = reducer_alpha(h, s);
    let n: usize = combined_claim.point.len();
    let alpha: GoldilocksExt2 = transcript.challenge_ext2(Label::ReducerAlpha);
    let alphas: Vec<GoldilocksExt2> = calc_pow_vec_ext2(alpha, claims.len());
    let mut values: Vec<GoldilocksExt2> = Vec::new();
    let mut fits: bool = true;
    let mut i: usize = 0;
    while i < claims.len()
        invariant
            i <= claims.len(),
            cs == claim_list(claims@),
            values.len() == i,
            forall|k: int| 0 <= k < i ==> (#[trigger] values[k]) == cs[k].eval,
            fits <==> forall|k: int| 0 <= k < i ==> (#[trigger] cs[k]).point.len() == n,
        decreases claims.len() - i,
    {
        values.push(claims[i].eval);
        assert(cs[i as int] == claims[i as int]@);
        fits = fits && claims[i].point.len() == n;
        i = i + 1;
    }
    assert(ext_elems(values@) =~= claimed_values(cs));
    let expected: GoldilocksExt2 = combine_values(&values, &alphas, Ghost(a));
    proof {
        lemma_word_of(expected);
    }
    let ghost start = reduction_start(h, s, n);
    let (ok, challenges) = SumcheckVerifier::verify(proof, expected, n, 2, transcript);
    if !ok || !fits {
        return false;
    }
    let ghost chs = drawn_challenges(h, start, *proof, n as nat);
    proof {
        lemma_accepted_passes(h, start, *proof, expected, n as nat, 2);
        assert(challenges.len() == n);
        assert(ext_elems(challenges@) =~= chs);
        lemma_words_of(challenges@);
    }
    if !same_point(&combined_claim.point, &challenges) {
        return false;
    }
    let mut eqs: Vec<GoldilocksExt2> = Vec::new();
    let mut i: usize = 0;
    while i < claims.len()
        invariant
            i <= claims.len(),
            cs == claim_list(claims@),
            at_points(cs, n as nat),
            challenges.len() == n,
            ext_elems(challenges@) == chs,
            eqs.len() == i,
            forall|k: int| 0 <= k < i ==> (#[trigger] eqs[k])@ == eq_values(cs, chs)[k],
        decreases claims.len() - i,
    {
        assert(cs[i as int].point.len() == n);
        eqs.push(eq_at_point(&claims[i].point, &challenges));
        i = i + 1;
    }
    assert(ext_elems(eqs@) =~= eq_values(cs, chs));
    let weight: GoldilocksExt2 = combine_values(&eqs, &alphas, Ghost(a));
    let target: GoldilocksExt2 = ext2_mul(combined_claim.eval, weight);
    ext2_field_eq(proof.final_eval, target)
}

/// Where the verifier accepts, all rounds have passed.
proof fn lemma_accepted_passes(
    h: spec_fn(Digest, Digest) -> Digest,
    s: Digest,
    proof: SumcheckProof,
    claimed: GoldilocksExt2,
    n: nat,
    num_poly: nat,
)
    requires
        accepts(h, s, proof, claimed, n, num_poly),
    ensures
        rounds_passed(h, s, proof.round_messages@, claimed, num_poly, n) == n,
{
    lemma_rounds_passed(h, s, proof.round_messages@, claimed, num_poly, n);
}

/// A combination of tables extends to the combination of the extensions.
pub proof fn lemma_combined_mle(parts: Seq<Seq<Elem>>, beta: Elem, r: Seq<Elem>)
    requires
        forall|i: int|
            0 <= i < parts.len() ==> (#[trigger] parts[i]).len() == pow2(r.len()) && all_canon(parts[i]),
    ensures
        mle(combined(parts, beta, pow2(r.len())), r) == weighted(
            Seq::new(parts.len(), |i: int| mle(parts[i], r)),
            beta,
        ),
{
    let size = pow2(r.len());
    let w = eq_table(r);
    let c = combined(parts, beta, size);
    let sums = Seq::new(parts.len(), |i: int| mle(parts[i], r));
    assert forall|i: int| 0 <= i < parts.len() implies #[trigger] sums[i] == inner(parts[i], w) by {
        lemma_mle_inner(parts[i], r);
    }
    lemma_combined_inner(parts, beta, w, sums);
    lemma_combined_canon(parts, beta, size);
    lemma_mle_inner(c, r);
}

/// Combined tables are canonical.
pub proof fn lemma_combined_canon(parts: Seq<Seq<Elem>>, beta: Elem, size: nat)
    ensures
        all_canon(combined(parts, beta, size)),
{
    assert forall|y: int| 0 <= y < size implies (#[trigger] combined(parts, beta, size)[y]).canon() by {
        lemma_sum_canon(parts.len(), |i: int| power(beta, i as nat) * parts[i][y]);
    }
}

/// Evaluation is the inner product with the equality table of the point.
pub proof fn lemma_mle_inner(v: Seq<Elem>, r: Seq<Elem>)
    requires
        v.len() == pow2(r.len()),
        all_canon(v),
    ensures
        mle(v, r) == inner(v, eq_table(r)),
{
    let f = |x: int| eq_weight(x, r) * v[x];
    let g = |x: int| v[x] * eq_table(r)[x];
    lemma_mle_sum(v, r);
    assert forall|x: int| 0 <= x < v.len() implies #[trigger] f(x) == g(x) by {
        lemma_mul_comm(eq_weight(x, r), v[x]);
    }
    lemma_sum_eq(v.len(), f, g);
}

/// The inner product is symmetric.
proof fn lemma_inner_comm(a: Seq<Elem>, b: Seq<Elem>)
    requires
        a.len() == b.len(),
    ensures
        inner(a, b) == inner(b, a),
{
    let f = |y: int| a[y] * b[y];
    let g = |y: int| b[y] * a[y];
    assert forall|y: int| 0 <= y < a.len() implies #[trigger] f(y) == g(y) by {
        lemma_mul_comm(a[y], b[y]);
    }
    lemma_sum_eq(a.len(), f, g);
}

/// All claims hold of the polynomial with the given table.
pub open spec fn all_hold(table: Seq<Elem>, cs: Seq<Assertion>) -> bool {
    forall|i: int|
        0 <= i < cs.len() ==> mle(table, ext_elems((#[trigger] cs[i]).point)) == cs[i].eval@
}

/// The equality tables of points in `n` variables are tables in `n` variables.
proof fn lemma_point_tables(cs: Seq<Assertion>, n: nat)
    requires
        at_points(cs, n),
    ensures
        forall|i: int|
            0 <= i < cs.len() ==> (#[trigger] point_tables(cs)[i]).len() == pow2(n) && all_canon(
                point_tables(cs)[i],
            ),
{
    let parts = point_tables(cs);
    assert forall|i: int| 0 <= i < cs.len() implies (#[trigger] parts[i]).len() == pow2(n) && all_canon(
        parts[i],
    ) by {
        assert(cs[i].point.len() == n);
        lemma_eq_table_canon(ext_elems(cs[i].point));
    }
}

/// The combined sum of true claims is the combination of their values.
proof fn lemma_reduction_total(table: Seq<Elem>, cs: Seq<Assertion>, n: nat, alpha: Elem)
    requires
        table.len() == pow2(n),
        all_canon(table),
        at_points(cs, n),
        all_hold(table, cs),
    ensures
        ({
            let polys = seq![table, combined(point_tables(cs), alpha, pow2(n))];
            &&& tables(polys, pow2(n))
            &&& total(polys, pow2(n)) == weighted(claimed_values(cs), alpha)
            &&& weighted(claimed_values(cs), alpha).canon()
        }),
{
    let parts = point_tables(cs);
    let size = pow2(n);
    let comb = combined(parts, alpha, size);
    let values = claimed_values(cs);
    lemma_point_tables(cs, n);
    assert forall|i: int| 0 <= i < parts.len() implies #[trigger] values[i] == inner(parts[i], table) by {
        let q = ext_elems(cs[i].point);
        assert(cs[i].point.len() == n);
        lemma_mle_inner(table, q);
        lemma_inner_comm(table, eq_table(q));
    }
    lemma_combined_inner(parts, alpha, table, values);
    lemma_inner_comm(comb, table);
    lemma_total_two(table, comb, size);
    lemma_combined_canon(parts, alpha, size);
    let polys = seq![table, comb];
    assert forall|i: int| 0 <= i < 2 implies (#[trigger] polys[i]).len() == size && all_canon(
        polys[i],
    ) by {}
    lemma_sum_canon(values.len(), |i: int| power(alpha, i as nat) * values[i]);
}

/// Verifier and prover draw the same challenges.
proof fn lemma_drawn_honest(
    h: spec_fn(Digest, Digest) -> Digest,
    s: Digest,
    polys: Seq<Seq<Elem>>,
    n: nat,
    proof: SumcheckProof,
)
    requires
        honest_proof(h, s, polys, n, proof),
    ensures
        drawn_challenges(h, s, proof, n) == honest_challenges(h, s, polys, n),
{
    let drawn = drawn_challenges(h, s, proof, n);
    let chs = honest_challenges(h, s, polys, n);
    lemma_honest_prefix(h, s, polys, n, n, n);
    assert forall|k: int| 0 <= k < n implies #[trigger] drawn[k] == chs[k] by {
        let m = (k + 1) as nat;
        lemma_same_digests(h, s, polys, n, proof, m);
        lemma_honest_prefix(h, s, polys, n, m, n);
        lemma_honest_prefix(h, s, polys, n, k as nat, k as nat);
        assert(honest(h, s, polys, n, m).0[k] == digest_elem(honest(h, s, polys, n, m).1));
        assert(chs.take(m as int)[k] == chs[k]);
    }
    assert(drawn =~= chs);
}

/// The product of the polynomial and the combined equality table, at `r`.
proof fn lemma_reduction_final(table: Seq<Elem>, cs: Seq<Assertion>, n: nat, alpha: Elem, r: Seq<Elem>)
    requires
        table.len() == pow2(n),
        all_canon(table),
        at_points(cs, n),
        r.len() == n,
    ensures
        mle(table, r).canon(),
        final_product(seq![table, combined(point_tables(cs), alpha, pow2(n))], r) == mle(table, r)
            * weighted(eq_values(cs, r), alpha),
{
    let parts = point_tables(cs);
    let comb = combined(parts, alpha, pow2(n));
    let polys = seq![table, comb];
    lemma_point_tables(cs, n);
    lemma_combined_mle(parts, alpha, r);
    let sums = Seq::new(parts.len(), |i: int| mle(parts[i], r));
    assert forall|i: int| 0 <= i < parts.len() implies sums[i] == eq_values(cs, r)[i] by {
        assert(cs[i].point.len() == n);
        lemma_ext_canon(cs[i].point);
        lemma_eq_at(ext_elems(cs[i].point), r);
    }
    assert(sums =~= eq_values(cs, r));
    lemma_fold_all_canon(table, r);
    lemma_fold_all_len(table, n, r);
    lemma2_to64();
    let v = mle(table, r);
    assert(fold_all(table, r)[0].canon());
    let f = |i: int| mle(polys[i], r);
    assert(prod(2, f) == v * mle(comb, r)) by {
        assert(prod(2, f) == prod(1, f) * f(1));
        assert(prod(1, f) == prod(0, f) * f(0)) by {
            reveal_with_fuel(prod, 2);
        }
        lemma_mul_one(v);
    }
}

/// The verifier accepts what an honest prover makes of true claims, ends at the digest of the
/// prover, and the combined claim is true.
pub proof fn lemma_reduction_complete(
    h: spec_fn(Digest, Digest) -> Digest,
    s: Digest,
    e: EdgeId,
    table: Seq<Elem>,
    cs: Seq<Assertion>,
    n: usize,
    proof: SumcheckProof,
)
    requires
        table.len() == pow2(n as nat),
        all_canon(table),
        at_points(cs, n as nat),
        all_hold(table, cs),
        honest_proof(h, reduction_start(h, s, n), reduction_polys(h, s, table, cs), n as nat, proof),
    ensures
        reduction_ok(h, s, cs, combined_claim(h, s, e, table, cs, n), proof),
        reduction_check_end(h, s, cs, n as nat, proof) == reduction_end(h, s, table, cs, n),
        all_hold(table, seq![combined_claim(h, s, e, table, cs, n)]),
{
    let chs = reduction_challenges(h, s, table, cs, n);
    let start = reduction_start(h, s, n);
    lemma_reduction_parts(h, s, start, reducer_alpha(h, s), e, table, cs, n as nat, proof, chs);
}

/// The parts of the completeness of a reduction, from the digest `s` and the challenge `alpha`.
proof fn lemma_reduction_parts(
    h: spec_fn(Digest, Digest) -> Digest,
    s: Digest,
    start: Digest,
    alpha: Elem,
    e: EdgeId,
    table: Seq<Elem>,
    cs: Seq<Assertion>,
    n: nat,
    proof: SumcheckProof,
    chs: Seq<Elem>,
)
    requires
        table.len() == pow2(n),
        all_canon(table),
        at_points(cs, n),
        all_hold(table, cs),
        ({
            let polys = seq![table, combined(point_tables(cs), alpha, table.len())];
            honest_proof(h, start, polys, n, proof) && chs == honest_challenges(h, start, polys, n)
        }),
    ensures
        chs.len() == n,
        accepts(h, start, proof, word_of(weighted(claimed_values(cs), alpha)), n, 2),
        sumcheck_end(h, start, proof, word_of(weighted(claimed_values(cs), alpha)), n, 2) == honest(
            h,
            start,
            seq![table, combined(point_tables(cs), alpha, table.len())],
            n,
            n,
        ).1,
        drawn_challenges(h, start, proof, n) == chs,
        proof.final_eval@ == word_of(mle(table, chs))@ * weighted(eq_values(cs, chs), alpha),
        mle(table, ext_elems(words_of(chs))) == word_of(mle(table, chs))@,
{
    let polys = seq![table, combined(point_tables(cs), alpha, table.len())];
    assert(chs.len() == n && all_canon(chs)) by {
        lemma_honest_prefix(h, start, polys, n, n, n);
    }
    let claimed = word_of(weighted(claimed_values(cs), alpha));
    assert(tables(polys, pow2(n)) && claimed.canonical() && claimed@ == total(polys, pow2(n))) by {
        lemma_reduction_total(table, cs, n, alpha);
    }
    assert(polys.len() == 2);
    assert(accepts(h, start, proof, claimed, n, 2) && sumcheck_end(h, start, proof, claimed, n, 2)
        == honest(h, start, polys, n, n).1) by {
        lemma_honest_end(h, start, polys, n, proof, claimed);
    }
    assert(drawn_challenges(h, start, proof, n) == chs) by {
        lemma_drawn_honest(h, start, polys, n, proof);
    }
    let v = mle(table, chs);
    let w = weighted(eq_values(cs, chs), alpha);
    assert(v.canon() && final_product(polys, chs) == v * w) by {
        lemma_reduction_final(table, cs, n, alpha, chs);
    }
    lemma_word_elem(v);
    assert((v * w).canon()) by {
        lemma_add_canon(v, w);
    }
    lemma_word_elem(v * w);
    assert(ext_elems(words_of(chs)) =~= chs) by {
        assert forall|i: int| 0 <= i < chs.len() implies ext_elems(words_of(chs))[i] == chs[i] by {
            assert(chs[i].canon());
            lemma_word_elem(chs[i]);
        }
    }
}

/// The word of a canonical element stands for it.
pub proof fn lemma_word_elem(e: Elem)
    requires
        e.canon(),
    ensures
        word_of(e)@ == e,
        word_of(e).canonical(),
{
}

/// Words stand for canonical elements.
pub proof fn lemma_ext_canon(p: Seq<GoldilocksExt2>)
    ensures
        all_canon(ext_elems(p)),
{
}

} // verus!
