//! Range checks by bit decomposition.
//!
//! Every checked node comes with a table of bits: 32 planes with one bit per
//! input. The bits have to spell the checked numbers and have to be bits.
use vstd::arithmetic::power2::*;
use vstd::prelude::*;

use crate::dag::block::{BasicBlockType, Block, Op};
use crate::dag::lookup_model::{
    all_bits, bit_defect, bit_planes, bit_table, bit_weight, combined, eq_table, group_defect, inner,
    lemma_bits_no_defect, lemma_combined_inner, lemma_shifted_inner, lemma_total_two, mass, shifted,
    weighted, BIT_TABLE_VARS,
};
use crate::dag::two_pow::{combine, combine_values, inner_product, lemma_word_of};
use crate::dag::openings::witnesses_ok;
use crate::dag::types::{
    claim_list, claim_lists, claims_of, clone_point, Assertion, Claim, Dag, EdgeId, LookupProof,
    NodeProof,
};
use crate::dag::witness::{PolyData, Witness};
use crate::field::elem::{embed, zero, Elem};
use crate::field::sums::{lemma_sum_canon, power, sum};
use crate::field::{
    ext2_add, ext2_mul, ext2_sub, ext_elems, GoldilocksExt2, GoldilocksField,
};
use crate::poly::MLPoly;
use crate::poly::basis::{evaluate_lagrange_basis_ext2, pow2_u64};
use crate::poly::model::{all_canon, eq_weight};
use crate::sumcheck::cpu_ext2_prover::poly_elems;
use crate::sumcheck::fiat_shamir::{
    accepts, honest, honest_challenges, honest_proof, lemma_honest_prefix, lemma_words_of, preamble, word_of,
    words_of,
};
use crate::sumcheck::model::tables;
use crate::sumcheck::verify::{lemma_honest_end, sumcheck_end};
use crate::sumcheck::{CpuLinearSumcheckProverExt2, SumcheckProof, SumcheckVerifier};
use crate::transcript::{digest_elem, draw, draw_many, drawn, Digest, Label, Transcript};
use crate::util::arith::{calc_pow_vec_ext2, pow2_usize};

verus! {

/// The point of the last claim that has one.
pub open spec fn last_point(claims: Seq<Assertion>) -> Option<Seq<GoldilocksExt2>>
    decreases claims.len(),
{
    if claims.len() == 0 {
        None
    } else if claims.last().point.len() > 0 {
        Some(claims.last().point)
    } else {
        last_point(claims.drop_last())
    }
}

/// What a range check reads: the edge of the bits, the bits, and the point of the last claim
/// about the checked edge.
pub struct RangeItem {
    pub aux: EdgeId,
    pub n: nat,
    pub words: Seq<GoldilocksField>,
    pub point: Option<Seq<GoldilocksExt2>>,
}

impl RangeItem {
    /// The bits form 32 planes over the inputs, and a claimed point covers the inputs.
    pub open spec fn wf(self) -> bool {
        &&& self.words.len() == pow2(self.n + 5)
        &&& self.n + 5 < usize::BITS
        &&& self.point matches Some(p) ==> self.n <= p.len()
    }

    /// The claim about the bits at the point of the check and the challenges of the table.
    pub open spec fn claim(self, point: Seq<GoldilocksExt2>, part: Seq<Elem>, chs: Seq<Elem>) -> Assertion {
        Assertion {
            edge_id: self.aux,
            sparse_id: 0,
            point: point + words_of(chs),
            eval: word_of(inner(eq_table(chs), part)),
        }
    }
}

/// The digest after the points of the first `k` checks were settled. Checks without a claimed
/// point draw one; `ns` and `claimed` give their sizes and whether they have one.
pub open spec fn points_digest(
    h: spec_fn(Digest, Digest) -> Digest,
    s: Digest,
    ns: Seq<nat>,
    claimed: Seq<bool>,
    k: nat,
) -> Digest
    decreases k,
{
    if k == 0 {
        s
    } else {
        let d = points_digest(h, s, ns, claimed, (k - 1) as nat);
        if claimed[k - 1] {
            d
        } else {
            draw_many(h, d, Label::RangeInpChallenge, ns[k - 1])
        }
    }
}

/// Numbers of variables of the inputs of the checks.
pub open spec fn item_sizes(items: Seq<RangeItem>) -> Seq<nat> {
    Seq::new(items.len(), |i: int| items[i].n)
}

/// Which checks have a claimed point.
pub open spec fn item_claimed(items: Seq<RangeItem>) -> Seq<bool> {
    Seq::new(items.len(), |i: int| items[i].point is Some)
}

/// The point at which check `i` evaluates its bits.
pub open spec fn item_point(
    h: spec_fn(Digest, Digest) -> Digest,
    s: Digest,
    items: Seq<RangeItem>,
    i: int,
) -> Seq<Elem> {
    match items[i].point {
        Some(p) => ext_elems(p).take(items[i].n as int),
        None => drawn(
            h,
            points_digest(h, s, item_sizes(items), item_claimed(items), i as nat),
            Label::RangeInpChallenge,
            items[i].n,
        ),
    }
}

/// The words of the point at which check `i` evaluates its bits: the start of the claimed point, or
/// the point that is drawn.
pub open spec fn point_words(
    h: spec_fn(Digest, Digest) -> Digest,
    s: Digest,
    items: Seq<RangeItem>,
    i: int,
) -> Seq<GoldilocksExt2> {
    match items[i].point {
        Some(p) => p.take(items[i].n as int),
        None => words_of(item_point(h, s, items, i)),
    }
}

/// The words of the points at which the checks evaluate their bits.
pub open spec fn range_words(
    h: spec_fn(Digest, Digest) -> Digest,
    s: Digest,
    items: Seq<RangeItem>,
) -> Seq<Seq<GoldilocksExt2>> {
    Seq::new(items.len(), |i: int| point_words(h, range_open(h, s), items, i))
}

/// The digest after the two challenges of the checks were drawn.
pub open spec fn range_open(h: spec_fn(Digest, Digest) -> Digest, s: Digest) -> Digest {
    draw(h, draw(h, s, Label::RangeAlpha), Label::RangeBeta)
}

pub open spec fn range_alpha(h: spec_fn(Digest, Digest) -> Digest, s: Digest) -> Elem {
    digest_elem(draw(h, s, Label::RangeAlpha))
}

pub open spec fn range_beta(h: spec_fn(Digest, Digest) -> Digest, s: Digest) -> Elem {
    digest_elem(range_open(h, s))
}

/// The bit planes of check `i` at its point.
pub open spec fn range_part(
    h: spec_fn(Digest, Digest) -> Digest,
    s: Digest,
    items: Seq<RangeItem>,
    i: int,
) -> Seq<Elem> {
    bit_planes(items[i].words, items[i].n, item_point(h, range_open(h, s), items, i))
}

pub open spec fn range_parts(
    h: spec_fn(Digest, Digest) -> Digest,
    s: Digest,
    items: Seq<RangeItem>,
) -> Seq<Seq<Elem>> {
    Seq::new(items.len(), |i: int| range_part(h, s, items, i))
}

/// The tables of the combined check.
pub open spec fn range_polys(
    h: spec_fn(Digest, Digest) -> Digest,
    s: Digest,
    items: Seq<RangeItem>,
) -> Seq<Seq<Elem>> {
    seq![
        combined(range_parts(h, s, items), range_beta(h, s), 32),
        shifted(bit_table(), range_alpha(h, s)),
    ]
}

/// The digest at which the combined check starts.
pub open spec fn range_start(
    h: spec_fn(Digest, Digest) -> Digest,
    s: Digest,
    ns: Seq<nat>,
    claimed: Seq<bool>,
) -> Digest {
    preamble(
        h,
        points_digest(h, range_open(h, s), ns, claimed, ns.len()),
        Label::NumVar,
        BIT_TABLE_VARS,
        Label::NumPoly,
        2,
    )
}

/// The challenges of the combined check.
pub open spec fn range_challenges(
    h: spec_fn(Digest, Digest) -> Digest,
    s: Digest,
    items: Seq<RangeItem>,
) -> Seq<Elem> {
    honest_challenges(
        h,
        range_start(h, s, item_sizes(items), item_claimed(items)),
        range_polys(h, s, items),
        5,
    )
}

/// The digest after the combined check.
pub open spec fn range_mid(
    h: spec_fn(Digest, Digest) -> Digest,
    s: Digest,
    items: Seq<RangeItem>,
) -> Digest {
    honest(
        h,
        range_start(h, s, item_sizes(items), item_claimed(items)),
        range_polys(h, s, items),
        5,
        5,
    ).1
}

/// Inserts a number into an increasing list unless it is there.
pub open spec fn insert_sorted(v: Seq<usize>, x: usize) -> Seq<usize>
    decreases v.len(),
{
    if v.len() == 0 {
        seq![x]
    } else if v.last() < x {
        v.push(x)
    } else if v.last() == x {
        v
    } else {
        insert_sorted(v.drop_last(), x).push(v.last())
    }
}

/// The distinct numbers of variables of the bits of the checks, in increasing order.
pub open spec fn group_sizes(ns: Seq<nat>) -> Seq<usize>
    decreases ns.len(),
{
    if ns.len() == 0 {
        Seq::empty()
    } else {
        insert_sorted(group_sizes(ns.drop_last()), (ns.last() + 5) as usize)
    }
}

/// The checks among the first `k` whose bits have `m` variables.
pub open spec fn members(ns: Seq<nat>, m: usize, k: nat) -> Seq<int>
    decreases k,
{
    if k == 0 {
        Seq::empty()
    } else {
        let rest = members(ns, m, (k - 1) as nat);
        if ns[k - 1] + 5 == m {
            rest.push(k - 1)
        } else {
            rest
        }
    }
}

/// The bits of all checks.
pub open spec fn item_words(items: Seq<RangeItem>) -> Seq<Seq<GoldilocksField>> {
    Seq::new(items.len(), |i: int| items[i].words)
}

/// The combined bit defect of the checks whose bits have `m` variables.
pub open spec fn defect(items: Seq<RangeItem>, beta: Elem, m: usize) -> Seq<Elem> {
    group_defect(
        item_words(items),
        members(item_sizes(items), m, items.len()),
        beta,
        pow2(m as nat),
    )
}

/// The digest at which the bits with `m` variables are checked.
pub open spec fn bool_start(
    h: spec_fn(Digest, Digest) -> Digest,
    s: Digest,
    m: usize,
) -> Digest {
    preamble(
        h,
        draw_many(h, s, Label::BoolChallenge, m as nat),
        Label::NumVar,
        m,
        Label::NumPoly,
        2,
    )
}

/// The polynomials of the check that the bits with `m` variables are bits.
pub open spec fn bool_polys(
    h: spec_fn(Digest, Digest) -> Digest,
    s: Digest,
    items: Seq<RangeItem>,
    beta: Elem,
    m: usize,
) -> Seq<Seq<Elem>> {
    seq![eq_table(drawn(h, s, Label::BoolChallenge, m as nat)), defect(items, beta, m)]
}

/// The prover's digest after the bits of the first `k` groups were checked.
pub open spec fn bool_digest(
    h: spec_fn(Digest, Digest) -> Digest,
    s: Digest,
    items: Seq<RangeItem>,
    beta: Elem,
    groups: Seq<usize>,
    k: nat,
) -> Digest
    decreases k,
{
    if k == 0 {
        s
    } else {
        let d = bool_digest(h, s, items, beta, groups, (k - 1) as nat);
        let m = groups[k - 1];
        honest(h, bool_start(h, d, m), bool_polys(h, d, items, beta, m), m as nat, m as nat).1
    }
}

/// The claims after those of the first `k` checks were added.
pub open spec fn with_range_claims(
    claims: Seq<Seq<Assertion>>,
    items: Seq<RangeItem>,
    points: Seq<Seq<GoldilocksExt2>>,
    parts: Seq<Seq<Elem>>,
    chs: Seq<Elem>,
    k: nat,
) -> Seq<Seq<Assertion>>
    decreases k,
{
    if k == 0 {
        claims
    } else {
        let before = with_range_claims(claims, items, points, parts, chs, (k - 1) as nat);
        let e = items[k - 1].aux as int;
        before.update(e, before[e].push(items[k - 1].claim(points[k - 1], parts[k - 1], chs)))
    }
}

/// The words of points.
pub open spec fn point_lists(ps: Seq<Vec<GoldilocksExt2>>) -> Seq<Seq<GoldilocksExt2>> {
    ps.map_values(|p: Vec<GoldilocksExt2>| p@)
}

/// What an honest prover sends for range checks.
pub open spec fn range_honest(
    h: spec_fn(Digest, Digest) -> Digest,
    s: Digest,
    items: Seq<RangeItem>,
    proof: LookupProof,
) -> bool {
    let groups = group_sizes(item_sizes(items));
    let beta = range_beta(h, s);
    let parts = range_parts(h, s, items);
    &&& proof.table_proofs.len() == 1
    &&& honest_proof(
        h,
        range_start(h, s, item_sizes(items), item_claimed(items)),
        range_polys(h, s, items),
        5,
        proof.table_proofs[0],
    )
    &&& proof.middle_claims.len() == items.len()
    &&& forall|i: int|
        0 <= i < items.len() ==> (#[trigger] proof.middle_claims[i])@ == seq![
            word_of(inner(parts[i], bit_table())),
            word_of(mass(parts[i])),
        ]
    &&& proof.bool_proofs.len() == groups.len()
    &&& forall|k: int|
        0 <= k < groups.len() ==> {
            let d = bool_digest(h, range_mid(h, s, items), items, beta, groups, k as nat);
            honest_proof(
                h,
                bool_start(h, d, groups[k]),
                bool_polys(h, d, items, beta, groups[k]),
                groups[k] as nat,
                #[trigger] proof.bool_proofs[k],
            )
        }
}

/// Finds the last claim with a point.
fn find_point(claims: &Vec<Claim>) -> (r: Option<usize>)
    ensures
        match r {
            Some(i) => i < claims.len() && last_point(claim_list(claims@)) == Some(
                claims[i as int].point@,
            ),
            None => last_point(claim_list(claims@)) is None,
        },
{
    let mut i: usize = claims.len();
    let ghost all = claim_list(claims@);
    assert(all.take(i as int) =~= all);
    while i > 0
        invariant
            i <= claims.len(),
            all == claim_list(claims@),
            last_point(all) == last_point(all.take(i as int)),
        decreases i,
    {
        proof {
            assert(all.take(i as int).drop_last() =~= all.take(i - 1));
            assert(all.take(i as int).last() == claims[i - 1]@);
        }
        i = i - 1;
        if claims[i].point.len() > 0 {
            return Some(i);
        }
    }
    None
}

/// The bit planes of a table of bits at a point of the inputs.
fn bit_planes_at(words: &Vec<GoldilocksField>, n: usize, point: &[GoldilocksExt2]) -> (r: Vec<
    GoldilocksExt2,
>)
    requires
        point.len() == n,
        n + 5 < usize::BITS,
        words.len() == pow2((n + 5) as nat),
    ensures
        r.len() == 32,
        ext_elems(r@) == bit_planes(words@, n as nat, ext_elems(point@)),
{
    let size: usize = pow2_usize(n);
    let eq: Vec<GoldilocksExt2> = evaluate_lagrange_basis_ext2(point);
    let ghost pt = ext_elems(point@);
    proof {
        lemma2_to64();
        lemma_pow2_adds(n as nat, 5);
        assert(words.len() == 32 * size);
    }
    let mut r: Vec<GoldilocksExt2> = Vec::new();
    let mut y: usize = 0;
    while y < 32
        invariant
            y <= 32,
            r.len() == y,
            size == pow2(n as nat),
            words.len() == 32 * size,
            eq.len() == size,
            forall|x: int| 0 <= x < eq.len() ==> (#[trigger] eq[x])@ == eq_weight(x, pt),
            forall|k: int|
                0 <= k < y ==> (#[trigger] r[k])@ == bit_planes(words@, n as nat, pt)[k],
        decreases 32 - y,
    {
        let mut acc: GoldilocksExt2 = GoldilocksExt2::zero();
        assert(y * size + size <= 32 * size) by (nonlinear_arith)
            requires
                y < 32,
                0 <= size,
        ;
        let base: usize = y * size;
        let ghost f = |x: int| bit_weight(words@, n as nat, pt, y as int, x);
        let mut x: usize = 0;
        while x < size
            invariant
                x <= size,
                y < 32,
                size == pow2(n as nat),
                base == y * size,
                base + size <= words.len(),
                eq.len() == size,
                forall|x: int| 0 <= x < eq.len() ==> (#[trigger] eq[x])@ == eq_weight(x, pt),
                f == (|x: int| bit_weight(words@, n as nat, pt, y as int, x)),
                acc@ == sum(x as nat, f),
                acc.canonical(),
            decreases size - x,
        {
            if words[base + x].0 != 0 {
                acc = ext2_add(acc, eq[x]);
                assert(f(x as int) == eq[x as int]@);
            } else {
                proof {
                    assert(f(x as int) == zero());
                    crate::field::elem::lemma_add_zero(acc@);
                }
            }
            x = x + 1;
        }
        r.push(acc);
        y = y + 1;
    }
    assert(ext_elems(r@) =~= bit_planes(words@, n as nat, pt));
    r
}

/// The sum of all entries.
fn mass_of(part: &Vec<GoldilocksExt2>) -> (r: GoldilocksExt2)
    ensures
        r@ == mass(ext_elems(part@)),
        r.canonical(),
{
    let mut acc: GoldilocksExt2 = GoldilocksExt2::zero();
    let ghost p = ext_elems(part@);
    let ghost f = |y: int| p[y];
    let mut y: usize = 0;
    while y < part.len()
        invariant
            y <= part.len(),
            p == ext_elems(part@),
            f == (|y: int| p[y]),
            acc@ == sum(y as nat, f),
            acc.canonical(),
        decreases part.len() - y,
    {
        acc = ext2_add(acc, part[y]);
        assert(f(y as int) == part[y as int]@);
        y = y + 1;
    }
    acc
}

/// The table of bit weights, with `alpha` added to every entry.
fn bit_words(alpha: GoldilocksExt2) -> (r: Vec<GoldilocksExt2>)
    ensures
        r.len() == 32,
        ext_elems(r@) == shifted(bit_table(), alpha@),
{
    let mut r: Vec<GoldilocksExt2> = Vec::new();
    let mut y: usize = 0;
    while y < 32
        invariant
            y <= 32,
            r.len() == y,
            forall|k: int|
                0 <= k < y ==> (#[trigger] r[k])@ == embed(pow2(k as nat) as int) + alpha@,
        decreases 32 - y,
    {
        r.push(
            ext2_add(GoldilocksExt2::from_base(GoldilocksField(pow2_u64(y as u64))), alpha),
        );
        y = y + 1;
    }
    assert(ext_elems(r@) =~= shifted(bit_table(), alpha@));
    r
}

/// The table of bit weights.
fn plain_bit_words() -> (r: Vec<GoldilocksExt2>)
    ensures
        r.len() == 32,
        ext_elems(r@) == bit_table(),
{
    let mut r: Vec<GoldilocksExt2> = Vec::new();
    let mut y: usize = 0;
    while y < 32
        invariant
            y <= 32,
            r.len() == y,
            forall|k: int| 0 <= k < y ==> (#[trigger] r[k])@ == embed(pow2(k as nat) as int),
        decreases 32 - y,
    {
        r.push(GoldilocksExt2::from_base(GoldilocksField(pow2_u64(y as u64))));
        y = y + 1;
    }
    assert(ext_elems(r@) =~= bit_table());
    r
}

/// Inserts a number into an increasing list unless it is there.
fn insert_size(v: &mut Vec<usize>, x: usize)
    ensures
        final(v)@ == insert_sorted(old(v)@, x),
{
    let mut tail: Vec<usize> = Vec::new();
    let ghost before = v@;
    let mut done: bool = false;
    while !done
        invariant
            !done ==> insert_sorted(before, x) == insert_sorted(v@, x) + rev(tail@),
            done ==> insert_sorted(before, x) == v@ + rev(tail@),
        decreases if done { 0int } else { v.len() + 1 },
    {
        let n: usize = v.len();
        if n == 0 || v[n - 1] < x {
            v.push(x);
            done = true;
        } else if v[n - 1] == x {
            done = true;
        } else {
            let last: usize = v[n - 1];
            let ghost cur = v@;
            v.pop();
            tail.push(last);
            proof {
                assert(v@ =~= cur.drop_last());
                assert(rev(tail@) =~= seq![last] + rev(tail@.drop_last()));
                assert(insert_sorted(cur, x) =~= insert_sorted(v@, x).push(last));
                assert(insert_sorted(v@, x).push(last) + rev(tail@.drop_last()) =~= insert_sorted(
                    v@,
                    x,
                ) + rev(tail@));
            }
        }
    }
    let ghost mid = v@;
    let ghost all = rev(tail@);
    while tail.len() > 0
        invariant
            mid + all == v@ + rev(tail@),
        decreases tail.len(),
    {
        let ghost t = tail@;
        let k: usize = tail.len() - 1;
        let last: usize = tail[k];
        tail.pop();
        let ghost cur = v@;
        v.push(last);
        proof {
            assert(rev(t) =~= seq![last] + rev(tail@));
            assert(cur + rev(t) =~= v@ + rev(tail@));
        }
    }
    assert(v@ + rev(tail@) =~= v@);
}

/// The sequence read backwards.
spec fn rev(s: Seq<usize>) -> Seq<usize> {
    Seq::new(s.len(), |i: int| s[s.len() - 1 - i])
}

/// The positions of the checks whose bits have `m` variables.
fn members_of(sizes: &Vec<usize>, m: usize, Ghost(ns): Ghost<Seq<nat>>) -> (r: Vec<usize>)
    requires
        sizes.len() == ns.len(),
        forall|i: int| 0 <= i < ns.len() ==> #[trigger] sizes[i] == ns[i] + 5,
    ensures
        r@.map_values(|x: usize| x as int) == members(ns, m, ns.len()),
        forall|k: int| 0 <= k < r.len() ==> (#[trigger] r[k]) < sizes.len() && sizes[r[k] as int] == m,
{
    let mut r: Vec<usize> = Vec::new();
    let mut i: usize = 0;
    assert(r@.map_values(|x: usize| x as int) =~= members(ns, m, 0));
    while i < sizes.len()
        invariant
            i <= sizes.len(),
            sizes.len() == ns.len(),
            forall|i: int| 0 <= i < ns.len() ==> #[trigger] sizes[i] == ns[i] + 5,
            r@.map_values(|x: usize| x as int) == members(ns, m, i as nat),
            forall|k: int|
                0 <= k < r.len() ==> (#[trigger] r[k]) < sizes.len() && sizes[r[k] as int] == m,
        decreases sizes.len() - i,
    {
        let ghost before = r@;
        if sizes[i] == m {
            r.push(i);
            assert(r@.map_values(|x: usize| x as int) =~= before.map_values(
                |x: usize| x as int,
            ).push(i as int));
        }
        i = i + 1;
    }
    r
}

/// The distinct numbers of variables, in increasing order.
fn sizes_of(sizes: &Vec<usize>, Ghost(ns): Ghost<Seq<nat>>) -> (r: Vec<usize>)
    requires
        sizes.len() == ns.len(),
        forall|i: int| 0 <= i < ns.len() ==> #[trigger] sizes[i] == ns[i] + 5,
    ensures
        r@ == group_sizes(ns),
{
    let mut r: Vec<usize> = Vec::new();
    let mut i: usize = 0;
    assert(ns.take(0) =~= Seq::<nat>::empty());
    while i < sizes.len()
        invariant
            i <= sizes.len(),
            sizes.len() == ns.len(),
            forall|i: int| 0 <= i < ns.len() ==> #[trigger] sizes[i] == ns[i] + 5,
            r@ == group_sizes(ns.take(i as int)),
        decreases sizes.len() - i,
    {
        proof {
            assert(ns.take(i as int + 1).drop_last() =~= ns.take(i as int));
        }
        insert_size(&mut r, sizes[i]);
        i = i + 1;
    }
    assert(ns.take(i as int) =~= ns);
    r
}

/// Every group belongs to some check.
pub proof fn lemma_group_sizes(ns: Seq<nat>, x: usize)
    requires
        group_sizes(ns).contains(x),
        forall|i: int| 0 <= i < ns.len() ==> (#[trigger] ns[i]) + 5 <= usize::MAX,
    ensures
        exists|i: int| 0 <= i < ns.len() && #[trigger] ns[i] + 5 == x,
    decreases ns.len(),
{
    if ns.len() > 0 {
        let m = ns.drop_last();
        let y = (ns.last() + 5) as usize;
        assert(ns[ns.len() - 1] + 5 <= usize::MAX);
        lemma_insert_contains(group_sizes(m), y, x);
        if x != y {
            assert forall|i: int| 0 <= i < m.len() implies (#[trigger] m[i]) + 5 <= usize::MAX by {
                assert(ns[i] + 5 <= usize::MAX);
            }
            lemma_group_sizes(m, x);
            let i = choose|i: int| 0 <= i < m.len() && #[trigger] m[i] + 5 == x;
            assert(ns[i] + 5 == x);
        } else {
            assert(ns[ns.len() - 1] + 5 == x);
        }
    }
}

proof fn lemma_insert_contains(v: Seq<usize>, y: usize, x: usize)
    ensures
        insert_sorted(v, y).contains(x) ==> x == y || v.contains(x),
    decreases v.len(),
{
    if insert_sorted(v, y).contains(x) {
        let w = insert_sorted(v, y);
        let i = choose|i: int| 0 <= i < w.len() && w[i] == x;
        if v.len() == 0 || v.last() == y {
        } else if v.last() < y {
            if i < v.len() {
                assert(v[i] == x);
            }
        } else {
            lemma_insert_contains(v.drop_last(), y, x);
            let u = insert_sorted(v.drop_last(), y);
            if i < u.len() {
                assert(u[i] == x);
                assert(u.contains(x));
                if x != y {
                    let j = choose|j: int| 0 <= j < v.drop_last().len() && v.drop_last()[j] == x;
                    assert(v[j] == x);
                }
            } else {
                assert(v[v.len() - 1] == x);
            }
        }
    }
}

impl Dag {
    /// Every checked node has an input, and an output for its bits.
    pub open spec fn range_nodes_ok(&self) -> bool {
        forall|i: int|
            0 <= i < self.range.len() ==> (#[trigger] self.range[i]) < self.nodes.len()
                && self.nodes[self.range[i] as int].inputs.len() > 0
                && self.nodes[self.range[i] as int]@.aux_slot() < self.nodes[self.range[i] as int].outputs.len()
    }

    /// The edge that check `i` is about.
    pub open spec fn range_inp(&self, i: int) -> EdgeId {
        self.nodes[self.range[i] as int].inputs[0]
    }

    /// The edge with the bits of check `i`.
    pub open spec fn range_aux(&self, i: int) -> EdgeId {
        let node = self.nodes[self.range[i] as int];
        node.outputs[node@.aux_slot()]
    }

    /// What check `i` reads.
    pub open spec fn range_item(
        &self,
        witnesses: Seq<Vec<Witness>>,
        claims: Seq<Seq<Assertion>>,
        i: int,
    ) -> RangeItem {
        let poly = witnesses[self.range_aux(i) as int][0].data->0->Dense_0;
        RangeItem {
            aux: self.range_aux(i),
            n: (poly.n - 5) as nat,
            words: poly.evaluations@,
            point: last_point(claims[self.range_inp(i) as int]),
        }
    }

    /// What all checks read.
    pub open spec fn range_items(
        &self,
        witnesses: Seq<Vec<Witness>>,
        claims: Seq<Seq<Assertion>>,
    ) -> Seq<RangeItem> {
        Seq::new(self.range.len() as nat, |i: int| self.range_item(witnesses, claims, i))
    }

    /// The bits of check `i` are known.
    pub open spec fn bits_known(&self, witnesses: Seq<Vec<Witness>>, i: int) -> bool {
        let w = witnesses[self.range_aux(i) as int];
        &&& w.len() > 0
        &&& w[0].data is Some
        &&& w[0].data->0 is Dense
        &&& w[0].data->0->Dense_0.valid()
        &&& w[0].data->0->Dense_0.n >= 5
    }

    /// The bits of check `i` are known and are those of item `i`.
    pub open spec fn item_known(
        &self,
        witnesses: Seq<Vec<Witness>>,
        items: Seq<RangeItem>,
        i: int,
    ) -> bool {
        let poly = witnesses[self.range_aux(i) as int][0].data->0->Dense_0;
        &&& self.bits_known(witnesses, i)
        &&& items[i].words == poly.evaluations@
        &&& items[i].n + 5 == poly.n
    }

    /// The bits of check `i` are known, and a claimed point covers the inputs.
    pub open spec fn range_ready(
        &self,
        witnesses: Seq<Vec<Witness>>,
        claims: Seq<Seq<Assertion>>,
        i: int,
    ) -> bool {
        self.bits_known(witnesses, i) && self.range_item(witnesses, claims, i).wf()
    }

    /// The bits of check `i`.
    fn range_bits<'a>(&self, witnesses: &'a [Vec<Witness>], i: usize) -> (r: (
        EdgeId,
        &'a Vec<GoldilocksField>,
        usize,
    ))
        requires
            self.edges_ok(),
            self.range_nodes_ok(),
            witnesses.len() == self.num_edges,
            i < self.range.len(),
            self.bits_known(witnesses@, i as int),
        ensures
            r.0 == self.range_aux(i as int),
            r.0 < self.num_edges,
            r.1 == witnesses[self.range_aux(i as int) as int][0].data->0->Dense_0.evaluations,
            r.2 == witnesses[self.range_aux(i as int) as int][0].data->0->Dense_0.n,
            r.1.len() == pow2(r.2 as nat),
            5 <= r.2 < usize::BITS,
    {
        let nid: usize = self.range[i];
        let slot: usize = if self.nodes[nid].kind.is_nonnegative() {
            0
        } else {
            1
        };
        let aux: usize = self.nodes[nid].outputs[slot];
        assert(self.nodes[nid as int].outputs[slot as int] < self.num_edges);
        match &witnesses[aux][0].data {
            Some(PolyData::Dense(p)) => (aux, &p.evaluations, p.n),
            _ => vstd::pervasive::unreached(),
        }
    }
}

impl Dag {
    /// Settles the points at which the checks evaluate their bits.
    fn range_points<F: Fn(Digest, Digest) -> Digest>(
        &self,
        witnesses: &[Vec<Witness>],
        claims: &Vec<Vec<Claim>>,
        transcript: &mut Transcript<F>,
    ) -> (r: Vec<Vec<GoldilocksExt2>>)
        requires
            self.edges_ok(),
            self.range_nodes_ok(),
            witnesses.len() == self.num_edges,
            claims.len() == self.num_edges,
            old(transcript).wf(),
            forall|i: int|
                0 <= i < self.range.len() ==> #[trigger] self.range_ready(
                    witnesses@,
                    claim_lists(claims@),
                    i,
                ),
        ensures
            final(transcript).compress == old(transcript).compress,
            r.len() == self.range.len(),
            ({
                let items = self.range_items(witnesses@, claim_lists(claims@));
                &&& forall|i: int|
                    0 <= i < items.len() ==> ext_elems((#[trigger] r[i])@) == item_point(
                        old(transcript).hash(),
                        old(transcript).state,
                        items,
                        i,
                    ) && r[i].len() == items[i].n
                &&& forall|i: int|
                    0 <= i < items.len() ==> (#[trigger] r[i])@ == point_words(
                        old(transcript).hash(),
                        old(transcript).state,
                        items,
                        i,
                    )
                &&& final(transcript).state == points_digest(
                    old(transcript).hash(),
                    old(transcript).state,
                    item_sizes(items),
                    item_claimed(items),
                    items.len(),
                )
            }),
    {
        let ghost h = transcript.hash();
        let ghost s = transcript.state;
        let ghost comp = transcript.compress;
        let ghost lists = claim_lists(claims@);
        let ghost items = self.range_items(witnesses@, lists);
        let mut r: Vec<Vec<GoldilocksExt2>> = Vec::new();
        let mut i: usize = 0;
        while i < self.range.len()
            invariant
                i <= self.range.len(),
                self.edges_ok(),
                self.range_nodes_ok(),
                witnesses.len() == self.num_edges,
                claims.len() == self.num_edges,
                lists == claim_lists(claims@),
                items == self.range_items(witnesses@, lists),
                forall|i: int|
                    0 <= i < self.range.len() ==> #[trigger] self.range_ready(
                        witnesses@,
                        lists,
                        i,
                    ),
                transcript.wf(),
                transcript.compress == comp,
                h == transcript.hash(),
                transcript.state == points_digest(
                    h,
                    s,
                    item_sizes(items),
                    item_claimed(items),
                    i as nat,
                ),
                r.len() == i,
                forall|k: int|
                    0 <= k < i ==> ext_elems((#[trigger] r[k])@) == item_point(h, s, items, k)
                        && r[k].len() == items[k].n && r[k]@ == point_words(h, s, items, k),
            decreases self.range.len() - i,
        {
            assert(self.range_ready(witnesses@, lists, i as int));
            let (aux, words, vars) = self.range_bits(witnesses, i);
            let n: usize = vars - BIT_TABLE_VARS;
            let nid: usize = self.range[i];
            let inp: usize = self.nodes[nid].inputs[0];
            assert(self.nodes[nid as int].inputs[0] < self.num_edges);
            assert(lists[inp as int] == claim_list(claims[inp as int]@));
            let ghost item = items[i as int];
            match find_point(&claims[inp]) {
                Some(k) => {
                    let point: &[GoldilocksExt2] = vstd::slice::slice_subrange(
                        claims[inp][k].point.as_slice(),
                        0,
                        n,
                    );
                    let p: Vec<GoldilocksExt2> = clone_point(point);
                    assert(ext_elems(p@) =~= ext_elems(item.point->0).take(item.n as int));
                    assert(p@ =~= (item.point->0).take(item.n as int));
                    r.push(p);
                },
                None => {
                    let p: Vec<GoldilocksExt2> = transcript.challenges_ext2(
                        Label::RangeInpChallenge,
                        n,
                    );
                    proof {
                        assert(ext_elems(p@).len() == n);
                        lemma_words_of(p@);
                    }
                    r.push(p);
                },
            }
            i = i + 1;
        }
        r
    }

    /// The bit planes of all checks at their points.
    fn range_planes(&self, witnesses: &[Vec<Witness>], points: &Vec<Vec<GoldilocksExt2>>) -> (r: Vec<
        Vec<GoldilocksExt2>,
    >)
        requires
            self.edges_ok(),
            self.range_nodes_ok(),
            witnesses.len() == self.num_edges,
            points.len() == self.range.len(),
            forall|i: int|
                0 <= i < self.range.len() ==> #[trigger] self.bits_known(witnesses@, i)
                    && points[i].len() + 5 == witnesses[self.range_aux(i) as int][0].data->0->Dense_0.n,
        ensures
            r.len() == points.len(),
            forall|i: int|
                0 <= i < r.len() ==> (#[trigger] r[i]).len() == 32 && ext_elems(r[i]@)
                    == bit_planes(
                    witnesses[self.range_aux(i) as int][0].data->0->Dense_0.evaluations@,
                    points[i].len() as nat,
                    ext_elems(points[i]@),
                ),
    {
        let mut r: Vec<Vec<GoldilocksExt2>> = Vec::new();
        let mut i: usize = 0;
        while i < points.len()
            invariant
                i <= points.len(),
                self.edges_ok(),
                self.range_nodes_ok(),
                witnesses.len() == self.num_edges,
                points.len() == self.range.len(),
                forall|i: int|
                    0 <= i < self.range.len() ==> #[trigger] self.bits_known(witnesses@, i)
                        && points[i].len() + 5 == witnesses[self.range_aux(i) as int][0].data->0->Dense_0.n,
                r.len() == i,
                forall|k: int|
                    0 <= k < r.len() ==> (#[trigger] r[k]).len() == 32 && ext_elems(r[k]@)
                        == bit_planes(
                        witnesses[self.range_aux(k) as int][0].data->0->Dense_0.evaluations@,
                        points[k].len() as nat,
                        ext_elems(points[k]@),
                    ),
            decreases points.len() - i,
        {
            assert(self.bits_known(witnesses@, i as int));
            let (aux, words, vars) = self.range_bits(witnesses, i);
            let n: usize = vars - BIT_TABLE_VARS;
            r.push(bit_planes_at(words, n, points[i].as_slice()));
            i = i + 1;
        }
        r
    }

    /// Claims what the bits of all checks have to be at the challenges of the table.
    #[verifier::rlimit(30)]
    fn push_range_claims(
        &self,
        witnesses: &[Vec<Witness>],
        claims: &mut Vec<Vec<Claim>>,
        points: &Vec<Vec<GoldilocksExt2>>,
        parts: &Vec<Vec<GoldilocksExt2>>,
        challenges: &Vec<GoldilocksExt2>,
        Ghost(chs): Ghost<Seq<Elem>>,
    )
        requires
            self.edges_ok(),
            self.range_nodes_ok(),
            witnesses.len() == self.num_edges,
            old(claims).len() == self.num_edges,
            points.len() == self.range.len(),
            parts.len() == self.range.len(),
            forall|i: int| 0 <= i < parts.len() ==> (#[trigger] parts[i]).len() == 32,
            challenges@ == words_of(chs),
            chs.len() == 5,
            all_canon(chs),
            forall|i: int|
                0 <= i < self.range.len() ==> #[trigger] self.range_ready(
                    witnesses@,
                    claim_lists(old(claims)@),
                    i,
                ),
        ensures
            final(claims).len() == old(claims).len(),
            claim_lists(final(claims)@) == with_range_claims(
                claim_lists(old(claims)@),
                self.range_items(witnesses@, claim_lists(old(claims)@)),
                point_lists(points@),
                poly_elems(parts@),
                chs,
                self.range.len() as nat,
            ),
    {
        let ghost before = claim_lists(claims@);
        let ghost items = self.range_items(witnesses@, before);
        let ghost ps = poly_elems(parts@);
        let ghost pts = point_lists(points@);
        let eq: Vec<GoldilocksExt2> = evaluate_lagrange_basis_ext2(challenges.as_slice());
        proof {
            lemma2_to64();
            crate::sumcheck::fiat_shamir::lemma_elems_of_words(chs);
            assert(ext_elems(eq@) =~= eq_table(chs));
        }
        let mut fresh: Vec<Claim> = Vec::new();
        let mut i: usize = 0;
        while i < self.range.len()
            invariant
                i <= self.range.len(),
                self.edges_ok(),
                self.range_nodes_ok(),
                witnesses.len() == self.num_edges,
                claims.len() == self.num_edges,
                before == claim_lists(claims@),
                items == self.range_items(witnesses@, before),
                ps == poly_elems(parts@),
                pts == point_lists(points@),
                points.len() == self.range.len(),
                parts.len() == self.range.len(),
                forall|i: int| 0 <= i < parts.len() ==> (#[trigger] parts[i]).len() == 32,
                challenges@ == words_of(chs),
                eq.len() == 32,
                ext_elems(eq@) == eq_table(chs),
                forall|i: int|
                    0 <= i < self.range.len() ==> #[trigger] self.range_ready(
                        witnesses@,
                        before,
                        i,
                    ),
                fresh.len() == i,
                forall|k: int| 0 <= k < i ==> (#[trigger] fresh[k])@ == items[k].claim(
                        pts[k],
                        ps[k],
                        chs,
                    ),
            decreases self.range.len() - i,
        {
            assert(self.range_ready(witnesses@, before, i as int));
            let (aux, _words, _vars) = self.range_bits(witnesses, i);
            let mut point: Vec<GoldilocksExt2> = clone_point(points[i].as_slice());
            assert(point@ == pts[i as int]);
            append_point(&mut point, challenges);
            assert(parts[i as int].len() == 32);
            let eval: GoldilocksExt2 = inner_product(&eq, &parts[i]);
            proof {
                lemma_word_of(eval);
            }
            fresh.push(Claim { edge_id: aux, sparse_id: 0, point, eval });
            i = i + 1;
        }
        let mut k: usize = 0;
        assert forall|j: int| 0 <= j < fresh.len() implies (#[trigger] fresh[j]).edge_id < claims.len() by {
            assert(self.range_ready(witnesses@, before, j));
            assert(fresh[j]@ == items[j].claim(pts[j], ps[j], chs));
            let node = self.nodes[self.range[j] as int];
            assert(node.outputs[node@.aux_slot()] < self.num_edges);
        }
        while k < fresh.len()
            invariant
                k <= fresh.len() == items.len(),
                claims.len() == self.num_edges,
                forall|j: int|
                    0 <= j < fresh.len() ==> (#[trigger] fresh[j])@ == items[j].claim(pts[j], ps[j], chs)
                        && fresh[j].edge_id < claims.len(),
                claim_lists(claims@) == with_range_claims(before, items, pts, ps, chs, k as nat),
            decreases fresh.len() - k,
        {
            let claim: Claim = fresh[k].clone();
            assert(fresh[k as int].edge_id < claims.len());
            let e: usize = claim.edge_id;
            let ghost now = claim_lists(claims@);
            let ghost a = claim@;
            claims[e].push(claim);
            proof {
                let after = claim_lists(claims@);
                assert(after[e as int] =~= now[e as int].push(a));
                assert(after =~= now.update(e as int, now[e as int].push(a)));
            }
            k = k + 1;
        }
    }
}

/// Appends coordinates to a point.
pub(crate) fn append_point(point: &mut Vec<GoldilocksExt2>, more: &Vec<GoldilocksExt2>)
    ensures
        final(point)@ == old(point)@ + more@,
{
    let ghost before = point@;
    let mut t: usize = 0;
    assert(point@ =~= before + more@.take(0));
    while t < more.len()
        invariant
            t <= more.len(),
            point@ == before + more@.take(t as int),
        decreases more.len() - t,
    {
        point.push(more[t]);
        t = t + 1;
        assert(point@ =~= before + more@.take(t as int));
    }
    assert(more@.take(t as int) =~= more@);
}

impl Dag {
    /// The combined bit defect of the listed checks.
    fn defect_of(
        &self,
        witnesses: &[Vec<Witness>],
        group: &Vec<usize>,
        betas: &Vec<GoldilocksExt2>,
        size: usize,
        Ghost(items): Ghost<Seq<RangeItem>>,
        Ghost(beta): Ghost<Elem>,
    ) -> (r: Vec<GoldilocksExt2>)
        requires
            self.edges_ok(),
            self.range_nodes_ok(),
            witnesses.len() == self.num_edges,
            betas.len() == self.range.len(),
            items.len() == self.range.len(),
            forall|i: int| 0 <= i < betas.len() ==> (#[trigger] betas[i])@ == power(beta, i as nat),
            forall|k: int|
                0 <= k < group.len() ==> (#[trigger] group[k]) < self.range.len()
                    && self.bits_known(witnesses@, group[k] as int)
                    && items[group[k] as int].words == witnesses[self.range_aux(
                    group[k] as int,
                ) as int][0].data->0->Dense_0.evaluations@ && items[group[k] as int].words.len() == size,
        ensures
            r.len() == size,
            ext_elems(r@) == group_defect(
                item_words(items),
                group@.map_values(|x: usize| x as int),
                beta,
                size as nat,
            ),
    {
        let mut r: Vec<GoldilocksExt2> = Vec::new();
        let ghost words = item_words(items);
        let ghost ids = group@.map_values(|x: usize| x as int);
        let ghost target = group_defect(words, ids, beta, size as nat);
        let mut x: usize = 0;
        while x < size
            invariant
                x <= size,
                r.len() == x,
                self.edges_ok(),
                self.range_nodes_ok(),
                witnesses.len() == self.num_edges,
                betas.len() == self.range.len(),
                items.len() == self.range.len(),
                words == item_words(items),
                ids == group@.map_values(|x: usize| x as int),
                target == group_defect(words, ids, beta, size as nat),
                forall|i: int|
                    0 <= i < betas.len() ==> (#[trigger] betas[i])@ == power(beta, i as nat),
                forall|k: int|
                    0 <= k < group.len() ==> (#[trigger] group[k]) < self.range.len()
                        && self.bits_known(witnesses@, group[k] as int)
                        && items[group[k] as int].words == witnesses[self.range_aux(
                        group[k] as int,
                    ) as int][0].data->0->Dense_0.evaluations@ && items[group[k] as int].words.len()
                        == size,
                forall|j: int| 0 <= j < x ==> (#[trigger] r[j])@ == target[j],
            decreases size - x,
        {
            let mut acc: GoldilocksExt2 = GoldilocksExt2::zero();
            let ghost f = |k: int| bit_defect(words[ids[k]])[x as int] * power(beta, ids[k] as nat);
            let mut k: usize = 0;
            while k < group.len()
                invariant
                    k <= group.len(),
                    x < size,
                    self.edges_ok(),
                    self.range_nodes_ok(),
                    witnesses.len() == self.num_edges,
                    betas.len() == self.range.len(),
                    items.len() == self.range.len(),
                    words == item_words(items),
                    ids == group@.map_values(|x: usize| x as int),
                    forall|i: int|
                        0 <= i < betas.len() ==> (#[trigger] betas[i])@ == power(beta, i as nat),
                    forall|k: int|
                        0 <= k < group.len() ==> (#[trigger] group[k]) < self.range.len()
                            && self.bits_known(witnesses@, group[k] as int)
                            && items[group[k] as int].words == witnesses[self.range_aux(
                            group[k] as int,
                        ) as int][0].data->0->Dense_0.evaluations@
                            && items[group[k] as int].words.len() == size,
                    f == (|k: int|
                        bit_defect(words[ids[k]])[x as int] * power(beta, ids[k] as nat)),
                    acc@ == sum(k as nat, f),
                decreases group.len() - k,
            {
                let idx: usize = group[k];
                assert(self.bits_known(witnesses@, group[k as int] as int));
                let (aux, bits, vars) = self.range_bits(witnesses, idx);
                let b: GoldilocksExt2 = GoldilocksExt2::from_base(bits[x]);
                let b_minus_1: GoldilocksExt2 = ext2_sub(b, GoldilocksExt2::one());
                let product: GoldilocksExt2 = ext2_mul(ext2_mul(b, b_minus_1), betas[idx]);
                proof {
                    assert(ids[k as int] == idx);
                    assert(words[idx as int][x as int] == bits[x as int]);
                    assert(f(k as int) == product@);
                }
                acc = ext2_add(acc, product);
                k = k + 1;
            }
            r.push(acc);
            x = x + 1;
        }
        assert(ext_elems(r@) =~= target);
        r
    }

    /// Proves that the bits of all checks are bits, one group of equal size after the other.
    #[verifier::rlimit(30)]
    fn prove_bits<F: Fn(Digest, Digest) -> Digest>(
        &self,
        witnesses: &[Vec<Witness>],
        betas: &Vec<GoldilocksExt2>,
        transcript: &mut Transcript<F>,
        Ghost(items): Ghost<Seq<RangeItem>>,
        Ghost(beta): Ghost<Elem>,
    ) -> (r: Vec<SumcheckProof>)
        requires
            self.edges_ok(),
            self.range_nodes_ok(),
            witnesses.len() == self.num_edges,
            old(transcript).wf(),
            betas.len() == self.range.len(),
            items.len() == self.range.len(),
            forall|i: int| 0 <= i < betas.len() ==> (#[trigger] betas[i])@ == power(beta, i as nat),
            forall|i: int|
                0 <= i < self.range.len() ==> #[trigger] self.item_known(witnesses@, items, i),
        ensures
            final(transcript).compress == old(transcript).compress,
            ({
                let h = old(transcript).hash();
                let s = old(transcript).state;
                let groups = group_sizes(item_sizes(items));
                &&& r.len() == groups.len()
                &&& final(transcript).state == bool_digest(
                    h,
                    s,
                    items,
                    beta,
                    groups,
                    groups.len(),
                )
                &&& forall|k: int|
                    0 <= k < groups.len() ==> {
                        let d = bool_digest(h, s, items, beta, groups, k as nat);
                        honest_proof(
                            h,
                            bool_start(h, d, groups[k]),
                            bool_polys(h, d, items, beta, groups[k]),
                            groups[k] as nat,
                            #[trigger] r[k],
                        )
                    }
            }),
    {
        let ghost h = transcript.hash();
        let ghost s = transcript.state;
        let ghost comp = transcript.compress;
        let ghost ns = item_sizes(items);
        let mut sizes: Vec<usize> = Vec::new();
        let mut i: usize = 0;
        while i < self.range.len()
            invariant
                i <= self.range.len(),
                self.edges_ok(),
                self.range_nodes_ok(),
                witnesses.len() == self.num_edges,
                items.len() == self.range.len(),
                ns == item_sizes(items),
                forall|i: int|
                    0 <= i < self.range.len() ==> #[trigger] self.item_known(witnesses@, items, i),
                sizes.len() == i,
                forall|k: int| 0 <= k < i ==> #[trigger] sizes[k] == ns[k] + 5,
                forall|k: int| 0 <= k < i ==> (#[trigger] sizes[k]) < usize::BITS,
            decreases self.range.len() - i,
        {
            assert(self.item_known(witnesses@, items, i as int));
            let (aux, words, vars) = self.range_bits(witnesses, i);
            sizes.push(vars);
            i = i + 1;
        }
        let groups: Vec<usize> = sizes_of(&sizes, Ghost(ns));
        let mut r: Vec<SumcheckProof> = Vec::new();
        let mut g: usize = 0;
        while g < groups.len()
            invariant
                g <= groups.len(),
                groups@ == group_sizes(ns),
                self.edges_ok(),
                self.range_nodes_ok(),
                witnesses.len() == self.num_edges,
                betas.len() == self.range.len(),
                items.len() == self.range.len(),
                ns == item_sizes(items),
                sizes.len() == self.range.len(),
                forall|k: int| 0 <= k < sizes.len() ==> #[trigger] sizes[k] == ns[k] + 5,
                forall|k: int| 0 <= k < sizes.len() ==> (#[trigger] sizes[k]) < usize::BITS,
                forall|i: int|
                    0 <= i < betas.len() ==> (#[trigger] betas[i])@ == power(beta, i as nat),
                forall|i: int|
                    0 <= i < self.range.len() ==> #[trigger] self.item_known(witnesses@, items, i),
                transcript.wf(),
                transcript.compress == comp,
                h == transcript.hash(),
                transcript.state == bool_digest(h, s, items, beta, groups@, g as nat),
                r.len() == g,
                forall|k: int|
                    0 <= k < g ==> {
                        let d = bool_digest(h, s, items, beta, groups@, k as nat);
                        honest_proof(
                            h,
                            bool_start(h, d, groups[k]),
                            bool_polys(h, d, items, beta, groups[k]),
                            groups[k] as nat,
                            #[trigger] r[k],
                        )
                    },
            decreases groups.len() - g,
        {
            let m: usize = groups[g];
            let ghost d = transcript.state;
            proof {
                assert(groups@.contains(m));
                assert forall|i: int| 0 <= i < ns.len() implies (#[trigger] ns[i]) + 5 <= usize::MAX by {
                    assert(sizes[i] == ns[i] + 5);
                }
                lemma_group_sizes(ns, m);
                let j = choose|j: int| 0 <= j < ns.len() && #[trigger] ns[j] + 5 == m;
                assert(sizes[j] == m);
            }
            let point: Vec<GoldilocksExt2> = transcript.challenges_ext2(Label::BoolChallenge, m);
            assert(ext_elems(point@).len() == m);
            let eq: Vec<GoldilocksExt2> = evaluate_lagrange_basis_ext2(point.as_slice());
            let group: Vec<usize> = members_of(&sizes, m, Ghost(ns));
            let size: usize = pow2_usize(m);
            proof {
                assert forall|k: int| 0 <= k < group.len() implies (#[trigger] group[k])
                    < self.range.len() && self.bits_known(witnesses@, group[k] as int)
                    && items[group[k] as int].words == witnesses[self.range_aux(
                    group[k] as int,
                ) as int][0].data->0->Dense_0.evaluations@ && items[group[k] as int].words.len() == size by {
                    assert(sizes[group[k] as int] == m);
                    assert(self.item_known(witnesses@, items, group[k] as int));
                }
            }
            let c: Vec<GoldilocksExt2> = self.defect_of(
                witnesses,
                &group,
                betas,
                size,
                Ghost(items),
                Ghost(beta),
            );
            let mut polys: Vec<Vec<GoldilocksExt2>> = Vec::new();
            proof {
                assert(ext_elems(eq@) =~= eq_table(ext_elems(point@)));
                assert(ns.len() == items.len());
                assert(ext_elems(c@) == defect(items, beta, m));
            }
            polys.push(eq);
            polys.push(c);
            assert(poly_elems(polys@) =~= bool_polys(h, d, items, beta, m));
            let mut prover: CpuLinearSumcheckProverExt2 = CpuLinearSumcheckProverExt2::new(
                m,
                2,
                transcript,
            );
            let proof: SumcheckProof = prover.prove(&mut polys, transcript);
            r.push(proof);
            g = g + 1;
        }
        r
    }

    /// Proves that the checked numbers are spelled by bits, and claims what the bits have to be at
    /// the challenges.
    #[verifier::rlimit(40)]
    pub fn prove_range<F: Fn(Digest, Digest) -> Digest>(
        &self,
        witnesses: &[Vec<Witness>],
        claims: &mut Vec<Vec<Claim>>,
        transcript: &mut Transcript<F>,
    ) -> (proof: LookupProof)
        requires
            self.edges_ok(),
            self.range_nodes_ok(),
            witnesses.len() == self.num_edges,
            old(claims).len() == self.num_edges,
            old(transcript).wf(),
            forall|i: int|
                0 <= i < self.range.len() ==> #[trigger] self.range_ready(
                    witnesses@,
                    claim_lists(old(claims)@),
                    i,
                ),
        ensures
            final(transcript).compress == old(transcript).compress,
            final(claims).len() == old(claims).len(),
            self.range.len() == 0 ==> {
                &&& proof.table_proofs.len() == 0
                &&& proof.middle_claims.len() == 0
                &&& proof.bool_proofs.len() == 0
                &&& final(transcript).state == old(transcript).state
                &&& claim_lists(final(claims)@) == claim_lists(old(claims)@)
            },
            self.range.len() > 0 ==> {
                let items = self.range_items(witnesses@, claim_lists(old(claims)@));
                let h = old(transcript).hash();
                let s = old(transcript).state;
                let groups = group_sizes(item_sizes(items));
                &&& range_honest(h, s, items, proof)
                &&& final(transcript).state == bool_digest(
                    h,
                    range_mid(h, s, items),
                    items,
                    range_beta(h, s),
                    groups,
                    groups.len(),
                )
                &&& claim_lists(final(claims)@) == with_range_claims(
                    claim_lists(old(claims)@),
                    items,
                    range_words(h, s, items),
                    range_parts(h, s, items),
                    range_challenges(h, s, items),
                    items.len(),
                )
            },
    {
        if self.range.len() == 0 {
            return LookupProof {
                table_proofs: Vec::new(),
                middle_claims: Vec::new(),
                bool_proofs: Vec::new(),
            };
        }
        let ghost h = transcript.hash();
        let ghost s = transcript.state;
        let ghost before = claim_lists(claims@);
        let ghost items = self.range_items(witnesses@, before);
        let ghost ns = item_sizes(items);
        let ghost b = range_beta(h, s);
        let count: usize = self.range.len();
        let alpha: GoldilocksExt2 = transcript.challenge_ext2(Label::RangeAlpha);
        let beta: GoldilocksExt2 = transcript.challenge_ext2(Label::RangeBeta);
        let betas: Vec<GoldilocksExt2> = calc_pow_vec_ext2(beta, count);
        let points: Vec<Vec<GoldilocksExt2>> = self.range_points(witnesses, claims, transcript);
        proof {
            assert forall|i: int| 0 <= i < self.range.len() implies #[trigger] self.bits_known(
                witnesses@,
                i,
            ) && points[i].len() + 5 == witnesses[self.range_aux(i) as int][0].data->0->Dense_0.n by {
                assert(self.range_ready(witnesses@, before, i));
                assert(points[i].len() == items[i].n);
            }
        }
        let parts: Vec<Vec<GoldilocksExt2>> = self.range_planes(witnesses, &points);
        proof {
            assert forall|i: int| 0 <= i < items.len() implies poly_elems(parts@)[i] == range_parts(
                h,
                s,
                items,
            )[i] by {
                assert(ext_elems(points[i]@) == item_point(h, range_open(h, s), items, i));
                assert(parts[i].len() == 32);
            }
            assert(poly_elems(parts@) =~= range_parts(h, s, items));
        }
        let ghost rp = range_parts(h, s, items);
        let plain: Vec<GoldilocksExt2> = plain_bit_words();
        let mut middle_claims: Vec<Vec<GoldilocksExt2>> = Vec::new();
        let mut i: usize = 0;
        while i < count
            invariant
                i <= count,
                count == parts.len(),
                plain.len() == 32,
                ext_elems(plain@) == bit_table(),
                rp == poly_elems(parts@),
                forall|k: int| 0 <= k < parts.len() ==> (#[trigger] parts[k]).len() == 32,
                middle_claims.len() == i,
                forall|k: int|
                    0 <= k < i ==> (#[trigger] middle_claims[k])@ == seq![
                        word_of(inner(rp[k], bit_table())),
                        word_of(mass(rp[k])),
                    ],
            decreases count - i,
        {
            assert(parts[i as int].len() == 32);
            let mc: GoldilocksExt2 = inner_product(&parts[i], &plain);
            let sa: GoldilocksExt2 = mass_of(&parts[i]);
            let mut row: Vec<GoldilocksExt2> = Vec::new();
            row.push(mc);
            row.push(sa);
            proof {
                lemma_word_of(mc);
                lemma_word_of(sa);
                assert(row@ =~= seq![
                    word_of(inner(rp[i as int], bit_table())),
                    word_of(mass(rp[i as int])),
                ]);
            }
            middle_claims.push(row);
            i = i + 1;
        }
        let combined_aux: Vec<GoldilocksExt2> = combine(&parts, &betas, 32, Ghost(b));
        let table_alpha: Vec<GoldilocksExt2> = bit_words(alpha);
        let mut polys: Vec<Vec<GoldilocksExt2>> = Vec::new();
        polys.push(combined_aux);
        polys.push(table_alpha);
        proof {
            lemma2_to64();
            assert(poly_elems(polys@) =~= range_polys(h, s, items));
        }
        let mut prover: CpuLinearSumcheckProverExt2 = CpuLinearSumcheckProverExt2::new(
            BIT_TABLE_VARS,
            2,
            transcript,
        );
        let table_proof: SumcheckProof = prover.prove(&mut polys, transcript);
        let challenges: Vec<GoldilocksExt2> = prover.challenges;
        let ghost chs = range_challenges(h, s, items);
        proof {
            assert(challenges@ =~= words_of(chs));
            lemma_honest_prefix(
                h,
                range_start(h, s, ns, item_claimed(items)),
                range_polys(h, s, items),
                5,
                5,
                5,
            );
        }
        assert(point_lists(points@) =~= range_words(h, s, items));
        self.push_range_claims(witnesses, claims, &points, &parts, &challenges, Ghost(chs));
        proof {
            assert forall|i: int| 0 <= i < self.range.len() implies #[trigger] self.item_known(
                witnesses@,
                items,
                i,
            ) by {
                assert(self.range_ready(witnesses@, before, i));
            }
        }
        let bool_proofs: Vec<SumcheckProof> = self.prove_bits(
            witnesses,
            &betas,
            transcript,
            Ghost(items),
            Ghost(b),
        );
        let mut table_proofs: Vec<SumcheckProof> = Vec::new();
        table_proofs.push(table_proof);
        LookupProof { table_proofs, middle_claims, bool_proofs }
    }
}

/// What the verifier knows of a check: whether the size of the bits and the claims of the node are
/// known, the number of variables of its inputs, whether the checked edge has a claimed point, and
/// what the bits have to spell where that follows from the node.
pub struct RangeCheck {
    pub ready: bool,
    pub n: nat,
    pub claimed: bool,
    pub expected: Option<GoldilocksExt2>,
}

/// What the bits of a node have to spell: the remainder of a division by `sf`, zero, or the
/// checked numbers themselves.
pub open spec fn expected_bits(kind: Block, claims: Option<NodeProof>, sf: u64) -> Option<
    GoldilocksExt2,
> {
    let c = claims_of(claims);
    match kind {
        Block::Op(Op::ScaleDown { .. }) => if claims is Some {
            Some(word_of(c[0].eval@ - c[1].eval@ * embed(sf as int)))
        } else {
            None
        },
        Block::Op(Op::ScaleUp { .. }) => Some(word_of(zero())),
        Block::Op(Op::NonNegative) => if claims is Some {
            Some(c[0].eval)
        } else {
            None
        },
        _ => None,
    }
}

/// The node has the claims that its check compares with.
pub open spec fn enough_claims(kind: Block, claims: Option<NodeProof>) -> bool {
    match kind {
        Block::Op(Op::ScaleDown { .. }) => claims is Some ==> claims_of(claims).len() >= 2,
        Block::Op(Op::NonNegative) => claims is Some ==> claims_of(claims).len() >= 1,
        _ => true,
    }
}

/// Numbers of variables of the checks.
pub open spec fn check_sizes(checks: Seq<RangeCheck>) -> Seq<nat> {
    Seq::new(checks.len(), |i: int| checks[i].n)
}

/// Which checks have a claimed point.
pub open spec fn check_claimed(checks: Seq<RangeCheck>) -> Seq<bool> {
    Seq::new(checks.len(), |i: int| checks[i].claimed)
}

/// The middle claim of check `i` is what its bits have to spell.
pub open spec fn mid_matches(
    checks: Seq<RangeCheck>,
    middle: Seq<Vec<GoldilocksExt2>>,
    i: int,
) -> bool {
    checks[i].expected matches Some(e) ==> middle[i][0] == e
}

/// What check `i` reads is there: the size of its bits, the claims of its node, and its middle claims.
pub open spec fn mid_there(
    checks: Seq<RangeCheck>,
    middle: Seq<Vec<GoldilocksExt2>>,
    i: int,
) -> bool {
    checks[i].ready && i < middle.len() && middle[i].len() >= 2
}

/// Number of leading checks, out of `k`, whose middle claims are there and as expected.
pub open spec fn mids_passed(
    checks: Seq<RangeCheck>,
    middle: Seq<Vec<GoldilocksExt2>>,
    k: nat,
) -> nat
    decreases k,
{
    if k == 0 {
        0
    } else {
        let p = mids_passed(checks, middle, (k - 1) as nat);
        if p == k - 1 && mid_there(checks, middle, k - 1) && mid_matches(checks, middle, k - 1) {
            k
        } else {
            p
        }
    }
}

/// The sums that the middle claims assert.
pub open spec fn mid_sums(middle: Seq<Vec<GoldilocksExt2>>, alpha: Elem, k: nat) -> Seq<Elem> {
    Seq::new(k, |i: int| middle[i][0]@ + alpha * middle[i][1]@)
}

/// What the verifier makes of the first `k` groups of bits: whether it accepts, and its digest.
pub open spec fn bits_verdict(
    h: spec_fn(Digest, Digest) -> Digest,
    s: Digest,
    groups: Seq<usize>,
    proofs: Seq<SumcheckProof>,
    k: nat,
) -> (bool, Digest)
    decreases k,
{
    if k == 0 {
        (true, s)
    } else {
        let (ok, d) = bits_verdict(h, s, groups, proofs, (k - 1) as nat);
        if !ok || k > proofs.len() {
            (false, d)
        } else {
            let m = groups[k - 1];
            let start = bool_start(h, d, m);
            (
                accepts(h, start, proofs[k - 1], word_of(zero()), m as nat, 2),
                sumcheck_end(h, start, proofs[k - 1], word_of(zero()), m as nat, 2),
            )
        }
    }
}

/// The sum that the combined check has to come to.
pub open spec fn range_expected(
    h: spec_fn(Digest, Digest) -> Digest,
    s: Digest,
    middle: Seq<Vec<GoldilocksExt2>>,
    k: nat,
) -> GoldilocksExt2 {
    word_of(weighted(mid_sums(middle, range_alpha(h, s), k), range_beta(h, s)))
}

/// What the verifier makes of a proof of range checks: whether it accepts, and its digest. The checks
/// are gone through in order: the first whose middle claim is not as expected is refused, and there is
/// no verdict where something that is read is missing before that.
pub open spec fn range_verdict(
    h: spec_fn(Digest, Digest) -> Digest,
    s: Digest,
    checks: Seq<RangeCheck>,
    proof: LookupProof,
) -> (Option<bool>, Digest) {
    let ns = check_sizes(checks);
    let cl = check_claimed(checks);
    let k = checks.len();
    let passed = mids_passed(checks, proof.middle_claims@, k);
    if passed < k {
        if mid_there(checks, proof.middle_claims@, passed as int) {
            (Some(false), points_digest(h, range_open(h, s), ns, cl, passed + 1))
        } else {
            (None, s)
        }
    } else if proof.table_proofs.len() == 0 {
        (Some(false), points_digest(h, range_open(h, s), ns, cl, k))
    } else {
        let start = range_start(h, s, ns, cl);
        let claimed = range_expected(h, s, proof.middle_claims@, k);
        let end = sumcheck_end(h, start, proof.table_proofs[0], claimed, 5, 2);
        if !accepts(h, start, proof.table_proofs[0], claimed, 5, 2) {
            (Some(false), end)
        } else {
            let (ok, d) = bits_verdict(
                h,
                end,
                group_sizes(ns),
                proof.bool_proofs@,
                group_sizes(ns).len(),
            );
            (Some(ok), d)
        }
    }
}

/// A check that does not pass stops the count.
proof fn lemma_mids_stop(
    checks: Seq<RangeCheck>,
    middle: Seq<Vec<GoldilocksExt2>>,
    i: nat,
    k: nat,
)
    requires
        i < k,
        mids_passed(checks, middle, i) == i,
        !mid_there(checks, middle, i as int) || !mid_matches(checks, middle, i as int),
    ensures
        mids_passed(checks, middle, k) == i,
    decreases k,
{
    if k > i + 1 {
        lemma_mids_stop(checks, middle, i, (k - 1) as nat);
    }
}

/// A rejected group of bits ends the verdict.
proof fn lemma_bits_stop(
    h: spec_fn(Digest, Digest) -> Digest,
    s: Digest,
    groups: Seq<usize>,
    proofs: Seq<SumcheckProof>,
    j: nat,
    k: nat,
)
    requires
        j <= k,
        !bits_verdict(h, s, groups, proofs, j).0,
    ensures
        bits_verdict(h, s, groups, proofs, k) == bits_verdict(h, s, groups, proofs, j),
    decreases k,
{
    if j < k {
        lemma_bits_stop(h, s, groups, proofs, j, (k - 1) as nat);
    }
}

impl Dag {
    /// The size of the bits of check `i` is known.
    pub open spec fn bits_sized(&self, witnesses: Seq<Vec<Witness>>, i: int) -> bool {
        let w = witnesses[self.range_aux(i) as int];
        &&& w[0].data is Some
        &&& w[0].data->0.vars() >= 5
    }

    /// What the verifier knows of check `i`.
    pub open spec fn range_check(
        &self,
        node_proofs: Seq<Option<NodeProof>>,
        witnesses: Seq<Vec<Witness>>,
        claims: Seq<Seq<Assertion>>,
        sf: u64,
        i: int,
    ) -> RangeCheck {
        RangeCheck {
            ready: self.bits_sized(witnesses, i) && enough_claims(
                self.nodes[self.range[i] as int].kind@,
                node_proofs[self.range[i] as int],
            ),
            n: (witnesses[self.range_aux(i) as int][0].data->0.vars() - 5) as nat,
            claimed: last_point(claims[self.range_inp(i) as int]) is Some,
            expected: expected_bits(
                self.nodes[self.range[i] as int].kind@,
                node_proofs[self.range[i] as int],
                sf,
            ),
        }
    }

    /// What the verifier knows of all checks.
    pub open spec fn range_checks(
        &self,
        node_proofs: Seq<Option<NodeProof>>,
        witnesses: Seq<Vec<Witness>>,
        claims: Seq<Seq<Assertion>>,
        sf: u64,
    ) -> Seq<RangeCheck> {
        Seq::new(
            self.range.len() as nat,
            |i: int| self.range_check(node_proofs, witnesses, claims, sf, i),
        )
    }

    /// Number of variables of the bits of check `i`, where their size is known.
    fn bit_vars(&self, witnesses: &[Vec<Witness>], i: usize) -> (r: Option<usize>)
        requires
            self.edges_ok(),
            self.range_nodes_ok(),
            witnesses_ok(witnesses@, self.num_edges as nat),
            i < self.range.len(),
        ensures
            r is Some <==> self.bits_sized(witnesses@, i as int),
            r matches Some(n) ==> n == witnesses[self.range_aux(i as int) as int][0].data->0.vars() && 5 <= n
                < usize::BITS,
    {
        let nid: usize = self.range[i];
        let slot: usize = if self.nodes[nid].kind.is_nonnegative() {
            0
        } else {
            1
        };
        let aux: usize = self.nodes[nid].outputs[slot];
        proof {
            assert(self.nodes[nid as int].outputs[slot as int] < self.num_edges);
            assert(aux == self.range_aux(i as int));
            assert(witnesses@[aux as int].len() > 0);
        }
        match &witnesses[aux][0].data {
            Some(d) => {
                let n: usize = d.n();
                if n >= 5 {
                    Some(n)
                } else {
                    None
                }
            },
            None => None,
        }
    }

    /// Whether the node of a range check has the claims that the check compares with.
    fn has_claims(&self, node_proofs: &[Option<NodeProof>], n: usize) -> (r: bool)
        requires
            n < self.nodes.len(),
            node_proofs.len() == self.nodes.len(),
        ensures
            r == enough_claims(self.nodes[n as int].kind@, node_proofs[n as int]),
    {
        let least: usize = match &self.nodes[n].kind {
            BasicBlockType::Op(Op::ScaleDown { .. }) => 2,
            BasicBlockType::Op(Op::NonNegative) => 1,
            _ => 0,
        };
        match &node_proofs[n] {
            Some(np) => np.1.len() >= least,
            None => true,
        }
    }

    /// What the bits of a node have to spell, where that follows from its claims.
    fn expected_of(&self, nid: usize, node_proof: &Option<NodeProof>, sf: u64) -> (r: Option<
        GoldilocksExt2,
    >)
        requires
            nid < self.nodes.len(),
            enough_claims(self.nodes[nid as int].kind@, *node_proof),
        ensures
            r == expected_bits(self.nodes[nid as int].kind@, *node_proof, sf),
    {
        match &self.nodes[nid].kind {
            BasicBlockType::Op(Op::ScaleDown { .. }) => match node_proof {
                Some(np) => {
                    let sf_ext2: GoldilocksExt2 = GoldilocksExt2::from_base(GoldilocksField(sf));
                    let e: GoldilocksExt2 = ext2_sub(np.1[0].eval, ext2_mul(np.1[1].eval, sf_ext2));
                    proof {
                        lemma_word_of(e);
                    }
                    Some(e)
                },
                None => None,
            },
            BasicBlockType::Op(Op::ScaleUp { .. }) => {
                let z: GoldilocksExt2 = GoldilocksExt2::zero();
                proof {
                    lemma_word_of(z);
                }
                Some(z)
            },
            BasicBlockType::Op(Op::NonNegative) => match node_proof {
                Some(np) => Some(np.1[0].eval),
                None => None,
            },
            _ => None,
        }
    }

    /// Checks that the bits of all groups are bits.
    fn verify_bits<F: Fn(Digest, Digest) -> Digest>(
        groups: &Vec<usize>,
        proofs: &Vec<SumcheckProof>,
        transcript: &mut Transcript<F>,
    ) -> (ok: bool)
        requires
            old(transcript).wf(),
        ensures
            final(transcript).compress == old(transcript).compress,
            (ok, final(transcript).state) == bits_verdict(
                old(transcript).hash(),
                old(transcript).state,
                groups@,
                proofs@,
                groups.len() as nat,
            ),
    {
        let ghost h = transcript.hash();
        let ghost s = transcript.state;
        let ghost comp = transcript.compress;
        let mut k: usize = 0;
        while k < groups.len()
            invariant
                k <= groups.len(),
                transcript.wf(),
                transcript.compress == comp,
                comp == old(transcript).compress,
                h == transcript.hash(),
                h == old(transcript).hash(),
                s == old(transcript).state,
                (true, transcript.state) == bits_verdict(h, s, groups@, proofs@, k as nat),
            decreases groups.len() - k,
        {
            if k >= proofs.len() {
                proof {
                    lemma_bits_stop(
                        h,
                        s,
                        groups@,
                        proofs@,
                        (k + 1) as nat,
                        groups.len() as nat,
                    );
                }
                return false;
            }
            let m: usize = groups[k];
            let _challenges: Vec<GoldilocksExt2> = transcript.challenges_ext2(
                Label::BoolChallenge,
                m,
            );
            let z: GoldilocksExt2 = GoldilocksExt2::zero();
            proof {
                lemma_word_of(z);
            }
            let (ok, _point) = SumcheckVerifier::verify(&proofs[k], z, m, 2, transcript);
            k = k + 1;
            if !ok {
                proof {
                    lemma_bits_stop(h, s, groups@, proofs@, k as nat, groups.len() as nat);
                }
                return false;
            }
        }
        true
    }

    /// Accepts if the bits spell what the nodes say, the combined check adds up, and the bits are
    /// bits. `sf` is the scale that rescaling nodes divide by. There is no verdict where what decides is
    /// missing.
    #[verifier::rlimit(40)]
    pub fn verify_range<F: Fn(Digest, Digest) -> Digest>(
        &self,
        node_proofs: &[Option<NodeProof>],
        witnesses: &[Vec<Witness>],
        claims: &[Vec<Claim>],
        range_proof: &LookupProof,
        sf: u64,
        transcript: &mut Transcript<F>,
    ) -> (r: Option<bool>)
        requires
            self.edges_ok(),
            self.range_nodes_ok(),
            witnesses_ok(witnesses@, self.num_edges as nat),
            claims.len() == self.num_edges,
            node_proofs.len() == self.nodes.len(),
            old(transcript).wf(),
        ensures
            final(transcript).compress == old(transcript).compress,
            self.range.len() == 0 ==> r == Some(true) && final(transcript).state == old(transcript).state,
            self.range.len() > 0 ==> {
                let (v, d) = range_verdict(
                    old(transcript).hash(),
                    old(transcript).state,
                    self.range_checks(node_proofs@, witnesses@, claim_lists(claims@), sf),
                    *range_proof,
                );
                r == v && (r is Some ==> final(transcript).state == d)
            },
    {
        if self.range.len() == 0 {
            return Some(true);
        }
        let ghost h = transcript.hash();
        let ghost s = transcript.state;
        let ghost comp = transcript.compress;
        let ghost lists = claim_lists(claims@);
        let ghost checks = self.range_checks(node_proofs@, witnesses@, lists, sf);
        let ghost ns = check_sizes(checks);
        let ghost cl = check_claimed(checks);
        let ghost middle = range_proof.middle_claims@;
        let ghost al = range_alpha(h, s);
        let count: usize = self.range.len();
        let alpha: GoldilocksExt2 = transcript.challenge_ext2(Label::RangeAlpha);
        let beta: GoldilocksExt2 = transcript.challenge_ext2(Label::RangeBeta);
        let betas: Vec<GoldilocksExt2> = calc_pow_vec_ext2(beta, count);
        let mut values: Vec<GoldilocksExt2> = Vec::new();
        let mut sizes: Vec<usize> = Vec::new();
        let mut i: usize = 0;
        while i < count
            invariant
                i <= count,
                count == self.range.len(),
                self.edges_ok(),
                self.range_nodes_ok(),
                witnesses_ok(witnesses@, self.num_edges as nat),
                0 < count,
                claims.len() == self.num_edges,
                node_proofs.len() == self.nodes.len(),
                lists == claim_lists(claims@),
                checks == self.range_checks(node_proofs@, witnesses@, lists, sf),
                ns == check_sizes(checks),
                cl == check_claimed(checks),
                middle == range_proof.middle_claims@,
                alpha@ == al,
                al == range_alpha(h, s),
                h == old(transcript).hash(),
                s == old(transcript).state,
                comp == old(transcript).compress,
                transcript.compress == comp,
                transcript.wf(),
                h == transcript.hash(),
                transcript.state == points_digest(h, range_open(h, s), ns, cl, i as nat),
                mids_passed(checks, middle, i as nat) == i,
                values.len() == i,
                ext_elems(values@) == mid_sums(middle, al, i as nat),
                sizes.len() == i,
                forall|k: int| 0 <= k < i ==> #[trigger] sizes[k] == ns[k] + 5,
            decreases count - i,
        {
            let nid: usize = self.range[i];
            let known: Option<usize> = self.bit_vars(witnesses, i);
            let there: bool = known.is_some() && self.has_claims(node_proofs, nid) && i
                < range_proof.middle_claims.len() && range_proof.middle_claims[i].len() >= 2;
            assert(there == mid_there(checks, middle, i as int));
            if !there {
                proof {
                    lemma_mids_stop(checks, middle, i as nat, count as nat);
                }
                return None;
            }
            let vars: usize = match known {
                Some(v) => v,
                None => 5,
            };
            let n: usize = vars - BIT_TABLE_VARS;
            sizes.push(vars);
            let inp: usize = self.nodes[nid].inputs[0];
            assert(self.nodes[nid as int].inputs[0] < self.num_edges);
            assert(lists[inp as int] == claim_list(claims[inp as int]@));
            if find_point(&claims[inp]).is_none() {
                let _challenges: Vec<GoldilocksExt2> = transcript.challenges_ext2(
                    Label::RangeInpChallenge,
                    n,
                );
            }
            let mc: GoldilocksExt2 = range_proof.middle_claims[i][0];
            let sa: GoldilocksExt2 = range_proof.middle_claims[i][1];
            let v: GoldilocksExt2 = ext2_add(mc, ext2_mul(alpha, sa));
            let ghost vs = values@;
            values.push(v);
            proof {
                assert(ext_elems(values@) =~= ext_elems(vs).push(v@));
                assert(mid_sums(middle, al, (i + 1) as nat) =~= mid_sums(middle, al, i as nat).push(
                    v@,
                ));
            }
            let expected: Option<GoldilocksExt2> = self.expected_of(nid, &node_proofs[nid], sf);
            match expected {
                Some(e) => {
                    if mc != e {
                        proof {
                            assert(!mid_matches(checks, middle, i as int));
                            lemma_mids_stop(checks, middle, i as nat, count as nat);
                        }
                        return Some(false);
                    }
                },
                None => {},
            }
            assert(mid_matches(checks, middle, i as int));
            i = i + 1;
        }
        if range_proof.table_proofs.len() == 0 {
            return Some(false);
        }
        let expected_sum: GoldilocksExt2 = combine_values(
            &values,
            &betas,
            Ghost(range_beta(h, s)),
        );
        proof {
            lemma_word_of(expected_sum);
        }
        let (ok, _challenges) = SumcheckVerifier::verify(
            &range_proof.table_proofs[0],
            expected_sum,
            BIT_TABLE_VARS,
            2,
            transcript,
        );
        if !ok {
            return Some(false);
        }
        let groups: Vec<usize> = sizes_of(&sizes, Ghost(ns));
        Some(Dag::verify_bits(&groups, &range_proof.bool_proofs, transcript))
    }
}

/// The verifier accepts the range checks of an honest prover whose bits are bits and spell what
/// the nodes say, and it ends at the digest of the prover.
pub proof fn lemma_range_complete(
    h: spec_fn(Digest, Digest) -> Digest,
    s: Digest,
    items: Seq<RangeItem>,
    checks: Seq<RangeCheck>,
    proof: LookupProof,
)
    requires
        items.len() > 0,
        range_honest(h, s, items, proof),
        checks.len() == items.len(),
        forall|i: int|
            0 <= i < items.len() ==> (#[trigger] items[i]).wf() && all_bits(items[i].words),
        forall|i: int|
            0 <= i < items.len() ==> (#[trigger] checks[i]).n == items[i].n && checks[i].claimed
                == (items[i].point is Some),
        forall|i: int|
            0 <= i < items.len() ==> #[trigger] mid_matches(checks, proof.middle_claims@, i),
        forall|i: int| 0 <= i < items.len() ==> (#[trigger] checks[i]).ready,
    ensures
        range_verdict(h, s, checks, proof) == (
            Some(true),
            bool_digest(
                h,
                range_mid(h, s, items),
                items,
                range_beta(h, s),
                group_sizes(item_sizes(items)),
                group_sizes(item_sizes(items)).len(),
            ),
        ),
{
    let k = items.len();
    let middle = proof.middle_claims@;
    let ns = item_sizes(items);
    assert(check_sizes(checks) =~= ns);
    assert(check_claimed(checks) =~= item_claimed(items));
    assert forall|i: int| 0 <= i < k implies #[trigger] mid_there(checks, middle, i) by {
        assert(checks[i].ready);
        assert(middle[i]@.len() == 2);
    }
    lemma_mids_pass(checks, middle, k);
    let (alpha, beta) = (range_alpha(h, s), range_beta(h, s));
    let parts = range_parts(h, s, items);
    let polys = range_polys(h, s, items);
    let start = range_start(h, s, ns, item_claimed(items));
    let table = shifted(bit_table(), alpha);
    let sums = mid_sums(middle, alpha, k);
    let comb = combined(parts, beta, 32);
    assert forall|i: int| 0 <= i < k implies #[trigger] sums[i] == inner(parts[i], table) by {
        assert(middle[i]@ == seq![
            word_of(inner(parts[i], bit_table())),
            word_of(mass(parts[i])),
        ]);
        lemma_sum_canon(32, |y: int| parts[i][y] * bit_table()[y]);
        lemma_sum_canon(32, |y: int| parts[i][y]);
        lemma_shifted_inner(parts[i], bit_table(), alpha);
        assert(middle[i][0]@ == inner(parts[i], bit_table()));
        assert(middle[i][1]@ == mass(parts[i]));
    }
    lemma_combined_inner(parts, beta, table, sums);
    lemma2_to64();
    assert forall|y: int| 0 <= y < 32 implies (#[trigger] comb[y]).canon() by {
        lemma_sum_canon(parts.len(), |i: int| power(beta, i as nat) * parts[i][y]);
    }
    assert forall|y: int| 0 <= y < 32 implies (#[trigger] table[y]).canon() by {
        crate::field::elem::lemma_add_canon(bit_table()[y], alpha);
    }
    lemma_total_two(comb, table, 32);
    assert(tables(polys, 32)) by {
        assert forall|i: int| 0 <= i < 2 implies (#[trigger] polys[i]).len() == 32 && all_canon(
            polys[i],
        ) by {}
    }
    let claimed = range_expected(h, s, middle, k);
    lemma_sum_canon(sums.len(), |i: int| power(beta, i as nat) * sums[i]);
    lemma_honest_end(h, start, polys, 5, proof.table_proofs[0], claimed);
    let groups = group_sizes(ns);
    lemma_bits_complete(h, range_mid(h, s, items), items, beta, proof.bool_proofs@, groups.len());
}

proof fn lemma_mids_pass(checks: Seq<RangeCheck>, middle: Seq<Vec<GoldilocksExt2>>, k: nat)
    requires
        forall|i: int| 0 <= i < k ==> #[trigger] mid_matches(checks, middle, i),
        forall|i: int| 0 <= i < k ==> #[trigger] mid_there(checks, middle, i),
    ensures
        mids_passed(checks, middle, k) == k,
    decreases k,
{
    if k > 0 {
        lemma_mids_pass(checks, middle, (k - 1) as nat);
        assert(mid_matches(checks, middle, k - 1) && mid_there(checks, middle, k - 1));
    }
}

proof fn lemma_members(ns: Seq<nat>, m: usize, k: nat, j: int)
    requires
        k <= ns.len(),
        0 <= j < members(ns, m, k).len(),
    ensures
        0 <= members(ns, m, k)[j] < k,
        ns[members(ns, m, k)[j]] + 5 == m,
    decreases k,
{
    if k > 0 {
        let rest = members(ns, m, (k - 1) as nat);
        if j < rest.len() {
            lemma_members(ns, m, (k - 1) as nat, j);
        }
    }
}

proof fn lemma_bits_complete(
    h: spec_fn(Digest, Digest) -> Digest,
    s: Digest,
    items: Seq<RangeItem>,
    beta: Elem,
    proofs: Seq<SumcheckProof>,
    k: nat,
)
    requires
        k <= group_sizes(item_sizes(items)).len() == proofs.len(),
        forall|i: int|
            0 <= i < items.len() ==> (#[trigger] items[i]).wf() && all_bits(items[i].words),
        forall|k: int|
            0 <= k < proofs.len() ==> {
                let groups = group_sizes(item_sizes(items));
                let d = bool_digest(h, s, items, beta, groups, k as nat);
                honest_proof(
                    h,
                    bool_start(h, d, groups[k]),
                    bool_polys(h, d, items, beta, groups[k]),
                    groups[k] as nat,
                    #[trigger] proofs[k],
                )
            },
    ensures
        bits_verdict(h, s, group_sizes(item_sizes(items)), proofs, k) == (
            true,
            bool_digest(h, s, items, beta, group_sizes(item_sizes(items)), k),
        ),
    decreases k,
{
    if k > 0 {
        let ns = item_sizes(items);
        let groups = group_sizes(ns);
        let j = k - 1;
        lemma_bits_complete(h, s, items, beta, proofs, j as nat);
        let d = bool_digest(h, s, items, beta, groups, j as nat);
        let m = groups[j];
        let point = drawn(h, d, Label::BoolChallenge, m as nat);
        let ids = members(ns, m, items.len());
        assert forall|t: int| 0 <= t < ids.len() implies 0 <= #[trigger] ids[t]
            < item_words(items).len() && all_bits(item_words(items)[ids[t]])
            && item_words(items)[ids[t]].len() == pow2(point.len()) by {
            lemma_members(ns, m, items.len(), t);
            assert(items[ids[t]].wf());
        }
        lemma_bits_no_defect(item_words(items), ids, beta, point);
        let polys = bool_polys(h, d, items, beta, m);
        let size = pow2(m as nat);
        assert(tables(polys, size)) by {
            let e = eq_table(point);
            assert forall|x: int| 0 <= x < e.len() implies (#[trigger] e[x]).canon() by {
                lemma_sum_canon(
                    point.len(),
                    |i: int|
                        crate::poly::model::bit_factor(crate::poly::model::bit(x, i), point[i]),
                );
            }
            let c = defect(items, beta, m);
            let words = item_words(items);
            assert forall|x: int| 0 <= x < c.len() implies (#[trigger] c[x]).canon() by {
                lemma_sum_canon(
                    ids.len(),
                    |k: int| bit_defect(words[ids[k]])[x] * power(beta, ids[k] as nat),
                );
            }
            assert forall|i: int| 0 <= i < 2 implies (#[trigger] polys[i]).len() == size
                && all_canon(polys[i]) by {}
        }
        assert(proofs[j] == proofs[j]);
        lemma_honest_end(h, bool_start(h, d, m), polys, m as nat, proofs[j], word_of(zero()));
    }
}

} // verus!
