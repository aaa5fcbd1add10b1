//! Classes by their scores.
use vstd::arithmetic::power2::*;
use vstd::prelude::*;

use crate::field::GoldilocksField;
use crate::util::arith::{f_to_int, signed_value};

verus! {

/// An integer rounded to `k` bits fewer: to the nearest multiple of `2^k`, and halfway between two
/// of them to the even one.
pub open spec fn rounded(m: int, k: nat) -> int {
    let unit = pow2(k) as int;
    let q = m / unit;
    let twice = 2 * (m % unit);
    if twice > unit || (twice == unit && q % 2 == 1) {
        (q + 1) * unit
    } else {
        q * unit
    }
}

/// How many bits of a number do not fit in 53.
pub open spec fn excess_bits(m: int) -> nat
    decreases m,
{
    if m < 0x20_0000_0000_0000 {
        0
    } else {
        1 + excess_bits(m / 2)
    }
}

/// The integer as a number of double precision holds it.
pub open spec fn in_double(v: int) -> int {
    if v < 0 {
        -rounded(-v, excess_bits(-v))
    } else {
        rounded(v, excess_bits(v))
    }
}

/// Numbers of up to 53 bits are held as they are.
pub proof fn lemma_in_double_exact(v: int)
    requires
        -0x20_0000_0000_0000 < v < 0x20_0000_0000_0000,
    ensures
        in_double(v) == v,
{
    let m = if v < 0 {
        -v
    } else {
        v
    };
    lemma2_to64();
    assert(m / 1 == m && m % 1 == 0);
    assert(rounded(m, 0) == m);
}

/// Rounds a number that is not negative.
fn round_up_to(m: u128) -> (r: u128)
    requires
        m <= 0x1_0000_0000_0000_0000,
    ensures
        r == rounded(m as int, excess_bits(m as int)),
        r <= 0x2_0000_0000_0000_0000,
{
    let mut unit: u128 = 1;
    let mut rest: u128 = m;
    let ghost mut k: nat = 0;
    proof {
        lemma2_to64();
    }
    while rest >= 0x20_0000_0000_0000
        invariant
            m <= 0x1_0000_0000_0000_0000,
            unit == pow2(k),
            unit > 0,
            rest == m as int / unit as int,
            excess_bits(m as int) == k + excess_bits(rest as int),
        decreases rest,
    {
        proof {
            lemma_pow2_unfold(k + 1);
            vstd::arithmetic::div_mod::lemma_div_denominator(m as int, unit as int, 2);
            vstd::arithmetic::div_mod::lemma_fundamental_div_mod(m as int, unit as int);
            let (u, q, r) = (unit as int, rest as int, m as int % unit as int);
            assert(u < 0x1_0000_0000_0000) by (nonlinear_arith)
                requires
                    m == u * q + r,
                    0 <= r,
                    m <= 0x1_0000_0000_0000_0000,
                    q >= 0x20_0000_0000_0000,
                    u > 0,
            ;
            k = k + 1;
        }
        unit = unit * 2;
        rest = rest / 2;
    }
    let low: u128 = m % unit;
    proof {
        vstd::arithmetic::div_mod::lemma_fundamental_div_mod(m as int, unit as int);
        let (u, q) = (unit as int, rest as int);
        assert(u <= m || u == 1) by {
            if k > 0 && u > m {
                vstd::arithmetic::div_mod::lemma_basic_div(m as int, u);
                lemma_excess_small(m as int, k);
            }
        }
        assert(q * u <= m) by (nonlinear_arith)
            requires
                m == u * q + low,
                low >= 0,
        ;
        assert((q + 1) * u == q * u + u) by (nonlinear_arith);
    }
    if 2 * low > unit || (2 * low == unit && rest % 2 == 1) {
        (rest + 1) * unit
    } else {
        rest * unit
    }
}

/// The bits that do not fit are fewer than the bits of the number.
proof fn lemma_excess_small(m: int, k: nat)
    requires
        m >= 0,
        excess_bits(m) == k,
    ensures
        k > 0 ==> pow2(k) <= m,
    decreases m,
{
    if m >= 0x20_0000_0000_0000 {
        lemma_excess_small(m / 2, (k - 1) as nat);
        lemma2_to64();
        lemma_pow2_unfold(k);
    }
}

/// The integer as a number of double precision holds it.
pub fn to_double(v: i128) -> (r: i128)
    requires
        -0x1_0000_0000_0000_0000 <= v <= 0x1_0000_0000_0000_0000,
    ensures
        r == in_double(v as int),
{
    if v < 0 {
        -(round_up_to((-v) as u128) as i128)
    } else {
        round_up_to(v as u128) as i128
    }
}

/// Class `a` is ranked before `b`: it has the higher score, or the same and the lower number.
pub open spec fn ranked_before(scores: Seq<int>, a: usize, b: usize) -> bool {
    scores[a as int] > scores[b as int] || (scores[a as int] == scores[b as int] && a < b)
}

/// All classes, each once, by falling score.
pub open spec fn ranking(scores: Seq<int>, order: Seq<usize>) -> bool {
    &&& order.len() == scores.len()
    &&& forall|i: int| 0 <= i < order.len() ==> (#[trigger] order[i]) < scores.len()
    &&& forall|i: int, j: int|
        0 <= i < j < order.len() ==> ranked_before(scores, #[trigger] order[i], #[trigger] order[j])
}

/// The scores of the first `n` words of an output, in double precision.
pub open spec fn scores_of(evals: Seq<GoldilocksField>, n: nat) -> Seq<int> {
    Seq::new(n, |i: int| in_double(signed_value(evals[i])))
}

/// The classes by falling score; classes of one score keep their order. The scores are compared in
/// double precision, in which a common power of two as scale changes nothing.
pub fn rank_classes(evals: &[GoldilocksField], num_classes: usize) -> (r: Vec<usize>)
    requires
        num_classes <= evals.len(),
    ensures
        ranking(scores_of(evals@, num_classes as nat), r@),
{
    let ghost all = scores_of(evals@, num_classes as nat);
    let mut scores: Vec<i128> = Vec::new();
    let mut order: Vec<usize> = Vec::new();
    let mut i: usize = 0;
    while i < num_classes
        invariant
            i <= num_classes <= evals.len(),
            all == scores_of(evals@, num_classes as nat),
            scores.len() == i,
            order.len() == i,
            forall|k: int| 0 <= k < i ==> #[trigger] scores[k] == all[k],
            forall|k: int| 0 <= k < i ==> (#[trigger] order[k]) < i,
            forall|a: int, b: int|
                0 <= a < b < i ==> ranked_before(all, #[trigger] order[a], #[trigger] order[b]),
        decreases num_classes - i,
    {
        let score: i128 = to_double(f_to_int(evals[i]));
        assert(score == all[i as int]);
        let mut at: usize = order.len();
        while at > 0 && scores[order[at - 1]] < score
            invariant
                at <= order.len(),
                order.len() == i,
                i < num_classes,
                all.len() == num_classes,
                scores.len() == i,
                score == all[i as int],
                forall|k: int| 0 <= k < i ==> #[trigger] scores[k] == all[k],
                forall|k: int| 0 <= k < i ==> (#[trigger] order[k]) < i,
                forall|k: int| at <= k < i ==> all[(#[trigger] order[k]) as int] < score,
            decreases at,
        {
            assert(order[at - 1] < i);
            assert(scores[order[at - 1] as int] == all[order[at - 1] as int]);
            at = at - 1;
        }
        let ghost before = order@;
        order.insert(at, i);
        scores.push(score);
        proof {
            assert forall|a: int, b: int| 0 <= a < b < i + 1 implies ranked_before(
                all,
                #[trigger] order[a],
                #[trigger] order[b],
            ) by {
                let x = if a < at {
                    a
                } else {
                    a - 1
                };
                let y = if b < at {
                    b
                } else {
                    b - 1
                };
                if a == at {
                    assert(order[b] == before[y]);
                    assert(all[before[y] as int] < score);
                } else if b == at {
                    assert(order[a] == before[x]);
                    assert(before[at - 1] < i);
                    if x < at - 1 {
                        assert(ranked_before(all, before[x], before[at - 1]));
                    }
                } else {
                    assert(order[a] == before[x]);
                    assert(order[b] == before[y]);
                    assert(ranked_before(all, before[x], before[y]));
                }
            }
            assert forall|k: int| 0 <= k < i + 1 implies (#[trigger] order[k]) < i + 1 by {
                if k < at {
                    assert(order[k] == before[k]);
                } else if k > at {
                    assert(order[k] == before[k - 1]);
                }
            }
        }
        i = i + 1;
    }
    order
}

/// The class with the highest score, the first where several have it; `None` without classes.
pub fn extract_prediction(evals: &[GoldilocksField], num_classes: usize) -> (r: Option<usize>)
    requires
        num_classes <= evals.len(),
    ensures
        r is Some <==> num_classes > 0,
        r matches Some(best) ==> {
            let scores = scores_of(evals@, num_classes as nat);
            &&& best < num_classes
            &&& forall|i: int| 0 <= i < num_classes ==> #[trigger] scores[i] <= scores[best as int]
            &&& forall|i: int| 0 <= i < best ==> #[trigger] scores[i] < scores[best as int]
        },
{
    if num_classes == 0 {
        return None;
    }
    let order: Vec<usize> = rank_classes(evals, num_classes);
    proof {
        lemma_first_is_best(scores_of(evals@, num_classes as nat), order@);
    }
    Some(order[0])
}

/// The first class of a ranking beats all others.
proof fn lemma_first_is_best(scores: Seq<int>, order: Seq<usize>)
    requires
        ranking(scores, order),
        order.len() > 0,
    ensures
        forall|i: int| 0 <= i < scores.len() ==> #[trigger] scores[i] <= scores[order[0] as int],
        forall|i: int| 0 <= i < order[0] ==> #[trigger] scores[i] < scores[order[0] as int],
{
    assert forall|i: int| 0 <= i < scores.len() && i != order[0] implies #[trigger] scores[i]
        <= scores[order[0] as int] && (i < order[0] ==> scores[i] < scores[order[0] as int]) by {
        lemma_all_ranked(scores, order, i);
        let k = choose|k: int| 0 <= k < order.len() && (#[trigger] order[k]) as int == i;
        assert(ranked_before(scores, order[0], order[k]));
    }
}

/// Every class has a place.
proof fn lemma_all_ranked(scores: Seq<int>, order: Seq<usize>, c: int)
    requires
        ranking(scores, order),
        0 <= c < scores.len(),
    ensures
        exists|k: int| 0 <= k < order.len() && (#[trigger] order[k]) as int == c,
{
    if !(exists|k: int| 0 <= k < order.len() && (#[trigger] order[k]) as int == c) {
        let n = scores.len() as int;
        let places = order.map_values(|x: usize| x as int);
        assert(places.no_duplicates()) by {
            assert forall|i: int, j: int| 0 <= i < j < places.len() implies places[i] != places[j] by {
                assert(ranked_before(scores, order[i], order[j]));
            }
        }
        places.unique_seq_to_set();
        let others = vstd::set_lib::set_int_range(0, n).remove(c);
        vstd::set_lib::lemma_int_range(0, n);
        assert(places.to_set().subset_of(others)) by {
            assert forall|x: int| places.to_set().contains(x) implies others.contains(x) by {
                let k = choose|k: int| 0 <= k < places.len() && places[k] == x;
                assert(order[k] < scores.len());
            }
        }
        vstd::set_lib::lemma_len_subset(places.to_set(), others);
    }
}

} // verus!
