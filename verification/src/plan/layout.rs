//! Where the entries of a tensor stand once every dimension is padded to a power of two.
use vstd::arithmetic::div_mod::{lemma_fundamental_div_mod, lemma_fundamental_div_mod_converse};
use vstd::arithmetic::power2::*;
use vstd::prelude::*;

use crate::dag::witness::{in_bounds, is_in_bounds, lemma_dim_small};
use crate::field::GoldilocksField;
use crate::util::arith::{clog2, get_n, lemma_clog2, next_pow, num_vars, padded, pow2_usize};

verus! {

/// Number of entries of a tensor, without padding.
pub open spec fn volume(dims: Seq<usize>) -> nat
    decreases dims.len(),
{
    if dims.len() == 0 {
        1
    } else {
        volume(dims.drop_last()) * dims.last() as nat
    }
}

/// Number of the entry that stands at a position of the padded tensor, the last dimension varying
/// fastest in both.
pub open spec fn entry_index(dims: Seq<usize>, p: int) -> int
    decreases dims.len(),
{
    if dims.len() == 0 {
        0
    } else {
        let q = padded(dims.last() as nat) as int;
        entry_index(dims.drop_last(), p / q) * dims.last() + p % q
    }
}

/// The padded tensor: the entries at their places and zeros between them.
pub open spec fn laid_out(dims: Seq<usize>, words: Seq<GoldilocksField>) -> Seq<GoldilocksField> {
    Seq::new(
        pow2(num_vars(dims)),
        |p: int|
            if in_bounds(dims, p) {
                words[entry_index(dims, p)]
            } else {
                GoldilocksField(0)
            },
    )
}

/// The coordinates lie inside the tensor.
pub open spec fn within(dims: Seq<usize>, at: Seq<int>) -> bool {
    &&& at.len() == dims.len()
    &&& forall|k: int| 0 <= k < at.len() ==> 0 <= #[trigger] at[k] < dims[k]
}

/// Number of the entry with the given coordinates.
pub open spec fn row_position(dims: Seq<usize>, at: Seq<int>) -> int
    decreases dims.len(),
{
    if dims.len() == 0 {
        0
    } else {
        row_position(dims.drop_last(), at.drop_last()) * dims.last() + at.last()
    }
}

/// Place of the entry with the given coordinates in the padded tensor.
pub open spec fn padded_position(dims: Seq<usize>, at: Seq<int>) -> int
    decreases dims.len(),
{
    if dims.len() == 0 {
        0
    } else {
        padded_position(dims.drop_last(), at.drop_last()) * padded(dims.last() as nat) + at.last()
    }
}

/// The numbers of the entries stay below the volume.
pub proof fn lemma_entry_index(dims: Seq<usize>, p: int)
    requires
        0 <= p < pow2(num_vars(dims)),
        in_bounds(dims, p),
    ensures
        0 <= entry_index(dims, p) < volume(dims),
    decreases dims.len(),
{
    if dims.len() == 0 {
        lemma2_to64();
    } else {
        let rest = dims.drop_last();
        let last = dims.last() as int;
        let q = padded(dims.last() as nat) as int;
        lemma_clog2(dims.last() as nat);
        lemma_pow2_pos(clog2(dims.last() as nat));
        lemma_pow2_adds(num_vars(rest), clog2(dims.last() as nat));
        lemma_fundamental_div_mod(p, q);
        let up = pow2(num_vars(rest)) as int;
        assert(0 <= p / q < up) by (nonlinear_arith)
            requires
                0 <= p < up * q,
                q > 0,
                p == q * (p / q) + p % q,
                0 <= p % q,
        ;
        lemma_entry_index(rest, p / q);
        let e = entry_index(rest, p / q);
        let v = volume(rest) as int;
        assert(0 <= e * last + p % q < v * last) by (nonlinear_arith)
            requires
                0 <= e < v,
                0 <= p % q < last,
        ;
    }
}

/// Every entry stands at the place that its coordinates give, and nowhere in the padding.
pub proof fn lemma_laid_out_entry(dims: Seq<usize>, words: Seq<GoldilocksField>, at: Seq<int>)
    requires
        within(dims, at),
    ensures
        0 <= padded_position(dims, at) < pow2(num_vars(dims)),
        0 <= row_position(dims, at) < volume(dims),
        in_bounds(dims, padded_position(dims, at)),
        laid_out(dims, words)[padded_position(dims, at)] == words[row_position(dims, at)],
{
    lemma_position(dims, at);
}

proof fn lemma_position(dims: Seq<usize>, at: Seq<int>)
    requires
        within(dims, at),
    ensures
        0 <= padded_position(dims, at) < pow2(num_vars(dims)),
        0 <= row_position(dims, at) < volume(dims),
        in_bounds(dims, padded_position(dims, at)),
        entry_index(dims, padded_position(dims, at)) == row_position(dims, at),
    decreases dims.len(),
{
    if dims.len() == 0 {
        lemma2_to64();
    } else {
        let rest = dims.drop_last();
        let last = dims.last() as int;
        assert(at.last() == at[at.len() - 1]);
        assert(dims.last() == dims[at.len() - 1]);
        assert forall|k: int| 0 <= k < at.drop_last().len() implies 0 <= #[trigger] at.drop_last()[k]
            < rest[k] by {
            assert(at.drop_last()[k] == at[k]);
        }
        lemma_position(rest, at.drop_last());
        let q = padded(dims.last() as nat) as int;
        lemma_clog2(dims.last() as nat);
        lemma_pow2_adds(num_vars(rest), clog2(dims.last() as nat));
        let e = padded_position(rest, at.drop_last());
        let up = pow2(num_vars(rest)) as int;
        let c = at.last();
        assert(0 <= e * q + c < up * q) by (nonlinear_arith)
            requires
                0 <= e < up,
                0 <= c < q,
        ;
        lemma_fundamental_div_mod_converse(e * q + c, q, e, c);
        let r = row_position(rest, at.drop_last());
        let v = volume(rest) as int;
        assert(0 <= r * last + c < v * last) by (nonlinear_arith)
            requires
                0 <= r < v,
                0 <= c < last,
        ;
    }
}

/// Number of the entry that stands at a position of the first `k` dimensions.
fn entry_at(dims: &Vec<usize>, k: usize, p: usize) -> (r: usize)
    requires
        k <= dims.len(),
        num_vars(dims@) < usize::BITS,
        p < pow2(num_vars(dims@.take(k as int))),
        in_bounds(dims@.take(k as int), p as int),
    ensures
        r == entry_index(dims@.take(k as int), p as int),
        r <= p,
    decreases k,
{
    if k == 0 {
        0
    } else {
        let ghost here = dims@.take(k as int);
        proof {
            lemma_dim_small(dims@, k as int - 1);
            assert(here.drop_last() =~= dims@.take(k as int - 1));
            assert(here.last() == dims[k as int - 1]);
            lemma_pow2_adds(num_vars(here.drop_last()), clog2(here.last() as nat));
        }
        let q: usize = next_pow(dims[k - 1]);
        let ghost up = pow2(num_vars(here.drop_last())) as int;
        proof {
            lemma_fundamental_div_mod(p as int, q as int);
            let (above, low) = (p as int / q as int, p as int % q as int);
            assert(0 <= above < up) by (nonlinear_arith)
                requires
                    0 <= p < up * q,
                    q > 0,
                    p == q * above + low,
                    0 <= low < q,
            ;
        }
        let e: usize = entry_at(dims, k - 1, p / q);
        let last: usize = dims[k - 1];
        let ghost above = p as int / q as int;
        let ghost low = p as int % q as int;
        assert(e * last + low <= p) by (nonlinear_arith)
            requires
                0 <= e <= above,
                0 <= last <= q,
                p == q * above + low,
        ;
        assert(0 <= e * last) by (nonlinear_arith)
            requires
                0 <= e,
                0 <= last,
        ;
        e * last + p % q
    }
}

/// Pads every dimension to a power of two, with zeros.
pub fn lay_out(dims: &Vec<usize>, words: &[GoldilocksField]) -> (r: Vec<GoldilocksField>)
    requires
        num_vars(dims@) < usize::BITS,
        words.len() == volume(dims@),
    ensures
        r@ == laid_out(dims@, words@),
{
    let size: usize = pow2_usize(get_n(dims.as_slice()));
    let mut r: Vec<GoldilocksField> = Vec::new();
    let mut p: usize = 0;
    assert(dims@.take(dims.len() as int) =~= dims@);
    while p < size
        invariant
            p <= size,
            size == pow2(num_vars(dims@)),
            num_vars(dims@) < usize::BITS,
            words.len() == volume(dims@),
            dims@.take(dims.len() as int) == dims@,
            r@ == laid_out(dims@, words@).take(p as int),
        decreases size - p,
    {
        let ghost before = r@;
        if is_in_bounds(dims, p) {
            proof {
                lemma_entry_index(dims@, p as int);
            }
            r.push(words[entry_at(dims, dims.len(), p)]);
        } else {
            r.push(GoldilocksField(0));
        }
        p = p + 1;
        assert(r@ =~= laid_out(dims@, words@).take(p as int));
    }
    assert(laid_out(dims@, words@).take(p as int) =~= laid_out(dims@, words@));
    r
}

} // verus!
