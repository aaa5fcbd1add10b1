//! Shapes of tensors: broadcasting, padding, and the layout of padded data.
use vstd::arithmetic::div_mod::*;
use vstd::arithmetic::power2::*;
use vstd::prelude::*;

use crate::util::arith::{
    clog2, get_n, lemma_num_vars_prefix, lemma_usize_max, num_vars, pow2_usize,
};

verus! {

/// Dimension `k` counted from the last one, `1` beyond the first.
pub open spec fn dim_from_last(shape: Seq<usize>, k: int) -> usize {
    if k < shape.len() {
        shape[shape.len() - 1 - k]
    } else {
        1
    }
}

/// Two dimensions can be matched: they are equal or one of them is `1`.
pub open spec fn dims_match(a: usize, b: usize) -> bool {
    a == b || a == 1 || b == 1
}

/// The dimension that two matching dimensions broadcast to.
pub open spec fn joint_dim(a: usize, b: usize) -> usize {
    if a == 1 {
        b
    } else {
        a
    }
}

/// Number of dimensions of a broadcast.
pub open spec fn joint_rank(a: Seq<usize>, b: Seq<usize>) -> nat {
    if a.len() >= b.len() {
        a.len()
    } else {
        b.len()
    }
}

/// All dimensions match when the shapes are aligned at their last dimensions.
pub open spec fn broadcastable(a: Seq<usize>, b: Seq<usize>) -> bool {
    forall|k: int|
        0 <= k < joint_rank(a, b) ==> #[trigger] dims_match(dim_from_last(a, k), dim_from_last(b, k))
}

/// The shape that two shapes broadcast to.
pub open spec fn joint_shape(a: Seq<usize>, b: Seq<usize>) -> Seq<usize> {
    let n = joint_rank(a, b) as int;
    Seq::new(
        n as nat,
        |i: int| joint_dim(dim_from_last(a, n - 1 - i), dim_from_last(b, n - 1 - i)),
    )
}

/// The shape that two shapes broadcast to, if their dimensions match.
pub fn broadcast_shape(a: &[usize], b: &[usize]) -> (r: Option<Vec<usize>>)
    ensures
        match r {
            Some(s) => broadcastable(a@, b@) && s@ == joint_shape(a@, b@),
            None => !broadcastable(a@, b@),
        },
{
    let n: usize = if a.len() >= b.len() {
        a.len()
    } else {
        b.len()
    };
    let mut r: Vec<usize> = Vec::new();
    let mut i: usize = 0;
    while i < n
        invariant
            i <= n,
            n == joint_rank(a@, b@),
            r@ == joint_shape(a@, b@).take(i as int),
            forall|k: int|
                n - i <= k < n ==> #[trigger] dims_match(
                    dim_from_last(a@, k),
                    dim_from_last(b@, k),
                ),
        decreases n - i,
    {
        let k: usize = n - 1 - i;
        let x: usize = if k < a.len() {
            a[a.len() - 1 - k]
        } else {
            1
        };
        let y: usize = if k < b.len() {
            b[b.len() - 1 - k]
        } else {
            1
        };
        assert(x == dim_from_last(a@, k as int) && y == dim_from_last(b@, k as int));
        if !(x == y || x == 1 || y == 1) {
            assert(!dims_match(dim_from_last(a@, k as int), dim_from_last(b@, k as int)));
            return None;
        }
        r.push(if x == 1 { y } else { x });
        i = i + 1;
        assert(r@ =~= joint_shape(a@, b@).take(i as int));
    }
    assert(joint_shape(a@, b@).take(i as int) =~= joint_shape(a@, b@));
    Some(r)
}

/// The position in a tensor of shape `inp` that entry `i` of a broadcast to `out` reads. The first
/// dimension varies fastest and all dimensions are padded to powers of two.
pub open spec fn source(out: Seq<usize>, inp: Seq<usize>, i: int) -> int
    decreases inp.len(),
{
    if inp.len() == 0 || out.len() == 0 {
        0
    } else {
        let stride = pow2(num_vars(out.drop_last())) as int;
        let rest = source(out.drop_last(), inp.drop_last(), i % stride);
        if inp.last() == 1 {
            rest
        } else {
            rest + (i / stride) * pow2(num_vars(inp.drop_last()))
        }
    }
}

/// `inp` takes part in a broadcast to `out`: aligned at the last dimension, each of its dimensions
/// is `1` or that of `out`.
pub open spec fn spreads(out: Seq<usize>, inp: Seq<usize>) -> bool {
    &&& inp.len() <= out.len()
    &&& forall|k: int|
        0 <= k < inp.len() ==> #[trigger] inp[k] == 1 || inp[k] == out[out.len() - inp.len() + k]
}

/// Both shapes take part in their broadcast.
pub proof fn lemma_joint_spreads(a: Seq<usize>, b: Seq<usize>)
    requires
        broadcastable(a, b),
    ensures
        spreads(joint_shape(a, b), a),
        spreads(joint_shape(a, b), b),
{
    let out = joint_shape(a, b);
    let n = out.len() as int;
    assert forall|k: int| 0 <= k < a.len() implies #[trigger] a[k] == 1 || a[k] == out[out.len()
        - a.len() + k] by {
        let j = a.len() - 1 - k;
        assert(dims_match(dim_from_last(a, j), dim_from_last(b, j)));
        assert(n - 1 - (n - a.len() + k) == j);
    }
    assert forall|k: int| 0 <= k < b.len() implies #[trigger] b[k] == 1 || b[k] == out[out.len()
        - b.len() + k] by {
        let j = b.len() - 1 - k;
        assert(dims_match(dim_from_last(a, j), dim_from_last(b, j)));
        assert(n - 1 - (n - b.len() + k) == j);
    }
}

/// What a broadcast reads lies within the tensor.
pub proof fn lemma_source_bound(out: Seq<usize>, inp: Seq<usize>, i: int)
    requires
        spreads(out, inp),
        0 <= i < pow2(num_vars(out)),
    ensures
        0 <= source(out, inp, i) < pow2(num_vars(inp)),
    decreases inp.len(),
{
    lemma2_to64();
    if inp.len() > 0 {
        let (o, p) = (out.drop_last(), inp.drop_last());
        let stride = pow2(num_vars(o)) as int;
        lemma_pow2_pos(num_vars(o));
        lemma_pow2_pos(num_vars(p));
        assert forall|k: int| 0 <= k < p.len() implies #[trigger] p[k] == 1 || p[k] == o[o.len()
            - p.len() + k] by {
            assert(inp[k] == 1 || inp[k] == out[out.len() - inp.len() + k]);
        }
        lemma_mod_bound(i, stride);
        lemma_source_bound(o, p, i % stride);
        lemma_pow2_adds(num_vars(o), clog2(out.last() as nat));
        lemma_pow2_adds(num_vars(p), clog2(inp.last() as nat));
        let c = i / stride;
        let q = pow2(num_vars(p)) as int;
        assert(inp[inp.len() - 1] == 1 || inp[inp.len() - 1] == out[out.len() - 1]);
        let d = pow2(clog2(inp.last() as nat)) as int;
        lemma_pow2_pos(clog2(inp.last() as nat));
        if inp.last() == 1 {
            assert(q * d >= q) by (nonlinear_arith)
                requires
                    d >= 1,
                    q >= 0,
            ;
        } else {
            lemma_fundamental_div_mod(i, stride);
            assert(0 <= c < d) by (nonlinear_arith)
                requires
                    i == stride * c + i % stride,
                    0 <= i % stride < stride,
                    0 <= i < stride * d,
            ;
            assert(0 <= c * q && c * q + q <= q * d) by (nonlinear_arith)
                requires
                    0 <= c < d,
                    0 <= q,
            ;
        }
    } else {
        lemma_pow2_pos(num_vars(inp));
    }
}

/// The shape read backwards.
pub open spec fn reversed_shape(shape: Seq<usize>) -> Seq<usize> {
    Seq::new(shape.len(), |i: int| shape[shape.len() - 1 - i])
}

/// The position that entry `i` of a broadcast to `out` reads in a tensor of shape `inp`.
pub fn source_index(out: &[usize], inp: &[usize], i: usize) -> (r: usize)
    requires
        spreads(out@, inp@),
        num_vars(out@) < usize::BITS,
        num_vars(inp@) < usize::BITS,
        i < pow2(num_vars(out@)),
    ensures
        r == source(out@, inp@, i as int),
        r < pow2(num_vars(inp@)),
{
    let mut rem: usize = i;
    let mut acc: usize = 0;
    let mut k: usize = inp.len();
    let mut m: usize = out.len();
    let ghost (o, p) = (out@, inp@);
    proof {
        assert(o.take(m as int) =~= o);
        assert(p.take(k as int) =~= p);
        lemma_source_bound(o, p, i as int);
        lemma_usize_max();
        lemma_pow2_strictly_increases(num_vars(p), usize::BITS as nat);
    }
    while k > 0
        invariant
            k <= inp.len(),
            m <= out.len(),
            m - k == out.len() - inp.len(),
            o == out@,
            p == inp@,
            spreads(o, p),
            num_vars(o) < usize::BITS,
            num_vars(p) < usize::BITS,
            0 <= source(o, p, i as int) <= usize::MAX,
            rem < pow2(num_vars(o.take(m as int))),
            acc + source(o.take(m as int), p.take(k as int), rem as int) == source(o, p, i as int),
        decreases k,
    {
        let ghost (ot, pt) = (o.take(m as int), p.take(k as int));
        proof {
            assert(ot.drop_last() =~= o.take(m - 1));
            assert(pt.drop_last() =~= p.take(k - 1));
            assert(pt.last() == p[k - 1]);
            lemma_num_vars_prefix(o, m - 1);
            lemma_num_vars_prefix(p, k - 1);
            assert forall|j: int| 0 <= j < pt.len() implies #[trigger] pt[j] == 1 || pt[j]
                == ot[ot.len() - pt.len() + j] by {
                assert(p[j] == 1 || p[j] == o[o.len() - p.len() + j]);
            }
            assert(spreads(ot, pt));
            lemma_source_bound(ot, pt, rem as int);
        }
        k = k - 1;
        m = m - 1;
        let n_out: usize = get_n(vstd::slice::slice_subrange(out, 0, m));
        let n_inp: usize = get_n(vstd::slice::slice_subrange(inp, 0, k));
        assert(out@.subrange(0, m as int) =~= o.take(m as int));
        assert(inp@.subrange(0, k as int) =~= p.take(k as int));
        let stride: usize = pow2_usize(n_out);
        let step: usize = pow2_usize(n_inp);
        let c: usize = rem / stride;
        proof {
            let next = source(o.take(m as int), p.take(k as int), (rem % stride) as int);
            assert forall|j: int| 0 <= j < p.take(k as int).len() implies #[trigger] p.take(
                k as int,
            )[j] == 1 || p.take(k as int)[j] == o.take(m as int)[m - k + j] by {
                assert(p[j] == 1 || p[j] == o[o.len() - p.len() + j]);
            }
            assert(spreads(o.take(m as int), p.take(k as int)));
            lemma_source_bound(o.take(m as int), p.take(k as int), (rem % stride) as int);
            assert(0 <= c * step) by (nonlinear_arith)
                requires
                    0 <= c,
                    0 <= step,
            ;
        }
        if inp[k] != 1 {
            acc = acc + c * step;
        }
        rem = rem % stride;
    }
    acc
}

} // verus!
