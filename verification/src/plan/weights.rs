//! Weights, biases and inputs made from drawn numbers.
use vstd::arithmetic::div_mod::lemma_fundamental_div_mod_converse;
use vstd::arithmetic::power2::*;
use vstd::prelude::*;

use crate::dag::witness::{fits, known, DataType, Role, Tensor, Witness};
use crate::field::GoldilocksField;
use crate::plan::layout::{laid_out, lay_out, volume};
use crate::util::arith::{clog2, lemma_clog2, log2c, num_vars, pow2_usize};

verus! {

/// The words that draws give: their remainders.
pub open spec fn remainders(draws: Seq<u32>, bound: int) -> Seq<GoldilocksField> {
    draws.map_values(|d: u32| GoldilocksField((d as int % bound) as u64))
}

/// Reduces every draw below a bound.
pub fn reduced(draws: &[u32], bound: u32) -> (r: Vec<GoldilocksField>)
    requires
        bound > 0,
    ensures
        r@ == remainders(draws@, bound as int),
{
    let mut r: Vec<GoldilocksField> = Vec::new();
    let mut i: usize = 0;
    while i < draws.len()
        invariant
            bound > 0,
            i <= draws.len(),
            r@ == remainders(draws@, bound as int).take(i as int),
        decreases draws.len() - i,
    {
        r.push(GoldilocksField((draws[i] % bound) as u64));
        i = i + 1;
        assert(r@ =~= remainders(draws@, bound as int).take(i as int));
    }
    assert(r@ =~= remainders(draws@, bound as int));
    r
}

/// A tensor of the shape fits in memory when every dimension is padded.
pub open spec fn placeable(dims: Seq<usize>) -> bool {
    num_vars(dims) < usize::BITS
}

proof fn lemma_prefix_volume(dims: Seq<usize>, k: int)
    requires
        0 <= k <= dims.len(),
    ensures
        volume(dims.take(k)) <= pow2(num_vars(dims.take(k))),
    decreases k,
{
    if k == 0 {
        lemma2_to64();
    } else {
        let here = dims.take(k);
        lemma_prefix_volume(dims, k - 1);
        assert(here.drop_last() =~= dims.take(k - 1));
        lemma_clog2(here.last() as nat);
        lemma_pow2_adds(num_vars(here.drop_last()), clog2(here.last() as nat));
        let v = volume(here.drop_last()) as int;
        let p = pow2(num_vars(here.drop_last())) as int;
        let d = here.last() as int;
        let q = pow2(clog2(here.last() as nat)) as int;
        assert(v * d <= p * q) by (nonlinear_arith)
            requires
                0 <= v <= p,
                0 <= d <= q,
        ;
    }
}

/// Entries and padded size of a tensor, if it fits in memory.
pub fn sizes(dims: &Vec<usize>) -> (r: Option<(usize, usize)>)
    ensures
        r is Some <==> placeable(dims@),
        r matches Some(s) ==> s.0 == volume(dims@) && s.1 == pow2(num_vars(dims@)),
{
    let mut n: usize = 0;
    let mut v: usize = 1;
    let mut k: usize = 0;
    while k < dims.len()
        invariant
            k <= dims.len(),
            n == num_vars(dims@.take(k as int)),
            n < usize::BITS,
            v == volume(dims@.take(k as int)),
        decreases dims.len() - k,
    {
        proof {
            assert(dims@.take(k as int + 1).drop_last() =~= dims@.take(k as int));
            crate::util::arith::lemma_num_vars_prefix(dims@, k as int + 1);
            lemma_prefix_volume(dims@, k as int + 1);
        }
        let more: usize = n + log2c(dims[k]);
        if more >= usize::BITS as usize {
            return None;
        }
        proof {
            crate::util::arith::lemma_usize_max();
            lemma_pow2_strictly_increases(more as nat, usize::BITS as nat);
        }
        n = more;
        v = v * dims[k];
        k = k + 1;
    }
    assert(dims@.take(k as int) =~= dims@);
    Some((v, pow2_usize(n)))
}

/// A constant tensor of integers with the given entries.
pub open spec fn weight_tensor(shape: Seq<usize>, words: Seq<GoldilocksField>) -> Tensor {
    known(shape, laid_out(shape, words), DataType::Uint, 0, Role::Constant)
}

/// A constant tensor of integers with the given entries, the last dimension varying fastest.
pub fn generate_weight(shape: Vec<usize>, words: &[GoldilocksField]) -> (r: Witness)
    requires
        placeable(shape@),
        words.len() == volume(shape@),
    ensures
        r@ == weight_tensor(shape@, words@),
{
    let data: Vec<GoldilocksField> = lay_out(&shape, words);
    Witness::new(shape, data, DataType::Uint, 0, Role::Constant)
}

/// The kernels of a convolution: `[c_out, c_in, kh, kw]`.
pub fn generate_conv_weight(c_in: usize, c_out: usize, kh: usize, kw: usize, words: &[GoldilocksField]) -> (r:
    Witness)
    requires
        placeable(seq![c_out, c_in, kh, kw]),
        words.len() == volume(seq![c_out, c_in, kh, kw]),
    ensures
        r@ == weight_tensor(seq![c_out, c_in, kh, kw], words@),
{
    let shape: Vec<usize> = vec![c_out, c_in, kh, kw];
    assert(shape@ =~= seq![c_out, c_in, kh, kw]);
    generate_weight(shape, words)
}

/// The kernels of a convolution that works channel by channel: `[channels, 1, kh, kw]`.
pub fn generate_dw_conv_weight(
    channels: usize,
    kh: usize,
    kw: usize,
    words: &[GoldilocksField],
) -> (r: Witness)
    requires
        placeable(seq![channels, 1, kh, kw]),
        words.len() == volume(seq![channels, 1, kh, kw]),
    ensures
        r@ == weight_tensor(seq![channels, 1, kh, kw], words@),
{
    let shape: Vec<usize> = vec![channels, 1, kh, kw];
    assert(shape@ =~= seq![channels, 1, kh, kw]);
    generate_weight(shape, words)
}

/// The kernels of a transposed convolution: `[c_in, c_out, kh, kw]`.
pub fn generate_conv_transpose_weight(
    c_in: usize,
    c_out: usize,
    kh: usize,
    kw: usize,
    words: &[GoldilocksField],
) -> (r: Witness)
    requires
        placeable(seq![c_in, c_out, kh, kw]),
        words.len() == volume(seq![c_in, c_out, kh, kw]),
    ensures
        r@ == weight_tensor(seq![c_in, c_out, kh, kw], words@),
{
    let shape: Vec<usize> = vec![c_in, c_out, kh, kw];
    assert(shape@ =~= seq![c_in, c_out, kh, kw]);
    generate_weight(shape, words)
}

/// The kernels of a convolution in space: `[c_out, c_in, kd, kh, kw]`.
pub fn generate_conv3d_weight(
    c_out: usize,
    c_in: usize,
    kd: usize,
    kh: usize,
    kw: usize,
    words: &[GoldilocksField],
) -> (r: Witness)
    requires
        placeable(seq![c_out, c_in, kd, kh, kw]),
        words.len() == volume(seq![c_out, c_in, kd, kh, kw]),
    ensures
        r@ == weight_tensor(seq![c_out, c_in, kd, kh, kw], words@),
{
    let shape: Vec<usize> = vec![c_out, c_in, kd, kh, kw];
    assert(shape@ =~= seq![c_out, c_in, kd, kh, kw]);
    generate_weight(shape, words)
}

/// The kernels of a convolution along a line: `[c_out, c_in, kernel_size]`.
pub fn make_conv1d_weight(c_out: usize, c_in: usize, kernel_size: usize, words: &[GoldilocksField]) -> (r:
    Witness)
    requires
        placeable(seq![c_out, c_in, kernel_size]),
        words.len() == volume(seq![c_out, c_in, kernel_size]),
    ensures
        r@ == weight_tensor(seq![c_out, c_in, kernel_size], words@),
{
    let shape: Vec<usize> = vec![c_out, c_in, kernel_size];
    assert(shape@ =~= seq![c_out, c_in, kernel_size]);
    generate_weight(shape, words)
}

/// A matrix whose columns vary fastest: `[in_dim, out_dim]`.
pub fn generate_linear_weight(in_dim: usize, out_dim: usize, words: &[GoldilocksField]) -> (r: Witness)
    requires
        placeable(seq![in_dim, out_dim]),
        words.len() == volume(seq![in_dim, out_dim]),
    ensures
        r@ == weight_tensor(seq![in_dim, out_dim], words@),
{
    let shape: Vec<usize> = vec![in_dim, out_dim];
    assert(shape@ =~= seq![in_dim, out_dim]);
    generate_weight(shape, words)
}

/// A bias with one entry for every output: `[dim]`.
pub fn generate_bias_1d(words: &[GoldilocksField]) -> (r: Witness)
    requires
        placeable(seq![words.len()]),
    ensures
        r@ == weight_tensor(seq![words.len()], words@),
{
    let shape: Vec<usize> = vec![words.len()];
    assert(shape@ =~= seq![words.len()]);
    proof {
        reveal_with_fuel(volume, 2);
    }
    generate_weight(shape, words)
}

/// Every entry repeated.
pub open spec fn spread(words: Seq<GoldilocksField>, times: nat) -> Seq<GoldilocksField> {
    Seq::new(words.len() * times, |i: int| words[i / times as int])
}

/// A bias of a convolution: the entry of a channel at all its places, `[channels, h, w]`.
pub fn generate_bias_3d(h: usize, w: usize, words: &[GoldilocksField]) -> (r: Witness)
    requires
        placeable(seq![words.len(), h, w]),
    ensures
        r@ == weight_tensor(seq![words.len(), h, w], spread(words@, (h * w) as nat)),
{
    let shape: Vec<usize> = vec![words.len(), h, w];
    let ghost dims = seq![words.len(), h, w];
    assert(shape@ =~= dims);
    let ghost times = (h * w) as nat;
    proof {
        lemma_triple_volume(words.len(), h, w);
        lemma_prefix_volume(dims, 3);
        assert(dims.take(3) =~= dims);
        crate::util::arith::lemma_usize_max();
        lemma_pow2_strictly_increases(num_vars(dims), usize::BITS as nat);
        let n = words@.len() as int;
        assert((n * h) * w == n * (h * w)) by (nonlinear_arith);
    }
    let mut wide: Vec<GoldilocksField> = Vec::new();
    let mut c: usize = 0;
    while c < words.len()
        invariant
            c <= words.len(),
            times == h * w,
            words.len() * times <= usize::MAX,
            wide@ == spread(words@, times).take(c * times),
            0 <= c * times,
        decreases words.len() - c,
    {
        let ghost before = wide@;
        let mut y: usize = 0;
        let mut i: usize = 0;
        assert(c * times + times <= words.len() * times) by (nonlinear_arith)
            requires
                c < words.len(),
        ;
        assert(1 * times <= words.len() * times) by (nonlinear_arith)
            requires
                c < words.len(),
        ;
        while y < h
            invariant
                y <= h,
                i == y * w,
                c < words.len(),
                times == h * w,
                times <= usize::MAX,
                before.len() == c * times,
                c * times + times <= words.len() * times,
                before == spread(words@, times).take(c * times),
                wide@ == spread(words@, times).take(c * times + i),
            decreases h - y,
        {
            let mut x: usize = 0;
            assert(y * w + w <= times) by (nonlinear_arith)
                requires
                    y < h,
                    times == h * w,
            ;
            while x < w
                invariant
                    x <= w,
                    y * w + w <= times,
                    c < words.len(),
                    before.len() == c * times,
                    c * times + times <= words.len() * times,
                    wide@ == spread(words@, times).take(c * times + y * w + x),
                    0 <= y * w,
                decreases w - x,
            {
                let ghost i = y * w + x;
                proof {
                    lemma_fundamental_div_mod_converse(c * times + i, times as int, c as int, i as int);
                }
                wide.push(words[c]);
                x = x + 1;
                assert(wide@ =~= spread(words@, times).take(c * times + y * w + x));
            }
            assert((y + 1) * w == y * w + w) by (nonlinear_arith);
            y = y + 1;
            i = i + w;
        }
        assert((c + 1) * times == c * times + times) by (nonlinear_arith);
        c = c + 1;
    }
    assert(wide@ =~= spread(words@, times));
    generate_weight(shape, wide.as_slice())
}

/// The entries of a matrix, column after column.
pub open spec fn by_columns(words: Seq<GoldilocksField>, rows: int, cols: int) -> Seq<GoldilocksField> {
    Seq::new((rows * cols) as nat, |k: int| words[(k % rows) * cols + k / rows])
}

/// A matrix `[in_dim, out_dim]` whose rows vary fastest.
pub open spec fn fc_tensor(in_dim: usize, out_dim: usize, words: Seq<GoldilocksField>) -> Tensor {
    known(
        seq![in_dim, out_dim],
        laid_out(seq![out_dim, in_dim], by_columns(words, in_dim as int, out_dim as int)),
        DataType::Uint,
        0,
        Role::Constant,
    )
}

proof fn lemma_pair_sizes(a: usize, b: usize)
    ensures
        num_vars(seq![a, b]) == clog2(a as nat) + clog2(b as nat),
        volume(seq![a, b]) == a * b,
{
    assert(seq![a, b].drop_last() =~= seq![a]);
    assert(seq![a].drop_last() =~= Seq::<usize>::empty());
    reveal_with_fuel(num_vars, 3);
    assert(volume(Seq::<usize>::empty()) == 1);
    assert(volume(seq![a]) == 1 * a as nat);
    assert(volume(seq![a, b]) == volume(seq![a]) * b as nat);
}

proof fn lemma_triple_volume(a: usize, b: usize, c: usize)
    ensures
        volume(seq![a, b, c]) == (a * b) * c,
{
    lemma_pair_sizes(a, b);
    assert(seq![a, b, c].drop_last() =~= seq![a, b]);
    assert(volume(seq![a, b, c]) == volume(seq![a, b]) * c as nat);
}

/// The weights of a fully connected layer: `[in_dim, out_dim]` with the rows varying fastest; the
/// words come row by row.
pub fn generate_fc_weight(in_dim: usize, out_dim: usize, words: &[GoldilocksField]) -> (r: Witness)
    requires
        placeable(seq![in_dim, out_dim]),
        words.len() == in_dim * out_dim,
    ensures
        r@ == fc_tensor(in_dim, out_dim, words@),
{
    proof {
        lemma_pair_sizes(in_dim, out_dim);
        lemma_pair_sizes(out_dim, in_dim);
        assert(in_dim * out_dim == out_dim * in_dim) by (nonlinear_arith);
    }
    let ghost turned = by_columns(words@, in_dim as int, out_dim as int);
    let mut list: Vec<GoldilocksField> = Vec::new();
    let mut j: usize = 0;
    assert(0 * in_dim == 0);
    while j < out_dim
        invariant
            j <= out_dim,
            words.len() == in_dim * out_dim,
            turned == by_columns(words@, in_dim as int, out_dim as int),
            list@ == turned.take(j * in_dim),
            turned.len() == in_dim * out_dim,
            0 <= j * in_dim,
        decreases out_dim - j,
    {
        let mut i: usize = 0;
        assert(j * in_dim + in_dim <= in_dim * out_dim) by (nonlinear_arith)
            requires
                j < out_dim,
        ;
        while i < in_dim
            invariant
                i <= in_dim,
                j < out_dim,
                words.len() == in_dim * out_dim,
                turned == by_columns(words@, in_dim as int, out_dim as int),
                turned.len() == in_dim * out_dim,
                j * in_dim + in_dim <= in_dim * out_dim,
                0 <= j * in_dim,
                list@ == turned.take(j * in_dim + i),
            decreases in_dim - i,
        {
            assert(i * out_dim + j < in_dim * out_dim) by (nonlinear_arith)
                requires
                    i < in_dim,
                    j < out_dim,
            ;
            assert(0 <= i * out_dim) by (nonlinear_arith);
            proof {
                lemma_fundamental_div_mod_converse(j * in_dim + i, in_dim as int, j as int, i as int);
            }
            list.push(words[i * out_dim + j]);
            i = i + 1;
            assert(list@ =~= turned.take(j * in_dim + i));
        }
        assert((j + 1) * in_dim == j * in_dim + in_dim) by (nonlinear_arith);
        j = j + 1;
    }
    assert(out_dim * in_dim == in_dim * out_dim) by (nonlinear_arith);
    assert(list@ =~= turned);
    let over: Vec<usize> = vec![out_dim, in_dim];
    assert(over@ =~= seq![out_dim, in_dim]);
    let data: Vec<GoldilocksField> = lay_out(&over, list.as_slice());
    let shape: Vec<usize> = vec![in_dim, out_dim];
    assert(shape@ =~= seq![in_dim, out_dim]);
    Witness::new(shape, data, DataType::Uint, 0, Role::Constant)
}

/// The bias of a fully connected layer.
pub fn generate_fc_bias(words: &[GoldilocksField]) -> (r: Witness)
    requires
        placeable(seq![words.len()]),
    ensures
        r@ == weight_tensor(seq![words.len()], words@),
{
    generate_bias_1d(words)
}

/// Every word one larger.
pub open spec fn raised(words: Seq<GoldilocksField>) -> Seq<GoldilocksField> {
    words.map_values(|x: GoldilocksField| GoldilocksField((x.0 + 1) as u64))
}

/// Scales and shifts of a normalisation, one of each for every channel. A scale is its draw below
/// `100` and one more, so none is zero.
pub fn generate_instancenorm_params(gamma: &[u32], beta: &[u32]) -> (r: (Witness, Witness))
    requires
        placeable(seq![gamma.len()]),
        beta.len() == gamma.len(),
    ensures
        r.0@ == weight_tensor(seq![gamma.len()], raised(remainders(gamma@, 100))),
        r.1@ == weight_tensor(seq![gamma.len()], remainders(beta@, 100)),
        forall|c: int| 0 <= c < gamma.len() ==> 0 < (#[trigger] raised(remainders(gamma@, 100))[c]).0 <= 100,
{
    let mut up: Vec<GoldilocksField> = Vec::new();
    let mut i: usize = 0;
    while i < gamma.len()
        invariant
            i <= gamma.len(),
            up@ == raised(remainders(gamma@, 100)).take(i as int),
        decreases gamma.len() - i,
    {
        up.push(GoldilocksField((gamma[i] % 100 + 1) as u64));
        i = i + 1;
        assert(up@ =~= raised(remainders(gamma@, 100)).take(i as int));
    }
    assert(up@ =~= raised(remainders(gamma@, 100)));
    (generate_bias_1d(up.as_slice()), generate_bias_1d(reduced(beta, 100).as_slice()))
}

/// An input of integers below `500`, one draw for every place of the padded tensor.
pub fn random_input(shape: Vec<usize>, draws: &[u32]) -> (r: Witness)
    requires
        fits(shape@, draws@.len()),
    ensures
        r@ == known(shape@, remainders(draws@, 500), DataType::Uint, 0, Role::Input),
{
    Witness::new(shape, reduced(draws, 500), DataType::Uint, 0, Role::Input)
}

/// The rows and columns that draws give on a grid: rows at even places, columns at odd places.
pub open spec fn grid_points(draws: Seq<u32>, h: int, w: int) -> Seq<GoldilocksField> {
    draws.map(
        |i: int, d: u32|
            GoldilocksField(
                (d as int % if i % 2 == 0 {
                    h
                } else {
                    w
                }) as u64,
            ),
    )
}

/// Coordinates of `draws.len() / 2` points on a grid of `h` by `w`: `[points, 2]`.
pub fn grid_input(draws: &[u32], h: usize, w: usize) -> (r: Witness)
    requires
        h > 0,
        w > 0,
        draws.len() % 2 == 0,
        placeable(seq![(draws.len() / 2) as usize, 2]),
    ensures
        r@ == known(
            seq![(draws.len() / 2) as usize, 2],
            laid_out(seq![(draws.len() / 2) as usize, 2], grid_points(draws@, h as int, w as int)),
            DataType::Uint,
            0,
            Role::Input,
        ),
{
    let mut list: Vec<GoldilocksField> = Vec::new();
    let mut i: usize = 0;
    while i < draws.len()
        invariant
            h > 0,
            w > 0,
            i <= draws.len(),
            list@ == grid_points(draws@, h as int, w as int).take(i as int),
        decreases draws.len() - i,
    {
        let side: usize = if i % 2 == 0 {
            h
        } else {
            w
        };
        list.push(GoldilocksField(draws[i] as u64 % side as u64));
        i = i + 1;
        assert(list@ =~= grid_points(draws@, h as int, w as int).take(i as int));
    }
    assert(list@ =~= grid_points(draws@, h as int, w as int));
    let points: usize = draws.len() / 2;
    proof {
        lemma_pair_sizes(points, 2);
    }
    let shape: Vec<usize> = vec![points, 2];
    assert(shape@ =~= seq![points, 2]);
    let data: Vec<GoldilocksField> = lay_out(&shape, list.as_slice());
    Witness::new(shape, data, DataType::Uint, 0, Role::Input)
}

} // verus!
