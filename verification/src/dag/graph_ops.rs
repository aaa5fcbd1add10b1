//! The operations of the builder that consist of several nodes.
use vstd::arithmetic::power2::*;
use vstd::prelude::*;

use crate::dag::block::{Block, Op};
use crate::dag::graph::{filled, group_ok, word, Graph};
use crate::dag::types::EdgeId;
use crate::dag::witness::{known, unknown, DataType, Role};
use crate::field::elem::prime;
use crate::field::GoldilocksField;
use crate::util::arith::{num_vars, padded};

verus! {

/// The letter that stands for dimension `i`.
pub open spec fn letter(i: int) -> char {
    ((97 + i) as u8) as char
}

/// The letters of `n` dimensions.
pub open spec fn letter_run(n: nat) -> Seq<char> {
    Seq::new(n, |i: int| letter(i))
}

/// The letters of those of the first `k` dimensions that are not summed over.
pub open spec fn kept_letters(axes: Seq<usize>, k: nat) -> Seq<char>
    decreases k,
{
    if k == 0 {
        Seq::empty()
    } else {
        let rest = kept_letters(axes, (k - 1) as nat);
        if axes.contains((k - 1) as usize) {
            rest
        } else {
            rest.push(letter(k - 1))
        }
    }
}

/// The product of the listed dimensions.
pub open spec fn axes_product(shape: Seq<usize>, axes: Seq<usize>) -> int
    decreases axes.len(),
{
    if axes.len() == 0 {
        1
    } else {
        axes_product(shape, axes.drop_last()) * shape[axes.last() as int]
    }
}

/// A number can be padded to a power of two within a machine word.
pub open spec fn paddable(x: int) -> bool {
    0 <= x <= usize::MAX / 2 + 1
}

/// The padded number.
pub open spec fn pad2(x: int) -> int {
    padded(x as nat) as int
}

/// The extent of a kernel with gaps.
pub open spec fn extent(k: int, dilation: int) -> int {
    (k - 1) * dilation + 1
}

/// Number of positions of a window of `extent` that moves by `stride`.
pub open spec fn windows(len: int, extent: int, stride: int) -> int {
    (len - extent) / stride + 1
}

/// A window fits and moves.
pub open spec fn window_ok(len: int, extent: int, stride: int) -> bool {
    1 <= extent <= len && stride >= 1
}

/// The word that stands for `-100` at scale `2^sf`.
pub open spec fn big_negative(sf: usize) -> GoldilocksField {
    GoldilocksField(((0 - 100 * pow2(sf as nat)) % prime()) as u64)
}

/// The words of the causal mask: `-100` wherever a key lies after its query.
pub open spec fn causal_words(shape: Seq<usize>, seq_len: usize, sf: usize) -> Seq<GoldilocksField> {
    let n = shape.len() as int;
    let s_stride = pow2(num_vars(shape.take(n - 2))) as int;
    let s_pad = pad2(shape[n - 2] as int);
    Seq::new(
        pow2(num_vars(shape)),
        |i: int|
            {
                let s = (i / s_stride) % s_pad;
                let t = (i / s_stride) / s_pad;
                if t < seq_len && s < seq_len && t > s {
                    big_negative(sf)
                } else {
                    GoldilocksField(0)
                }
            },
    )
}

/// Number of positions `offset, offset + stride, ..` below `len`.
pub open spec fn strided_count(len: int, stride: int, offset: int) -> int {
    (len - offset + stride - 1) / stride
}

impl Graph {
    #[verifier::opaque]
    pub open spec fn rms_reciprocal(self, x: EdgeId) -> (Graph, EdgeId) {
        let n = self.rank(x) as int;
        self.require(self.has_rank(x, 1)).emit1(
            seq![x],
            Block::Op(Op::RMSReciprocal { dim: self.shape(x)[n - 1] }),
            unknown(self.shape(x).update(n - 1, 1), self.dtype(x), self.sf(x), Role::Auxiliary),
        )
    }

    pub open spec fn div_const(self, a: EdgeId, c: usize) -> (Graph, EdgeId) {
        self.alike(Op::DivConst { divisor: c as u64 }, a)
    }

    #[verifier::opaque]
    pub open spec fn softmax_const(self, a: EdgeId) -> (Graph, EdgeId) {
        self.require(self.has_rank(a, 1)).alike(
            Op::SoftmaxConst { dim: self.shape(a)[self.rank(a) - 1] },
            a,
        )
    }

    pub open spec fn sigmoid_const(self, a: EdgeId) -> (Graph, EdgeId) {
        self.alike(Op::SigmoidConst { segments: 8 }, a)
    }

    /// The remainder of the exponent and the selection of its power of two.
    #[verifier::opaque]
    pub open spec fn exp_helper(self, a: EdgeId) -> (Graph, EdgeId) {
        (
            self.emit(
                seq![a],
                Block::Op(Op::ExpHelper { num_bits: 16 }),
                seq![
                    unknown(self.shape(a), self.dtype(a), self.sf_log, Role::Output),
                    unknown(seq![1usize], self.dtype(a), 0, Role::Auxiliary),
                ],
            ),
            self.fresh(),
        )
    }

    /// The powers of two that the tensor on edge `k` selects, of the given shape.
    #[verifier::opaque]
    pub open spec fn two_pow_of(self, k: EdgeId, shape: Seq<usize>, dt: DataType) -> (
        Graph,
        EdgeId,
    ) {
        (Graph { two_pow: self.two_pow.push(self.nodes.len() as usize), ..self }).emit1(
            seq![k],
            Block::Op(Op::TwoPow),
            unknown(shape, dt, 15, Role::Output),
        )
    }

    /// A tensor with the value `v` everywhere, under a flat shape.
    #[verifier::opaque]
    pub open spec fn flat_constant(self, shape: Seq<usize>, flat: usize, v: u64) -> (
        Graph,
        EdgeId,
    ) {
        self.param(
            known(
                seq![flat],
                filled(shape, GoldilocksField(v)),
                DataType::Float,
                15,
                Role::Constant,
            ),
        )
    }

    /// `exp(x)` as `2^(-k) * (1 + r + r^2 / 2 + r^3 / 6)`.
    #[verifier::opaque]
    pub open spec fn exp(self, a: EdgeId) -> (Graph, EdgeId) {
        let shape = self.shape(a);
        let dt = self.dtype(a);
        let n = num_vars(shape);
        let flat = pow2(n) as usize;
        let square = "a,a->a"@;
        let g = self.require(
            self.has(a) && n < usize::BITS && forall|i: int|
                0 <= i < shape.len() ==> (#[trigger] shape[i]) <= 0x8000_0000,
        );
        let (g, h) = g.exp_helper(a);
        let k = (h + 1) as usize;
        let (g, r) = g.scale(h, self.sf_log, 15);
        let (g, p) = g.two_pow_of(k, shape, dt);
        let (g, p) = g.change_shape(p, seq![flat]);
        let (g, sixth) = g.flat_constant(shape, flat, 5461);
        let (g, half) = g.flat_constant(shape, flat, 16384);
        let (g, one) = g.flat_constant(shape, flat, 32768);
        let (g, r) = g.change_shape(r, seq![flat]);
        let (g, r_square) = g.einsum(square, seq![r, r], true);
        let (g, r_sixth) = g.einsum(square, seq![r, sixth], true);
        let (g, t) = g.add(r_sixth, half);
        let (g, t) = g.einsum(square, seq![t, r_square], true);
        let (g, t) = g.add(t, r);
        let (g, exp_r) = g.add(t, one);
        let (g, e) = g.einsum(square, seq![p, exp_r], false);
        let (g, e) = g.scale(e, 30, self.sf_log);
        g.change_shape(e, shape)
    }

    #[verifier::opaque]
    pub open spec fn sigmoid(self, a: EdgeId) -> (Graph, EdgeId) {
        let (g, c) = self.sigmoid_const(a);
        let (g, s) = g.add(a, c);
        g.exp(s)
    }

    /// Splits the last dimension in two, or joins the last two.
    #[verifier::opaque]
    pub open spec fn reshape(self, a: EdgeId, shape: Seq<usize>) -> (Graph, EdgeId) {
        let old = self.shape(a);
        let (m, n) = (shape.len() as int, old.len() as int);
        if m > n {
            let g = self.require(
                self.has(a) && n >= 2 && shape[m - 1] * shape[m - 2] == old[n - 1],
            );
            let (g, b) = g.change_shape(a, seq![old[0], old[1], shape[m - 1], shape[m - 2]]);
            g.einsum("bsdh->bshd"@, seq![b], false)
        } else if m < n {
            let g = self.require(
                self.has(a) && n >= 2 && m >= 1 && shape[m - 1] == old[n - 1] * old[n - 2],
            );
            let (g, b) = g.einsum("bshd->bsdh"@, seq![a], false);
            g.change_shape(b, shape)
        } else {
            (self.require(false), a)
        }
    }

    /// Multiplies with ones inside the given shape and zeros in its padding.
    #[verifier::opaque]
    pub open spec fn mask(self, a: EdgeId, shape: Seq<usize>) -> (Graph, EdgeId) {
        let s = letter_run(shape.len());
        let g = self.require(num_vars(shape) < usize::BITS && shape.len() <= 159);
        let (g, e) = g.param(
            known(shape, filled(shape, GoldilocksField(1)), DataType::Float, 0, Role::Constant),
        );
        g.einsum(s + seq![','] + s + seq!['-', '>'] + s, seq![a, e], false)
    }

    /// Adds `-100` to the score of every key that lies after its query.
    #[verifier::opaque]
    pub open spec fn causal_mask(self, scores: EdgeId, seq_len: usize) -> (Graph, EdgeId) {
        let shape = self.shape(scores);
        let sf = self.sf(scores);
        let g = self.require(self.has_rank(scores, 2) && num_vars(shape) < usize::BITS && sf <= 120);
        let (g, m) = g.param(
            known(shape, causal_words(shape, seq_len, sf), DataType::Float, sf, Role::Constant),
        );
        g.add(scores, m)
    }

    /// Zeros around the last two dimensions.
    #[verifier::opaque]
    pub open spec fn pad(self, x: EdgeId, pad_h: usize, pad_w: usize) -> (Graph, EdgeId) {
        let (c, h, w) = (self.shape(x)[0], self.shape(x)[1], self.shape(x)[2]);
        self.require(self.has_rank(x, 3) && word(h + 2 * pad_h) && word(w + 2 * pad_w)).plain(
            Op::ZeroPad { channels: c, input_h: h, input_w: w, pad_h, pad_w },
            seq![x],
            seq![c, (h + 2 * pad_h) as usize, (w + 2 * pad_w) as usize],
        )
    }

    /// Zeros around the last two dimensions, each side on its own.
    #[verifier::opaque]
    pub open spec fn pad_asym(
        self,
        x: EdgeId,
        top: usize,
        bottom: usize,
        left: usize,
        right: usize,
    ) -> (Graph, EdgeId) {
        let (c, h, w) = (self.shape(x)[0], self.shape(x)[1], self.shape(x)[2]);
        self.require(self.has_rank(x, 3) && word(h + top + bottom) && word(w + left + right)).plain(
            Op::ZeroPadAsym {
                channels: c,
                input_h: h,
                input_w: w,
                pad_h_top: top,
                pad_h_bottom: bottom,
                pad_w_left: left,
                pad_w_right: right,
            },
            seq![x],
            seq![c, (h + top + bottom) as usize, (w + left + right) as usize],
        )
    }

    /// Zeros around the last dimension of a tensor with two.
    #[verifier::opaque]
    pub open spec fn pad1d(self, x: EdgeId, left: usize, right: usize) -> (Graph, EdgeId) {
        let (c, n) = (self.shape(x)[0], self.shape(x)[1]);
        let g = self.require(self.has(x) && self.rank(x) == 2 && word(n + left + right));
        let (g, y) = g.change_shape(x, seq![c, 1usize, n]);
        let (g, y) = g.pad_asym(y, 0, 0, left, right);
        g.change_shape(y, seq![c, (n + left + right) as usize])
    }

    /// Zeros around the last three dimensions.
    #[verifier::opaque]
    pub open spec fn pad3d(self, x: EdgeId, pad_d: usize, pad_h: usize, pad_w: usize) -> (
        Graph,
        EdgeId,
    ) {
        let s = self.shape(x);
        let (c, d, h, w) = (s[0], s[1], s[2], s[3]);
        self.require(
            self.has_rank(x, 4) && word(d + 2 * pad_d) && word(h + 2 * pad_h) && word(
                w + 2 * pad_w,
            ),
        ).plain(
            Op::ZeroPad3D { channels: c, input_d: d, input_h: h, input_w: w, pad_d, pad_h, pad_w },
            seq![x],
            seq![
                c,
                (d + 2 * pad_d) as usize,
                (h + 2 * pad_h) as usize,
                (w + 2 * pad_w) as usize,
            ],
        )
    }

    /// `max(0, x)` as `x + max(0, -x)`, with both parts nonnegative and their product zero.
    #[verifier::opaque]
    pub open spec fn relu(self, x: EdgeId) -> (Graph, EdgeId) {
        let (g, neg) = self.alike(Op::ReLUHelper, x);
        let (g, y) = g.add(x, neg);
        let g = g.nonneg(y);
        let g = g.nonneg(neg);
        let (g, cert) = g.plain(Op::ProductZeroCheck, seq![neg, y], self.shape(x));
        (g.self_claim(cert), y)
    }

    /// The largest entry of every window of size and stride `(pool_h, pool_w)`.
    #[verifier::opaque]
    pub open spec fn maxpool2d(self, x: EdgeId, pool_h: usize, pool_w: usize) -> (Graph, EdgeId) {
        let (c, h, w) = (self.shape(x)[0], self.shape(x)[1], self.shape(x)[2]);
        let g = self.require(
            self.has_rank(x, 3) && pool_h > 0 && pool_w > 0 && h as int % pool_h as int == 0
                && w as int % pool_w as int == 0,
        );
        let (g, y) = g.plain(
            Op::MaxPoolHelper { channels: c, input_h: h, input_w: w, pool_h, pool_w },
            seq![x],
            seq![c, (h as int / pool_h as int) as usize, (w as int / pool_w as int) as usize],
        );
        let (g, rep) = g.plain(
            Op::Replicate2x2 { channels: c, out_h: h, out_w: w },
            seq![y],
            seq![c, h, w],
        );
        let (g, diff) = g.sub(rep, x);
        (g.nonneg(diff), y)
    }

    /// The entries at positions `offset + i * stride`, a given number of them.
    #[verifier::opaque]
    pub open spec fn subsample_sized(
        self,
        x: EdgeId,
        stride: (usize, usize),
        offset: (usize, usize),
        out: (usize, usize),
    ) -> (Graph, EdgeId) {
        let (c, h, w) = (self.shape(x)[0], self.shape(x)[1], self.shape(x)[2]);
        self.require(self.has_rank(x, 3)).plain(
            Op::SubSample2D {
                channels: c,
                input_h: h,
                input_w: w,
                stride_h: stride.0,
                stride_w: stride.1,
                offset_h: offset.0,
                offset_w: offset.1,
                out_h: out.0,
                out_w: out.1,
            },
            seq![x],
            seq![c, out.0, out.1],
        )
    }

    /// The entries at all positions `offset + i * stride`.
    #[verifier::opaque]
    pub open spec fn subsample2d(
        self,
        x: EdgeId,
        stride: (usize, usize),
        offset: (usize, usize),
    ) -> (Graph, EdgeId) {
        let (h, w) = (self.dim(x, 1), self.dim(x, 2));
        self.require(
            self.has_rank(x, 3) && stride.0 > 0 && stride.1 > 0 && offset.0 <= h && offset.1 <= w
                && word(h - offset.0 + stride.0 - 1) && word(w - offset.1 + stride.1 - 1),
        ).subsample_sized(
            x,
            stride,
            offset,
            (
                strided_count(h, stride.0 as int, offset.0 as int) as usize,
                strided_count(w, stride.1 as int, offset.1 as int) as usize,
            ),
        )
    }

    /// `y` is at least every entry of `x` at the given offset in its window.
    #[verifier::opaque]
    pub open spec fn dominate(
        self,
        x: EdgeId,
        y: EdgeId,
        stride: (usize, usize),
        offset: (usize, usize),
        out: (usize, usize),
    ) -> Graph {
        let (g, sv) = self.subsample_sized(x, stride, offset, out);
        let (g, diff) = g.sub(y, sv);
        g.nonneg(diff)
    }

    /// `y` is at least every entry at the first `k` offsets of row `row`.
    pub open spec fn dominate_row(
        self,
        x: EdgeId,
        y: EdgeId,
        stride: (usize, usize),
        row: usize,
        k: nat,
        out: (usize, usize),
    ) -> Graph
        decreases k,
    {
        if k == 0 {
            self
        } else {
            self.dominate_row(x, y, stride, row, (k - 1) as nat, out).dominate(
                x,
                y,
                stride,
                (row, (k - 1) as usize),
                out,
            )
        }
    }

    /// `y` is at least every entry at the offsets of the first `rows` rows of `cols`.
    pub open spec fn dominate_rows(
        self,
        x: EdgeId,
        y: EdgeId,
        stride: (usize, usize),
        rows: nat,
        cols: nat,
        out: (usize, usize),
    ) -> Graph
        decreases rows,
    {
        if rows == 0 {
            self
        } else {
            self.dominate_rows(x, y, stride, (rows - 1) as nat, cols, out).dominate_row(
                x,
                y,
                stride,
                (rows - 1) as usize,
                cols,
                out,
            )
        }
    }

    /// The largest entry of every window of any size and stride.
    #[verifier::opaque]
    pub open spec fn maxpool_general(
        self,
        x: EdgeId,
        kernel: (usize, usize),
        stride: (usize, usize),
    ) -> (Graph, EdgeId) {
        let (c, h, w) = (self.shape(x)[0], self.shape(x)[1], self.shape(x)[2]);
        let out = (
            windows(h as int, kernel.0 as int, stride.0 as int) as usize,
            windows(w as int, kernel.1 as int, stride.1 as int) as usize,
        );
        let g = self.require(
            self.has_rank(x, 3) && kernel.0 <= h && kernel.1 <= w && stride.0 > 0 && stride.1 > 0
                && word(windows(h as int, kernel.0 as int, stride.0 as int)) && word(
                windows(w as int, kernel.1 as int, stride.1 as int),
            ),
        );
        let (g, y) = g.plain(
            Op::GeneralMaxPoolHelper {
                channels: c,
                input_h: h,
                input_w: w,
                kernel_h: kernel.0,
                kernel_w: kernel.1,
                stride_h: stride.0,
                stride_w: stride.1,
            },
            seq![x],
            seq![c, out.0, out.1],
        );
        (g.dominate_rows(x, y, stride, kernel.0 as nat, kernel.1 as nat, out), y)
    }

    /// The mean over the listed dimensions.
    #[verifier::opaque]
    pub open spec fn reduce_mean(self, x: EdgeId, axes: Seq<usize>) -> (Graph, EdgeId) {
        let n = self.rank(x);
        let count = axes_product(self.shape(x), axes);
        let g = self.require(
            self.has(x) && n <= 159 && axes.len() > 0 && (forall|k: int|
                0 <= k < axes.len() ==> (#[trigger] axes[k]) < n) && products_fit(
                self.shape(x),
                axes,
            ),
        );
        let (g, s) = g.einsum(
            letter_run(n) + seq!['-', '>'] + kept_letters(axes, n),
            seq![x],
            false,
        );
        g.div_const(s, count as usize)
    }

    /// Convolution along one dimension.
    #[verifier::opaque]
    pub open spec fn conv1d_full(self, x: EdgeId, w: EdgeId, kernel: usize, stride: usize) -> (
        Graph,
        EdgeId,
    ) {
        let (c_in, len) = (self.shape(x)[0], self.shape(x)[1]);
        let c_out = self.shape(w)[0];
        let (g, y) = self.require(
            self.has_rank(x, 2) && self.has_rank(w, 3) && self.shape(w)[1] == c_in && self.shape(
                w,
            )[2] == kernel && kernel <= len && stride >= 1 && word(
                windows(len as int, kernel as int, stride as int),
            ),
        ).plain(
            Op::Conv1D { c_in, c_out, kernel_size: kernel, input_len: len, stride },
            seq![x, w],
            seq![c_out, windows(len as int, kernel as int, stride as int) as usize],
        );
        (g.self_claim(y), y)
    }

    /// The length of a flattened kernel laid out along rows of `row` entries.
    pub open spec fn flat_kernel(kh: int, kw: int, dh: int, dw: int, row: int) -> int {
        (kh - 1) * dh * row + (kw - 1) * dw + 1
    }

    /// Convolution along two dimensions.
    #[verifier::opaque]
    pub open spec fn conv2d_full(
        self,
        x: EdgeId,
        w: EdgeId,
        kernel: (usize, usize),
        stride: (usize, usize),
        dilation: (usize, usize),
    ) -> (Graph, EdgeId) {
        let (c_in, ih, iw) = (self.shape(x)[0], self.shape(x)[1], self.shape(x)[2]);
        let c_out = self.shape(w)[0];
        let (kh, kw) = (kernel.0 as int, kernel.1 as int);
        let (dh, dw) = (dilation.0 as int, dilation.1 as int);
        let row = pad2(iw as int);
        let flat = Graph::flat_kernel(kh, kw, dh, dw, row);
        let (oh, ow) = (
            windows(ih as int, extent(kh, dh), stride.0 as int),
            windows(iw as int, extent(kw, dw), stride.1 as int),
        );
        let g = self.require(
            self.has_rank(x, 3) && self.has_rank(w, 4) && self.shape(w)[1] == c_in && self.shape(
                w,
            )[2] == kernel.0 && self.shape(w)[3] == kernel.1 && kh >= 1 && kw >= 1 && window_ok(
                ih as int,
                extent(kh, dh),
                stride.0 as int,
            ) && window_ok(iw as int, extent(kw, dw), stride.1 as int) && paddable(iw as int) && word(
                flat,
            ) && word(oh) && word(ow),
        );
        let (g, wf) = g.plain(
            Op::FlattenKernel {
                s_w: row as usize,
                kh: kernel.0,
                kw: kernel.1,
                c_out,
                c_in,
                dilation_h: dilation.0,
                dilation_w: dilation.1,
            },
            seq![w],
            seq![c_out, c_in, flat as usize],
        );
        let (g, y) = g.plain(
            Op::Conv2D {
                c_in,
                c_out,
                kh: kernel.0,
                kw: kernel.1,
                input_h: ih,
                input_w: iw,
                stride_h: stride.0,
                stride_w: stride.1,
                dilation_h: dilation.0,
                dilation_w: dilation.1,
            },
            seq![x, wf],
            seq![c_out, oh as usize, ow as usize],
        );
        (g.self_claim(y), y)
    }

    /// Convolution along two dimensions, channel by channel.
    #[verifier::opaque]
    pub open spec fn depthwise_conv2d(
        self,
        x: EdgeId,
        w: EdgeId,
        kernel: (usize, usize),
        stride: (usize, usize),
    ) -> (Graph, EdgeId) {
        let (c, ih, iw) = (self.shape(x)[0], self.shape(x)[1], self.shape(x)[2]);
        let (kh, kw) = (kernel.0 as int, kernel.1 as int);
        let row = pad2(iw as int);
        let flat = Graph::flat_kernel(kh, kw, 1, 1, row);
        let (oh, ow) = (windows(ih as int, kh, stride.0 as int), windows(iw as int, kw, stride.1 as int));
        let g = self.require(
            self.has_rank(x, 3) && self.has_rank(w, 4) && self.shape(w)[0] == c && self.shape(w)[1]
                == 1 && self.shape(w)[2] == kernel.0 && self.shape(w)[3] == kernel.1 && window_ok(
                ih as int,
                kh,
                stride.0 as int,
            ) && window_ok(iw as int, kw, stride.1 as int) && paddable(iw as int) && word(flat)
                && word(oh) && word(ow),
        );
        let (g, wf) = g.plain(
            Op::FlattenKernel {
                s_w: row as usize,
                kh: kernel.0,
                kw: kernel.1,
                c_out: c,
                c_in: 1,
                dilation_h: 1,
                dilation_w: 1,
            },
            seq![w],
            seq![c, 1usize, flat as usize],
        );
        let (g, wf) = g.change_shape(wf, seq![c, flat as usize]);
        let (g, y) = g.plain(
            Op::DepthwiseConv2D {
                channels: c,
                kh: kernel.0,
                kw: kernel.1,
                input_h: ih,
                input_w: iw,
                stride_h: stride.0,
                stride_w: stride.1,
            },
            seq![x, wf],
            seq![c, oh as usize, ow as usize],
        );
        (g.self_claim(y), y)
    }

    /// The length of a flattened kernel laid out along planes of `plane` and rows of `row`
    /// entries.
    pub open spec fn flat_kernel3(kd: int, kh: int, kw: int, plane: int, row: int) -> int {
        (kd - 1) * plane + (kh - 1) * row + kw
    }

    /// Convolution along three dimensions.
    #[verifier::opaque]
    pub open spec fn conv3d_full(
        self,
        x: EdgeId,
        w: EdgeId,
        kernel: (usize, usize, usize),
        stride: (usize, usize, usize),
    ) -> (Graph, EdgeId) {
        let s = self.shape(x);
        let (c_in, id, ih, iw) = (s[0], s[1], s[2], s[3]);
        let v = self.shape(w);
        let c_out = v[0];
        let row = pad2(iw as int);
        let plane = pad2(ih as int) * row;
        let flat = Graph::flat_kernel3(
            kernel.0 as int,
            kernel.1 as int,
            kernel.2 as int,
            plane,
            row,
        );
        let od = windows(id as int, kernel.0 as int, stride.0 as int);
        let oh = windows(ih as int, kernel.1 as int, stride.1 as int);
        let ow = windows(iw as int, kernel.2 as int, stride.2 as int);
        let g = self.require(
            self.has_rank(x, 4) && self.has_rank(w, 5) && v[1] == c_in && v[2] == kernel.0 && v[3]
                == kernel.1 && v[4] == kernel.2 && window_ok(
                id as int,
                kernel.0 as int,
                stride.0 as int,
            ) && window_ok(ih as int, kernel.1 as int, stride.1 as int) && window_ok(
                iw as int,
                kernel.2 as int,
                stride.2 as int,
            ) && paddable(iw as int) && paddable(ih as int) && word(plane) && word(flat) && word(od)
                && word(oh) && word(ow),
        );
        let (g, wf) = g.plain(
            Op::FlattenKernel3D {
                stride_h: plane as usize,
                stride_w: row as usize,
                kd: kernel.0,
                kh: kernel.1,
                kw: kernel.2,
                c_out,
                c_in,
            },
            seq![w],
            seq![c_out, c_in, flat as usize],
        );
        let (g, y) = g.plain(
            Op::Conv3D {
                c_in,
                c_out,
                kd: kernel.0,
                kh: kernel.1,
                kw: kernel.2,
                input_d: id,
                input_h: ih,
                input_w: iw,
                stride_d: stride.0,
                stride_h: stride.1,
                stride_w: stride.2,
            },
            seq![x, wf],
            seq![c_out, od as usize, oh as usize, ow as usize],
        );
        (g.self_claim(y), y)
    }

    /// The length of a transposed convolution.
    pub open spec fn spread(len: int, kernel: int, stride: int) -> int {
        (len - 1) * stride + kernel
    }

    /// Transposed convolution along one dimension.
    #[verifier::opaque]
    pub open spec fn conv_transpose1d(self, x: EdgeId, w: EdgeId, kernel: usize, stride: usize) -> (
        Graph,
        EdgeId,
    ) {
        let (c_in, len) = (self.shape(x)[0], self.shape(x)[1]);
        let c_out = self.shape(w)[1];
        let out = Graph::spread(len as int, kernel as int, stride as int);
        let (g, y) = self.require(
            self.has_rank(x, 2) && self.has_rank(w, 3) && self.shape(w)[0] == c_in && self.shape(
                w,
            )[2] == kernel && len >= 1 && word(out),
        ).plain(
            Op::ConvTranspose1D { c_in, c_out, kernel_size: kernel, input_len: len, stride },
            seq![x, w],
            seq![c_out, out as usize],
        );
        (g.self_claim(y), y)
    }

    /// Transposed convolution along two dimensions.
    #[verifier::opaque]
    pub open spec fn conv_transpose2d(
        self,
        x: EdgeId,
        w: EdgeId,
        kernel: (usize, usize),
        stride: (usize, usize),
    ) -> (Graph, EdgeId) {
        let (c_in, ih, iw) = (self.shape(x)[0], self.shape(x)[1], self.shape(x)[2]);
        let v = self.shape(w);
        let c_out = v[1];
        let oh = Graph::spread(ih as int, kernel.0 as int, stride.0 as int);
        let ow = Graph::spread(iw as int, kernel.1 as int, stride.1 as int);
        let row = pad2(ow);
        let flat = Graph::flat_kernel(kernel.0 as int, kernel.1 as int, 1, 1, row);
        let g = self.require(
            self.has_rank(x, 3) && self.has_rank(w, 4) && v[0] == c_in && v[2] == kernel.0 && v[3]
                == kernel.1 && ih >= 1 && iw >= 1 && kernel.0 >= 1 && kernel.1 >= 1 && word(oh)
                && paddable(ow) && word(flat),
        );
        let (g, wf) = g.plain(
            Op::FlattenKernel {
                s_w: row as usize,
                kh: kernel.0,
                kw: kernel.1,
                c_out: c_in,
                c_in: c_out,
                dilation_h: 1,
                dilation_w: 1,
            },
            seq![w],
            seq![c_in, c_out, flat as usize],
        );
        let (g, y) = g.plain(
            Op::ConvTranspose2D {
                c_in,
                c_out,
                kh: kernel.0,
                kw: kernel.1,
                input_h: ih,
                input_w: iw,
                stride_h: stride.0,
                stride_w: stride.1,
            },
            seq![x, wf],
            seq![c_out, oh as usize, ow as usize],
        );
        (g.self_claim(y), y)
    }

    /// Transposed convolution along three dimensions.
    #[verifier::opaque]
    pub open spec fn conv_transpose3d(
        self,
        x: EdgeId,
        w: EdgeId,
        kernel: (usize, usize, usize),
        stride: (usize, usize, usize),
    ) -> (Graph, EdgeId) {
        let s = self.shape(x);
        let (c_in, id, ih, iw) = (s[0], s[1], s[2], s[3]);
        let v = self.shape(w);
        let c_out = v[1];
        let od = Graph::spread(id as int, kernel.0 as int, stride.0 as int);
        let oh = Graph::spread(ih as int, kernel.1 as int, stride.1 as int);
        let ow = Graph::spread(iw as int, kernel.2 as int, stride.2 as int);
        let row = pad2(ow);
        let plane = pad2(oh) * row;
        let flat = Graph::flat_kernel3(
            kernel.0 as int,
            kernel.1 as int,
            kernel.2 as int,
            plane,
            row,
        );
        let g = self.require(
            self.has_rank(x, 4) && self.has_rank(w, 5) && v[0] == c_in && v[2] == kernel.0 && v[3]
                == kernel.1 && v[4] == kernel.2 && id >= 1 && ih >= 1 && iw >= 1 && kernel.0 >= 1
                && kernel.1 >= 1 && kernel.2 >= 1 && word(od) && paddable(oh) && paddable(ow)
                && word(plane) && word(flat),
        );
        let (g, wf) = g.plain(
            Op::FlattenKernel3D {
                stride_h: plane as usize,
                stride_w: row as usize,
                kd: kernel.0,
                kh: kernel.1,
                kw: kernel.2,
                c_out: c_in,
                c_in: c_out,
            },
            seq![w],
            seq![c_in, c_out, flat as usize],
        );
        let (g, y) = g.plain(
            Op::ConvTranspose3D {
                c_in,
                c_out,
                kd: kernel.0,
                kh: kernel.1,
                kw: kernel.2,
                input_d: id,
                input_h: ih,
                input_w: iw,
                stride_d: stride.0,
                stride_h: stride.1,
                stride_w: stride.2,
            },
            seq![x, wf],
            seq![c_out, od as usize, oh as usize, ow as usize],
        );
        (g.self_claim(y), y)
    }

    /// Joins two tensors of one shape along the first dimension.
    #[verifier::opaque]
    pub open spec fn concat(self, a: EdgeId, b: EdgeId) -> (Graph, EdgeId) {
        let (s, t) = (self.shape(a), self.shape(b));
        let rest = s.skip(1);
        self.require(self.has_rank(a, 1) && self.has(b) && s == t && word(2 * s[0])).emit1(
            seq![a, b],
            Block::Concat { channels_a: s[0], spatial_dims: rest },
            unknown(
                seq![(2 * s[0]) as usize] + rest,
                DataType::Uint,
                0,
                Role::Output,
            ),
        )
    }

    /// The entries `start .. start + count` of the first dimension.
    #[verifier::opaque]
    pub open spec fn channel_slice(self, x: EdgeId, start: usize, count: usize) -> (Graph, EdgeId) {
        let s = self.shape(x);
        let rest = s.skip(1);
        self.require(
            self.has_rank(x, 1) && start + count <= s[0] && count == padded(count as nat) && s[0]
                == padded(s[0] as nat) && start as int % count as int == 0,
        ).emit1(
            seq![x],
            Block::ChannelSlice {
                channels_in: s[0],
                channels_out: count,
                channel_start: start,
                spatial_dims: rest,
            },
            unknown(seq![count] + rest, DataType::Uint, 0, Role::Output),
        )
    }

    /// The tensor with its first dimension raised to `c`.
    #[verifier::opaque]
    pub open spec fn widen(self, a: EdgeId, c: usize) -> (Graph, EdgeId) {
        let s = self.shape(a);
        let g = self.require(self.has_rank(a, 1));
        if s[0] < c {
            g.change_shape(a, seq![c] + s.skip(1))
        } else {
            (g, a)
        }
    }

    /// Joins two tensors along the first dimension. Where those differ, both are raised to the
    /// larger one, padded.
    #[verifier::opaque]
    pub open spec fn general_concat(self, a: EdgeId, b: EdgeId) -> (Graph, EdgeId) {
        let (ca, cb) = (self.dim(a, 0), self.dim(b, 0));
        let g = self.require(self.has_rank(a, 1) && self.has_rank(b, 1));
        if ca == cb {
            g.concat(a, b)
        } else {
            let largest = if ca >= cb {
                ca
            } else {
                cb
            };
            let c = pad2(largest) as usize;
            let g = g.require(paddable(largest));
            let (g, a) = g.widen(a, c);
            let (g, b) = g.widen(b, c);
            g.concat(a, b)
        }
    }

    /// Joins neighbours: the first `2 k` of the listed tensors, in pairs.
    pub open spec fn concat_pairs(self, es: Seq<EdgeId>, k: nat) -> (Graph, Seq<EdgeId>)
        decreases k,
    {
        if k == 0 {
            (self, Seq::empty())
        } else {
            let (g, done) = self.concat_pairs(es, (k - 1) as nat);
            let (g, e) = g.general_concat(es[2 * k - 2], es[2 * k - 1]);
            (g, done.push(e))
        }
    }

    /// One level of joining neighbours; a tensor without a neighbour stays.
    pub open spec fn concat_level(self, es: Seq<EdgeId>) -> (Graph, Seq<EdgeId>) {
        let (g, done) = self.concat_pairs(es, es.len() / 2);
        if es.len() % 2 == 1 {
            (g, done.push(es.last()))
        } else {
            (g, done)
        }
    }

    /// Joins all listed tensors, level by level.
    pub open spec fn multi_concat(self, es: Seq<EdgeId>) -> (Graph, EdgeId)
        decreases es.len(),
        when es.len() > 0
        via Graph::multi_concat_decreases
    {
        if es.len() == 1 {
            (self, es[0])
        } else {
            let (g, next) = self.concat_level(es);
            g.multi_concat(next)
        }
    }

    #[via_fn]
    proof fn multi_concat_decreases(self, es: Seq<EdgeId>) {
        lemma_concat_pairs_len(self, es, es.len() / 2);
    }

    /// `x * sigmoid(x)`.
    #[verifier::opaque]
    pub open spec fn silu(self, x: EdgeId) -> (Graph, EdgeId) {
        let s = letter_run(self.rank(x));
        let g = self.require(self.has(x) && self.rank(x) <= 159);
        let (g, sig) = g.sigmoid(x);
        g.einsum(s + seq![','] + s + seq!['-', '>'] + s, seq![x, sig], true)
    }

    /// Every entry twice along the last two dimensions.
    #[verifier::opaque]
    pub open spec fn upsample_nearest_2x(self, x: EdgeId) -> (Graph, EdgeId) {
        let (c, h, w) = (self.shape(x)[0], self.shape(x)[1], self.shape(x)[2]);
        self.require(self.has_rank(x, 3) && word(2 * h) && word(2 * w)).plain(
            Op::Replicate2x2 { channels: c, out_h: (2 * h) as usize, out_w: (2 * w) as usize },
            seq![x],
            seq![c, (2 * h) as usize, (2 * w) as usize],
        )
    }

    /// Zeros in the padding of the first dimension, where it has any.
    #[verifier::opaque]
    pub open spec fn mask_channels(self, x: EdgeId, ndims: usize) -> (Graph, EdgeId) {
        let c = self.shape(x)[0];
        let g = self.require(self.has_rank(x, 1) && paddable(c as int));
        if c == padded(c as nat) {
            (g, x)
        } else {
            let ones = Seq::new(c as nat, |i: int| GoldilocksField(1));
            let (g, m) = g.place(known(seq![c], ones, self.dtype(x), 0, Role::Constant));
            let s = letter_run(ndims as nat);
            g.require(ndims <= 159).einsum(
                seq!['a', ','] + s + seq!['-', '>'] + s,
                seq![m, x],
                false,
            )
        }
    }

    /// Normalises every channel to mean and variance that `gamma` and `beta` set.
    #[verifier::opaque]
    pub open spec fn instancenorm3d(self, x: EdgeId, gamma: EdgeId, beta: EdgeId, eps_bits: u64) -> (
        Graph,
        EdgeId,
    ) {
        let s = self.shape(x);
        let c = s[0];
        let g = self.require(self.has_rank(x, 4));
        let (g, packed) = g.emit1(
            seq![x, gamma, beta],
            Block::Op(
                Op::InstanceNorm3D { channels: c, depth: s[1], height: s[2], width: s[3], eps_bits },
            ),
            unknown(seq![2usize, c], self.dtype(x), self.sf(x), Role::Output),
        );
        let (g, scale) = g.channel_slice(packed, 0, 1);
        let (g, scale) = g.change_shape(scale, seq![c]);
        let (g, offset) = g.channel_slice(packed, 1, 1);
        let (g, offset) = g.change_shape(offset, seq![c]);
        let (g, z) = g.einsum("a,abcd->abcd"@, seq![scale, x], true);
        let (g, offset) = g.change_shape(offset, seq![c, 1usize, 1usize, 1usize]);
        let (g, y) = g.add(z, offset);
        g.mask_channels(y, 4)
    }

    /// `y` is at least the features of the first `k` points of every pillar.
    pub open spec fn dominate_points(
        self,
        x: EdgeId,
        y: EdgeId,
        n_pillars: usize,
        features: usize,
        k: nat,
    ) -> Graph
        decreases k,
    {
        if k == 0 {
            self
        } else {
            self.dominate_points(x, y, n_pillars, features, (k - 1) as nat).dominate_point(
                x,
                y,
                n_pillars,
                features,
                (k - 1) as usize,
            )
        }
    }

    /// `y` is at least the features of point `t` of every pillar.
    #[verifier::opaque]
    pub open spec fn dominate_point(
        self,
        x: EdgeId,
        y: EdgeId,
        n_pillars: usize,
        features: usize,
        t: usize,
    ) -> Graph {
        let (g, p) = self.subsample_sized(x, (1, 1), (t, 0), (1, features));
        let (g, p) = g.change_shape(p, seq![n_pillars, features]);
        let (g, diff) = g.sub(y, p);
        g.nonneg(diff)
    }

    /// The largest features over the points of every pillar.
    #[verifier::opaque]
    pub open spec fn pillar_maxpool(
        self,
        x: EdgeId,
        n_pillars: usize,
        max_points: usize,
        features: usize,
    ) -> (Graph, EdgeId) {
        let (g, y) = self.plain(
            Op::PillarMaxPool { n_pillars, max_points, features },
            seq![x],
            seq![n_pillars, features],
        );
        (g.dominate_points(x, y, n_pillars, features, max_points as nat), y)
    }

    pub open spec fn scatter_to_bev(
        self,
        x: EdgeId,
        coords: EdgeId,
        n_pillars: usize,
        features: usize,
        ny: usize,
        nx: usize,
    ) -> (Graph, EdgeId) {
        self.plain(
            Op::ScatterToBEV { n_pillars, features, ny, nx },
            seq![x, coords],
            seq![features, ny, nx],
        )
    }

    pub open spec fn gather_from_grid(
        self,
        grid: EdgeId,
        coords: EdgeId,
        n_points: usize,
        channels: usize,
        grid_h: usize,
        grid_w: usize,
    ) -> (Graph, EdgeId) {
        self.plain(
            Op::GatherFromGrid { n_points, channels, grid_h, grid_w },
            seq![grid, coords],
            seq![n_points, channels],
        )
    }
}

/// Every partial product of the listed dimensions fits a machine word.
pub open spec fn products_fit(shape: Seq<usize>, axes: Seq<usize>) -> bool {
    forall|k: int| 0 <= k <= axes.len() ==> word(#[trigger] axes_product(shape, axes.take(k)))
}

/// Joining pairs yields one tensor per pair.
pub proof fn lemma_concat_pairs_len(g: Graph, es: Seq<EdgeId>, k: nat)
    ensures
        g.concat_pairs(es, k).1.len() == k,
    decreases k,
{
    if k > 0 {
        lemma_concat_pairs_len(g, es, (k - 1) as nat);
    }
}

pub broadcast proof fn ok_rms_reciprocal(g: Graph, x: EdgeId)
    ensures
        #[trigger] g.rms_reciprocal(x).0.ok ==> g.ok,
{
    broadcast use group_ok;

    reveal(Graph::rms_reciprocal);
}

pub broadcast proof fn ok_softmax_const(g: Graph, a: EdgeId)
    ensures
        #[trigger] g.softmax_const(a).0.ok ==> g.ok,
{
    broadcast use group_ok;

    reveal(Graph::softmax_const);
}

pub broadcast proof fn ok_exp_helper(g: Graph, a: EdgeId)
    ensures
        #[trigger] g.exp_helper(a).0.ok ==> g.ok,
{
    broadcast use group_ok;

    reveal(Graph::exp_helper);
}

pub broadcast proof fn ok_two_pow_of(g: Graph, k: EdgeId, shape: Seq<usize>, dt: DataType)
    ensures
        #[trigger] g.two_pow_of(k, shape, dt).0.ok ==> g.ok,
{
    broadcast use group_ok;

    reveal(Graph::two_pow_of);
}

pub broadcast proof fn ok_flat_constant(g: Graph, shape: Seq<usize>, flat: usize, v: u64)
    ensures
        #[trigger] g.flat_constant(shape, flat, v).0.ok ==> g.ok,
{
    broadcast use group_ok;

    reveal(Graph::flat_constant);
}

pub broadcast proof fn ok_exp(g: Graph, a: EdgeId)
    ensures
        #[trigger] g.exp(a).0.ok ==> g.ok,
{
    broadcast use group_ok;
    broadcast use {ok_exp_helper, ok_two_pow_of, ok_flat_constant};

    reveal(Graph::exp);
}

pub broadcast proof fn ok_sigmoid(g: Graph, a: EdgeId)
    ensures
        #[trigger] g.sigmoid(a).0.ok ==> g.ok,
{
    broadcast use group_ok;
    broadcast use {ok_exp};

    reveal(Graph::sigmoid);
}

pub broadcast proof fn ok_reshape(g: Graph, a: EdgeId, shape: Seq<usize>)
    ensures
        #[trigger] g.reshape(a, shape).0.ok ==> g.ok,
{
    broadcast use group_ok;

    reveal(Graph::reshape);
}

pub broadcast proof fn ok_mask(g: Graph, a: EdgeId, shape: Seq<usize>)
    ensures
        #[trigger] g.mask(a, shape).0.ok ==> g.ok,
{
    broadcast use group_ok;

    reveal(Graph::mask);
}

pub broadcast proof fn ok_causal_mask(g: Graph, scores: EdgeId, seq_len: usize)
    ensures
        #[trigger] g.causal_mask(scores, seq_len).0.ok ==> g.ok,
{
    broadcast use group_ok;

    reveal(Graph::causal_mask);
}

pub broadcast proof fn ok_pad(g: Graph, x: EdgeId, pad_h: usize, pad_w: usize)
    ensures
        #[trigger] g.pad(x, pad_h, pad_w).0.ok ==> g.ok,
{
    broadcast use group_ok;

    reveal(Graph::pad);
}

pub broadcast proof fn ok_pad_asym(g: Graph, x: EdgeId, top: usize, bottom: usize, left: usize, right: usize)
    ensures
        #[trigger] g.pad_asym(x, top, bottom, left, right).0.ok ==> g.ok,
{
    broadcast use group_ok;

    reveal(Graph::pad_asym);
}

pub broadcast proof fn ok_pad1d(g: Graph, x: EdgeId, left: usize, right: usize)
    ensures
        #[trigger] g.pad1d(x, left, right).0.ok ==> g.ok,
{
    broadcast use group_ok;
    broadcast use {ok_pad_asym};

    reveal(Graph::pad1d);
}

pub broadcast proof fn ok_pad3d(g: Graph, x: EdgeId, pad_d: usize, pad_h: usize, pad_w: usize)
    ensures
        #[trigger] g.pad3d(x, pad_d, pad_h, pad_w).0.ok ==> g.ok,
{
    broadcast use group_ok;

    reveal(Graph::pad3d);
}

pub broadcast proof fn ok_relu(g: Graph, x: EdgeId)
    ensures
        #[trigger] g.relu(x).0.ok ==> g.ok,
{
    broadcast use group_ok;

    reveal(Graph::relu);
}

pub broadcast proof fn ok_maxpool2d(g: Graph, x: EdgeId, pool_h: usize, pool_w: usize)
    ensures
        #[trigger] g.maxpool2d(x, pool_h, pool_w).0.ok ==> g.ok,
{
    broadcast use group_ok;

    reveal(Graph::maxpool2d);
}

pub broadcast proof fn ok_subsample_sized(
    g: Graph,
    x: EdgeId,
    stride: (usize, usize),
    offset: (usize, usize),
    out: (usize, usize),
)
    ensures
        #[trigger] g.subsample_sized(x, stride, offset, out).0.ok ==> g.ok,
{
    broadcast use group_ok;

    reveal(Graph::subsample_sized);
}

pub broadcast proof fn ok_subsample2d(g: Graph, x: EdgeId, stride: (usize, usize), offset: (usize, usize))
    ensures
        #[trigger] g.subsample2d(x, stride, offset).0.ok ==> g.ok,
{
    broadcast use group_ok;
    broadcast use {ok_subsample_sized};

    reveal(Graph::subsample2d);
}

pub broadcast proof fn ok_dominate(
    g: Graph,
    x: EdgeId,
    y: EdgeId,
    stride: (usize, usize),
    offset: (usize, usize),
    out: (usize, usize),
)
    ensures
        #[trigger] g.dominate(x, y, stride, offset, out).ok ==> g.ok,
{
    broadcast use group_ok;
    broadcast use {ok_subsample_sized};

    reveal(Graph::dominate);
}

pub broadcast proof fn ok_reduce_mean(g: Graph, x: EdgeId, axes: Seq<usize>)
    ensures
        #[trigger] g.reduce_mean(x, axes).0.ok ==> g.ok,
{
    broadcast use group_ok;

    reveal(Graph::reduce_mean);
}

pub broadcast proof fn ok_conv1d_full(g: Graph, x: EdgeId, w: EdgeId, kernel: usize, stride: usize)
    ensures
        #[trigger] g.conv1d_full(x, w, kernel, stride).0.ok ==> g.ok,
{
    broadcast use group_ok;

    reveal(Graph::conv1d_full);
}

pub broadcast proof fn ok_conv2d_full(
    g: Graph,
    x: EdgeId,
    w: EdgeId,
    kernel: (usize, usize),
    stride: (usize, usize),
    dilation: (usize, usize),
)
    ensures
        #[trigger] g.conv2d_full(x, w, kernel, stride, dilation).0.ok ==> g.ok,
{
    broadcast use group_ok;

    reveal(Graph::conv2d_full);
}

pub broadcast proof fn ok_depthwise_conv2d(
    g: Graph,
    x: EdgeId,
    w: EdgeId,
    kernel: (usize, usize),
    stride: (usize, usize),
)
    ensures
        #[trigger] g.depthwise_conv2d(x, w, kernel, stride).0.ok ==> g.ok,
{
    broadcast use group_ok;

    reveal(Graph::depthwise_conv2d);
}

pub broadcast proof fn ok_conv3d_full(
    g: Graph,
    x: EdgeId,
    w: EdgeId,
    kernel: (usize, usize, usize),
    stride: (usize, usize, usize),
)
    ensures
        #[trigger] g.conv3d_full(x, w, kernel, stride).0.ok ==> g.ok,
{
    broadcast use group_ok;

    reveal(Graph::conv3d_full);
}

pub broadcast proof fn ok_conv_transpose1d(g: Graph, x: EdgeId, w: EdgeId, kernel: usize, stride: usize)
    ensures
        #[trigger] g.conv_transpose1d(x, w, kernel, stride).0.ok ==> g.ok,
{
    broadcast use group_ok;

    reveal(Graph::conv_transpose1d);
}

pub broadcast proof fn ok_conv_transpose2d(
    g: Graph,
    x: EdgeId,
    w: EdgeId,
    kernel: (usize, usize),
    stride: (usize, usize),
)
    ensures
        #[trigger] g.conv_transpose2d(x, w, kernel, stride).0.ok ==> g.ok,
{
    broadcast use group_ok;

    reveal(Graph::conv_transpose2d);
}

pub broadcast proof fn ok_conv_transpose3d(
    g: Graph,
    x: EdgeId,
    w: EdgeId,
    kernel: (usize, usize, usize),
    stride: (usize, usize, usize),
)
    ensures
        #[trigger] g.conv_transpose3d(x, w, kernel, stride).0.ok ==> g.ok,
{
    broadcast use group_ok;

    reveal(Graph::conv_transpose3d);
}

pub broadcast proof fn ok_concat(g: Graph, a: EdgeId, b: EdgeId)
    ensures
        #[trigger] g.concat(a, b).0.ok ==> g.ok,
{
    broadcast use group_ok;

    reveal(Graph::concat);
}

pub broadcast proof fn ok_channel_slice(g: Graph, x: EdgeId, start: usize, count: usize)
    ensures
        #[trigger] g.channel_slice(x, start, count).0.ok ==> g.ok,
{
    broadcast use group_ok;

    reveal(Graph::channel_slice);
}

pub broadcast proof fn ok_widen(g: Graph, a: EdgeId, c: usize)
    ensures
        #[trigger] g.widen(a, c).0.ok ==> g.ok,
{
    broadcast use group_ok;

    reveal(Graph::widen);
}

pub broadcast proof fn ok_general_concat(g: Graph, a: EdgeId, b: EdgeId)
    ensures
        #[trigger] g.general_concat(a, b).0.ok ==> g.ok,
{
    broadcast use group_ok;
    broadcast use {ok_concat, ok_widen};

    reveal(Graph::general_concat);
}

pub broadcast proof fn ok_silu(g: Graph, x: EdgeId)
    ensures
        #[trigger] g.silu(x).0.ok ==> g.ok,
{
    broadcast use group_ok;
    broadcast use {ok_sigmoid};

    reveal(Graph::silu);
}

pub broadcast proof fn ok_upsample_nearest_2x(g: Graph, x: EdgeId)
    ensures
        #[trigger] g.upsample_nearest_2x(x).0.ok ==> g.ok,
{
    broadcast use group_ok;

    reveal(Graph::upsample_nearest_2x);
}

pub broadcast proof fn ok_mask_channels(g: Graph, x: EdgeId, ndims: usize)
    ensures
        #[trigger] g.mask_channels(x, ndims).0.ok ==> g.ok,
{
    broadcast use group_ok;

    reveal(Graph::mask_channels);
}

pub broadcast proof fn ok_instancenorm3d(g: Graph, x: EdgeId, gamma: EdgeId, beta: EdgeId, eps_bits: u64)
    ensures
        #[trigger] g.instancenorm3d(x, gamma, beta, eps_bits).0.ok ==> g.ok,
{
    broadcast use group_ok;
    broadcast use {ok_channel_slice, ok_mask_channels};

    reveal(Graph::instancenorm3d);
}

pub broadcast proof fn ok_dominate_point(
    g: Graph,
    x: EdgeId,
    y: EdgeId,
    n_pillars: usize,
    features: usize,
    t: usize,
)
    ensures
        #[trigger] g.dominate_point(x, y, n_pillars, features, t).ok ==> g.ok,
{
    broadcast use group_ok;
    broadcast use {ok_subsample_sized};

    reveal(Graph::dominate_point);
}

/// Later comparisons keep earlier failures.
pub proof fn lemma_dominate_row_ok(
    g: Graph,
    x: EdgeId,
    y: EdgeId,
    stride: (usize, usize),
    row: usize,
    j: nat,
    k: nat,
    out: (usize, usize),
)
    requires
        j <= k,
        g.dominate_row(x, y, stride, row, k, out).ok,
    ensures
        g.ok,
        g.dominate_row(x, y, stride, row, j, out).ok,
    decreases k,
{
    if k > 0 {
        let m = (k - 1) as nat;
        ok_dominate(
            g.dominate_row(x, y, stride, row, m, out),
            x,
            y,
            stride,
            (row, m as usize),
            out,
        );
        if j < k {
            lemma_dominate_row_ok(g, x, y, stride, row, j, m, out);
        } else {
            lemma_dominate_row_ok(g, x, y, stride, row, m, m, out);
        }
    }
}

/// Later rows of comparisons keep earlier failures.
pub proof fn lemma_dominate_rows_ok(
    g: Graph,
    x: EdgeId,
    y: EdgeId,
    stride: (usize, usize),
    j: nat,
    k: nat,
    cols: nat,
    out: (usize, usize),
)
    requires
        j <= k,
        g.dominate_rows(x, y, stride, k, cols, out).ok,
    ensures
        g.ok,
        g.dominate_rows(x, y, stride, j, cols, out).ok,
    decreases k,
{
    if k > 0 {
        let m = (k - 1) as nat;
        lemma_dominate_row_ok(
            g.dominate_rows(x, y, stride, m, cols, out),
            x,
            y,
            stride,
            m as usize,
            cols,
            cols,
            out,
        );
        if j < k {
            lemma_dominate_rows_ok(g, x, y, stride, j, m, cols, out);
        } else {
            lemma_dominate_rows_ok(g, x, y, stride, m, m, cols, out);
        }
    }
}

/// Later points keep earlier failures.
pub proof fn lemma_dominate_points_ok(
    g: Graph,
    x: EdgeId,
    y: EdgeId,
    n_pillars: usize,
    features: usize,
    j: nat,
    k: nat,
)
    requires
        j <= k,
        g.dominate_points(x, y, n_pillars, features, k).ok,
    ensures
        g.ok,
        g.dominate_points(x, y, n_pillars, features, j).ok,
    decreases k,
{
    if k > 0 {
        let m = (k - 1) as nat;
        ok_dominate_point(
            g.dominate_points(x, y, n_pillars, features, m),
            x,
            y,
            n_pillars,
            features,
            m as usize,
        );
        if j < k {
            lemma_dominate_points_ok(g, x, y, n_pillars, features, j, m);
        } else {
            lemma_dominate_points_ok(g, x, y, n_pillars, features, m, m);
        }
    }
}

/// Joining later pairs keeps earlier failures.
pub proof fn lemma_concat_pairs_ok(g: Graph, es: Seq<EdgeId>, j: nat, k: nat)
    requires
        j <= k,
        g.concat_pairs(es, k).0.ok,
    ensures
        g.ok,
        g.concat_pairs(es, j).0.ok,
    decreases k,
{
    if k > 0 {
        let m = (k - 1) as nat;
        ok_general_concat(g.concat_pairs(es, m).0, es[2 * k - 2], es[2 * k - 1]);
        if j < k {
            lemma_concat_pairs_ok(g, es, j, m);
        } else {
            lemma_concat_pairs_ok(g, es, m, m);
        }
    }
}

pub broadcast proof fn ok_multi_concat(g: Graph, es: Seq<EdgeId>)
    requires
        es.len() > 0,
    ensures
        #[trigger] g.multi_concat(es).0.ok ==> g.ok,
    decreases es.len(),
{
    if es.len() > 1 && g.multi_concat(es).0.ok {
        let (h, next) = g.concat_level(es);
        lemma_concat_pairs_len(g, es, es.len() / 2);
        ok_multi_concat(h, next);
        lemma_concat_pairs_ok(g, es, es.len() / 2, es.len() / 2);
    }
}

pub broadcast proof fn ok_maxpool_general(
    g: Graph,
    x: EdgeId,
    kernel: (usize, usize),
    stride: (usize, usize),
)
    ensures
        #[trigger] g.maxpool_general(x, kernel, stride).0.ok ==> g.ok,
{
    broadcast use group_ok;

    reveal(Graph::maxpool_general);
    if g.maxpool_general(x, kernel, stride).0.ok {
        let (c, h, w) = (g.shape(x)[0], g.shape(x)[1], g.shape(x)[2]);
        let out = (
            windows(h as int, kernel.0 as int, stride.0 as int) as usize,
            windows(w as int, kernel.1 as int, stride.1 as int) as usize,
        );
        let p = g.require(
            g.has_rank(x, 3) && kernel.0 <= h && kernel.1 <= w && stride.0 > 0 && stride.1 > 0
                && word(windows(h as int, kernel.0 as int, stride.0 as int)) && word(
                windows(w as int, kernel.1 as int, stride.1 as int),
            ),
        );
        let (q, y) = p.plain(
            Op::GeneralMaxPoolHelper {
                channels: c,
                input_h: h,
                input_w: w,
                kernel_h: kernel.0,
                kernel_w: kernel.1,
                stride_h: stride.0,
                stride_w: stride.1,
            },
            seq![x],
            seq![c, out.0, out.1],
        );
        lemma_dominate_rows_ok(
            q,
            x,
            y,
            stride,
            0,
            kernel.0 as nat,
            kernel.1 as nat,
            out,
        );
    }
}

pub broadcast proof fn ok_pillar_maxpool(
    g: Graph,
    x: EdgeId,
    n_pillars: usize,
    max_points: usize,
    features: usize,
)
    ensures
        #[trigger] g.pillar_maxpool(x, n_pillars, max_points, features).0.ok ==> g.ok,
{
    broadcast use group_ok;

    reveal(Graph::pillar_maxpool);
    if g.pillar_maxpool(x, n_pillars, max_points, features).0.ok {
        let (h, y) = g.plain(
            Op::PillarMaxPool { n_pillars, max_points, features },
            seq![x],
            seq![n_pillars, features],
        );
        lemma_dominate_points_ok(h, x, y, n_pillars, features, 0, max_points as nat);
    }
}

/// Composed operations keep failures.
pub broadcast group group_ops_ok {
    group_ok,
    ok_rms_reciprocal,
    ok_softmax_const,
    ok_exp_helper,
    ok_two_pow_of,
    ok_flat_constant,
    ok_exp,
    ok_sigmoid,
    ok_reshape,
    ok_mask,
    ok_causal_mask,
    ok_pad,
    ok_pad_asym,
    ok_pad1d,
    ok_pad3d,
    ok_relu,
    ok_maxpool2d,
    ok_subsample_sized,
    ok_subsample2d,
    ok_dominate,
    ok_reduce_mean,
    ok_conv1d_full,
    ok_conv2d_full,
    ok_depthwise_conv2d,
    ok_conv3d_full,
    ok_conv_transpose1d,
    ok_conv_transpose2d,
    ok_conv_transpose3d,
    ok_concat,
    ok_channel_slice,
    ok_widen,
    ok_general_concat,
    ok_silu,
    ok_upsample_nearest_2x,
    ok_mask_channels,
    ok_instancenorm3d,
    ok_dominate_point,
    ok_multi_concat,
    ok_maxpool_general,
    ok_pillar_maxpool,
}

} // verus!
