//! Layers by the weights that they read.
use vstd::prelude::*;

use crate::dag::witness::{Tensor, Witness};
use crate::field::GoldilocksField;
use crate::plan::layout::volume;
use crate::plan::weights::{
    generate_bias_1d, generate_bias_3d, generate_conv_transpose_weight, generate_conv_weight,
    generate_dw_conv_weight, generate_linear_weight, placeable, spread, weight_tensor,
};

verus! {

/// How a layer uses its weights.
#[derive(Clone, Copy, Debug, PartialEq, Eq, Structural)]
pub enum LayerKind {
    Conv,
    Depthwise,
    Transposed,
    Linear,
}

/// A layer with a bias: its channels, its kernel, and the sides of its output.
#[derive(Clone, Copy, Debug, PartialEq, Eq, Structural)]
pub struct LayerPlan {
    pub kind: LayerKind,
    pub c_in: usize,
    pub c_out: usize,
    pub kh: usize,
    pub kw: usize,
    pub h: usize,
    pub w: usize,
}

/// A convolution.
pub open spec fn conv_layer(c_in: usize, c_out: usize, k: usize, h: int, w: int) -> LayerPlan {
    LayerPlan { kind: LayerKind::Conv, c_in, c_out, kh: k, kw: k, h: h as usize, w: w as usize }
}

/// A convolution.
pub fn conv(c_in: usize, c_out: usize, k: usize, h: usize, w: usize) -> (r: LayerPlan)
    ensures
        r == conv_layer(c_in, c_out, k, h as int, w as int),
{
    LayerPlan { kind: LayerKind::Conv, c_in, c_out, kh: k, kw: k, h, w }
}

/// A convolution that works channel by channel.
pub open spec fn depthwise_layer(channels: usize, k: usize, h: int, w: int) -> LayerPlan {
    LayerPlan {
        kind: LayerKind::Depthwise,
        c_in: channels,
        c_out: 1,
        kh: k,
        kw: k,
        h: h as usize,
        w: w as usize,
    }
}

/// A convolution that works channel by channel.
pub fn depthwise(channels: usize, k: usize, h: usize, w: usize) -> (r: LayerPlan)
    ensures
        r == depthwise_layer(channels, k, h as int, w as int),
{
    LayerPlan { kind: LayerKind::Depthwise, c_in: channels, c_out: 1, kh: k, kw: k, h, w }
}

/// A transposed convolution.
pub open spec fn transposed_layer(c_in: usize, c_out: usize, k: usize, h: int, w: int) -> LayerPlan {
    LayerPlan { kind: LayerKind::Transposed, c_in, c_out, kh: k, kw: k, h: h as usize, w: w as usize }
}

/// A transposed convolution.
pub fn transposed(c_in: usize, c_out: usize, k: usize, h: usize, w: usize) -> (r: LayerPlan)
    ensures
        r == transposed_layer(c_in, c_out, k, h as int, w as int),
{
    LayerPlan { kind: LayerKind::Transposed, c_in, c_out, kh: k, kw: k, h, w }
}

/// A product with a matrix.
pub open spec fn linear_layer(c_in: usize, c_out: usize) -> LayerPlan {
    LayerPlan { kind: LayerKind::Linear, c_in, c_out, kh: 1, kw: 1, h: 1, w: 1 }
}

/// A product with a matrix.
pub fn linear(c_in: usize, c_out: usize) -> (r: LayerPlan)
    ensures
        r == linear_layer(c_in, c_out),
{
    LayerPlan { kind: LayerKind::Linear, c_in, c_out, kh: 1, kw: 1, h: 1, w: 1 }
}

impl LayerPlan {
    /// Shape of the weights.
    pub open spec fn dims(self) -> Seq<usize> {
        match self.kind {
            LayerKind::Conv => seq![self.c_out, self.c_in, self.kh, self.kw],
            LayerKind::Depthwise => seq![self.c_in, 1, self.kh, self.kw],
            LayerKind::Transposed => seq![self.c_in, self.c_out, self.kh, self.kw],
            LayerKind::Linear => seq![self.c_in, self.c_out],
        }
    }

    /// Channels of the output: one entry of the bias for each.
    pub open spec fn channels(self) -> usize {
        if self.kind == LayerKind::Depthwise {
            self.c_in
        } else {
            self.c_out
        }
    }

    /// Shape of the bias.
    pub open spec fn bias_dims(self) -> Seq<usize> {
        if self.kind == LayerKind::Linear {
            seq![self.channels()]
        } else {
            seq![self.channels(), self.h, self.w]
        }
    }

    /// The weights and the bias with the given entries; the bias of a channel is the same at all
    /// its places.
    pub open spec fn tensors(
        self,
        words: Seq<GoldilocksField>,
        bias: Seq<GoldilocksField>,
    ) -> (Tensor, Tensor) {
        (
            weight_tensor(self.dims(), words),
            weight_tensor(
                self.bias_dims(),
                if self.kind == LayerKind::Linear {
                    bias
                } else {
                    spread(bias, (self.h * self.w) as nat)
                },
            ),
        )
    }

    /// Shape of the weights.
    pub fn weight_shape(&self) -> (r: Vec<usize>)
        ensures
            r@ == self.dims(),
    {
        let r: Vec<usize> = match self.kind {
            LayerKind::Conv => vec![self.c_out, self.c_in, self.kh, self.kw],
            LayerKind::Depthwise => vec![self.c_in, 1, self.kh, self.kw],
            LayerKind::Transposed => vec![self.c_in, self.c_out, self.kh, self.kw],
            LayerKind::Linear => vec![self.c_in, self.c_out],
        };
        assert(r@ =~= self.dims());
        r
    }

    /// Shape of the bias.
    pub fn bias_shape(&self) -> (r: Vec<usize>)
        ensures
            r@ == self.bias_dims(),
    {
        let channels: usize = self.bias_channels();
        let r: Vec<usize> = match self.kind {
            LayerKind::Linear => vec![channels],
            _ => vec![channels, self.h, self.w],
        };
        assert(r@ =~= self.bias_dims());
        r
    }

    /// Number of entries of the bias.
    pub fn bias_channels(&self) -> (r: usize)
        ensures
            r == self.channels(),
    {
        match self.kind {
            LayerKind::Depthwise => self.c_in,
            _ => self.c_out,
        }
    }

    /// Makes the weights and the bias.
    pub fn generate(&self, words: &[GoldilocksField], bias: &[GoldilocksField]) -> (r: (Witness, Witness))
        requires
            placeable(self.dims()),
            placeable(self.bias_dims()),
            words.len() == volume(self.dims()),
            bias.len() == self.channels(),
        ensures
            (r.0@, r.1@) == self.tensors(words@, bias@),
    {
        let weight: Witness = match self.kind {
            LayerKind::Conv => generate_conv_weight(self.c_in, self.c_out, self.kh, self.kw, words),
            LayerKind::Depthwise => generate_dw_conv_weight(self.c_in, self.kh, self.kw, words),
            LayerKind::Transposed => generate_conv_transpose_weight(
                self.c_in,
                self.c_out,
                self.kh,
                self.kw,
                words,
            ),
            LayerKind::Linear => generate_linear_weight(self.c_in, self.c_out, words),
        };
        let shift: Witness = match self.kind {
            LayerKind::Linear => generate_bias_1d(bias),
            _ => generate_bias_3d(self.h, self.w, bias),
        };
        (weight, shift)
    }
}

} // verus!
