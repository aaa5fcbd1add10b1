//! The blocks that the nodes of a graph compute.
use vstd::prelude::*;

verus! {

/// A block whose parameters are plain numbers.
#[derive(Clone, Copy, Debug, PartialEq, Eq, Structural)]
pub enum Op {
    Add,
    Sub,
    NonNegative,
    TwoPow,
    ReLUHelper,
    ProductZeroCheck,
    Reducer,
    SigmoidConst { segments: usize },
    SoftmaxConst { dim: usize },
    RMSReciprocal { dim: usize },
    DivConst { divisor: u64 },
    /// Outputs the rescaled tensor and the bits of the remainder.
    ScaleDown { output_sf: usize },
    ScaleUp { output_sf: usize },
    /// Outputs the remainder and the selection of the power of two.
    ExpHelper { num_bits: usize },
    ZeroPad { channels: usize, input_h: usize, input_w: usize, pad_h: usize, pad_w: usize },
    ZeroPadAsym {
        channels: usize,
        input_h: usize,
        input_w: usize,
        pad_h_top: usize,
        pad_h_bottom: usize,
        pad_w_left: usize,
        pad_w_right: usize,
    },
    ZeroPad3D {
        channels: usize,
        input_d: usize,
        input_h: usize,
        input_w: usize,
        pad_d: usize,
        pad_h: usize,
        pad_w: usize,
    },
    MaxPoolHelper { channels: usize, input_h: usize, input_w: usize, pool_h: usize, pool_w: usize },
    GeneralMaxPoolHelper {
        channels: usize,
        input_h: usize,
        input_w: usize,
        kernel_h: usize,
        kernel_w: usize,
        stride_h: usize,
        stride_w: usize,
    },
    Replicate2x2 { channels: usize, out_h: usize, out_w: usize },
    SubSample2D {
        channels: usize,
        input_h: usize,
        input_w: usize,
        stride_h: usize,
        stride_w: usize,
        offset_h: usize,
        offset_w: usize,
        out_h: usize,
        out_w: usize,
    },
    FlattenKernel {
        s_w: usize,
        kh: usize,
        kw: usize,
        c_out: usize,
        c_in: usize,
        dilation_h: usize,
        dilation_w: usize,
    },
    FlattenKernel3D {
        stride_h: usize,
        stride_w: usize,
        kd: usize,
        kh: usize,
        kw: usize,
        c_out: usize,
        c_in: usize,
    },
    Conv1D { c_in: usize, c_out: usize, kernel_size: usize, input_len: usize, stride: usize },
    Conv2D {
        c_in: usize,
        c_out: usize,
        kh: usize,
        kw: usize,
        input_h: usize,
        input_w: usize,
        stride_h: usize,
        stride_w: usize,
        dilation_h: usize,
        dilation_w: usize,
    },
    DepthwiseConv2D {
        channels: usize,
        kh: usize,
        kw: usize,
        input_h: usize,
        input_w: usize,
        stride_h: usize,
        stride_w: usize,
    },
    Conv3D {
        c_in: usize,
        c_out: usize,
        kd: usize,
        kh: usize,
        kw: usize,
        input_d: usize,
        input_h: usize,
        input_w: usize,
        stride_d: usize,
        stride_h: usize,
        stride_w: usize,
    },
    ConvTranspose1D { c_in: usize, c_out: usize, kernel_size: usize, input_len: usize, stride: usize },
    ConvTranspose2D {
        c_in: usize,
        c_out: usize,
        kh: usize,
        kw: usize,
        input_h: usize,
        input_w: usize,
        stride_h: usize,
        stride_w: usize,
    },
    ConvTranspose3D {
        c_in: usize,
        c_out: usize,
        kd: usize,
        kh: usize,
        kw: usize,
        input_d: usize,
        input_h: usize,
        input_w: usize,
        stride_d: usize,
        stride_h: usize,
        stride_w: usize,
    },
    /// The stability term `eps` is carried as the bits of a double.
    InstanceNorm3D { channels: usize, depth: usize, height: usize, width: usize, eps_bits: u64 },
    PillarMaxPool { n_pillars: usize, max_points: usize, features: usize },
    ScatterToBEV { n_pillars: usize, features: usize, ny: usize, nx: usize },
    GatherFromGrid { n_points: usize, channels: usize, grid_h: usize, grid_w: usize },
}

/// What a node computes.
#[derive(Debug)]
pub enum BasicBlockType {
    Op(Op),
    Einsum { equation: Vec<char>, input_shapes: Vec<Vec<usize>>, output_shape: Vec<usize> },
    ChangeShape { target_shape: Vec<usize> },
    Concat { channels_a: usize, spatial_dims: Vec<usize> },
    ChannelSlice {
        channels_in: usize,
        channels_out: usize,
        channel_start: usize,
        spatial_dims: Vec<usize>,
    },
}

/// The mathematical value of a block.
#[verifier::ext_equal]
pub enum Block {
    Op(Op),
    Einsum { equation: Seq<char>, input_shapes: Seq<Seq<usize>>, output_shape: Seq<usize> },
    ChangeShape { target_shape: Seq<usize> },
    Concat { channels_a: usize, spatial_dims: Seq<usize> },
    ChannelSlice {
        channels_in: usize,
        channels_out: usize,
        channel_start: usize,
        spatial_dims: Seq<usize>,
    },
}

/// The contents of a list of lists.
pub open spec fn nested(v: Seq<Vec<usize>>) -> Seq<Seq<usize>> {
    v.map_values(|s: Vec<usize>| s@)
}

impl View for BasicBlockType {
    type V = Block;

    open spec fn view(&self) -> Block {
        match *self {
            BasicBlockType::Op(op) => Block::Op(op),
            BasicBlockType::Einsum { equation, input_shapes, output_shape } => Block::Einsum {
                equation: equation@,
                input_shapes: nested(input_shapes@),
                output_shape: output_shape@,
            },
            BasicBlockType::ChangeShape { target_shape } => Block::ChangeShape {
                target_shape: target_shape@,
            },
            BasicBlockType::Concat { channels_a, spatial_dims } => Block::Concat {
                channels_a,
                spatial_dims: spatial_dims@,
            },
            BasicBlockType::ChannelSlice {
                channels_in,
                channels_out,
                channel_start,
                spatial_dims,
            } => Block::ChannelSlice {
                channels_in,
                channels_out,
                channel_start,
                spatial_dims: spatial_dims@,
            },
        }
    }
}

impl Block {
    /// Number of tensors that the block outputs.
    pub open spec fn arity(self) -> nat {
        match self {
            Block::Op(Op::ScaleDown { .. }) => 2,
            Block::Op(Op::ScaleUp { .. }) => 2,
            Block::Op(Op::ExpHelper { .. }) => 2,
            _ => 1,
        }
    }
}

impl BasicBlockType {
    /// Number of tensors that the block outputs.
    pub fn out_arity(&self) -> (r: usize)
        ensures
            r == self@.arity(),
    {
        match self {
            BasicBlockType::Op(Op::ScaleDown { .. }) => 2,
            BasicBlockType::Op(Op::ScaleUp { .. }) => 2,
            BasicBlockType::Op(Op::ExpHelper { .. }) => 2,
            _ => 1,
        }
    }

    /// The block proves that its input has no negative entry.
    pub fn is_nonnegative(&self) -> (r: bool)
        ensures
            r == (self@ == Block::Op(Op::NonNegative)),
    {
        match self {
            BasicBlockType::Op(Op::NonNegative) => true,
            _ => false,
        }
    }
}

} // verus!
