//! The weights of VGG and of the 3D UNet, and the size of the table that a run commits with.
use vstd::arithmetic::power2::*;
use vstd::prelude::*;

use crate::dag::unet3d::{DECODER_LEVELS, ENCODER_LEVELS};
use crate::dag::vgg::{convs_before, VGG_FC_HIDDEN};
use crate::dag::witness::{Data, PolyData, Witness};
use crate::plan::layers::{conv, conv_layer, LayerPlan};

verus! {

/// The convolutions of VGG-11: channels in and channels out.
pub const VGG11_CONV_CONFIGS: [(usize, usize); 8] = [
    (3, 64),
    (64, 128),
    (128, 256),
    (256, 256),
    (256, 512),
    (512, 512),
    (512, 512),
    (512, 512),
];

/// The convolutions of VGG-16: channels in and channels out.
pub const VGG16_CONV_CONFIGS: [(usize, usize); 13] = [
    (3, 64),
    (64, 64),
    (64, 128),
    (128, 128),
    (128, 256),
    (256, 256),
    (256, 256),
    (256, 512),
    (512, 512),
    (512, 512),
    (512, 512),
    (512, 512),
    (512, 512),
];

/// Convolution `j` stands in block `b`.
pub open spec fn stands_in(blocks: Seq<(usize, usize)>, j: int, b: int) -> bool {
    &&& 0 <= b < blocks.len()
    &&& convs_before(blocks, b as nat) <= j < convs_before(blocks, (b + 1) as nat)
}

/// Side of the image in block `b`: it halves after every block.
pub open spec fn block_side(b: int) -> int {
    32int / pow2(b as nat) as int
}

/// The sides of the image at the convolutions, the first `n` of them, on images of 32 by 32.
pub open spec fn sides_ok(blocks: Seq<(usize, usize)>, n: int, sides: Seq<usize>) -> bool {
    &&& sides.len() == if n <= convs_before(blocks, blocks.len()) {
        n
    } else {
        convs_before(blocks, blocks.len())
    }
    &&& forall|j: int, b: int|
        0 <= j < sides.len() && #[trigger] stands_in(blocks, j, b) ==> sides[j] == block_side(b)
}

proof fn lemma_before_mono(blocks: Seq<(usize, usize)>, a: nat, b: nat)
    requires
        a <= b <= blocks.len(),
    ensures
        0 <= convs_before(blocks, a) <= convs_before(blocks, b),
    decreases b,
{
    if a < b {
        lemma_before_mono(blocks, a, (b - 1) as nat);
    } else if b > 0 {
        lemma_before_mono(blocks, (b - 1) as nat, (b - 1) as nat);
    }
}

proof fn lemma_side_halves(b: nat)
    ensures
        block_side(b as int) / 2 == block_side(b as int + 1),
        block_side(0) == 32,
        0 <= block_side(b as int) <= 32,
{
    lemma2_to64();
    lemma_pow2_pos(b);
    lemma_pow2_unfold(b + 1);
    vstd::arithmetic::div_mod::lemma_div_denominator(32, pow2(b) as int, 2);
    assert(32int / pow2(b) as int <= 32 && 0 <= 32int / pow2(b) as int) by {
        vstd::arithmetic::div_mod::lemma_div_is_ordered_by_denominator(32, 1, pow2(b) as int);
        vstd::arithmetic::div_mod::lemma_div_pos_is_pos(32, pow2(b) as int);
    }
}

/// The sides of the image at each of the first `num_layers` convolutions, on images of 32 by 32.
pub fn conv_spatial_dims(blocks: &[(usize, usize)], num_layers: usize) -> (r: Vec<usize>)
    ensures
        sides_ok(blocks@, num_layers as int, r@),
{
    let ghost bs = blocks@;
    let mut spatial: usize = 32;
    let mut dims: Vec<usize> = Vec::new();
    let mut b: usize = 0;
    proof {
        lemma_side_halves(0);
        lemma_before_mono(bs, 0, bs.len());
    }
    while b < blocks.len() && dims.len() < num_layers
        invariant
            b <= blocks.len(),
            bs == blocks@,
            dims.len() <= num_layers,
            dims.len() == convs_before(bs, b as nat) || dims.len() == num_layers < convs_before(
                bs,
                b as nat,
            ),
            dims.len() == convs_before(bs, b as nat) ==> spatial == block_side(b as int),
            forall|j: int, k: int|
                0 <= j < dims.len() && #[trigger] stands_in(bs, j, k) ==> dims[j] == block_side(k),
        decreases blocks.len() - b,
    {
        let (num_convs, _channels) = blocks[b];
        let mut c: usize = 0;
        while c < num_convs && dims.len() < num_layers
            invariant
                b < blocks.len(),
                bs == blocks@,
                num_convs == bs[b as int].0,
                c <= num_convs,
                dims.len() <= num_layers,
                dims.len() == convs_before(bs, b as nat) + c,
                spatial == block_side(b as int),
                forall|j: int, k: int|
                    0 <= j < dims.len() && #[trigger] stands_in(bs, j, k) ==> dims[j] == block_side(k),
            decreases num_convs - c,
        {
            let ghost before = dims@;
            dims.push(spatial);
            assert forall|j: int, k: int| 0 <= j < dims.len() && #[trigger] stands_in(bs, j, k) implies dims[j]
                == block_side(k) by {
                if j < before.len() {
                    assert(dims[j] == before[j]);
                } else {
                    if k < b {
                        lemma_before_mono(bs, (k + 1) as nat, b as nat);
                    }
                    if k > b {
                        lemma_before_mono(bs, (b + 1) as nat, k as nat);
                    }
                }
            }
            c = c + 1;
        }
        proof {
            lemma_side_halves(b as nat);
        }
        if c == num_convs {
            spatial = spatial / 2;
        }
        b = b + 1;
    }
    proof {
        lemma_before_mono(bs, b as nat, bs.len());
    }
    dims
}

/// The layers of the first convolutions, as many as there are sides and configurations.
pub open spec fn vgg_layers(configs: Seq<(usize, usize)>, sides: Seq<usize>, n: int) -> Seq<LayerPlan> {
    Seq::new(
        n as nat,
        |i: int| conv_layer(configs[i].0, configs[i].1, 3, sides[i] as int, sides[i] as int),
    )
}

/// What is left of `n` convolutions where there are fewer configurations.
pub open spec fn at_most(n: int, len: int) -> int {
    if n <= len {
        n
    } else {
        len
    }
}

/// The convolutions of a VGG with their biases, the first `num_layers` of them.
pub fn vgg_weight_plan(configs: &[(usize, usize)], blocks: &[(usize, usize)], num_layers: usize) -> (r: Vec<
    LayerPlan,
>)
    requires
        configs.len() <= convs_before(blocks@, blocks@.len()),
    ensures
        exists|sides: Seq<usize>| #[trigger]
            sides_ok(blocks@, num_layers as int, sides) && r@ == vgg_layers(
                configs@,
                sides,
                at_most(num_layers as int, configs.len() as int),
            ),
{
    let sides: Vec<usize> = conv_spatial_dims(blocks, num_layers);
    let n: usize = if num_layers <= configs.len() {
        num_layers
    } else {
        configs.len()
    };
    let mut r: Vec<LayerPlan> = Vec::new();
    let mut i: usize = 0;
    while i < n
        invariant
            i <= n <= configs.len(),
            n <= sides.len(),
            r@ == vgg_layers(configs@, sides@, i as int),
        decreases n - i,
    {
        let (c_in, c_out) = configs[i];
        r.push(conv(c_in, c_out, 3, sides[i], sides[i]));
        i = i + 1;
        assert(r@ =~= vgg_layers(configs@, sides@, i as int));
    }
    assert(sides_ok(blocks@, num_layers as int, sides@));
    r
}

/// The dense layers behind the convolutions: inputs and outputs of each.
pub fn vgg_dense_plan(flat_dim: usize, num_classes: usize) -> (r: Vec<(usize, usize)>)
    ensures
        r@ == seq![
            (flat_dim, VGG_FC_HIDDEN),
            (VGG_FC_HIDDEN, VGG_FC_HIDDEN),
            (VGG_FC_HIDDEN, num_classes),
        ],
{
    let r: Vec<(usize, usize)> = vec![
        (flat_dim, VGG_FC_HIDDEN),
        (VGG_FC_HIDDEN, VGG_FC_HIDDEN),
        (VGG_FC_HIDDEN, num_classes),
    ];
    assert(r@ =~= seq![
        (flat_dim, VGG_FC_HIDDEN),
        (VGG_FC_HIDDEN, VGG_FC_HIDDEN),
        (VGG_FC_HIDDEN, num_classes),
    ]);
    r
}

/// A convolution in space: channels out, channels in, side of the kernel.
pub type SpaceConv = (usize, usize, usize);

/// What the UNet reads: the convolutions, the transposed ones (channels in before channels out), and
/// the channels of its norms.
#[verifier::ext_equal]
pub struct UnetModel {
    pub convs: Seq<SpaceConv>,
    pub transposed: Seq<SpaceConv>,
    pub norms: Seq<usize>,
}

/// What the first `k` levels of the encoder read: two convolutions and two norms each.
pub open spec fn encoder_reads(k: nat) -> UnetModel
    decreases k,
{
    if k == 0 {
        UnetModel { convs: Seq::empty(), transposed: Seq::empty(), norms: Seq::empty() }
    } else {
        let m = encoder_reads((k - 1) as nat);
        let (c_in, c_out, stride) = ENCODER_LEVELS[k - 1];
        UnetModel {
            convs: m.convs.push((c_out, c_in, 3)).push((c_out, c_out, 3)),
            transposed: m.transposed,
            norms: m.norms.push(c_out).push(c_out),
        }
    }
}

/// What the encoder reads, and after it the first `k` levels of the decoder. A decoder for `levels`
/// levels starts at level `6 - levels`.
pub open spec fn unet_reads(levels: nat, k: nat) -> UnetModel
    decreases k,
{
    if k == 0 {
        encoder_reads(levels)
    } else {
        let m = unet_reads(levels, (k - 1) as nat);
        let (c_up, c_out, c_in) = DECODER_LEVELS[6 - levels + k - 1];
        UnetModel {
            convs: m.convs.push((c_out, c_in, 3)).push((c_out, c_out, 3)),
            transposed: m.transposed.push((c_up, c_out, 2)),
            norms: m.norms.push(c_out).push(c_out),
        }
    }
}

/// Channels in front of the last convolution.
pub open spec fn unet_last(levels: nat) -> usize {
    if levels > 1 {
        DECODER_LEVELS[4].1
    } else {
        ENCODER_LEVELS[levels - 1].1
    }
}

/// All that a UNet of `levels` levels reads: at the end one convolution of a single point to three
/// channels.
pub open spec fn unet_model(levels: nat) -> UnetModel {
    let m = unet_reads(levels, (levels - 1) as nat);
    UnetModel { convs: m.convs.push((3, unet_last(levels), 1)), ..m }
}

/// The weights of a UNet.
pub struct UnetPlan {
    pub convs: Vec<SpaceConv>,
    pub transposed: Vec<SpaceConv>,
    pub norms: Vec<usize>,
}

impl View for UnetPlan {
    type V = UnetModel;

    open spec fn view(&self) -> UnetModel {
        UnetModel { convs: self.convs@, transposed: self.transposed@, norms: self.norms@ }
    }
}

/// The weights that a UNet of one to six levels reads.
pub fn unet_weight_plan(levels: usize) -> (r: UnetPlan)
    requires
        1 <= levels <= 6,
    ensures
        r@ == unet_model(levels as nat),
{
    let mut r: UnetPlan = UnetPlan { convs: Vec::new(), transposed: Vec::new(), norms: Vec::new() };
    let mut i: usize = 0;
    assert(r@ =~= encoder_reads(0));
    while i < levels
        invariant
            i <= levels <= 6,
            r@ == encoder_reads(i as nat),
        decreases levels - i,
    {
        let (c_in, c_out, _stride) = ENCODER_LEVELS[i];
        r.convs.push((c_out, c_in, 3));
        r.convs.push((c_out, c_out, 3));
        r.norms.push(c_out);
        r.norms.push(c_out);
        i = i + 1;
        assert(r@ =~= encoder_reads(i as nat));
    }
    let mut k: usize = 0;
    while k < levels - 1
        invariant
            k <= levels - 1,
            1 <= levels <= 6,
            r@ == unet_reads(levels as nat, k as nat),
        decreases levels - k,
    {
        let (c_up, c_out, c_in) = DECODER_LEVELS[6 - levels + k];
        r.convs.push((c_out, c_in, 3));
        r.convs.push((c_out, c_out, 3));
        r.transposed.push((c_up, c_out, 2));
        r.norms.push(c_out);
        r.norms.push(c_out);
        k = k + 1;
        assert(r@ =~= unet_reads(levels as nat, k as nat));
    }
    let last: usize = if levels > 1 {
        DECODER_LEVELS[4].1
    } else {
        ENCODER_LEVELS[levels - 1].1
    };
    r.convs.push((3, last, 1));
    assert(r@ =~= unet_model(levels as nat));
    r
}

/// Variables of the polynomial that an edge carries first.
pub open spec fn edge_size(ws: Seq<Witness>) -> Option<usize> {
    if ws.len() == 0 {
        None
    } else {
        match ws[0]@.data {
            Some(Data::Dense { n, .. }) => Some(n),
            Some(Data::Sparse { n, .. }) => Some(n),
            None => None,
        }
    }
}

/// Some edge among the first `k` carries a polynomial of at most `cap` variables.
pub open spec fn has_size(edges: Seq<Vec<Witness>>, k: int, cap: usize) -> bool {
    exists|i: int| 0 <= i < k && #[trigger] counted(edges, i, cap)
}

/// Edge `i` carries a polynomial of at most `cap` variables.
pub open spec fn counted(edges: Seq<Vec<Witness>>, i: int, cap: usize) -> bool {
    &&& edge_size(edges[i]@) is Some
    &&& edge_size(edges[i]@)->0 <= cap
}

/// `n` is the largest number of variables, up to `cap`, among the first `k` edges.
pub open spec fn largest(edges: Seq<Vec<Witness>>, k: int, cap: usize, n: usize) -> bool {
    &&& exists|i: int| 0 <= i < k && #[trigger] counted(edges, i, cap) && edge_size(edges[i]@)->0 == n
    &&& forall|i: int| 0 <= i < k && #[trigger] counted(edges, i, cap) ==> edge_size(edges[i]@)->0 <= n
}

/// Number of variables that a table for the commitments of a run has to serve: the largest up to
/// `cap`, and ten where nothing counts.
pub fn max_num_vars(witnesses: &Vec<Vec<Witness>>, cap: usize) -> (r: usize)
    ensures
        has_size(witnesses@, witnesses.len() as int, cap) ==> largest(
            witnesses@,
            witnesses.len() as int,
            cap,
            r,
        ),
        !has_size(witnesses@, witnesses.len() as int, cap) ==> r == 10,
{
    let mut best: Option<usize> = None;
    let mut i: usize = 0;
    while i < witnesses.len()
        invariant
            i <= witnesses.len(),
            best is Some <==> has_size(witnesses@, i as int, cap),
            best matches Some(n) ==> largest(witnesses@, i as int, cap, n),
        decreases witnesses.len() - i,
    {
        let ghost before = best;
        if witnesses[i].len() > 0 {
            if let Some(d) = &witnesses[i][0].data {
                let n: usize = match d {
                    PolyData::Dense(p) => p.n,
                    PolyData::Sparse(p) => p.n,
                };
                if n <= cap {
                    assert(counted(witnesses@, i as int, cap));
                    best = match best {
                        Some(m) => if n > m {
                            Some(n)
                        } else {
                            Some(m)
                        },
                        None => Some(n),
                    };
                }
            }
        }
        i = i + 1;
    }
    match best {
        Some(n) => n,
        None => 10,
    }
}

} // verus!
