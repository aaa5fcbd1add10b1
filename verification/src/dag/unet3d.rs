//! The 3D UNet.
use vstd::prelude::*;

use crate::dag::builder::DagBuilder;
use crate::dag::builder_ops::list1;
use crate::dag::graph::{one_edge, Graph};
use crate::dag::graph_ops::group_ops_ok;
use crate::dag::resnet::tensor_of;
use crate::dag::run::tensors;
use crate::dag::types::EdgeId;
use crate::dag::witness::{Tensor, Witness};

verus! {

/// The levels of the encoder: channels in, channels out, stride of the first convolution.
pub const ENCODER_LEVELS: [(usize, usize, usize); 6] = [
    (1, 32, 1),
    (32, 64, 2),
    (64, 128, 2),
    (128, 256, 2),
    (256, 256, 2),
    (256, 256, 2),
];

/// The levels of the decoder: channels into the upsampling, channels out of it, and channels after
/// the concatenation with the level of the encoder.
pub const DECODER_LEVELS: [(usize, usize, usize); 5] = [
    (256, 256, 512),
    (256, 256, 512),
    (256, 128, 256),
    (128, 64, 128),
    (64, 32, 64),
];

/// A convolution: channels in, channels out, and the kernel.
pub type Conv3 = (usize, usize, usize, usize, usize);

/// The convolutions of the first `k` levels of the encoder.
pub open spec fn encoder_convs(k: nat) -> Seq<Conv3>
    decreases k,
{
    if k == 0 {
        Seq::empty()
    } else {
        let (c_in, c_out, stride) = ENCODER_LEVELS[k - 1];
        encoder_convs((k - 1) as nat).push((c_in, c_out, 3, 3, 3)).push((c_out, c_out, 3, 3, 3))
    }
}

/// The convolutions of the first `k` levels of the decoder, the first of each a transposed one.
pub open spec fn decoder_convs(k: nat) -> Seq<Conv3>
    decreases k,
{
    if k == 0 {
        Seq::empty()
    } else {
        let (up_in, up_out, conv_in) = DECODER_LEVELS[k - 1];
        decoder_convs((k - 1) as nat).push((up_in, up_out, 2, 2, 2)).push(
            (conv_in, up_out, 3, 3, 3),
        ).push((up_out, up_out, 3, 3, 3))
    }
}

/// All convolutions, in order.
pub open spec fn all_convs() -> Seq<Conv3> {
    (encoder_convs(6) + decoder_convs(5)).push((32, 3, 1, 1, 1))
}

/// Channels of the normalizations of the first `k` levels of the encoder.
pub open spec fn encoder_norms(k: nat) -> Seq<usize>
    decreases k,
{
    if k == 0 {
        Seq::empty()
    } else {
        let c_out = ENCODER_LEVELS[k - 1].1;
        encoder_norms((k - 1) as nat).push(c_out).push(c_out)
    }
}

/// Channels of the normalizations of the first `k` levels of the decoder.
pub open spec fn decoder_norms(k: nat) -> Seq<usize>
    decreases k,
{
    if k == 0 {
        Seq::empty()
    } else {
        let c_out = DECODER_LEVELS[k - 1].1;
        decoder_norms((k - 1) as nat).push(c_out).push(c_out)
    }
}

/// There are two convolutions per level of the encoder, three per level of the decoder, and one at
/// the end; and two normalizations per level.
pub proof fn lemma_layer_counts(k: nat)
    ensures
        encoder_convs(k).len() == 2 * k,
        decoder_convs(k).len() == 3 * k,
        encoder_norms(k).len() == 2 * k,
        decoder_norms(k).len() == 2 * k,
    decreases k,
{
    if k > 0 {
        lemma_layer_counts((k - 1) as nat);
    }
}

/// All convolutions with their channels and kernels, in order.
pub fn unet3d_conv_configs() -> (r: Vec<(usize, usize, usize, usize, usize)>)
    ensures
        r@ == all_convs(),
        r.len() == 28,
{
    let mut configs: Vec<(usize, usize, usize, usize, usize)> = Vec::new();
    let mut i: usize = 0;
    while i < 6
        invariant
            i <= 6,
            configs@ == encoder_convs(i as nat),
        decreases 6 - i,
    {
        let (c_in, c_out, _stride) = ENCODER_LEVELS[i];
        configs.push((c_in, c_out, 3, 3, 3));
        configs.push((c_out, c_out, 3, 3, 3));
        i = i + 1;
    }
    assert(configs@ =~= encoder_convs(6) + decoder_convs(0));
    let mut j: usize = 0;
    while j < 5
        invariant
            j <= 5,
            configs@ == encoder_convs(6) + decoder_convs(j as nat),
        decreases 5 - j,
    {
        let (up_in, up_out, conv_in) = DECODER_LEVELS[j];
        configs.push((up_in, up_out, 2, 2, 2));
        configs.push((conv_in, up_out, 3, 3, 3));
        configs.push((up_out, up_out, 3, 3, 3));
        j = j + 1;
        assert(configs@ =~= encoder_convs(6) + decoder_convs(j as nat));
    }
    configs.push((32, 3, 1, 1, 1));
    proof {
        lemma_layer_counts(6);
        lemma_layer_counts(5);
    }
    configs
}

/// Number of convolutions.
pub fn unet3d_num_convs() -> (r: usize)
    ensures
        r == all_convs().len(),
        r == 28,
{
    unet3d_conv_configs().len()
}

/// Channels of all normalizations, in order.
pub fn unet3d_instancenorm_configs() -> (r: Vec<usize>)
    ensures
        r@ == encoder_norms(6) + decoder_norms(5),
        r.len() == 22,
{
    let mut configs: Vec<usize> = Vec::new();
    let mut i: usize = 0;
    while i < 6
        invariant
            i <= 6,
            configs@ == encoder_norms(i as nat),
        decreases 6 - i,
    {
        let c_out: usize = ENCODER_LEVELS[i].1;
        configs.push(c_out);
        configs.push(c_out);
        i = i + 1;
    }
    assert(configs@ =~= encoder_norms(6) + decoder_norms(0));
    let mut j: usize = 0;
    while j < 5
        invariant
            j <= 5,
            configs@ == encoder_norms(6) + decoder_norms(j as nat),
        decreases 5 - j,
    {
        let c_out: usize = DECODER_LEVELS[j].1;
        configs.push(c_out);
        configs.push(c_out);
        j = j + 1;
        assert(configs@ =~= encoder_norms(6) + decoder_norms(j as nat));
    }
    proof {
        lemma_layer_counts(6);
        lemma_layer_counts(5);
    }
    configs
}

/// The shape of the output: three channels, and the size of the input.
pub fn unet3d_output_shape(
    _num_levels: usize,
    input_d: usize,
    input_h: usize,
    input_w: usize,
) -> (r: (usize, usize, usize, usize))
    ensures
        r == (3usize, input_d, input_h, input_w),
{
    (3, input_d, input_h, input_w)
}

impl Graph {
    /// A padded convolution, a normalization and a rectifier.
    #[verifier::opaque]
    pub open spec fn unet_conv(
        self,
        w: Tensor,
        gamma: Tensor,
        beta: Tensor,
        stride: usize,
        eps_bits: u64,
        x: EdgeId,
    ) -> (Graph, EdgeId) {
        let (g, h) = self.pad3d(x, 1, 1, 1);
        let (g, w_e) = g.param(w);
        let (g, h) = g.conv3d_full(h, w_e, (3, 3, 3), (stride, stride, stride));
        let (g, h) = g.mask_channels(h, 4);
        let (g, gamma_e) = g.param(gamma);
        let (g, beta_e) = g.param(beta);
        let (g, h) = g.instancenorm3d(h, gamma_e, beta_e, eps_bits);
        let (g, h) = g.relu(h);
        (g, h)
    }
}

pub broadcast proof fn ok_unet_conv(
    g: Graph,
    w: Tensor,
    gamma: Tensor,
    beta: Tensor,
    stride: usize,
    eps_bits: u64,
    x: EdgeId,
)
    ensures
        #[trigger] g.unet_conv(w, gamma, beta, stride, eps_bits, x).0.ok ==> g.ok,
{
    broadcast use group_ops_ok;

    reveal(Graph::unet_conv);
}

impl DagBuilder {
    /// A padded convolution, a normalization and a rectifier.
    #[verifier::rlimit(30)]
    pub fn unet_conv(
        &mut self,
        w: Witness,
        gamma: Witness,
        beta: Witness,
        stride: usize,
        eps_bits: u64,
        x: EdgeId,
    ) -> (e: EdgeId)
        requires
            old(self).wf(),
            old(self)@.unet_conv(w@, gamma@, beta@, stride, eps_bits, x).0.ok,
        ensures
            final(self).wf(),
            (final(self)@, e) == old(self)@.unet_conv(w@, gamma@, beta@, stride, eps_bits, x),
    {
        reveal(Graph::unet_conv);
        broadcast use group_ops_ok;

        let h: EdgeId = self.pad3d(x, 1, 1, 1);
        let w_e: EdgeId = self.param(w);
        let h: EdgeId = self.conv3d_strided(h, w_e, (3, 3, 3), (stride, stride, stride))[0];
        let h: EdgeId = self.mask_channels(h, 4);
        let gamma_e: EdgeId = self.param(gamma);
        let beta_e: EdgeId = self.param(beta);
        let h: EdgeId = self.instancenorm3d(h, gamma_e, beta_e, eps_bits);
        let h: EdgeId = self.relu(h);
        h
    }
}

impl Graph {
    /// A transposed convolution, joined with a level of the encoder.
    #[verifier::opaque]
    pub open spec fn unet_up(self, w: Tensor, skip: EdgeId, x: EdgeId) -> (Graph, EdgeId) {
        let (g, w_e) = self.param(w);
        let (g, h) = g.conv_transpose3d(x, w_e, (2, 2, 2), (2, 2, 2));
        let (g, h) = g.mask_channels(h, 4);
        let (g, h) = g.concat(h, skip);
        let (g, h) = g.mask_channels(h, 4);
        (g, h)
    }
}

pub broadcast proof fn ok_unet_up(g: Graph, w: Tensor, skip: EdgeId, x: EdgeId)
    ensures
        #[trigger] g.unet_up(w, skip, x).0.ok ==> g.ok,
{
    broadcast use group_ops_ok;

    reveal(Graph::unet_up);
}

impl DagBuilder {
    /// A transposed convolution, joined with a level of the encoder.
    pub fn unet_up(&mut self, w: Witness, skip: EdgeId, x: EdgeId) -> (e: EdgeId)
        requires
            old(self).wf(),
            old(self)@.unet_up(w@, skip, x).0.ok,
        ensures
            final(self).wf(),
            (final(self)@, e) == old(self)@.unet_up(w@, skip, x),
    {
        reveal(Graph::unet_up);
        broadcast use group_ops_ok;

        let w_e: EdgeId = self.param(w);
        let h: EdgeId = self.conv_transpose3d(x, w_e, (2, 2, 2), (2, 2, 2))[0];
        let h: EdgeId = self.mask_channels(h, 4);
        let h: EdgeId = self.concat(h, skip);
        let h: EdgeId = self.mask_channels(h, 4);
        h
    }
}

/// The weights of the network.
#[verifier::ext_equal]
pub struct Weights {
    pub convs: Seq<Tensor>,
    pub ups: Seq<Tensor>,
    pub gammas: Seq<Tensor>,
    pub betas: Seq<Tensor>,
}

impl Weights {
    /// There are weights for `levels` levels of the encoder, the levels of the decoder that go with
    /// them, and the output.
    pub open spec fn enough(self, levels: int) -> bool {
        let ups = decoder_levels(levels);
        &&& self.convs.len() >= 2 * levels + 2 * ups + if levels >= 1 {
            1int
        } else {
            0
        }
        &&& self.gammas.len() >= 2 * levels + 2 * ups
        &&& self.betas.len() >= 2 * levels + 2 * ups
        &&& self.ups.len() >= ups
    }
}

/// The decoder has a level less than the encoder.
pub open spec fn decoder_levels(levels: int) -> int {
    if levels <= 1 {
        0
    } else {
        levels - 1
    }
}

impl Graph {
    /// Two convolutions with the weights from number `i` on; the edge behind them can be cut.
    #[verifier::opaque]
    pub open spec fn unet_pair(self, p: Weights, i: int, stride: usize, eps_bits: u64, x: EdgeId) -> (
        Graph,
        EdgeId,
    ) {
        let (g, h) = self.unet_conv(p.convs[i], p.gammas[i], p.betas[i], stride, eps_bits, x);
        let (g, h) = g.unet_conv(p.convs[i + 1], p.gammas[i + 1], p.betas[i + 1], 1, eps_bits, h);
        (g.boundary(h), h)
    }

    /// The first `k` levels of the encoder, with the input and the edges that come out of them.
    pub open spec fn unet_encoder(self, p: Weights, eps_bits: u64, x: EdgeId, k: nat) -> (
        Graph,
        Seq<EdgeId>,
    )
        decreases k,
    {
        if k == 0 {
            (self, seq![x])
        } else {
            let (g, outs) = self.unet_encoder(p, eps_bits, x, (k - 1) as nat);
            let (g, h) = g.unet_pair(p, 2 * (k - 1), ENCODER_LEVELS[k - 1].2, eps_bits, outs.last());
            (g, outs.push(h))
        }
    }

    /// The first `k` levels of the decoder, behind the given levels of the encoder.
    pub open spec fn unet_decoder(self, p: Weights, eps_bits: u64, outs: Seq<EdgeId>, k: nat) -> (
        Graph,
        EdgeId,
    )
        decreases k,
    {
        let levels = outs.len() - 1;
        if k == 0 {
            (self, outs.last())
        } else {
            let (g, h) = self.unet_decoder(p, eps_bits, outs, (k - 1) as nat);
            let (g, h) = g.unet_up(p.ups[k - 1], outs[levels - k], h);
            g.unet_pair(p, 2 * levels + 2 * (k - 1), 1, eps_bits, h)
        }
    }

    /// The last convolution and its bias.
    #[verifier::opaque]
    pub open spec fn unet_output(self, w: Tensor, bias: Option<Tensor>, x: EdgeId) -> (Graph, EdgeId) {
        let (g, w_e) = self.param(w);
        let (g, h) = g.conv3d_full(x, w_e, (1, 1, 1), (1, 1, 1));
        match bias {
            Some(b) => {
                let (g, b_e) = g.param(b);
                g.add(h, b_e)
            },
            None => (g, h),
        }
    }

    /// The network with at most six levels of the encoder.
    #[verifier::opaque]
    pub open spec fn unet3d(
        self,
        p: Weights,
        bias: Option<Tensor>,
        num_levels: nat,
        eps_bits: u64,
        x: EdgeId,
    ) -> (Graph, EdgeId) {
        let levels = if num_levels <= 6 {
            num_levels
        } else {
            6
        };
        let ups = decoder_levels(levels as int);
        let g = self.require(p.enough(levels as int));
        let (g, outs) = g.unet_encoder(p, eps_bits, x, levels);
        let (g, h) = g.unet_decoder(p, eps_bits, outs, ups as nat);
        if levels >= 1 {
            g.unet_output(p.convs[2 * levels + 2 * ups], bias, h)
        } else {
            (g, h)
        }
    }
}

pub broadcast proof fn ok_unet_pair(g: Graph, p: Weights, i: int, stride: usize, eps_bits: u64, x: EdgeId)
    ensures
        #[trigger] g.unet_pair(p, i, stride, eps_bits, x).0.ok ==> g.ok,
{
    broadcast use group_ops_ok;
    broadcast use ok_unet_conv;

    reveal(Graph::unet_pair);
}

pub broadcast proof fn ok_unet_output(g: Graph, w: Tensor, bias: Option<Tensor>, x: EdgeId)
    ensures
        #[trigger] g.unet_output(w, bias, x).0.ok ==> g.ok,
{
    broadcast use group_ops_ok;

    reveal(Graph::unet_output);
}

proof fn lemma_encoder_ok(g: Graph, p: Weights, eps_bits: u64, x: EdgeId, j: nat, k: nat)
    requires
        j <= k,
        g.unet_encoder(p, eps_bits, x, k).0.ok,
    ensures
        g.unet_encoder(p, eps_bits, x, j).0.ok,
    decreases k,
{
    broadcast use ok_unet_pair;

    if j < k {
        lemma_encoder_ok(g, p, eps_bits, x, j, (k - 1) as nat);
    }
}

proof fn lemma_decoder_ok(g: Graph, p: Weights, eps_bits: u64, outs: Seq<EdgeId>, j: nat, k: nat)
    requires
        j <= k,
        g.unet_decoder(p, eps_bits, outs, k).0.ok,
    ensures
        g.unet_decoder(p, eps_bits, outs, j).0.ok,
    decreases k,
{
    broadcast use {ok_unet_pair, ok_unet_up};

    if j < k {
        let (g1, h) = g.unet_decoder(p, eps_bits, outs, (k - 1) as nat);
        let (g2, h2) = g1.unet_up(p.ups[k - 1], outs[outs.len() - 1 - k], h);
        ok_unet_pair(g2, p, 2 * (outs.len() - 1) + 2 * (k - 1), 1, eps_bits, h2);
        lemma_decoder_ok(g, p, eps_bits, outs, j, (k - 1) as nat);
    }
}

/// The weights of the network.
pub struct UnetWeights {
    pub convs: Vec<Witness>,
    pub ups: Vec<Witness>,
    pub gammas: Vec<Witness>,
    pub betas: Vec<Witness>,
}

impl View for UnetWeights {
    type V = Weights;

    open spec fn view(&self) -> Weights {
        Weights {
            convs: tensors(self.convs@),
            ups: tensors(self.ups@),
            gammas: tensors(self.gammas@),
            betas: tensors(self.betas@),
        }
    }
}

impl DagBuilder {
    /// Two convolutions with the weights from number `i` on; the edge behind them can be cut.
    fn unet_pair(&mut self, p: &UnetWeights, i: usize, stride: usize, eps_bits: u64, x: EdgeId) -> (e: EdgeId)
        requires
            old(self).wf(),
            i + 1 < p.convs.len(),
            i + 1 < p.gammas.len(),
            i + 1 < p.betas.len(),
            old(self)@.unet_pair(p@, i as int, stride, eps_bits, x).0.ok,
        ensures
            final(self).wf(),
            (final(self)@, e) == old(self)@.unet_pair(p@, i as int, stride, eps_bits, x),
    {
        reveal(Graph::unet_pair);
        broadcast use group_ops_ok;
        broadcast use ok_unet_conv;

        let h: EdgeId = self.unet_conv(
            p.convs[i].clone(),
            p.gammas[i].clone(),
            p.betas[i].clone(),
            stride,
            eps_bits,
            x,
        );
        let j: usize = i + 1;
        let h: EdgeId = self.unet_conv(
            p.convs[j].clone(),
            p.gammas[j].clone(),
            p.betas[j].clone(),
            1,
            eps_bits,
            h,
        );
        self.mark_boundary(h);
        h
    }

    /// The last convolution and its bias.
    fn unet_output(&mut self, w: Witness, bias: Option<Witness>, x: EdgeId) -> (e: EdgeId)
        requires
            old(self).wf(),
            old(self)@.unet_output(w@, tensor_of(bias), x).0.ok,
        ensures
            final(self).wf(),
            (final(self)@, e) == old(self)@.unet_output(w@, tensor_of(bias), x),
    {
        reveal(Graph::unet_output);
        broadcast use group_ops_ok;

        let w_e: EdgeId = self.param(w);
        let h: EdgeId = self.conv3d(x, w_e, (1, 1, 1))[0];
        match bias {
            Some(b) => {
                let b_e: EdgeId = self.param(b);
                self.add(h, b_e)[0]
            },
            None => h,
        }
    }

    /// The network with at most six levels of the encoder.
    #[verifier::rlimit(40)]
    pub fn unet3d(
        &mut self,
        p: &UnetWeights,
        bias: Option<Witness>,
        num_levels: usize,
        eps_bits: u64,
        x: EdgeId,
    ) -> (e: EdgeId)
        requires
            old(self).wf(),
            old(self)@.unet3d(p@, tensor_of(bias), num_levels as nat, eps_bits, x).0.ok,
        ensures
            final(self).wf(),
            (final(self)@, e) == old(self)@.unet3d(
                p@,
                tensor_of(bias),
                num_levels as nat,
                eps_bits,
                x,
            ),
    {
        reveal(Graph::unet3d);
        broadcast use {ok_unet_output, ok_unet_pair, ok_unet_up};

        let levels: usize = if num_levels <= 6 {
            num_levels
        } else {
            6
        };
        let ups: usize = if levels <= 1 {
            0
        } else {
            levels - 1
        };
        let ghost g = self@.require(p@.enough(levels as int));
        let ghost (g1, outs1) = g.unet_encoder(p@, eps_bits, x, levels as nat);
        let ghost (g2, h2) = g1.unet_decoder(p@, eps_bits, outs1, ups as nat);
        proof {
            assert(g2.ok);
            lemma_decoder_ok(g1, p@, eps_bits, outs1, 0, ups as nat);
            lemma_encoder_ok(g, p@, eps_bits, x, 0, levels as nat);
            assert(g.ok && g == self@);
            assert(p@.convs.len() == p.convs.len());
            assert(p@.ups.len() == p.ups.len());
            assert(p@.gammas.len() == p.gammas.len());
            assert(p@.betas.len() == p.betas.len());
        }
        let mut outs: Vec<EdgeId> = list1(x);
        let mut k: usize = 0;
        while k < levels
            invariant
                k <= levels <= 6,
                p@.enough(levels as int),
                p@.convs.len() == p.convs.len(),
                p@.gammas.len() == p.gammas.len(),
                p@.betas.len() == p.betas.len(),
                g.unet_encoder(p@, eps_bits, x, levels as nat).0.ok,
                self.wf(),
                outs.len() == k + 1,
                (self@, outs@) == g.unet_encoder(p@, eps_bits, x, k as nat),
            decreases levels - k,
        {
            proof {
                lemma_encoder_ok(g, p@, eps_bits, x, (k + 1) as nat, levels as nat);
            }
            let stride: usize = ENCODER_LEVELS[k].2;
            let h: EdgeId = self.unet_pair(p, 2 * k, stride, eps_bits, outs[k]);
            outs.push(h);
            k = k + 1;
        }
        let mut h: EdgeId = outs[levels];
        let mut d: usize = 0;
        while d < ups
            invariant
                d <= ups,
                levels <= 6,
                ups == decoder_levels(levels as int),
                p@.enough(levels as int),
                p@.convs.len() == p.convs.len(),
                p@.ups.len() == p.ups.len(),
                p@.gammas.len() == p.gammas.len(),
                p@.betas.len() == p.betas.len(),
                outs.len() == levels + 1,
                g1.unet_decoder(p@, eps_bits, outs@, ups as nat).0.ok,
                self.wf(),
                (self@, h) == g1.unet_decoder(p@, eps_bits, outs@, d as nat),
            decreases ups - d,
        {
            proof {
                lemma_decoder_ok(g1, p@, eps_bits, outs@, (d + 1) as nat, ups as nat);
                let (g3, h3) = self@.unet_up(p@.ups[d as int], outs[levels - (d + 1)], h);
                ok_unet_pair(g3, p@, 2 * levels + 2 * d, 1, eps_bits, h3);
            }
            h = self.unet_up(p.ups[d].clone(), outs[levels - (d + 1)], h);
            h = self.unet_pair(p, 2 * levels + 2 * d, 1, eps_bits, h);
            d = d + 1;
        }
        if levels >= 1 {
            self.unet_output(p.convs[2 * levels + 2 * ups].clone(), bias, h)
        } else {
            h
        }
    }
}

/// The recipe of the 3D UNet.
pub fn unet3d(
    conv_weights: Vec<Witness>,
    conv_transpose_weights: Vec<Witness>,
    in_gammas: Vec<Witness>,
    in_betas: Vec<Witness>,
    output_bias: Option<Witness>,
    num_levels: usize,
    eps_bits: u64,
) -> (f: impl FnOnce(&mut DagBuilder, &[EdgeId]) -> Vec<EdgeId>)
    ensures
        forall|g: &mut DagBuilder, x: &[EdgeId]|
            g.wf() && x.len() == 1 && g@.unet3d(
                weights_of(conv_weights@, conv_transpose_weights@, in_gammas@, in_betas@),
                tensor_of(output_bias),
                num_levels as nat,
                eps_bits,
                x[0],
            ).0.ok ==> #[trigger] call_requires(f, (g, x)),
        forall|g: &mut DagBuilder, x: &[EdgeId], r: Vec<EdgeId>| #[trigger]
            call_ensures(f, (g, x), r) ==> final(g).wf() && (final(g)@, r@) == one_edge(
                g@.unet3d(
                    weights_of(conv_weights@, conv_transpose_weights@, in_gammas@, in_betas@),
                    tensor_of(output_bias),
                    num_levels as nat,
                    eps_bits,
                    x[0],
                ),
            ),
{
    let ghost bias = tensor_of(output_bias);
    let p: UnetWeights = UnetWeights {
        convs: conv_weights,
        ups: conv_transpose_weights,
        gammas: in_gammas,
        betas: in_betas,
    };
    move |g: &mut DagBuilder, x: &[EdgeId]| -> (r: Vec<EdgeId>)
        requires
            g.wf(),
            x.len() == 1,
            g@.unet3d(p@, bias, num_levels as nat, eps_bits, x[0]).0.ok,
        ensures
            final(g).wf(),
            (final(g)@, r@) == one_edge(
                old(g)@.unet3d(p@, bias, num_levels as nat, eps_bits, x[0]),
            ),
        { list1(g.unet3d(&p, output_bias, num_levels, eps_bits, x[0])) }
}

/// The weights of the given lists.
pub open spec fn weights_of(
    convs: Seq<Witness>,
    ups: Seq<Witness>,
    gammas: Seq<Witness>,
    betas: Seq<Witness>,
) -> Weights {
    Weights {
        convs: tensors(convs),
        ups: tensors(ups),
        gammas: tensors(gammas),
        betas: tensors(betas),
    }
}

} // verus!
