//! The weights of DeepLabV3+ and the graph that reads them.
use vstd::prelude::*;

use crate::dag::builder::{empty_graph, DagBuilder};
use crate::dag::deeplabv3plus::{
    all_convs, backbone, block_convs, deeplabv3plus, head_convs, stem, Backbone, ConvD, RESNET101_STAGES,
};
use crate::dag::graph::Graph;
use crate::dag::pairs::pair_list;
use crate::dag::types::EdgeId;
use crate::dag::witness::{DataType, Tensor, Witness};
use crate::plan::layers::{
    conv, conv_layer, depthwise, depthwise_layer, linear, linear_layer, LayerKind, LayerPlan,
};

verus! {

/// How far the weights of the backbone have come: the layers, the channels, how many layers count
/// against the limit, the channels that the decoder is given, and the sides of the image.
#[verifier::ext_equal]
pub struct Growth {
    pub layers: Seq<LayerPlan>,
    pub channels: usize,
    pub count: int,
    pub skip: usize,
    pub h: int,
    pub w: int,
}

/// A side of the image after a window of three, padded by one, that moves by two.
pub open spec fn coarser(side: int) -> int {
    (side + 2 - 3) / 2 + 1
}

/// A side of the image after a block.
pub open spec fn strided(side: int, stride: usize) -> int {
    if stride > 1 {
        side / stride as int
    } else {
        side
    }
}

/// The weights of the stem; the image is made coarser by the first convolution and by the pooling
/// at the end.
pub open spec fn stem_layers(h: int, w: int) -> Growth {
    Growth {
        layers: seq![
            conv_layer(3, 64, 3, coarser(h), coarser(w)),
            conv_layer(64, 64, 3, coarser(h), coarser(w)),
            conv_layer(64, 64, 3, coarser(h), coarser(w)),
        ],
        channels: 64,
        count: 3,
        skip: 64,
        h: coarser(coarser(h)),
        w: coarser(coarser(w)),
    }
}

/// The weights of a block that leaves the image with sides `h` and `w`.
pub open spec fn block_layers(g: Growth, c_mid: usize, c_out: usize, h: int, w: int, projected: bool) -> Seq<
    LayerPlan,
> {
    let main = seq![
        conv_layer(g.channels, c_mid, 1, g.h, g.w),
        conv_layer(c_mid, c_mid, 3, h, w),
        conv_layer(c_mid, c_out, 1, h, w),
    ];
    if projected {
        main.push(conv_layer(g.channels, c_out, 1, h, w))
    } else {
        main
    }
}

impl Growth {
    /// Block `block` of stage `i`, if the limit allows another one.
    pub open spec fn block(self, i: int, block: int, limit: int) -> Growth {
        let (num_blocks, c_mid, c_out, stride, dilation) = RESNET101_STAGES[i];
        let projected = block == 0 && (self.channels != c_out || stride > 1);
        let step = if block == 0 {
            stride
        } else {
            1
        };
        let (h, w) = (strided(self.h, step), strided(self.w, step));
        if self.count >= limit {
            self
        } else {
            Growth {
                layers: self.layers + block_layers(self, c_mid, c_out, h, w, projected),
                channels: c_out,
                count: self.count + if projected {
                    4int
                } else {
                    3
                },
                skip: self.skip,
                h,
                w,
            }
        }
    }

    /// The first `k` blocks of stage `i`.
    pub open spec fn blocks(self, i: int, k: nat, limit: int) -> Growth
        decreases k,
    {
        if k == 0 {
            self
        } else {
            self.blocks(i, (k - 1) as nat, limit).block(i, k - 1, limit)
        }
    }

    /// Stage `i`; the decoder is given the channels after the first one.
    pub open spec fn stage(self, i: int, limit: int) -> Growth {
        let g = self.blocks(i, RESNET101_STAGES[i].0 as nat, limit);
        if i == 0 {
            Growth { skip: g.channels, ..g }
        } else {
            g
        }
    }
}

/// The weights of the stem and of the first `i` stages.
pub open spec fn grown(i: nat, limit: int, h: int, w: int) -> Growth
    decreases i,
{
    if i == 0 {
        stem_layers(h, w)
    } else {
        grown((i - 1) as nat, limit, h, w).stage(i - 1, limit)
    }
}

/// The weights after the backbone: the pyramid, the decoder and the classifier.
pub open spec fn head_layers(g: Growth, h: int, w: int, num_classes: usize) -> Seq<LayerPlan> {
    let (dh, dw) = (g.h * 2, g.w * 2);
    seq![
        linear_layer(g.channels, 256),
        conv_layer(g.channels, 256, 1, g.h, g.w),
        conv_layer(g.channels, 256, 3, g.h, g.w),
        conv_layer(g.channels, 256, 3, g.h, g.w),
        conv_layer(g.channels, 256, 3, g.h, g.w),
        conv_layer(2048, 256, 1, g.h, g.w),
        conv_layer(g.skip, 48, 1, h / 4, w / 4),
        depthwise_layer(512, 3, dh, dw),
        conv_layer(512, 256, 1, dh, dw),
        depthwise_layer(256, 3, dh, dw),
        conv_layer(256, 256, 1, dh, dw),
        conv_layer(256, num_classes, 1, dh, dw),
    ]
}

/// All weights of the network on an image of the given sides.
pub open spec fn deeplab_layers(num_layers: int, h: int, w: int, num_classes: usize) -> Seq<LayerPlan> {
    let g = grown(4, num_layers, h, w);
    g.layers + head_layers(g, h, w, num_classes)
}

/// Adds the weights of a block.
fn push_block(
    layers: &mut Vec<LayerPlan>,
    c_in: usize,
    c_mid: usize,
    c_out: usize,
    from: (usize, usize),
    to: (usize, usize),
    projected: bool,
    Ghost(g): Ghost<Growth>,
)
    requires
        g.channels == c_in,
        g.h == from.0,
        g.w == from.1,
    ensures
        final(layers)@ == old(layers)@ + block_layers(g, c_mid, c_out, to.0 as int, to.1 as int, projected),
{
    let ghost before = layers@;
    layers.push(conv(c_in, c_mid, 1, from.0, from.1));
    layers.push(conv(c_mid, c_mid, 3, to.0, to.1));
    layers.push(conv(c_mid, c_out, 1, to.0, to.1));
    if projected {
        layers.push(conv(c_in, c_out, 1, to.0, to.1));
    }
    assert(layers@ =~= before + block_layers(g, c_mid, c_out, to.0 as int, to.1 as int, projected));
}

/// A side of the image after a block.
fn after_stride(side: usize, stride: usize) -> (r: usize)
    ensures
        r == strided(side as int, stride),
        r <= side,
{
    if stride > 1 {
        side / stride
    } else {
        side
    }
}

/// The weights that the network reads, in order, on an image of the given sides. `num_layers`
/// limits the blocks of the backbone.
pub fn deeplab_weight_plan(num_layers: usize, input_h: usize, input_w: usize, num_classes: usize) -> (r: Vec<
    LayerPlan,
>)
    requires
        1 <= input_h <= usize::MAX - 2,
        1 <= input_w <= usize::MAX - 2,
    ensures
        r@ == deeplab_layers(num_layers as int, input_h as int, input_w as int, num_classes),
{
    let ghost limit = num_layers as int;
    let ghost (ih, iw) = (input_h as int, input_w as int);
    let mut h: usize = (input_h + 2 - 3) / 2 + 1;
    let mut w: usize = (input_w + 2 - 3) / 2 + 1;
    let mut layers: Vec<LayerPlan> = Vec::new();
    layers.push(conv(3, 64, 3, h, w));
    layers.push(conv(64, 64, 3, h, w));
    layers.push(conv(64, 64, 3, h, w));
    h = (h + 2 - 3) / 2 + 1;
    w = (w + 2 - 3) / 2 + 1;
    assert(layers@ =~= stem_layers(ih, iw).layers);
    let mut c_in: usize = 64;
    let mut skip: usize = 64;
    let mut count: usize = 3;
    let mut i: usize = 0;
    while i < 4
        invariant
            i <= 4,
            limit == num_layers,
            layers@ == grown(i as nat, limit, ih, iw).layers,
            c_in == grown(i as nat, limit, ih, iw).channels,
            count == grown(i as nat, limit, ih, iw).count,
            skip == grown(i as nat, limit, ih, iw).skip,
            h == grown(i as nat, limit, ih, iw).h,
            w == grown(i as nat, limit, ih, iw).w,
            h <= usize::MAX / 4 + 2,
            w <= usize::MAX / 4 + 2,
            count <= 3 + 92 * i,
        decreases 4 - i,
    {
        let ghost start = grown(i as nat, limit, ih, iw);
        let (num_blocks, c_mid, c_out, stride, _dilation) = RESNET101_STAGES[i];
        let mut block: usize = 0;
        assert(num_blocks <= 23);
        while block < num_blocks
            invariant
                i < 4,
                limit == num_layers,
                block <= num_blocks <= 23,
                (num_blocks, c_mid, c_out, stride, _dilation) == RESNET101_STAGES[i as int],
                layers@ == start.blocks(i as int, block as nat, limit).layers,
                c_in == start.blocks(i as int, block as nat, limit).channels,
                count == start.blocks(i as int, block as nat, limit).count,
                skip == start.blocks(i as int, block as nat, limit).skip,
                h == start.blocks(i as int, block as nat, limit).h,
                w == start.blocks(i as int, block as nat, limit).w,
                h <= usize::MAX / 4 + 2,
                w <= usize::MAX / 4 + 2,
                count <= 3 + 92 * i + 4 * block,
            decreases num_blocks - block,
        {
            let ghost here = start.blocks(i as int, block as nat, limit);
            if count < num_layers {
                let projected: bool = block == 0 && (c_in != c_out || stride > 1);
                let step: usize = if block == 0 {
                    stride
                } else {
                    1
                };
                let to: (usize, usize) = (after_stride(h, step), after_stride(w, step));
                push_block(&mut layers, c_in, c_mid, c_out, (h, w), to, projected, Ghost(here));
                count = count + if projected {
                    4
                } else {
                    3
                };
                h = to.0;
                w = to.1;
                c_in = c_out;
            }
            assert(start.blocks(i as int, (block + 1) as nat, limit) == here.block(
                i as int,
                block as int,
                limit,
            ));
            block = block + 1;
        }
        if i == 0 {
            skip = c_in;
        }
        assert(grown((i + 1) as nat, limit, ih, iw) == start.stage(i as int, limit));
        i = i + 1;
    }
    let ghost g = grown(4, limit, ih, iw);
    let ghost before = layers@;
    layers.push(linear(c_in, 256));
    layers.push(conv(c_in, 256, 1, h, w));
    layers.push(conv(c_in, 256, 3, h, w));
    layers.push(conv(c_in, 256, 3, h, w));
    layers.push(conv(c_in, 256, 3, h, w));
    layers.push(conv(2048, 256, 1, h, w));
    layers.push(conv(skip, 48, 1, input_h / 4, input_w / 4));
    layers.push(depthwise(512, 3, h * 2, w * 2));
    layers.push(conv(512, 256, 1, h * 2, w * 2));
    layers.push(depthwise(256, 3, h * 2, w * 2));
    layers.push(conv(256, 256, 1, h * 2, w * 2));
    layers.push(conv(256, num_classes, 1, h * 2, w * 2));
    assert(layers@ =~= before + head_layers(g, ih, iw, num_classes));
    layers
}

/// The channels and the kernel of a layer.
pub open spec fn conv_of(l: LayerPlan) -> ConvD {
    (l.c_in, l.c_out, l.kh, l.kw, l.kind == LayerKind::Depthwise)
}

/// The channels and the kernels of layers.
pub open spec fn convs_of(ls: Seq<LayerPlan>) -> Seq<ConvD> {
    ls.map_values(|l: LayerPlan| conv_of(l))
}

/// The weights belong to the backbone.
pub open spec fn grows(g: Growth, b: Backbone) -> bool {
    &&& convs_of(g.layers) == b.convs
    &&& g.channels == b.channels
    &&& g.count == b.count
    &&& g.skip == b.skip
}

/// The weights stop where the network stops: they are those of its convolutions, in order, and of
/// the classifier.
pub proof fn lemma_plan_convs(num_layers: int, h: int, w: int, num_classes: usize)
    ensures
        convs_of(deeplab_layers(num_layers, h, w, num_classes)) == all_convs(num_layers).push(
            (256usize, num_classes, 1usize, 1usize, false),
        ),
{
    lemma_grows(4, num_layers, h, w);
    let g = grown(4, num_layers, h, w);
    let b = backbone(4, num_layers);
    assert(convs_of(deeplab_layers(num_layers, h, w, num_classes)) =~= convs_of(g.layers) + convs_of(
        head_layers(g, h, w, num_classes),
    ));
    assert(convs_of(head_layers(g, h, w, num_classes)) =~= head_convs(b.channels, b.skip).push(
        (256usize, num_classes, 1usize, 1usize, false),
    ));
    assert(b.convs + head_convs(b.channels, b.skip).push((256usize, num_classes, 1usize, 1usize, false))
        =~= all_convs(num_layers).push((256usize, num_classes, 1usize, 1usize, false)));
}

proof fn lemma_grows(i: nat, limit: int, h: int, w: int)
    requires
        i <= 4,
    ensures
        grows(grown(i, limit, h, w), backbone(i, limit)),
    decreases i,
{
    if i == 0 {
        assert(convs_of(stem_layers(h, w).layers) =~= stem().convs);
    } else {
        lemma_grows((i - 1) as nat, limit, h, w);
        lemma_blocks_grow(
            grown((i - 1) as nat, limit, h, w),
            backbone((i - 1) as nat, limit),
            i - 1,
            RESNET101_STAGES[i - 1].0 as nat,
            limit,
        );
    }
}

proof fn lemma_blocks_grow(g: Growth, b: Backbone, i: int, k: nat, limit: int)
    requires
        grows(g, b),
    ensures
        grows(g.blocks(i, k, limit), b.blocks(i, k, limit)),
    decreases k,
{
    if k > 0 {
        lemma_blocks_grow(g, b, i, (k - 1) as nat, limit);
        let g0 = g.blocks(i, (k - 1) as nat, limit);
        let b0 = b.blocks(i, (k - 1) as nat, limit);
        let (num_blocks, c_mid, c_out, stride, dilation) = RESNET101_STAGES[i];
        let projected = k - 1 == 0 && (g0.channels != c_out || stride > 1);
        let step = if k - 1 == 0 {
            stride
        } else {
            1
        };
        let added = block_layers(g0, c_mid, c_out, strided(g0.h, step), strided(g0.w, step), projected);
        assert(convs_of(added) =~= block_convs(b0.channels, c_mid, c_out, projected));
        assert(convs_of(g0.layers + added) =~= convs_of(g0.layers) + convs_of(added));
    }
}

/// The network on an image of three channels.
pub open spec fn deeplab_graph(
    ps: Seq<(Tensor, Tensor)>,
    num_layers: nat,
    h: usize,
    w: usize,
) -> (Graph, EdgeId) {
    let (g, x) = empty_graph(0).input(seq![3, h, w], DataType::Uint);
    g.deeplab(ps, num_layers, x)
}

/// Builds the graph of the network with the given weights and its input.
pub fn build_deeplabv3plus(
    num_layers: usize,
    input_h: usize,
    input_w: usize,
    num_classes: usize,
    all_weights: Vec<(Witness, Witness)>,
) -> (r: DagBuilder)
    requires
        deeplab_graph(pair_list(all_weights@), num_layers as nat, input_h, input_w).0.ok,
    ensures
        r.wf(),
        r@ == deeplab_graph(pair_list(all_weights@), num_layers as nat, input_h, input_w).0,
{
    let mut g: DagBuilder = DagBuilder::new();
    let shape: Vec<usize> = vec![3, input_h, input_w];
    assert(shape@ =~= seq![3, input_h, input_w]);
    let x: EdgeId = g.input(shape, DataType::Uint);
    let inlet: Vec<EdgeId> = vec![x];
    let _output = g.pipe(
        inlet.as_slice(),
        deeplabv3plus(all_weights, num_classes, num_layers, input_h, input_w),
    );
    g
}

} // verus!
