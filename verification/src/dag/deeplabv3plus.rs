//! DeepLabV3+ on a dilated ResNet-101.
use vstd::prelude::*;

use crate::dag::builder::DagBuilder;
use crate::dag::builder_ops::{list1, list2, list3, list5};
use crate::dag::graph::{one_edge, Graph};
use crate::dag::graph_ops::{group_ops_ok, ok_multi_concat, paddable};
use crate::dag::pairs::{lemma_pairs_len, ok_load_pairs, pair_list};
use crate::dag::types::EdgeId;
use crate::dag::witness::{Tensor, Witness};

verus! {

/// The stages of the backbone: blocks, channels inside a block, channels out, stride of the first
/// block, dilation.
pub const RESNET101_STAGES: [(usize, usize, usize, usize, usize); 4] = [
    (3, 64, 256, 1, 1),
    (4, 128, 512, 2, 1),
    (23, 256, 1024, 1, 2),
    (3, 512, 2048, 1, 4),
];

/// A convolution: channels in, channels out, the kernel, and whether it works channel by channel.
pub type ConvD = (usize, usize, usize, usize, bool);

/// How far the backbone has come: its convolutions, channels, how many convolutions count against
/// the limit, and the channels that the decoder is given.
#[verifier::ext_equal]
pub struct Backbone {
    pub convs: Seq<ConvD>,
    pub channels: usize,
    pub count: int,
    pub skip: usize,
}

/// The convolutions of a block, with that of the projection at the end.
pub open spec fn block_convs(c_in: usize, c_mid: usize, c_out: usize, projected: bool) -> Seq<ConvD> {
    let main = seq![
        (c_in, c_mid, 1usize, 1usize, false),
        (c_mid, c_mid, 3, 3, false),
        (c_mid, c_out, 1, 1, false),
    ];
    if projected {
        main.push((c_in, c_out, 1, 1, false))
    } else {
        main
    }
}

impl Backbone {
    /// Block `block` of stage `i`, if the limit allows another one.
    pub open spec fn block(self, i: int, block: int, limit: int) -> Backbone {
        let (num_blocks, c_mid, c_out, stride, dilation) = RESNET101_STAGES[i];
        let projected = block == 0 && (self.channels != c_out || stride > 1);
        if self.count >= limit {
            self
        } else {
            Backbone {
                convs: self.convs + block_convs(self.channels, c_mid, c_out, projected),
                channels: c_out,
                count: self.count + if projected {
                    4int
                } else {
                    3
                },
                skip: self.skip,
            }
        }
    }

    /// The first `k` blocks of stage `i`.
    pub open spec fn blocks(self, i: int, k: nat, limit: int) -> Backbone
        decreases k,
    {
        if k == 0 {
            self
        } else {
            self.blocks(i, (k - 1) as nat, limit).block(i, k - 1, limit)
        }
    }

    /// Stage `i`; the decoder is given the channels after the first one.
    pub open spec fn stage(self, i: int, limit: int) -> Backbone {
        let b = self.blocks(i, RESNET101_STAGES[i].0 as nat, limit);
        if i == 0 {
            Backbone { skip: b.channels, ..b }
        } else {
            b
        }
    }
}

/// The backbone after its stem.
pub open spec fn stem() -> Backbone {
    Backbone {
        convs: seq![
            (3usize, 64usize, 3usize, 3usize, false),
            (64, 64, 3, 3, false),
            (64, 64, 3, 3, false),
        ],
        channels: 64,
        count: 3,
        skip: 64,
    }
}

/// The backbone after the first `i` stages.
pub open spec fn backbone(i: nat, limit: int) -> Backbone
    decreases i,
{
    if i == 0 {
        stem()
    } else {
        backbone((i - 1) as nat, limit).stage(i - 1, limit)
    }
}

/// The convolutions after the backbone: the pyramid, then the decoder.
pub open spec fn head_convs(channels: usize, skip: usize) -> Seq<ConvD> {
    seq![
        (channels, 256usize, 1usize, 1usize, false),
        (channels, 256, 1, 1, false),
        (channels, 256, 3, 3, false),
        (channels, 256, 3, 3, false),
        (channels, 256, 3, 3, false),
        (2048, 256, 1, 1, false),
        (skip, 48, 1, 1, false),
        (512, 1, 3, 3, true),
        (512, 256, 1, 1, false),
        (256, 1, 3, 3, true),
        (256, 256, 1, 1, false),
    ]
}

/// All convolutions but the classifier, with at most `limit` counted before the last block of the
/// backbone.
pub open spec fn all_convs(limit: int) -> Seq<ConvD> {
    let b = backbone(4, limit);
    b.convs + head_convs(b.channels, b.skip)
}

/// At the limit no block follows.
proof fn lemma_full_blocks(b: Backbone, i: int, k: nat, limit: int)
    requires
        b.count >= limit,
    ensures
        b.blocks(i, k, limit) == b,
    decreases k,
{
    if k > 0 {
        lemma_full_blocks(b, i, (k - 1) as nat, limit);
    }
}

/// Convolutions before stage `i` where no limit is reached.
pub open spec fn convs_before_stage(i: int) -> int {
    if i <= 0 {
        3
    } else if i == 1 {
        13
    } else if i == 2 {
        26
    } else if i == 3 {
        96
    } else {
        106
    }
}

/// Channels before stage `i` where no limit is reached.
pub open spec fn channels_before_stage(i: int) -> usize {
    if i <= 0 {
        64
    } else {
        RESNET101_STAGES[i - 1].2
    }
}

/// What holds of the backbone after `k` blocks of stage `i`: it has as many convolutions as count,
/// and either the limit is reached, by less than a block, or no block was left out.
pub open spec fn measured(b: Backbone, i: int, k: nat, limit: int) -> bool {
    &&& b.convs.len() == b.count
    &&& 3 <= b.count <= 106
    &&& b.count <= limit + 3 || b.count == 3
    &&& b.count >= limit || (b.count == convs_before_stage(i) + if k == 0 {
        0nat
    } else {
        3 * k + 1
    } && b.channels == if k == 0 {
        channels_before_stage(i)
    } else {
        RESNET101_STAGES[i].2
    })
}

proof fn lemma_blocks_measured(b: Backbone, i: int, k: nat, limit: int)
    requires
        0 <= i < 4,
        k <= RESNET101_STAGES[i].0,
        measured(b, i, 0, limit),
    ensures
        measured(b.blocks(i, k, limit), i, k, limit),
    decreases k,
{
    if k > 0 {
        lemma_blocks_measured(b, i, (k - 1) as nat, limit);
        let p = b.blocks(i, (k - 1) as nat, limit);
        let (num_blocks, c_mid, c_out, stride, dilation) = RESNET101_STAGES[i];
        let projected = k - 1 == 0 && (p.channels != c_out || stride > 1);
        if p.count < limit {
            assert(block_convs(p.channels, c_mid, c_out, projected).len() == if projected {
                4int
            } else {
                3
            });
        }
    }
}

proof fn lemma_measured(i: nat, limit: int)
    requires
        i <= 4,
    ensures
        measured(backbone(i, limit), i as int, 0, limit),
    decreases i,
{
    if i > 0 {
        lemma_measured((i - 1) as nat, limit);
        lemma_blocks_measured(
            backbone((i - 1) as nat, limit),
            i - 1,
            RESNET101_STAGES[i - 1].0 as nat,
            limit,
        );
    }
}

/// Number of convolutions of the backbone: those of the stem where the limit allows no more, else at
/// least the limit and less than one block above it, and `106` where the limit leaves nothing out.
proof fn lemma_backbone_size(limit: int)
    ensures
        limit <= 3 ==> backbone(4, limit).convs.len() == 3,
        3 < limit <= 106 ==> limit <= backbone(4, limit).convs.len() <= limit + 3,
        limit >= 106 ==> backbone(4, limit).convs.len() == 106,
{
    lemma_measured(4, limit);
    if limit <= 3 {
        lemma_stem_only(4, limit);
    }
}

proof fn lemma_stem_only(i: nat, limit: int)
    requires
        limit <= 3,
    ensures
        backbone(i, limit).count == 3,
        backbone(i, limit).convs == stem().convs,
    decreases i,
{
    if i > 0 {
        lemma_stem_only((i - 1) as nat, limit);
        lemma_full_blocks(backbone((i - 1) as nat, limit), i - 1, RESNET101_STAGES[i - 1].0 as nat, limit);
    }
}

/// The first backbone begins the second, and has stopped where they differ.
pub open spec fn begins_with(a: Backbone, b: Backbone, limit: int) -> bool {
    a.convs.is_prefix_of(b.convs) && (a == b || a.count >= limit)
}

proof fn lemma_blocks_begin(a: Backbone, b: Backbone, i: int, k: nat, n: int, m: int)
    requires
        n <= m,
        begins_with(a, b, n),
    ensures
        begins_with(a.blocks(i, k, n), b.blocks(i, k, m), n),
    decreases k,
{
    if k > 0 {
        lemma_blocks_begin(a, b, i, (k - 1) as nat, n, m);
    }
}

proof fn lemma_begins(i: nat, n: int, m: int)
    requires
        n <= m,
    ensures
        begins_with(backbone(i, n), backbone(i, m), n),
    decreases i,
{
    if i > 0 {
        lemma_begins((i - 1) as nat, n, m);
        lemma_blocks_begin(
            backbone((i - 1) as nat, n),
            backbone((i - 1) as nat, m),
            i - 1,
            RESNET101_STAGES[i - 1].0 as nat,
            n,
            m,
        );
    }
}

/// Number of convolutions of the backbone, which come first among all.
pub open spec fn backbone_len(limit: int) -> int {
    all_convs(limit).len() - 11
}

/// How the convolutions under two limits `n <= m` compare. The backbone has three convolutions up to
/// a limit of three, from `n` to `n + 3` of them up to a limit of `106`, and `106` beyond. Only whole
/// blocks are added: the backbone under the smaller limit is a prefix of that under the larger.
pub proof fn lemma_conv_configs(n: int, m: int)
    requires
        n <= m,
    ensures
        n <= 3 ==> backbone_len(n) == 3,
        3 < n <= 106 ==> n <= backbone_len(n) <= n + 3,
        n >= 106 ==> backbone_len(n) == 106,
        backbone_len(n) <= backbone_len(m),
        all_convs(n).take(backbone_len(n)).is_prefix_of(all_convs(m).take(backbone_len(m))),
        all_convs(n).take(backbone_len(n)) == backbone(4, n).convs,
{
    lemma_backbone_size(n);
    lemma_begins(4, n, m);
    assert(all_convs(n).take(backbone_len(n)) =~= backbone(4, n).convs);
    assert(all_convs(m).take(backbone_len(m)) =~= backbone(4, m).convs);
}

/// At the limit no stage follows.
proof fn lemma_full(i: nat, n: nat, limit: int)
    requires
        1 <= i <= n <= 4,
        backbone(i, limit).count >= limit,
    ensures
        backbone(n, limit) == backbone(i, limit),
    decreases n,
{
    if i < n {
        lemma_full(i, (n - 1) as nat, limit);
        lemma_full_blocks(
            backbone((n - 1) as nat, limit),
            n - 1,
            RESNET101_STAGES[n - 1].0 as nat,
            limit,
        );
    }
}

/// The last block of a stage repeats when the limit is reached.
proof fn lemma_stop(b: Backbone, i: int, k: nat, n: nat, limit: int)
    requires
        k <= n,
        b.blocks(i, k, limit).count >= limit,
    ensures
        b.blocks(i, n, limit) == b.blocks(i, k, limit),
    decreases n,
{
    if k < n {
        lemma_stop(b, i, k, (n - 1) as nat, limit);
    }
}

/// Adds the blocks of a stage, as far as the limit allows.
fn push_stage(
    configs: &mut Vec<ConvD>,
    c_in: usize,
    count: usize,
    i: usize,
    limit: usize,
    Ghost(start): Ghost<Backbone>,
) -> (r: (usize, usize))
    requires
        i < 4,
        old(configs)@ == start.convs,
        c_in == start.channels,
        count == start.count,
        count <= 1000,
    ensures
        ({
            let b = start.blocks(i as int, RESNET101_STAGES[i as int].0 as nat, limit as int);
            &&& final(configs)@ == b.convs
            &&& r == (b.channels, b.count as usize)
            &&& b.count == r.1
            &&& r.1 <= count + 92
        }),
{
    let (num_blocks, c_mid, c_out, stride, _dilation) = RESNET101_STAGES[i];
    let ghost ii = i as int;
    let ghost lim = limit as int;
    let mut c: usize = c_in;
    let mut n: usize = count;
    let mut block: usize = 0;
    assert(num_blocks <= 23);
    while block < num_blocks && n < limit
        invariant
            i < 4,
            ii == i,
            lim == limit,
            block <= num_blocks <= 23,
            (num_blocks, c_mid, c_out, stride, _dilation) == RESNET101_STAGES[ii],
            configs@ == start.blocks(ii, block as nat, lim).convs,
            c == start.blocks(ii, block as nat, lim).channels,
            n == start.blocks(ii, block as nat, lim).count,
            n <= count + 4 * block,
            count <= 1000,
        decreases num_blocks - block,
    {
        let projected: bool = block == 0 && (c != c_out || stride > 1);
        let ghost before = configs@;
        configs.push((c, c_mid, 1, 1, false));
        configs.push((c_mid, c_mid, 3, 3, false));
        configs.push((c_mid, c_out, 1, 1, false));
        n = n + 3;
        if projected {
            configs.push((c, c_out, 1, 1, false));
            n = n + 1;
        }
        assert(configs@ =~= before + block_convs(c, c_mid, c_out, projected));
        c = c_out;
        block = block + 1;
    }
    proof {
        if block < num_blocks {
            lemma_stop(start, ii, block as nat, num_blocks as nat, lim);
        }
    }
    (c, n)
}

/// All convolutions but the classifier, with their channels and kernels, in order. `num_layers`
/// limits the blocks of the backbone.
pub fn deeplabv3plus_conv_configs(num_layers: usize) -> (r: Vec<
    (usize, usize, usize, usize, bool),
>)
    ensures
        r@ == all_convs(num_layers as int),
        r.len() == backbone(4, num_layers as int).convs.len() + 11,
        num_layers <= 3 ==> r.len() == 14,
        3 < num_layers <= 106 ==> num_layers + 11 <= r.len() <= num_layers + 14,
        num_layers >= 106 ==> r.len() == 117,
{
    let ghost limit = num_layers as int;
    proof {
        lemma_backbone_size(limit);
    }
    let mut configs: Vec<ConvD> = Vec::new();
    configs.push((3, 64, 3, 3, false));
    configs.push((64, 64, 3, 3, false));
    configs.push((64, 64, 3, 3, false));
    assert(configs@ =~= stem().convs);
    let mut c_in: usize = 64;
    let mut skip: usize = 64;
    let mut count: usize = 3;
    let mut i: usize = 0;
    while i < 4 && (i == 0 || count < num_layers)
        invariant
            i <= 4,
            limit == num_layers,
            configs@ == backbone(i as nat, limit).convs,
            c_in == backbone(i as nat, limit).channels,
            count == backbone(i as nat, limit).count,
            skip == backbone(i as nat, limit).skip,
            count <= 3 + 92 * i,
        decreases 4 - i,
    {
        let ghost start = backbone(i as nat, limit);
        let (c, n) = push_stage(&mut configs, c_in, count, i, num_layers, Ghost(start));
        c_in = c;
        count = n;
        if i == 0 {
            skip = c_in;
        }
        proof {
            let b = start.blocks(i as int, RESNET101_STAGES[i as int].0 as nat, limit);
            lemma_blocks_skip(start, i as int, RESNET101_STAGES[i as int].0 as nat, limit);
            assert(backbone((i + 1) as nat, limit) == start.stage(i as int, limit));
        }
        i = i + 1;
    }
    proof {
        if i < 4 {
            lemma_full(i as nat, 4, limit);
        }
    }
    configs.push((c_in, 256, 1, 1, false));
    configs.push((c_in, 256, 1, 1, false));
    configs.push((c_in, 256, 3, 3, false));
    configs.push((c_in, 256, 3, 3, false));
    configs.push((c_in, 256, 3, 3, false));
    configs.push((2048, 256, 1, 1, false));
    configs.push((skip, 48, 1, 1, false));
    configs.push((512, 1, 3, 3, true));
    configs.push((512, 256, 1, 1, false));
    configs.push((256, 1, 3, 3, true));
    configs.push((256, 256, 1, 1, false));
    assert(configs@ =~= all_convs(limit));
    configs
}

/// Blocks do not change what the decoder is given.
proof fn lemma_blocks_skip(b: Backbone, i: int, k: nat, limit: int)
    ensures
        b.blocks(i, k, limit).skip == b.skip,
    decreases k,
{
    if k > 0 {
        lemma_blocks_skip(b, i, (k - 1) as nat, limit);
    }
}

/// Number of convolutions with the classifier.
pub fn deeplabv3plus_num_convs(num_layers: usize, _num_classes: usize) -> (r: usize)
    ensures
        r == all_convs(num_layers as int).len() + 1,
{
    let configs: Vec<ConvD> = deeplabv3plus_conv_configs(num_layers);
    proof {
        lemma_backbone_len(4, num_layers as int);
    }
    configs.len() + 1
}

/// A backbone has few convolutions.
proof fn lemma_backbone_len(i: nat, limit: int)
    requires
        i <= 4,
    ensures
        backbone(i, limit).convs.len() <= 3 + 92 * i,
    decreases i,
{
    if i > 0 {
        lemma_backbone_len((i - 1) as nat, limit);
        lemma_blocks_len(
            backbone((i - 1) as nat, limit),
            i - 1,
            RESNET101_STAGES[i - 1].0 as nat,
            limit,
        );
    }
}

proof fn lemma_blocks_len(b: Backbone, i: int, k: nat, limit: int)
    ensures
        b.blocks(i, k, limit).convs.len() <= b.convs.len() + 4 * k,
    decreases k,
{
    if k > 0 {
        lemma_blocks_len(b, i, (k - 1) as nat, limit);
    }
}

/// Channels after the backbone.
pub fn deeplabv3plus_backbone_output_channels(num_layers: usize) -> (r: usize)
    ensures
        r == backbone(4, num_layers as int).channels,
{
    let ghost limit = num_layers as int;
    let mut c_in: usize = 64;
    let mut count: usize = 3;
    let mut i: usize = 0;
    while i < 4 && (i == 0 || count < num_layers)
        invariant
            i <= 4,
            limit == num_layers,
            c_in == backbone(i as nat, limit).channels,
            count == backbone(i as nat, limit).count,
            count <= 3 + 92 * i,
        decreases 4 - i,
    {
        let ghost start = backbone(i as nat, limit);
        let (num_blocks, _c_mid, c_out, stride, _dilation) = RESNET101_STAGES[i];
        let mut block: usize = 0;
        assert(num_blocks <= 23);
        while block < num_blocks && count < num_layers
            invariant
                i < 4,
                limit == num_layers,
                block <= num_blocks <= 23,
                (num_blocks, _c_mid, c_out, stride, _dilation) == RESNET101_STAGES[i as int],
                c_in == start.blocks(i as int, block as nat, limit).channels,
                count == start.blocks(i as int, block as nat, limit).count,
                count <= 3 + 92 * i + 4 * block,
            decreases num_blocks - block,
        {
            let projected: bool = block == 0 && (c_in != c_out || stride > 1);
            if projected {
                count = count + 4;
            } else {
                count = count + 3;
            }
            c_in = c_out;
            block = block + 1;
        }
        proof {
            if block < num_blocks {
                lemma_stop(start, i as int, block as nat, num_blocks as nat, limit);
            }
            assert(backbone((i + 1) as nat, limit) == start.stage(i as int, limit));
        }
        i = i + 1;
    }
    proof {
        if i < 4 {
            lemma_full(i as nat, 4, limit);
        }
    }
    c_in
}

/// How a convolution looks at its input.
#[derive(Clone, Copy, Debug)]
pub struct Window {
    pub kernel: (usize, usize),
    pub stride: (usize, usize),
    pub pad: (usize, usize),
    pub dilation: (usize, usize),
}

/// Single positions, some of them left out.
pub open spec fn points_at(stride: usize) -> Window {
    Window { kernel: (1, 1), stride: (stride, stride), pad: (0, 0), dilation: (1, 1) }
}

/// Three by three positions, spread by the dilation and padded as much.
pub open spec fn spread_window(stride: usize, dilation: usize) -> Window {
    Window {
        kernel: (3, 3),
        stride: (stride, stride),
        pad: (dilation, dilation),
        dilation: (dilation, dilation),
    }
}

fn new_points(stride: usize) -> (r: Window)
    ensures
        r == points_at(stride),
{
    Window { kernel: (1, 1), stride: (stride, stride), pad: (0, 0), dilation: (1, 1) }
}

fn new_spread(stride: usize, dilation: usize) -> (r: Window)
    ensures
        r == spread_window(stride, dilation),
{
    Window {
        kernel: (3, 3),
        stride: (stride, stride),
        pad: (dilation, dilation),
        dilation: (dilation, dilation),
    }
}

impl Graph {
    /// Pads where there is something to pad.
    pub open spec fn padded(self, x: EdgeId, pad: (usize, usize)) -> (Graph, EdgeId) {
        if pad.0 > 0 || pad.1 > 0 {
            self.pad(x, pad.0, pad.1)
        } else {
            (self, x)
        }
    }

    /// A convolution with its bias. Without a dilation the stride alone counts.
    #[verifier::opaque]
    pub open spec fn lab_conv(self, wb: (EdgeId, EdgeId), w: Window, x: EdgeId) -> (Graph, EdgeId) {
        let (g, h) = self.padded(x, w.pad);
        let (g, h) = g.conv2d_full(
            h,
            wb.0,
            w.kernel,
            w.stride,
            if w.dilation.0 > 1 || w.dilation.1 > 1 {
                w.dilation
            } else {
                (1, 1)
            },
        );
        g.add(h, wb.1)
    }

    /// A convolution with bias and rectifier.
    #[verifier::opaque]
    pub open spec fn lab_conv_relu(self, wb: (EdgeId, EdgeId), w: Window, x: EdgeId) -> (Graph, EdgeId) {
        let (g, h) = self.lab_conv(wb, w, x);
        g.relu(h)
    }

    /// A bottleneck whose middle convolution is spread by the dilation.
    #[verifier::opaque]
    pub open spec fn lab_bottleneck(
        self,
        wb: Seq<(EdgeId, EdgeId)>,
        stride: usize,
        dilation: usize,
        projected: bool,
        x: EdgeId,
    ) -> (Graph, EdgeId) {
        let (g, h) = self.lab_conv_relu(wb[0], points_at(1), x);
        let (g, h) = g.lab_conv_relu(wb[1], spread_window(stride, dilation), h);
        let (g, h) = g.lab_conv(wb[2], points_at(1), h);
        let (g, shortcut) = if projected {
            g.lab_conv(wb[3], points_at(stride), x)
        } else {
            (g, x)
        };
        let (g, h) = g.add(h, shortcut);
        g.relu(h)
    }
}

pub broadcast proof fn ok_padded(g: Graph, x: EdgeId, pad: (usize, usize))
    ensures
        #[trigger] g.padded(x, pad).0.ok ==> g.ok,
{
    broadcast use group_ops_ok;

}

pub broadcast proof fn ok_lab_conv(g: Graph, wb: (EdgeId, EdgeId), w: Window, x: EdgeId)
    ensures
        #[trigger] g.lab_conv(wb, w, x).0.ok ==> g.ok,
{
    broadcast use group_ops_ok;
    broadcast use ok_padded;

    reveal(Graph::lab_conv);
}

pub broadcast proof fn ok_lab_conv_relu(g: Graph, wb: (EdgeId, EdgeId), w: Window, x: EdgeId)
    ensures
        #[trigger] g.lab_conv_relu(wb, w, x).0.ok ==> g.ok,
{
    broadcast use group_ops_ok;
    broadcast use ok_lab_conv;

    reveal(Graph::lab_conv_relu);
}

pub broadcast proof fn ok_lab_bottleneck(
    g: Graph,
    wb: Seq<(EdgeId, EdgeId)>,
    stride: usize,
    dilation: usize,
    projected: bool,
    x: EdgeId,
)
    ensures
        #[trigger] g.lab_bottleneck(wb, stride, dilation, projected, x).0.ok ==> g.ok,
{
    broadcast use group_ops_ok;
    broadcast use {ok_lab_conv, ok_lab_conv_relu};

    reveal(Graph::lab_bottleneck);
}

impl DagBuilder {
    /// A convolution with its bias.
    fn lab_conv(&mut self, wb: (EdgeId, EdgeId), w: Window, x: EdgeId) -> (e: EdgeId)
        requires
            old(self).wf(),
            old(self)@.lab_conv(wb, w, x).0.ok,
        ensures
            final(self).wf(),
            (final(self)@, e) == old(self)@.lab_conv(wb, w, x),
    {
        reveal(Graph::lab_conv);
        broadcast use group_ops_ok;
        broadcast use ok_padded;

        let h: EdgeId = if w.pad.0 > 0 || w.pad.1 > 0 {
            self.pad(x, w.pad.0, w.pad.1)
        } else {
            x
        };
        let h: EdgeId = if w.dilation.0 > 1 || w.dilation.1 > 1 {
            self.conv2d_dilated(h, wb.0, w.kernel, w.stride, w.dilation)[0]
        } else {
            self.conv2d_strided(h, wb.0, w.kernel, w.stride)[0]
        };
        self.add(h, wb.1)[0]
    }

    /// A convolution with bias and rectifier.
    fn lab_conv_relu(&mut self, wb: (EdgeId, EdgeId), w: Window, x: EdgeId) -> (e: EdgeId)
        requires
            old(self).wf(),
            old(self)@.lab_conv_relu(wb, w, x).0.ok,
        ensures
            final(self).wf(),
            (final(self)@, e) == old(self)@.lab_conv_relu(wb, w, x),
    {
        reveal(Graph::lab_conv_relu);
        broadcast use group_ops_ok;

        let h: EdgeId = self.lab_conv(wb, w, x);
        self.relu(h)
    }

    /// A bottleneck whose middle convolution is spread by the dilation.
    fn lab_bottleneck(
        &mut self,
        wb: &Vec<(EdgeId, EdgeId)>,
        stride: usize,
        dilation: usize,
        projected: bool,
        x: EdgeId,
    ) -> (e: EdgeId)
        requires
            old(self).wf(),
            wb.len() >= if projected {
                4int
            } else {
                3
            },
            old(self)@.lab_bottleneck(wb@, stride, dilation, projected, x).0.ok,
        ensures
            final(self).wf(),
            (final(self)@, e) == old(self)@.lab_bottleneck(wb@, stride, dilation, projected, x),
    {
        reveal(Graph::lab_bottleneck);
        broadcast use group_ops_ok;
        broadcast use {ok_lab_conv, ok_lab_conv_relu};

        let h: EdgeId = self.lab_conv_relu(wb[0], new_points(1), x);
        let h: EdgeId = self.lab_conv_relu(wb[1], new_spread(stride, dilation), h);
        let h: EdgeId = self.lab_conv(wb[2], new_points(1), h);
        let shortcut: EdgeId = if projected {
            self.lab_conv(wb[3], new_points(stride), x)
        } else {
            x
        };
        let h: EdgeId = self.add(h, shortcut)[0];
        self.relu(h)
    }
}

impl Graph {
    /// A convolution channel by channel and one of single positions, both with bias and rectifier.
    #[verifier::opaque]
    pub open spec fn separable_conv(
        self,
        dw: (EdgeId, EdgeId),
        pw: (EdgeId, EdgeId),
        x: EdgeId,
    ) -> (Graph, EdgeId) {
        let (g, h) = self.pad(x, 1, 1);
        let (g, h) = g.depthwise_conv2d(h, dw.0, (3, 3), (1, 1));
        let (g, h) = g.add(h, dw.1);
        let (g, h) = g.relu(h);
        let (g, h) = g.conv2d_full(h, pw.0, (1, 1), (1, 1), (1, 1));
        let (g, h) = g.add(h, pw.1);
        let (g, h) = g.relu(h);
        (g, h)
    }
}

pub broadcast proof fn ok_separable_conv(g: Graph, dw: (EdgeId, EdgeId), pw: (EdgeId, EdgeId), x: EdgeId)
    ensures
        #[trigger] g.separable_conv(dw, pw, x).0.ok ==> g.ok,
{
    broadcast use group_ops_ok;

    reveal(Graph::separable_conv);
}

impl DagBuilder {
    /// A convolution channel by channel and one of single positions, both with bias and rectifier.
    #[verifier::rlimit(30)]
    pub fn separable_conv(&mut self, dw: (EdgeId, EdgeId), pw: (EdgeId, EdgeId), x: EdgeId) -> (e: EdgeId)
        requires
            old(self).wf(),
            old(self)@.separable_conv(dw, pw, x).0.ok,
        ensures
            final(self).wf(),
            (final(self)@, e) == old(self)@.separable_conv(dw, pw, x),
    {
        reveal(Graph::separable_conv);
        broadcast use group_ops_ok;

        let h: EdgeId = self.pad(x, 1, 1);
        let h: EdgeId = self.depthwise_conv2d_strided(h, dw.0, (3, 3), (1, 1))[0];
        let h: EdgeId = self.add(h, dw.1)[0];
        let h: EdgeId = self.relu(h);
        let h: EdgeId = self.conv2d(h, pw.0, (1, 1))[0];
        let h: EdgeId = self.add(h, pw.1)[0];
        let h: EdgeId = self.relu(h);
        h
    }
}

impl Graph {
    /// A padded convolution with bias and rectifier.
    #[verifier::opaque]
    pub open spec fn lab_stem_conv(
        self,
        wb: (EdgeId, EdgeId),
        stride: (usize, usize),
        x: EdgeId,
    ) -> (Graph, EdgeId) {
        let (g, h) = self.pad(x, 1, 1);
        let (g, h) = g.conv2d_full(h, wb.0, (3, 3), stride, (1, 1));
        let (g, h) = g.add(h, wb.1);
        let (g, h) = g.relu(h);
        (g, h)
    }
}

pub broadcast proof fn ok_lab_stem_conv(g: Graph, wb: (EdgeId, EdgeId), stride: (usize, usize), x: EdgeId)
    ensures
        #[trigger] g.lab_stem_conv(wb, stride, x).0.ok ==> g.ok,
{
    broadcast use group_ops_ok;

    reveal(Graph::lab_stem_conv);
}

impl DagBuilder {
    /// A padded convolution with bias and rectifier.
    pub fn lab_stem_conv(&mut self, wb: (EdgeId, EdgeId), stride: (usize, usize), x: EdgeId) -> (e: EdgeId)
        requires
            old(self).wf(),
            old(self)@.lab_stem_conv(wb, stride, x).0.ok,
        ensures
            final(self).wf(),
            (final(self)@, e) == old(self)@.lab_stem_conv(wb, stride, x),
    {
        reveal(Graph::lab_stem_conv);
        broadcast use group_ops_ok;

        let h: EdgeId = self.pad(x, 1, 1);
        let h: EdgeId = self.conv2d_strided(h, wb.0, (3, 3), stride)[0];
        let h: EdgeId = self.add(h, wb.1)[0];
        let h: EdgeId = self.relu(h);
        h
    }
}

/// How far the backbone of a graph has come: the graph, the last edge, the weights used, the
/// convolutions counted, the channels, and whether the current stage has ended early.
#[verifier::ext_equal]
pub struct LabTrunk {
    pub g: Graph,
    pub h: EdgeId,
    pub used: nat,
    pub count: nat,
    pub channels: usize,
    pub stop: bool,
}

/// The trunk of a graph with its last edge, the weights used, the convolutions counted and the
/// channels.
pub open spec fn lab_trunk_at(g: Graph, at: (EdgeId, usize, usize, usize), stop: bool) -> LabTrunk {
    LabTrunk { g, h: at.0, used: at.1 as nat, count: at.2 as nat, channels: at.3, stop }
}

impl LabTrunk {
    /// Block `block` of a stage projects its input.
    pub open spec fn projects(self, stage: (usize, usize, usize, usize, usize), block: int) -> bool {
        block == 0 && (self.channels != stage.2 || stage.3 > 1)
    }

    /// Number of weights of block `block` of a stage.
    pub open spec fn needed(self, stage: (usize, usize, usize, usize, usize), block: int) -> nat {
        if self.projects(stage, block) {
            4
        } else {
            3
        }
    }

    /// Block `block` of a stage; the stage ends early at the limit and where weights are missing.
    pub open spec fn block(
        self,
        ps: Seq<(Tensor, Tensor)>,
        limit: nat,
        stage: (usize, usize, usize, usize, usize),
        block: int,
    ) -> LabTrunk {
        let needed = self.needed(stage, block);
        if self.stop {
            self
        } else if self.count >= limit || self.used + needed > ps.len() {
            LabTrunk { stop: true, ..self }
        } else {
            let stride = if block == 0 {
                stage.3
            } else {
                1
            };
            let dilation = if block == 0 && stage.3 > 1 {
                1
            } else {
                stage.4
            };
            let (g, wb) = self.g.load_pairs(ps, self.used, needed);
            let (g, h) = g.lab_bottleneck(
                wb,
                stride,
                dilation,
                self.projects(stage, block),
                self.h,
            );
            LabTrunk {
                g: g.boundary(h),
                h,
                used: self.used + needed,
                count: self.count + needed,
                channels: stage.2,
                stop: false,
            }
        }
    }

    /// The first `k` blocks of a stage.
    pub open spec fn blocks(
        self,
        ps: Seq<(Tensor, Tensor)>,
        limit: nat,
        stage: (usize, usize, usize, usize, usize),
        k: nat,
    ) -> LabTrunk
        decreases k,
    {
        if k == 0 {
            self
        } else {
            self.blocks(ps, limit, stage, (k - 1) as nat).block(ps, limit, stage, k - 1)
        }
    }

    /// No stage follows: the limit is reached, or all weights are used.
    pub open spec fn ended(self, ps: Seq<(Tensor, Tensor)>, limit: nat) -> bool {
        self.count >= limit || self.used >= ps.len()
    }

    /// The first `i` stages.
    pub open spec fn stages(self, ps: Seq<(Tensor, Tensor)>, limit: nat, i: nat) -> LabTrunk
        decreases i,
    {
        if i == 0 {
            self
        } else {
            let t = self.stages(ps, limit, (i - 1) as nat);
            if i > 1 && t.ended(ps, limit) {
                t
            } else {
                let stage = RESNET101_STAGES[i - 1];
                LabTrunk { stop: false, ..t }.blocks(ps, limit, stage, stage.0 as nat)
            }
        }
    }
}

proof fn lemma_lab_block_ok(
    t: LabTrunk,
    ps: Seq<(Tensor, Tensor)>,
    limit: nat,
    stage: (usize, usize, usize, usize, usize),
    block: int,
)
    requires
        t.block(ps, limit, stage, block).g.ok,
    ensures
        t.g.ok,
{
    broadcast use {ok_lab_bottleneck, ok_load_pairs};

}

proof fn lemma_lab_blocks_ok(
    t: LabTrunk,
    ps: Seq<(Tensor, Tensor)>,
    limit: nat,
    stage: (usize, usize, usize, usize, usize),
    j: nat,
    k: nat,
)
    requires
        j <= k,
        t.blocks(ps, limit, stage, k).g.ok,
    ensures
        t.blocks(ps, limit, stage, j).g.ok,
    decreases k,
{
    if j < k {
        let m = (k - 1) as nat;
        lemma_lab_block_ok(t.blocks(ps, limit, stage, m), ps, limit, stage, k - 1);
        lemma_lab_blocks_ok(t, ps, limit, stage, j, m);
    }
}

proof fn lemma_lab_stages_ok(t: LabTrunk, ps: Seq<(Tensor, Tensor)>, limit: nat, j: nat, k: nat)
    requires
        j <= k <= 4,
        t.stages(ps, limit, k).g.ok,
    ensures
        t.stages(ps, limit, j).g.ok,
    decreases k,
{
    if j < k {
        let m = (k - 1) as nat;
        let u = t.stages(ps, limit, m);
        if !(k > 1 && u.ended(ps, limit)) {
            let stage = RESNET101_STAGES[k - 1];
            lemma_lab_blocks_ok(
                LabTrunk { stop: false, ..u },
                ps,
                limit,
                stage,
                0,
                stage.0 as nat,
            );
        }
        lemma_lab_stages_ok(t, ps, limit, j, m);
    }
}

proof fn lemma_lab_stopped(
    t: LabTrunk,
    ps: Seq<(Tensor, Tensor)>,
    limit: nat,
    stage: (usize, usize, usize, usize, usize),
    j: nat,
    k: nat,
)
    requires
        j <= k,
        t.blocks(ps, limit, stage, j).stop,
    ensures
        t.blocks(ps, limit, stage, k) == t.blocks(ps, limit, stage, j),
    decreases k,
{
    if j < k {
        lemma_lab_stopped(t, ps, limit, stage, j, (k - 1) as nat);
    }
}

proof fn lemma_lab_full(t: LabTrunk, ps: Seq<(Tensor, Tensor)>, limit: nat, j: nat, k: nat)
    requires
        1 <= j <= k,
        t.stages(ps, limit, j).ended(ps, limit),
    ensures
        t.stages(ps, limit, k) == t.stages(ps, limit, j),
    decreases k,
{
    if j < k {
        lemma_lab_full(t, ps, limit, j, (k - 1) as nat);
    }
}

impl DagBuilder {
    /// The blocks of a stage. Returns the last edge, the weights used, the convolutions counted and
    /// the channels.
    #[verifier::rlimit(40)]
    fn lab_stage(
        &mut self,
        ps: &Vec<(Witness, Witness)>,
        limit: usize,
        stage: (usize, usize, usize, usize, usize),
        at: (EdgeId, usize, usize, usize),
    ) -> (r: (EdgeId, usize, usize, usize))
        requires
            old(self).wf(),
            at.1 <= ps.len(),
            at.2 <= at.1,
            lab_trunk_at(old(self)@, at, false).blocks(
                pair_list(ps@),
                limit as nat,
                stage,
                stage.0 as nat,
            ).g.ok,
        ensures
            final(self).wf(),
            r.1 <= ps.len(),
            r.2 <= r.1,
            ({
                let t = lab_trunk_at(old(self)@, at, false).blocks(
                    pair_list(ps@),
                    limit as nat,
                    stage,
                    stage.0 as nat,
                );
                (final(self)@, r.0, r.1 as nat, r.2 as nat, r.3) == (
                    t.g,
                    t.h,
                    t.used,
                    t.count,
                    t.channels,
                )
            }),
    {
        let ghost pt = pair_list(ps@);
        let ghost t0 = lab_trunk_at(self@, at, false);
        let (num_blocks, _c_mid, c_out, stride_first, dilation) = stage;
        let (mut h, mut used, mut count, mut c_in) = at;
        let mut stop: bool = false;
        let mut block: usize = 0;
        while block < num_blocks && !stop
            invariant
                block <= num_blocks,
                stage == (num_blocks, _c_mid, c_out, stride_first, dilation),
                pt == pair_list(ps@),
                used <= ps.len(),
                count <= used,
                self.wf(),
                t0.blocks(pt, limit as nat, stage, num_blocks as nat).g.ok,
                lab_trunk_at(self@, (h, used, count, c_in), stop) == t0.blocks(
                    pt,
                    limit as nat,
                    stage,
                    block as nat,
                ),
            decreases num_blocks - block,
        {
            let first: bool = block == 0;
            let stride: usize = if first {
                stride_first
            } else {
                1
            };
            let spread: usize = if first && stride_first > 1 {
                1
            } else {
                dilation
            };
            let projected: bool = first && (c_in != c_out || stride_first > 1);
            let needed: usize = if projected {
                4
            } else {
                3
            };
            let ghost t = t0.blocks(pt, limit as nat, stage, block as nat);
            proof {
                lemma_lab_blocks_ok(
                    t0,
                    pt,
                    limit as nat,
                    stage,
                    (block + 1) as nat,
                    num_blocks as nat,
                );
                assert(t0.blocks(pt, limit as nat, stage, (block + 1) as nat) == t.block(
                    pt,
                    limit as nat,
                    stage,
                    block as int,
                ));
                assert(pt.len() == ps.len());
            }
            if count >= limit || needed > ps.len() - used {
                stop = true;
            } else {
                proof {
                    let (g2, wb) = self@.load_pairs(pt, used as nat, needed as nat);
                    ok_lab_bottleneck(g2, wb, stride, spread, projected, h);
                }
                let wb: Vec<(EdgeId, EdgeId)> = self.load_pairs(ps, used, needed);
                h = self.lab_bottleneck(&wb, stride, spread, projected, h);
                self.mark_boundary(h);
                used = used + needed;
                count = count + needed;
                c_in = c_out;
            }
            block = block + 1;
        }
        proof {
            if block < num_blocks {
                lemma_lab_stopped(t0, pt, limit as nat, stage, block as nat, num_blocks as nat);
            }
        }
        (h, used, count, c_in)
    }
}

impl Graph {
    /// Doubles a tensor of `cur` by `cur` positions until it covers `h` by `w`.
    pub open spec fn up_until(self, b: EdgeId, cur: int, h: int, w: int) -> (Graph, EdgeId, int)
        decreases 2 * h + 2 * w - cur,
        when 0 < cur && 0 <= h && 0 <= w
    {
        if cur < h || cur < w {
            let (g, b) = self.upsample_nearest_2x(b);
            g.up_until(b, 2 * cur, h, w)
        } else {
            (self, b, cur)
        }
    }

    /// The mean of all positions, through a dense layer, at every position.
    #[verifier::opaque]
    pub open spec fn lab_pooled(self, wb: (EdgeId, EdgeId), x: EdgeId) -> (Graph, EdgeId) {
        let (h, w) = (self.shape(x)[1], self.shape(x)[2]);
        let g = self.require(
            self.has(x) && self.rank(x) >= 3 && paddable(h as int) && paddable(w as int),
        );
        let (g, b) = g.reduce_mean(x, seq![1, 2]);
        let (g, b) = g.einsum("i,ij->j"@, seq![b, wb.0], false);
        let (g, b) = g.add(b, wb.1);
        let (g, b) = g.relu(b);
        let (g, b) = g.change_shape(b, seq![256, 1, 1]);
        let (g, b, cur) = g.up_until(b, 1, h as int, w as int);
        if cur > h || cur > w {
            g.change_shape(b, seq![256, h, w])
        } else {
            (g, b)
        }
    }

    /// The pyramid: five views of the input side by side, and a convolution over them.
    #[verifier::opaque]
    pub open spec fn lab_pyramid(self, wb: Seq<(EdgeId, EdgeId)>, x: EdgeId) -> (Graph, EdgeId) {
        let (g, b0) = self.lab_pooled(wb[0], x);
        let (g, b1) = g.lab_conv_relu(wb[1], points_at(1), x);
        let (g, b2) = g.lab_conv_relu(wb[2], spread_window(1, 12), x);
        let (g, b3) = g.lab_conv_relu(wb[3], spread_window(1, 24), x);
        let (g, b4) = g.lab_conv_relu(wb[4], spread_window(1, 36), x);
        let (g, all) = g.multi_concat(seq![b0, b1, b2, b3, b4]);
        g.lab_conv_relu(wb[5], points_at(1), all)
    }

    /// The decoder: the pyramid at twice its size beside the first stage, through two separable
    /// convolutions.
    #[verifier::opaque]
    pub open spec fn lab_decoder(
        self,
        wb: Seq<(EdgeId, EdgeId)>,
        skip: EdgeId,
        x: EdgeId,
    ) -> (Graph, EdgeId) {
        let (g, up) = self.upsample_nearest_2x(x);
        let (g, side) = g.lab_conv_relu(wb[0], points_at(1), skip);
        let (g, h) = g.general_concat(up, side);
        let (g, h) = g.separable_conv(wb[1], wb[2], h);
        g.separable_conv(wb[3], wb[4], h)
    }

    /// The stem: three convolutions and a pooling.
    #[verifier::opaque]
    pub open spec fn lab_stem(self, ps: Seq<(Tensor, Tensor)>, x: EdgeId) -> (Graph, EdgeId) {
        let (g, wb) = self.require(ps.len() >= 3).load_pairs(ps, 0, 3);
        let (g, h) = g.lab_stem_conv(wb[0], (2, 2), x);
        let (g, h) = g.lab_stem_conv(wb[1], (1, 1), h);
        let (g, h) = g.lab_stem_conv(wb[2], (1, 1), h);
        let (g, h) = g.pad(h, 1, 1);
        let (g, h) = g.maxpool_general(h, (3, 3), (2, 2));
        (g.boundary(h), h)
    }

    /// What follows the backbone, as far as there are weights: the pyramid, the decoder, the
    /// classifier. `skip` is the edge behind the first stage.
    #[verifier::opaque]
    pub open spec fn lab_head(self, ps: Seq<(Tensor, Tensor)>, used: nat, skip: EdgeId, x: EdgeId) -> (
        Graph,
        EdgeId,
    ) {
        if used + 6 > ps.len() {
            (self, x)
        } else {
            let (g, wb) = self.load_pairs(ps, used, 6);
            let (g, h) = g.lab_pyramid(wb, x);
            if used + 11 > ps.len() {
                (g, h)
            } else {
                let (g, wb) = g.load_pairs(ps, used + 6, 5);
                let (g, h) = g.lab_decoder(wb, skip, h);
                if used + 11 >= ps.len() {
                    (g, h)
                } else {
                    let (g, wb) = g.load_pairs(ps, used + 11, 1);
                    let (g, h) = g.conv2d_full(h, wb[0].0, (1, 1), (1, 1), (1, 1));
                    g.add(h, wb[0].1)
                }
            }
        }
    }

    /// The network, with at most `limit` convolutions counted before the last block of the
    /// backbone.
    #[verifier::opaque]
    pub open spec fn deeplab(self, ps: Seq<(Tensor, Tensor)>, limit: nat, x: EdgeId) -> (Graph, EdgeId) {
        let (g, h) = self.lab_stem(ps, x);
        let t = LabTrunk { g, h, used: 3, count: 3, channels: 64, stop: false };
        let end = t.stages(ps, limit, 4);
        end.g.lab_head(ps, end.used, t.stages(ps, limit, 1).h, end.h)
    }
}

proof fn lemma_up_ok(g: Graph, b: EdgeId, cur: int, h: int, w: int)
    requires
        0 < cur,
        0 <= h,
        0 <= w,
        g.up_until(b, cur, h, w).0.ok,
    ensures
        g.ok,
    decreases 2 * h + 2 * w - cur,
{
    broadcast use group_ops_ok;

    if cur < h || cur < w {
        let (g2, b2) = g.upsample_nearest_2x(b);
        lemma_up_ok(g2, b2, 2 * cur, h, w);
    }
}

pub broadcast proof fn ok_lab_pooled(g: Graph, wb: (EdgeId, EdgeId), x: EdgeId)
    ensures
        #[trigger] g.lab_pooled(wb, x).0.ok ==> g.ok && g.has(x) && g.rank(x) >= 3,
{
    broadcast use group_ops_ok;

    reveal(Graph::lab_pooled);
    if g.lab_pooled(wb, x).0.ok {
        let (h, w) = (g.shape(x)[1], g.shape(x)[2]);
        let g0 = g.require(g.has(x) && g.rank(x) >= 3 && paddable(h as int) && paddable(w as int));
        let (g1, b) = g0.reduce_mean(x, seq![1, 2]);
        let (g1, b) = g1.einsum("i,ij->j"@, seq![b, wb.0], false);
        let (g1, b) = g1.add(b, wb.1);
        let (g1, b) = g1.relu(b);
        let (g1, b) = g1.change_shape(b, seq![256, 1, 1]);
        lemma_up_ok(g1, b, 1, h as int, w as int);
    }
}

pub broadcast proof fn ok_lab_pyramid(g: Graph, wb: Seq<(EdgeId, EdgeId)>, x: EdgeId)
    ensures
        #[trigger] g.lab_pyramid(wb, x).0.ok ==> g.ok,
{
    broadcast use group_ops_ok;
    broadcast use {ok_lab_conv_relu, ok_lab_pooled};

    reveal(Graph::lab_pyramid);
    let (g, b0) = g.lab_pooled(wb[0], x);
    let (g, b1) = g.lab_conv_relu(wb[1], points_at(1), x);
    let (g, b2) = g.lab_conv_relu(wb[2], spread_window(1, 12), x);
    let (g, b3) = g.lab_conv_relu(wb[3], spread_window(1, 24), x);
    let (g, b4) = g.lab_conv_relu(wb[4], spread_window(1, 36), x);
    ok_multi_concat(g, seq![b0, b1, b2, b3, b4]);
}

pub broadcast proof fn ok_lab_decoder(g: Graph, wb: Seq<(EdgeId, EdgeId)>, skip: EdgeId, x: EdgeId)
    ensures
        #[trigger] g.lab_decoder(wb, skip, x).0.ok ==> g.ok,
{
    broadcast use group_ops_ok;
    broadcast use {ok_lab_conv_relu, ok_separable_conv};

    reveal(Graph::lab_decoder);
}

pub broadcast proof fn ok_lab_head(g: Graph, ps: Seq<(Tensor, Tensor)>, used: nat, skip: EdgeId, x: EdgeId)
    ensures
        #[trigger] g.lab_head(ps, used, skip, x).0.ok ==> g.ok,
{
    broadcast use group_ops_ok;
    broadcast use {ok_lab_pyramid, ok_lab_decoder, ok_load_pairs};

    reveal(Graph::lab_head);
}

impl DagBuilder {
    /// The mean of all positions, through a dense layer, at every position.
    #[verifier::rlimit(40)]
    fn lab_pooled(&mut self, wb: (EdgeId, EdgeId), x: EdgeId) -> (e: EdgeId)
        requires
            old(self).wf(),
            old(self)@.lab_pooled(wb, x).0.ok,
        ensures
            final(self).wf(),
            (final(self)@, e) == old(self)@.lab_pooled(wb, x),
    {
        broadcast use group_ops_ok;

        proof {
            ok_lab_pooled(self@, wb, x);
        }
        reveal(Graph::lab_pooled);
        let shape: Vec<usize> = self.shape_of(x);
        let (h, w) = (shape[1], shape[2]);
        let ghost g0 = self@.require(
            self@.has(x) && self@.rank(x) >= 3 && paddable(h as int) && paddable(w as int),
        );
        let ghost (ga, ba) = g0.reduce_mean(x, seq![1, 2]);
        let ghost (gb, bb) = ga.einsum("i,ij->j"@, seq![ba, wb.0], false);
        let ghost (gc, bc) = gb.add(bb, wb.1);
        let ghost (gd, bd) = gc.relu(bc);
        let ghost (ge, be) = gd.change_shape(bd, seq![256, 1, 1]);
        proof {
            lemma_up_ok(ge, be, 1, h as int, w as int);
            assert(g0.ok);
            assert(g0 == self@);
        }
        let axes: Vec<usize> = list2(1, 2);
        assert(axes@ =~= seq![1usize, 2usize]);
        let b: EdgeId = self.reduce_mean(x, axes.as_slice());
        let b: EdgeId = self.einsum("i,ij->j".to_string(), list2(b, wb.0), false)[0];
        let b: EdgeId = self.add(b, wb.1)[0];
        let b: EdgeId = self.relu(b);
        let mut b: EdgeId = self.change_shape(b, list3(256, 1, 1));
        let mut cur: usize = 1;
        while cur < h || cur < w
            invariant
                0 < cur,
                paddable(h as int),
                paddable(w as int),
                cur == 1 || cur < 2 * h || cur < 2 * w,
                self.wf(),
                self@.up_until(b, cur as int, h as int, w as int) == ge.up_until(
                    be,
                    1,
                    h as int,
                    w as int,
                ),
                ge.up_until(be, 1, h as int, w as int).0.ok,
            decreases 2 * h + 2 * w - cur,
        {
            proof {
                let (g2, b2) = self@.upsample_nearest_2x(b);
                lemma_up_ok(g2, b2, 2 * cur, h as int, w as int);
            }
            b = self.upsample_nearest_2x(b);
            cur = cur * 2;
        }
        if cur > h || cur > w {
            self.change_shape(b, list3(256, h, w))
        } else {
            b
        }
    }

    /// The pyramid: five views of the input side by side, and a convolution over them.
    #[verifier::rlimit(40)]
    fn lab_pyramid(&mut self, wb: &Vec<(EdgeId, EdgeId)>, x: EdgeId) -> (e: EdgeId)
        requires
            old(self).wf(),
            wb.len() == 6,
            old(self)@.lab_pyramid(wb@, x).0.ok,
        ensures
            final(self).wf(),
            (final(self)@, e) == old(self)@.lab_pyramid(wb@, x),
    {
        reveal(Graph::lab_pyramid);
        broadcast use group_ops_ok;
        broadcast use {ok_lab_conv_relu, ok_lab_pooled};

        proof {
            let (g, b0) = self@.lab_pooled(wb[0], x);
            let (g, b1) = g.lab_conv_relu(wb[1], points_at(1), x);
            let (g, b2) = g.lab_conv_relu(wb[2], spread_window(1, 12), x);
            let (g, b3) = g.lab_conv_relu(wb[3], spread_window(1, 24), x);
            let (g, b4) = g.lab_conv_relu(wb[4], spread_window(1, 36), x);
            ok_multi_concat(g, seq![b0, b1, b2, b3, b4]);
        }
        let b0: EdgeId = self.lab_pooled(wb[0], x);
        let b1: EdgeId = self.lab_conv_relu(wb[1], new_points(1), x);
        let b2: EdgeId = self.lab_conv_relu(wb[2], new_spread(1, 12), x);
        let b3: EdgeId = self.lab_conv_relu(wb[3], new_spread(1, 24), x);
        let b4: EdgeId = self.lab_conv_relu(wb[4], new_spread(1, 36), x);
        let all: EdgeId = self.multi_concat(list5(b0, b1, b2, b3, b4));
        self.lab_conv_relu(wb[5], new_points(1), all)
    }

    /// The decoder: the pyramid at twice its size beside the first stage, through two separable
    /// convolutions.
    fn lab_decoder(&mut self, wb: &Vec<(EdgeId, EdgeId)>, skip: EdgeId, x: EdgeId) -> (e: EdgeId)
        requires
            old(self).wf(),
            wb.len() == 5,
            old(self)@.lab_decoder(wb@, skip, x).0.ok,
        ensures
            final(self).wf(),
            (final(self)@, e) == old(self)@.lab_decoder(wb@, skip, x),
    {
        reveal(Graph::lab_decoder);
        broadcast use group_ops_ok;
        broadcast use {ok_lab_conv_relu, ok_separable_conv};

        let up: EdgeId = self.upsample_nearest_2x(x);
        let side: EdgeId = self.lab_conv_relu(wb[0], new_points(1), skip);
        let h: EdgeId = self.general_concat(up, side);
        let h: EdgeId = self.separable_conv(wb[1], wb[2], h);
        self.separable_conv(wb[3], wb[4], h)
    }

    /// The stem: three convolutions and a pooling.
    #[verifier::rlimit(40)]
    fn lab_stem(&mut self, ps: &Vec<(Witness, Witness)>, x: EdgeId) -> (e: EdgeId)
        requires
            old(self).wf(),
            old(self)@.lab_stem(pair_list(ps@), x).0.ok,
        ensures
            final(self).wf(),
            ps.len() >= 3,
            (final(self)@, e) == old(self)@.lab_stem(pair_list(ps@), x),
    {
        reveal(Graph::lab_stem);
        broadcast use group_ops_ok;
        broadcast use {ok_lab_stem_conv, ok_load_pairs, lemma_pairs_len};

        let ghost ready = self@.require(pair_list(ps@).len() >= 3);
        assert(ready.ok);
        assert(ready == self@);
        let wb: Vec<(EdgeId, EdgeId)> = self.load_pairs(ps, 0, 3);
        let h: EdgeId = self.lab_stem_conv(wb[0], (2, 2), x);
        let h: EdgeId = self.lab_stem_conv(wb[1], (1, 1), h);
        let h: EdgeId = self.lab_stem_conv(wb[2], (1, 1), h);
        let h: EdgeId = self.pad(h, 1, 1);
        let h: EdgeId = self.maxpool_general(h, 3, 3, 2, 2);
        self.mark_boundary(h);
        h
    }

    /// What follows the backbone, as far as there are weights.
    #[verifier::rlimit(40)]
    fn lab_head(&mut self, ps: &Vec<(Witness, Witness)>, used: usize, skip: EdgeId, x: EdgeId) -> (e: EdgeId)
        requires
            old(self).wf(),
            used <= ps.len(),
            old(self)@.lab_head(pair_list(ps@), used as nat, skip, x).0.ok,
        ensures
            final(self).wf(),
            (final(self)@, e) == old(self)@.lab_head(pair_list(ps@), used as nat, skip, x),
    {
        reveal(Graph::lab_head);
        broadcast use group_ops_ok;
        broadcast use {ok_lab_pyramid, ok_lab_decoder, ok_load_pairs, lemma_pairs_len};

        let left: usize = ps.len() - used;
        assert(pair_list(ps@).len() == ps.len());
        if left < 6 {
            return x;
        }
        let wb: Vec<(EdgeId, EdgeId)> = self.load_pairs(ps, used, 6);
        let h: EdgeId = self.lab_pyramid(&wb, x);
        if left < 11 {
            return h;
        }
        let wb: Vec<(EdgeId, EdgeId)> = self.load_pairs(ps, used + 6, 5);
        let h: EdgeId = self.lab_decoder(&wb, skip, h);
        if left == 11 {
            return h;
        }
        let wb: Vec<(EdgeId, EdgeId)> = self.load_pairs(ps, used + 11, 1);
        let h: EdgeId = self.conv2d(h, wb[0].0, (1, 1))[0];
        self.add(h, wb[0].1)[0]
    }

    /// The network, with at most `limit` convolutions counted before the last block of the
    /// backbone.
    #[verifier::rlimit(40)]
    pub fn deeplab(&mut self, ps: &Vec<(Witness, Witness)>, limit: usize, x: EdgeId) -> (e: EdgeId)
        requires
            old(self).wf(),
            old(self)@.deeplab(pair_list(ps@), limit as nat, x).0.ok,
        ensures
            final(self).wf(),
            (final(self)@, e) == old(self)@.deeplab(pair_list(ps@), limit as nat, x),
    {
        reveal(Graph::deeplab);

        let ghost pt = pair_list(ps@);
        let ghost lim = limit as nat;
        let ghost (g1, h1) = self@.lab_stem(pt, x);
        let ghost t0 = LabTrunk { g: g1, h: h1, used: 3, count: 3, channels: 64, stop: false };
        let ghost end = t0.stages(pt, lim, 4);
        proof {
            ok_lab_head(end.g, pt, end.used, t0.stages(pt, lim, 1).h, end.h);
            lemma_lab_stages_ok(t0, pt, lim, 0, 4);
        }
        let mut at: (EdgeId, usize, usize, usize) = (self.lab_stem(ps, x), 3, 3, 64);
        let mut skip: EdgeId = at.0;
        let mut i: usize = 0;
        assert(pt.len() == ps.len());
        while i < 4 && (i == 0 || (at.2 < limit && at.1 < ps.len()))
            invariant
                i <= 4,
                lim == limit,
                pt == pair_list(ps@),
                pt.len() == ps.len(),
                at.1 <= ps.len(),
                at.2 <= at.1,
                self.wf(),
                t0.stages(pt, lim, 4).g.ok,
                i > 0 ==> skip == t0.stages(pt, lim, 1).h,
                ({
                    let t = t0.stages(pt, lim, i as nat);
                    (self@, at.0, at.1 as nat, at.2 as nat, at.3) == (
                        t.g,
                        t.h,
                        t.used,
                        t.count,
                        t.channels,
                    )
                }),
            decreases 4 - i,
        {
            let ghost t = t0.stages(pt, lim, i as nat);
            let ghost u = LabTrunk { stop: false, ..t };
            proof {
                lemma_lab_stages_ok(t0, pt, lim, (i + 1) as nat, 4);
                assert(u == lab_trunk_at(self@, at, false));
            }
            at = self.lab_stage(ps, limit, RESNET101_STAGES[i], at);
            if i == 0 {
                skip = at.0;
            }
            i = i + 1;
        }
        proof {
            if i < 4 {
                lemma_lab_full(t0, pt, lim, i as nat, 4);
            }
        }
        self.lab_head(ps, at.1, skip, at.0)
    }
}

/// The recipe of DeepLabV3+.
pub fn deeplabv3plus(
    all_weights: Vec<(Witness, Witness)>,
    _num_classes: usize,
    num_layers: usize,
    _input_h: usize,
    _input_w: usize,
) -> (f: impl FnOnce(&mut DagBuilder, &[EdgeId]) -> Vec<EdgeId>)
    ensures
        forall|g: &mut DagBuilder, x: &[EdgeId]|
            g.wf() && x.len() == 1 && g@.deeplab(
                pair_list(all_weights@),
                num_layers as nat,
                x[0],
            ).0.ok ==> #[trigger] call_requires(f, (g, x)),
        forall|g: &mut DagBuilder, x: &[EdgeId], r: Vec<EdgeId>| #[trigger]
            call_ensures(f, (g, x), r) ==> final(g).wf() && (final(g)@, r@) == one_edge(
                g@.deeplab(pair_list(all_weights@), num_layers as nat, x[0]),
            ),
{
    move |g: &mut DagBuilder, x: &[EdgeId]| -> (r: Vec<EdgeId>)
        requires
            g.wf(),
            x.len() == 1,
            g@.deeplab(pair_list(all_weights@), num_layers as nat, x[0]).0.ok,
        ensures
            final(g).wf(),
            (final(g)@, r@) == one_edge(
                old(g)@.deeplab(pair_list(all_weights@), num_layers as nat, x[0]),
            ),
        { list1(g.deeplab(&all_weights, num_layers, x[0])) }
}

} // verus!
