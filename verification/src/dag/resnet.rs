//! ResNet-50.
use vstd::prelude::*;

use crate::dag::builder::DagBuilder;
use crate::dag::builder_ops::{list1, list2};
use crate::dag::graph::{one_edge, Graph};
use crate::dag::graph_ops::group_ops_ok;
use crate::dag::run::tensors;
use crate::dag::types::EdgeId;
use crate::dag::witness::{Tensor, Witness};

verus! {

/// The stages: blocks, channels inside a block, channels out, stride of the first block.
pub const RESNET50_STAGES: [(usize, usize, usize, usize); 4] = [
    (3, 64, 256, 1),
    (4, 128, 512, 2),
    (6, 256, 1024, 2),
    (3, 512, 2048, 2),
];

/// A convolution: channels in, channels out, and the kernel.
pub type Conv2 = (usize, usize, usize, usize);

/// The first block of a stage projects its input, if the channels or the size change.
pub open spec fn projects(c_in: usize, stage: (usize, usize, usize, usize), block: int) -> bool {
    block == 0 && (c_in != stage.2 || stage.3 > 1)
}

/// The convolutions of a block, with that of the projection at the end.
pub open spec fn block_convs(c_in: usize, c_mid: usize, c_out: usize, projected: bool) -> Seq<Conv2> {
    let main = seq![(c_in, c_mid, 1usize, 1usize), (c_mid, c_mid, 3, 3), (c_mid, c_out, 1, 1)];
    if projected {
        main.push((c_in, c_out, 1, 1))
    } else {
        main
    }
}

/// Channels into block `block` of a stage.
pub open spec fn block_input(c_in: usize, stage: (usize, usize, usize, usize), block: int) -> usize {
    if block == 0 {
        c_in
    } else {
        stage.2
    }
}

/// The convolutions of the first `k` blocks of a stage.
pub open spec fn stage_convs(c_in: usize, stage: (usize, usize, usize, usize), k: nat) -> Seq<Conv2>
    decreases k,
{
    if k == 0 {
        Seq::empty()
    } else {
        stage_convs(c_in, stage, (k - 1) as nat) + block_convs(
            block_input(c_in, stage, k - 1),
            stage.1,
            stage.2,
            projects(c_in, stage, k - 1),
        )
    }
}

/// Channels into stage `i`.
pub open spec fn stage_input(i: int) -> usize {
    if i == 0 {
        64
    } else {
        RESNET50_STAGES[i - 1].2
    }
}

/// The convolutions of the stem and of the first `i` stages.
pub open spec fn convs_upto(i: nat) -> Seq<Conv2>
    decreases i,
{
    if i == 0 {
        seq![(3usize, 64usize, 7usize, 7usize)]
    } else {
        let stage = RESNET50_STAGES[i - 1];
        convs_upto((i - 1) as nat) + stage_convs(stage_input(i - 1), stage, stage.0 as nat)
    }
}

/// A stage has three convolutions per block, and one more for the projection.
pub proof fn lemma_stage_len(c_in: usize, stage: (usize, usize, usize, usize), k: nat)
    ensures
        stage_convs(c_in, stage, k).len() == 3 * k + if k > 0 && projects(c_in, stage, 0) {
            1int
        } else {
            0
        },
    decreases k,
{
    if k > 0 {
        lemma_stage_len(c_in, stage, (k - 1) as nat);
    }
}

/// ResNet-50 has 53 convolutions.
pub proof fn lemma_conv_count()
    ensures
        convs_upto(4).len() == 53,
{
    reveal_with_fuel(convs_upto, 5);
    lemma_stage_len(64, RESNET50_STAGES[0], 3);
    lemma_stage_len(256, RESNET50_STAGES[1], 4);
    lemma_stage_len(512, RESNET50_STAGES[2], 6);
    lemma_stage_len(1024, RESNET50_STAGES[3], 3);
}

/// Adds the convolutions of one block.
fn push_block(configs: &mut Vec<Conv2>, c_in: usize, c_mid: usize, c_out: usize, projected: bool)
    ensures
        final(configs)@ == old(configs)@ + block_convs(c_in, c_mid, c_out, projected),
{
    let ghost before = configs@;
    configs.push((c_in, c_mid, 1, 1));
    configs.push((c_mid, c_mid, 3, 3));
    configs.push((c_mid, c_out, 1, 1));
    if projected {
        configs.push((c_in, c_out, 1, 1));
    }
    assert(configs@ =~= before + block_convs(c_in, c_mid, c_out, projected));
}

/// All convolutions with their channels and kernels, in order.
pub fn resnet50_conv_configs() -> (r: Vec<(usize, usize, usize, usize)>)
    ensures
        r@ == convs_upto(4),
        r.len() == 53,
{
    let mut configs: Vec<Conv2> = Vec::new();
    configs.push((3, 64, 7, 7));
    assert(configs@ =~= convs_upto(0));
    let mut c_in: usize = 64;
    let mut i: usize = 0;
    while i < 4
        invariant
            i <= 4,
            c_in == stage_input(i as int),
            configs@ == convs_upto(i as nat),
        decreases 4 - i,
    {
        let (num_blocks, c_mid, c_out, stride) = RESNET50_STAGES[i];
        let ghost stage = RESNET50_STAGES[i as int];
        let ghost first = c_in;
        let ghost before = configs@;
        let mut block: usize = 0;
        assert(configs@ =~= before + stage_convs(first, stage, 0));
        while block < num_blocks
            invariant
                block <= num_blocks,
                stage == (num_blocks, c_mid, c_out, stride),
                c_in == block_input(first, stage, block as int),
                configs@ == before + stage_convs(first, stage, block as nat),
            decreases num_blocks - block,
        {
            let projected: bool = block == 0 && (c_in != c_out || stride > 1);
            let ghost here = configs@;
            push_block(&mut configs, c_in, c_mid, c_out, projected);
            c_in = c_out;
            block = block + 1;
            assert(configs@ =~= before + stage_convs(first, stage, block as nat));
        }
        i = i + 1;
        proof {
            assert(num_blocks > 0);
        }
    }
    proof {
        lemma_conv_count();
    }
    configs
}

/// Number of convolutions.
pub fn resnet50_num_convs() -> (r: usize)
    ensures
        r == convs_upto(4).len(),
        r == 53,
{
    resnet50_conv_configs().len()
}

/// Channels and width after the blocks that fit into the first `layers` convolutions: nothing
/// without the stem; after the stem and its pooling 64 channels; and a new size from the end of the
/// first block of each stage on.
pub open spec fn shape_after(layers: int) -> (usize, usize) {
    if layers <= 0 {
        (3, 224)
    } else if layers < 5 {
        (64, 56)
    } else if layers < 15 {
        (256, 56)
    } else if layers < 28 {
        (512, 28)
    } else if layers < 47 {
        (1024, 14)
    } else {
        (2048, 7)
    }
}

/// Channels and width after the first convolutions of ResNet-50.
pub fn resnet50_output_shape(num_layers: usize) -> (r: (usize, usize))
    ensures
        r == shape_after(num_layers as int),
{
    if num_layers == 0 {
        return (3, 224);
    }
    let mut c_out: usize = 64;
    let mut spatial: usize = 56;
    let mut w_idx: usize = 1;
    let mut i: usize = 0;
    let mut fits: bool = true;
    while i < 4 && fits
        invariant
            i <= 4,
            num_layers > 0,
            fits ==> i == 0 ==> (c_out, spatial, w_idx) == (64usize, 56usize, 1usize),
            fits ==> i == 1 ==> num_layers >= 5 && (c_out, spatial, w_idx) == (256usize, 56usize, 11usize),
            fits ==> i == 2 ==> num_layers >= 15 && (c_out, spatial, w_idx) == (512usize, 28usize, 24usize),
            fits ==> i == 3 ==> num_layers >= 28 && (c_out, spatial, w_idx) == (1024usize, 14usize, 43usize),
            fits ==> i == 4 ==> num_layers >= 47 && (c_out, spatial) == (2048usize, 7usize),
            !fits ==> (c_out, spatial) == shape_after(num_layers as int),
        decreases 4 - i, (if fits { 1int } else { 0int }),
    {
        let (num_blocks, _c_mid, c_stage, stride) = RESNET50_STAGES[i];
        let first: usize = if c_out != c_stage || stride > 1 {
            4
        } else {
            3
        };
        if w_idx + first > num_layers {
            fits = false;
        } else {
            if stride > 1 {
                spatial = spatial / stride;
            }
            c_out = c_stage;
            w_idx = w_idx + first + 3 * (num_blocks - 1);
            i = i + 1;
        }
    }
    (c_out, spatial)
}

/// The shape changes where a first block ends: after the stem, the convolutions of the stages
/// before it, and its own four.
pub proof fn lemma_shape_steps(i: int)
    requires
        0 <= i < 4,
    ensures
        shape_after(convs_upto(i as nat).len() as int + 3).0 == stage_input(i),
        shape_after(convs_upto(i as nat).len() as int + 4).0 == RESNET50_STAGES[i].2,
{
    reveal_with_fuel(convs_upto, 5);
    lemma_stage_len(64, RESNET50_STAGES[0], 3);
    lemma_stage_len(256, RESNET50_STAGES[1], 4);
    lemma_stage_len(512, RESNET50_STAGES[2], 6);
}

impl Graph {
    /// Brings a product of two tensors of scale `sf_log` back to that scale.
    pub open spec fn back_to(self, h: EdgeId, sf_log: usize) -> (Graph, EdgeId) {
        if sf_log > 0 {
            self.require(2 * sf_log <= usize::MAX).scale(h, (2 * sf_log) as usize, sf_log)
        } else {
            (self, h)
        }
    }

    /// Adds a bias, if there is one.
    pub open spec fn biased(self, h: EdgeId, b: Option<EdgeId>) -> (Graph, EdgeId) {
        match b {
            Some(b) => self.add(h, b),
            None => (self, h),
        }
    }

    /// A convolution, brought back to scale, with its bias.
    #[verifier::opaque]
    pub open spec fn conv_step(
        self,
        x: EdgeId,
        wb: (EdgeId, Option<EdgeId>),
        kernel: (usize, usize),
        stride: (usize, usize),
        sf_log: usize,
    ) -> (Graph, EdgeId) {
        let (g, h) = self.conv2d_full(x, wb.0, kernel, stride, (1, 1));
        let (g, h) = g.back_to(h, sf_log);
        g.biased(h, wb.1)
    }

    /// A bottleneck: three convolutions around a shortcut, which is projected on demand.
    #[verifier::opaque]
    pub open spec fn bottleneck(
        self,
        x: EdgeId,
        stride: usize,
        projected: bool,
        wb: Seq<(EdgeId, Option<EdgeId>)>,
        sf_log: usize,
    ) -> (Graph, EdgeId) {
        let (g, h) = self.conv_step(x, wb[0], (1, 1), (1, 1), sf_log);
        let (g, h) = g.relu(h);
        let (g, h) = g.pad(h, 1, 1);
        let (g, h) = g.conv_step(h, wb[1], (3, 3), (stride, stride), sf_log);
        let (g, h) = g.relu(h);
        let (g, h) = g.conv_step(h, wb[2], (1, 1), (1, 1), sf_log);
        let (g, shortcut) = if projected {
            g.conv_step(x, wb[3], (1, 1), (stride, stride), sf_log)
        } else {
            (g, x)
        };
        let (g, h) = g.add(h, shortcut);
        g.relu(h)
    }

    /// A bias of the list, if there are biases.
    pub open spec fn bias_param(self, bs: Seq<Tensor>, i: int) -> (Graph, Option<EdgeId>) {
        if bs.len() > 0 {
            let (g, b) = self.require(i < bs.len()).param(bs[i]);
            (g, Some(b))
        } else {
            (self, None)
        }
    }

    /// The weights from number `from` on, `k` of them, each followed by its bias.
    pub open spec fn load_block(self, ws: Seq<Tensor>, bs: Seq<Tensor>, from: nat, k: nat) -> (
        Graph,
        Seq<(EdgeId, Option<EdgeId>)>,
    )
        decreases k,
    {
        if k == 0 {
            (self, Seq::empty())
        } else {
            let (g, list) = self.load_block(ws, bs, from, (k - 1) as nat);
            let (g, w) = g.param(ws[from + k - 1]);
            let (g, b) = g.bias_param(bs, from + k - 1);
            (g, list.push((w, b)))
        }
    }
}

/// How far the trunk of the network has come: the graph, the last edge, the weights used, the
/// channels, and whether the current stage has ended early.
#[verifier::ext_equal]
pub struct Trunk {
    pub g: Graph,
    pub h: EdgeId,
    pub used: nat,
    pub channels: usize,
    pub stop: bool,
}

/// The trunk of a graph with its last edge, the weights used and the channels.
pub open spec fn trunk_at(g: Graph, at: (EdgeId, usize, usize)) -> Trunk {
    Trunk { g, h: at.0, used: at.1 as nat, channels: at.2, stop: false }
}

/// The trunk, with the given end of its stage.
pub open spec fn stop_at(t: Trunk, stop: bool) -> Trunk {
    Trunk { stop, ..t }
}

impl Trunk {
    /// Number of weights of block `block` of a stage.
    pub open spec fn needed(self, stage: (usize, usize, usize, usize), block: int) -> nat {
        if projects(self.channels, stage, block) {
            4
        } else {
            3
        }
    }

    /// Block `block` of a stage; the stage ends early at the limit and where weights are missing.
    pub open spec fn block(
        self,
        ws: Seq<Tensor>,
        bs: Seq<Tensor>,
        limit: nat,
        sf_log: usize,
        stage: (usize, usize, usize, usize),
        block: int,
    ) -> Trunk {
        let needed = self.needed(stage, block);
        if self.stop {
            self
        } else if self.used >= limit || self.used + needed > ws.len() {
            Trunk { stop: true, ..self }
        } else {
            let stride = if block == 0 {
                stage.3
            } else {
                1
            };
            let (g, wb) = self.g.load_block(ws, bs, self.used, needed);
            let (g, h) = g.bottleneck(
                self.h,
                stride,
                projects(self.channels, stage, block),
                wb,
                sf_log,
            );
            Trunk {
                g: g.boundary(h),
                h,
                used: self.used + needed,
                channels: stage.2,
                stop: false,
            }
        }
    }

    /// The first `k` blocks of a stage.
    pub open spec fn blocks(
        self,
        ws: Seq<Tensor>,
        bs: Seq<Tensor>,
        limit: nat,
        sf_log: usize,
        stage: (usize, usize, usize, usize),
        k: nat,
    ) -> Trunk
        decreases k,
    {
        if k == 0 {
            self
        } else {
            self.blocks(ws, bs, limit, sf_log, stage, (k - 1) as nat).block(
                ws,
                bs,
                limit,
                sf_log,
                stage,
                k - 1,
            )
        }
    }

    /// The first `i` stages; none follows once the limit is reached.
    pub open spec fn stages(
        self,
        ws: Seq<Tensor>,
        bs: Seq<Tensor>,
        limit: nat,
        sf_log: usize,
        i: nat,
    ) -> Trunk
        decreases i,
    {
        if i == 0 {
            self
        } else {
            let t = self.stages(ws, bs, limit, sf_log, (i - 1) as nat);
            if i > 1 && t.used >= limit {
                t
            } else {
                let stage = RESNET50_STAGES[i - 1];
                Trunk { stop: false, ..t }.blocks(ws, bs, limit, sf_log, stage, stage.0 as nat)
            }
        }
    }
}

impl Graph {
    /// The stem: a wide convolution, its rectifier and a pooling.
    #[verifier::opaque]
    pub open spec fn resnet_stem(
        self,
        ws: Seq<Tensor>,
        bs: Seq<Tensor>,
        sf_log: usize,
        x: EdgeId,
    ) -> (Graph, EdgeId) {
        let (g, h) = self.pad(x, 3, 3);
        let (g, w) = g.require(ws.len() > 0).param(ws[0]);
        let (g, h) = g.conv2d_full(h, w, (7, 7), (2, 2), (1, 1));
        let (g, h) = g.back_to(h, sf_log);
        let (g, b) = g.bias_param(bs, 0);
        let (g, h) = g.biased(h, b);
        let (g, h) = g.relu(h);
        let (g, h) = g.pad(h, 1, 1);
        let (g, h) = g.maxpool_general(h, (3, 3), (2, 2));
        (g.boundary(h), h)
    }

    /// The head: the mean over all positions and a dense layer.
    #[verifier::opaque]
    pub open spec fn resnet_head(self, fw: Tensor, fb: Option<Tensor>, sf_log: usize, x: EdgeId) -> (
        Graph,
        EdgeId,
    ) {
        let (g, h) = self.reduce_mean(x, seq![1, 2]);
        let (g, w) = g.param(fw);
        let (g, h) = g.einsum("i,ij->j"@, seq![h, w], false);
        let (g, h) = g.back_to(h, sf_log);
        match fb {
            Some(b) => {
                let (g, b) = g.param(b);
                g.add(h, b)
            },
            None => (g, h),
        }
    }

    /// ResNet-50 with at most `limit` convolutions; the scale is that of the biases.
    #[verifier::opaque]
    pub open spec fn resnet50(
        self,
        ws: Seq<Tensor>,
        bs: Seq<Tensor>,
        fw: Tensor,
        fb: Option<Tensor>,
        limit: nat,
        x: EdgeId,
    ) -> (Graph, EdgeId) {
        let sf_log = bias_scale(bs);
        if limit == 0 {
            (self, x)
        } else {
            let (g, h) = self.resnet_stem(ws, bs, sf_log, x);
            let t = Trunk { g, h, used: 1, channels: 64, stop: false }.stages(
                ws,
                bs,
                limit,
                sf_log,
                4,
            );
            t.g.resnet_head(fw, fb, sf_log, t.h)
        }
    }
}

/// The scale of the first bias.
pub open spec fn bias_scale(bs: Seq<Tensor>) -> usize {
    if bs.len() > 0 {
        bs[0].sf
    } else {
        0
    }
}

pub broadcast proof fn ok_back_to(g: Graph, h: EdgeId, sf_log: usize)
    ensures
        #[trigger] g.back_to(h, sf_log).0.ok ==> g.ok,
{
    broadcast use group_ops_ok;

}

pub broadcast proof fn ok_biased(g: Graph, h: EdgeId, b: Option<EdgeId>)
    ensures
        #[trigger] g.biased(h, b).0.ok ==> g.ok,
{
    broadcast use group_ops_ok;

}

pub broadcast proof fn ok_conv_step(
    g: Graph,
    x: EdgeId,
    wb: (EdgeId, Option<EdgeId>),
    kernel: (usize, usize),
    stride: (usize, usize),
    sf_log: usize,
)
    ensures
        #[trigger] g.conv_step(x, wb, kernel, stride, sf_log).0.ok ==> g.ok,
{
    broadcast use group_ops_ok;
    broadcast use {ok_back_to, ok_biased};

    reveal(Graph::conv_step);
}

pub broadcast proof fn ok_bottleneck(
    g: Graph,
    x: EdgeId,
    stride: usize,
    projected: bool,
    wb: Seq<(EdgeId, Option<EdgeId>)>,
    sf_log: usize,
)
    ensures
        #[trigger] g.bottleneck(x, stride, projected, wb, sf_log).0.ok ==> g.ok,
{
    broadcast use group_ops_ok;
    broadcast use ok_conv_step;

    reveal(Graph::bottleneck);
}

pub broadcast proof fn ok_bias_param(g: Graph, bs: Seq<Tensor>, i: int)
    ensures
        #[trigger] g.bias_param(bs, i).0.ok ==> g.ok,
{
    broadcast use group_ops_ok;

}

proof fn lemma_load_ok(g: Graph, ws: Seq<Tensor>, bs: Seq<Tensor>, from: nat, j: nat, k: nat)
    requires
        j <= k,
        g.load_block(ws, bs, from, k).0.ok,
    ensures
        g.load_block(ws, bs, from, j).0.ok,
    decreases k,
{
    broadcast use group_ops_ok;
    broadcast use ok_bias_param;

    if j < k {
        let (h, list) = g.load_block(ws, bs, from, (k - 1) as nat);
        let (h2, w) = h.param(ws[from + k - 1]);
        ok_bias_param(h2, bs, from + k - 1);
        lemma_load_ok(g, ws, bs, from, j, (k - 1) as nat);
    }
}

proof fn lemma_block_ok(
    t: Trunk,
    ws: Seq<Tensor>,
    bs: Seq<Tensor>,
    limit: nat,
    sf_log: usize,
    stage: (usize, usize, usize, usize),
    block: int,
)
    requires
        t.block(ws, bs, limit, sf_log, stage, block).g.ok,
    ensures
        t.g.ok,
{
    broadcast use ok_bottleneck;

    let needed = t.needed(stage, block);
    if !t.stop && t.used < limit && t.used + needed <= ws.len() {
        lemma_load_ok(t.g, ws, bs, t.used, 0, needed);
    }
}

proof fn lemma_trunk_ok(
    t: Trunk,
    ws: Seq<Tensor>,
    bs: Seq<Tensor>,
    limit: nat,
    sf_log: usize,
    stage: (usize, usize, usize, usize),
    j: nat,
    k: nat,
)
    requires
        j <= k,
        t.blocks(ws, bs, limit, sf_log, stage, k).g.ok,
    ensures
        t.blocks(ws, bs, limit, sf_log, stage, j).g.ok,
    decreases k,
{
    if j < k {
        let m = (k - 1) as nat;
        lemma_block_ok(t.blocks(ws, bs, limit, sf_log, stage, m), ws, bs, limit, sf_log, stage, k - 1);
        lemma_trunk_ok(t, ws, bs, limit, sf_log, stage, j, m);
    }
}

proof fn lemma_stages_ok(
    t: Trunk,
    ws: Seq<Tensor>,
    bs: Seq<Tensor>,
    limit: nat,
    sf_log: usize,
    j: nat,
    k: nat,
)
    requires
        j <= k <= 4,
        t.stages(ws, bs, limit, sf_log, k).g.ok,
    ensures
        t.stages(ws, bs, limit, sf_log, j).g.ok,
    decreases k,
{
    if j < k {
        let m = (k - 1) as nat;
        let u = t.stages(ws, bs, limit, sf_log, m);
        if !(k > 1 && u.used >= limit) {
            let stage = RESNET50_STAGES[k - 1];
            lemma_trunk_ok(
                Trunk { stop: false, ..u },
                ws,
                bs,
                limit,
                sf_log,
                stage,
                0,
                stage.0 as nat,
            );
        }
        lemma_stages_ok(t, ws, bs, limit, sf_log, j, m);
    }
}

proof fn lemma_stopped(
    t: Trunk,
    ws: Seq<Tensor>,
    bs: Seq<Tensor>,
    limit: nat,
    sf_log: usize,
    stage: (usize, usize, usize, usize),
    j: nat,
    k: nat,
)
    requires
        j <= k,
        t.blocks(ws, bs, limit, sf_log, stage, j).stop,
    ensures
        t.blocks(ws, bs, limit, sf_log, stage, k) == t.blocks(ws, bs, limit, sf_log, stage, j),
    decreases k,
{
    if j < k {
        lemma_stopped(t, ws, bs, limit, sf_log, stage, j, (k - 1) as nat);
    }
}

proof fn lemma_stages_full(
    t: Trunk,
    ws: Seq<Tensor>,
    bs: Seq<Tensor>,
    limit: nat,
    sf_log: usize,
    j: nat,
    k: nat,
)
    requires
        1 <= j <= k,
        t.stages(ws, bs, limit, sf_log, j).used >= limit,
    ensures
        t.stages(ws, bs, limit, sf_log, k) == t.stages(ws, bs, limit, sf_log, j),
    decreases k,
{
    if j < k {
        lemma_stages_full(t, ws, bs, limit, sf_log, j, (k - 1) as nat);
    }
}

impl DagBuilder {
    /// Brings a product of two tensors of scale `sf_log` back to that scale.
    pub(crate) fn back_to(&mut self, h: EdgeId, sf_log: usize) -> (e: EdgeId)
        requires
            old(self).wf(),
            old(self)@.back_to(h, sf_log).0.ok,
        ensures
            final(self).wf(),
            (final(self)@, e) == old(self)@.back_to(h, sf_log),
    {
        broadcast use group_ops_ok;

        if sf_log > 0 {
            let ghost ready = self@.require(2 * sf_log <= usize::MAX);
            assert(ready.ok);
            assert(ready == self@);
            self.scale(h, 2 * sf_log, sf_log)[0]
        } else {
            h
        }
    }

    /// Adds a bias, if there is one.
    pub(crate) fn biased(&mut self, h: EdgeId, b: Option<EdgeId>) -> (e: EdgeId)
        requires
            old(self).wf(),
            old(self)@.biased(h, b).0.ok,
        ensures
            final(self).wf(),
            (final(self)@, e) == old(self)@.biased(h, b),
    {
        match b {
            Some(b) => self.add(h, b)[0],
            None => h,
        }
    }

    /// A convolution, brought back to scale, with its bias.
    pub(crate) fn conv_step(
        &mut self,
        x: EdgeId,
        wb: (EdgeId, Option<EdgeId>),
        kernel: (usize, usize),
        stride: (usize, usize),
        sf_log: usize,
    ) -> (e: EdgeId)
        requires
            old(self).wf(),
            old(self)@.conv_step(x, wb, kernel, stride, sf_log).0.ok,
        ensures
            final(self).wf(),
            (final(self)@, e) == old(self)@.conv_step(x, wb, kernel, stride, sf_log),
    {
        reveal(Graph::conv_step);
        broadcast use group_ops_ok;
        broadcast use {ok_back_to, ok_biased};

        let h: EdgeId = self.conv2d_strided(x, wb.0, kernel, stride)[0];
        let h: EdgeId = self.back_to(h, sf_log);
        self.biased(h, wb.1)
    }

    /// A bottleneck: three convolutions around a shortcut, which is projected on demand.
    #[verifier::rlimit(40)]
    pub fn bottleneck(
        &mut self,
        x: EdgeId,
        stride: usize,
        projected: bool,
        wb: &Vec<(EdgeId, Option<EdgeId>)>,
        sf_log: usize,
    ) -> (e: EdgeId)
        requires
            old(self).wf(),
            wb.len() >= if projected {
                4int
            } else {
                3
            },
            old(self)@.bottleneck(x, stride, projected, wb@, sf_log).0.ok,
        ensures
            final(self).wf(),
            (final(self)@, e) == old(self)@.bottleneck(x, stride, projected, wb@, sf_log),
    {
        reveal(Graph::bottleneck);
        broadcast use group_ops_ok;
        broadcast use ok_conv_step;

        let h: EdgeId = self.conv_step(x, wb[0], (1, 1), (1, 1), sf_log);
        let h: EdgeId = self.relu(h);
        let h: EdgeId = self.pad(h, 1, 1);
        let h: EdgeId = self.conv_step(h, wb[1], (3, 3), (stride, stride), sf_log);
        let h: EdgeId = self.relu(h);
        let h: EdgeId = self.conv_step(h, wb[2], (1, 1), (1, 1), sf_log);
        let shortcut: EdgeId = if projected {
            self.conv_step(x, wb[3], (1, 1), (stride, stride), sf_log)
        } else {
            x
        };
        let h: EdgeId = self.add(h, shortcut)[0];
        self.relu(h)
    }

    /// A bias of the list, if there are biases.
    pub(crate) fn bias_param(&mut self, bs: &Vec<Witness>, i: usize) -> (b: Option<EdgeId>)
        requires
            old(self).wf(),
            old(self)@.bias_param(tensors(bs@), i as int).0.ok,
        ensures
            final(self).wf(),
            (final(self)@, b) == old(self)@.bias_param(tensors(bs@), i as int),
    {
        broadcast use group_ops_ok;

        if bs.len() > 0 {
            let ghost ready = self@.require(i < tensors(bs@).len());
            assert(ready.ok);
            assert(ready == self@);
            Some(self.param(bs[i].clone()))
        } else {
            None
        }
    }

    /// The weights from number `from` on, `k` of them, each followed by its bias.
    pub(crate) fn load_block(
        &mut self,
        ws: &Vec<Witness>,
        bs: &Vec<Witness>,
        from: usize,
        k: usize,
    ) -> (r: Vec<
        (EdgeId, Option<EdgeId>),
    >)
        requires
            old(self).wf(),
            from + k <= ws.len(),
            old(self)@.load_block(tensors(ws@), tensors(bs@), from as nat, k as nat).0.ok,
        ensures
            final(self).wf(),
            (final(self)@, r@) == old(self)@.load_block(
                tensors(ws@),
                tensors(bs@),
                from as nat,
                k as nat,
            ),
            r.len() == k,
    {
        broadcast use group_ops_ok;
        broadcast use ok_bias_param;

        let ghost g = self@;
        let ghost (wt, bt) = (tensors(ws@), tensors(bs@));
        let mut r: Vec<(EdgeId, Option<EdgeId>)> = Vec::new();
        let mut i: usize = 0;
        while i < k
            invariant
                i <= k,
                from + k <= ws.len(),
                wt == tensors(ws@),
                bt == tensors(bs@),
                g.load_block(wt, bt, from as nat, k as nat).0.ok,
                self.wf(),
                r.len() == i,
                (self@, r@) == g.load_block(wt, bt, from as nat, i as nat),
            decreases k - i,
        {
            proof {
                lemma_load_ok(g, wt, bt, from as nat, (i + 1) as nat, k as nat);
                ok_bias_param(self@.param(wt[from + i]).0, bt, from + i);
            }
            let w: EdgeId = self.param(ws[from + i].clone());
            let b: Option<EdgeId> = self.bias_param(bs, from + i);
            r.push((w, b));
            i = i + 1;
        }
        r
    }

    /// The blocks of a stage. Returns the last edge, the weights used and the channels.
    #[verifier::rlimit(40)]
    fn resnet_stage(
        &mut self,
        ws: &Vec<Witness>,
        bs: &Vec<Witness>,
        limit: usize,
        sf_log: usize,
        stage: (usize, usize, usize, usize),
        at: (EdgeId, usize, usize),
    ) -> (r: (EdgeId, usize, usize))
        requires
            old(self).wf(),
            at.1 <= ws.len(),
            trunk_at(old(self)@, at).blocks(
                tensors(ws@),
                tensors(bs@),
                limit as nat,
                sf_log,
                stage,
                stage.0 as nat,
            ).g.ok,
        ensures
            final(self).wf(),
            r.1 <= ws.len(),
            ({
                let t = trunk_at(old(self)@, at).blocks(
                    tensors(ws@),
                    tensors(bs@),
                    limit as nat,
                    sf_log,
                    stage,
                    stage.0 as nat,
                );
                (final(self)@, r.0, r.1 as nat, r.2) == (t.g, t.h, t.used, t.channels)
            }),
    {
        let ghost (wt, bt) = (tensors(ws@), tensors(bs@));
        let ghost t0 = trunk_at(self@, at);
        let (num_blocks, _c_mid, c_out, stride_first) = stage;
        let mut h: EdgeId = at.0;
        let mut used: usize = at.1;
        let mut c_in: usize = at.2;
        let mut stop: bool = false;
        let mut block: usize = 0;
        while block < num_blocks && !stop
            invariant
                block <= num_blocks,
                stage == (num_blocks, _c_mid, c_out, stride_first),
                wt == tensors(ws@),
                bt == tensors(bs@),
                used <= ws.len(),
                self.wf(),
                t0.blocks(wt, bt, limit as nat, sf_log, stage, num_blocks as nat).g.ok,
                stop_at(trunk_at(self@, (h, used, c_in)), stop) == t0.blocks(
                    wt,
                    bt,
                    limit as nat,
                    sf_log,
                    stage,
                    block as nat,
                ),
            decreases num_blocks - block,
        {
            let stride: usize = if block == 0 {
                stride_first
            } else {
                1
            };
            let projected: bool = block == 0 && (c_in != c_out || stride_first > 1);
            let needed: usize = if projected {
                4
            } else {
                3
            };
            let ghost t = t0.blocks(wt, bt, limit as nat, sf_log, stage, block as nat);
            proof {
                lemma_trunk_ok(
                    t0,
                    wt,
                    bt,
                    limit as nat,
                    sf_log,
                    stage,
                    (block + 1) as nat,
                    num_blocks as nat,
                );
                assert(t0.blocks(wt, bt, limit as nat, sf_log, stage, (block + 1) as nat) == t.block(
                    wt,
                    bt,
                    limit as nat,
                    sf_log,
                    stage,
                    block as int,
                ));
                assert(wt.len() == ws.len());
            }
            if used >= limit || needed > ws.len() - used {
                stop = true;
            } else {
                proof {
                    let (g2, wb) = self@.load_block(wt, bt, used as nat, needed as nat);
                    ok_bottleneck(g2, h, stride, projected, wb, sf_log);
                }
                let wb: Vec<(EdgeId, Option<EdgeId>)> = self.load_block(ws, bs, used, needed);
                h = self.bottleneck(h, stride, projected, &wb, sf_log);
                self.mark_boundary(h);
                used = used + needed;
                c_in = c_out;
            }
            block = block + 1;
        }
        proof {
            if block < num_blocks {
                lemma_stopped(
                    t0,
                    wt,
                    bt,
                    limit as nat,
                    sf_log,
                    stage,
                    block as nat,
                    num_blocks as nat,
                );
            }
        }
        (h, used, c_in)
    }

    /// The stem: a wide convolution, its rectifier and a pooling.
    #[verifier::rlimit(40)]
    fn resnet_stem(&mut self, ws: &Vec<Witness>, bs: &Vec<Witness>, sf_log: usize, x: EdgeId) -> (e: EdgeId)
        requires
            old(self).wf(),
            old(self)@.resnet_stem(tensors(ws@), tensors(bs@), sf_log, x).0.ok,
        ensures
            final(self).wf(),
            (final(self)@, e) == old(self)@.resnet_stem(tensors(ws@), tensors(bs@), sf_log, x),
            ws.len() > 0,
    {
        reveal(Graph::resnet_stem);
        broadcast use group_ops_ok;
        broadcast use {ok_back_to, ok_biased, ok_bias_param};

        let h: EdgeId = self.pad(x, 3, 3);
        let ghost ready = self@.require(tensors(ws@).len() > 0);
        assert(ready.ok);
        assert(ready == self@);
        let w: EdgeId = self.param(ws[0].clone());
        let h: EdgeId = self.conv2d_strided(h, w, (7, 7), (2, 2))[0];
        let h: EdgeId = self.back_to(h, sf_log);
        let b: Option<EdgeId> = self.bias_param(bs, 0);
        let h: EdgeId = self.biased(h, b);
        let h: EdgeId = self.relu(h);
        let h: EdgeId = self.pad(h, 1, 1);
        let h: EdgeId = self.maxpool_general(h, 3, 3, 2, 2);
        self.mark_boundary(h);
        h
    }

    /// The head: the mean over all positions and a dense layer.
    fn resnet_head(&mut self, fw: Witness, fb: Option<Witness>, sf_log: usize, x: EdgeId) -> (e: EdgeId)
        requires
            old(self).wf(),
            old(self)@.resnet_head(fw@, tensor_of(fb), sf_log, x).0.ok,
        ensures
            final(self).wf(),
            (final(self)@, e) == old(self)@.resnet_head(fw@, tensor_of(fb), sf_log, x),
    {
        reveal(Graph::resnet_head);
        broadcast use group_ops_ok;
        broadcast use ok_back_to;

        let axes: Vec<usize> = list2(1, 2);
        assert(axes@ =~= seq![1usize, 2usize]);
        let h: EdgeId = self.reduce_mean(x, axes.as_slice());
        let w: EdgeId = self.param(fw);
        let h: EdgeId = self.einsum("i,ij->j".to_string(), list2(h, w), false)[0];
        let h: EdgeId = self.back_to(h, sf_log);
        match fb {
            Some(b) => {
                let b: EdgeId = self.param(b);
                self.add(h, b)[0]
            },
            None => h,
        }
    }

    /// ResNet-50 with at most `limit` convolutions; the scale is that of the biases.
    #[verifier::rlimit(40)]
    pub fn resnet50(
        &mut self,
        ws: &Vec<Witness>,
        bs: &Vec<Witness>,
        fw: Witness,
        fb: Option<Witness>,
        limit: usize,
        x: EdgeId,
    ) -> (e: EdgeId)
        requires
            old(self).wf(),
            old(self)@.resnet50(
                tensors(ws@),
                tensors(bs@),
                fw@,
                tensor_of(fb),
                limit as nat,
                x,
            ).0.ok,
        ensures
            final(self).wf(),
            (final(self)@, e) == old(self)@.resnet50(
                tensors(ws@),
                tensors(bs@),
                fw@,
                tensor_of(fb),
                limit as nat,
                x,
            ),
    {
        reveal(Graph::resnet50);

        let ghost (wt, bt) = (tensors(ws@), tensors(bs@));
        let sf_log: usize = if bs.len() > 0 {
            bs[0].sf
        } else {
            0
        };
        assert(sf_log == bias_scale(bt));
        if limit == 0 {
            return x;
        }
        let ghost (g1, h1) = self@.resnet_stem(wt, bt, sf_log, x);
        let ghost t0 = Trunk { g: g1, h: h1, used: 1, channels: 64, stop: false };
        let ghost t4 = t0.stages(wt, bt, limit as nat, sf_log, 4);
        proof {
            ok_resnet_head(t4.g, fw@, tensor_of(fb), sf_log, t4.h);
            lemma_stages_ok(t0, wt, bt, limit as nat, sf_log, 0, 4);
        }
        let mut at: (EdgeId, usize, usize) = (self.resnet_stem(ws, bs, sf_log, x), 1, 64);
        let mut i: usize = 0;
        while i < 4 && (i == 0 || at.1 < limit)
            invariant
                i <= 4,
                wt == tensors(ws@),
                bt == tensors(bs@),
                at.1 <= ws.len(),
                self.wf(),
                t0.stages(wt, bt, limit as nat, sf_log, 4).g.ok,
                ({
                    let t = t0.stages(wt, bt, limit as nat, sf_log, i as nat);
                    (self@, at.0, at.1 as nat, at.2) == (t.g, t.h, t.used, t.channels)
                }),
            decreases 4 - i,
        {
            let ghost t = t0.stages(wt, bt, limit as nat, sf_log, i as nat);
            let ghost u = Trunk { stop: false, ..t };
            proof {
                lemma_stages_ok(t0, wt, bt, limit as nat, sf_log, (i + 1) as nat, 4);
                assert(u == trunk_at(self@, at));
            }
            at = self.resnet_stage(ws, bs, limit, sf_log, RESNET50_STAGES[i], at);
            i = i + 1;
        }
        proof {
            if i < 4 {
                lemma_stages_full(t0, wt, bt, limit as nat, sf_log, i as nat, 4);
            }
        }
        self.resnet_head(fw, fb, sf_log, at.0)
    }
}

pub broadcast proof fn ok_resnet_head(g: Graph, fw: Tensor, fb: Option<Tensor>, sf_log: usize, x: EdgeId)
    ensures
        #[trigger] g.resnet_head(fw, fb, sf_log, x).0.ok ==> g.ok,
{
    broadcast use group_ops_ok;
    broadcast use ok_back_to;

    reveal(Graph::resnet_head);
}

/// The value of an optional tensor.
pub open spec fn tensor_of(t: Option<Witness>) -> Option<Tensor> {
    match t {
        Some(w) => Some(w@),
        None => None,
    }
}

/// The recipe of ResNet-50 with biases.
pub fn resnet50_with_biases(
    conv_weights: Vec<Witness>,
    conv_biases: Vec<Witness>,
    fc_weight: Witness,
    fc_bias: Option<Witness>,
    _num_classes: usize,
    num_layers: usize,
) -> (f: impl FnOnce(&mut DagBuilder, &[EdgeId]) -> Vec<EdgeId>)
    ensures
        forall|g: &mut DagBuilder, x: &[EdgeId]|
            g.wf() && x.len() == 1 && g@.resnet50(
                tensors(conv_weights@),
                tensors(conv_biases@),
                fc_weight@,
                tensor_of(fc_bias),
                num_layers as nat,
                x[0],
            ).0.ok ==> #[trigger] call_requires(f, (g, x)),
        forall|g: &mut DagBuilder, x: &[EdgeId], r: Vec<EdgeId>| #[trigger]
            call_ensures(f, (g, x), r) ==> final(g).wf() && (final(g)@, r@) == one_edge(
                g@.resnet50(
                    tensors(conv_weights@),
                    tensors(conv_biases@),
                    fc_weight@,
                    tensor_of(fc_bias),
                    num_layers as nat,
                    x[0],
                ),
            ),
{
    let ghost (fw, fb) = (fc_weight@, tensor_of(fc_bias));
    move |g: &mut DagBuilder, x: &[EdgeId]| -> (r: Vec<EdgeId>)
        requires
            g.wf(),
            x.len() == 1,
            g@.resnet50(
                tensors(conv_weights@),
                tensors(conv_biases@),
                fw,
                fb,
                num_layers as nat,
                x[0],
            ).0.ok,
        ensures
            final(g).wf(),
            (final(g)@, r@) == one_edge(
                old(g)@.resnet50(
                    tensors(conv_weights@),
                    tensors(conv_biases@),
                    fw,
                    fb,
                    num_layers as nat,
                    x[0],
                ),
            ),
        { list1(g.resnet50(&conv_weights, &conv_biases, fc_weight, fc_bias, num_layers, x[0])) }
}

/// The recipe of ResNet-50 without biases.
pub fn resnet50(
    conv_weights: Vec<Witness>,
    fc_weight: Witness,
    fc_bias: Option<Witness>,
    num_classes: usize,
    num_layers: usize,
) -> (f: impl FnOnce(&mut DagBuilder, &[EdgeId]) -> Vec<EdgeId>)
    ensures
        forall|g: &mut DagBuilder, x: &[EdgeId]|
            g.wf() && x.len() == 1 && g@.resnet50(
                tensors(conv_weights@),
                Seq::empty(),
                fc_weight@,
                tensor_of(fc_bias),
                num_layers as nat,
                x[0],
            ).0.ok ==> #[trigger] call_requires(f, (g, x)),
        forall|g: &mut DagBuilder, x: &[EdgeId], r: Vec<EdgeId>| #[trigger]
            call_ensures(f, (g, x), r) ==> final(g).wf() && (final(g)@, r@) == one_edge(
                g@.resnet50(
                    tensors(conv_weights@),
                    Seq::empty(),
                    fc_weight@,
                    tensor_of(fc_bias),
                    num_layers as nat,
                    x[0],
                ),
            ),
{
    let none: Vec<Witness> = Vec::new();
    assert(tensors(none@) =~= Seq::<Tensor>::empty());
    resnet50_with_biases(conv_weights, none, fc_weight, fc_bias, num_classes, num_layers)
}

} // verus!
