//! The weights of PointPillar, and the graphs of the detection and of the fusion in front of it.
use vstd::prelude::*;

use crate::dag::builder::{empty_graph, DagBuilder};
use crate::dag::builder_ops::list1;
use crate::dag::graph::Graph;
use crate::dag::graph_ops::group_ops_ok;
use crate::dag::pairs::pair_list;
use crate::dag::pointpillar::{all_convs, backbone_convs, head_convs, pointpillar, upsampling_convs, ConvP};
use crate::dag::types::EdgeId;
use crate::dag::witness::{DataType, Tensor, Witness};
use crate::plan::layers::{
    conv, conv_layer, linear, linear_layer, transposed, transposed_layer, LayerKind, LayerPlan,
};

verus! {

/// The first convolution of a block and `k` more.
pub open spec fn backbone_layers(c_in: usize, c_out: usize, k: nat, h: int, w: int) -> Seq<LayerPlan> {
    Seq::new(
        k + 1,
        |i: int|
            conv_layer(
                if i == 0 {
                    c_in
                } else {
                    c_out
                },
                c_out,
                3,
                h,
                w,
            ),
    )
}

/// The layers behind the backbone: four that bring the blocks to the size of the first, and three
/// heads. The first block has sides `h` and `w`, the last one `h3` and `w3`.
pub open spec fn pillar_tail(h: int, w: int, h3: int, w3: int, num_anchors: usize, num_classes: usize) -> Seq<
    LayerPlan,
> {
    seq![
        transposed_layer(64, 128, 1, h, w),
        transposed_layer(128, 256, 2, h, w),
        transposed_layer(256, 256, 2, h3 * 2, w3 * 2),
        transposed_layer(256, 256, 2, h, w),
        conv_layer(1024, (num_anchors * num_classes) as usize, 1, h, w),
        conv_layer(1024, (num_anchors * 7) as usize, 1, h, w),
        conv_layer(1024, (num_anchors * 2) as usize, 1, h, w),
    ]
}

/// All layers of the detection on a grid of `ny` by `nx`.
pub open spec fn pillar_layers(ny: int, nx: int, num_anchors: usize, num_classes: usize) -> Seq<LayerPlan> {
    let (h, w) = (ny / 2, nx / 2);
    let (h2, w2) = (h / 2, w / 2);
    let (h3, w3) = (h2 / 2, w2 / 2);
    seq![linear_layer(11, 64)] + backbone_layers(64, 64, 5, h, w) + backbone_layers(64, 128, 5, h2, w2)
        + backbone_layers(128, 256, 5, h3, w3) + pillar_tail(h, w, h3, w3, num_anchors, num_classes)
}

/// Adds the layers of a block.
fn push_block(layers: &mut Vec<LayerPlan>, c_in: usize, c_out: usize, h: usize, w: usize)
    ensures
        final(layers)@ == old(layers)@ + backbone_layers(c_in, c_out, 5, h as int, w as int),
{
    let ghost before = layers@;
    layers.push(conv(c_in, c_out, 3, h, w));
    let mut i: usize = 0;
    assert(layers@ =~= before + backbone_layers(c_in, c_out, 0, h as int, w as int));
    while i < 5
        invariant
            i <= 5,
            layers@ == before + backbone_layers(c_in, c_out, i as nat, h as int, w as int),
        decreases 5 - i,
    {
        layers.push(conv(c_out, c_out, 3, h, w));
        i = i + 1;
        assert(layers@ =~= before + backbone_layers(c_in, c_out, i as nat, h as int, w as int));
    }
}

/// The weights that the detection reads, in order, on a grid of `ny` by `nx`.
pub fn pillar_weight_plan(ny: usize, nx: usize, num_anchors: usize, num_classes: usize) -> (r: Vec<LayerPlan>)
    requires
        num_anchors * num_classes <= usize::MAX,
        num_anchors * 7 <= usize::MAX,
    ensures
        r@ == pillar_layers(ny as int, nx as int, num_anchors, num_classes),
        r.len() == 26,
{
    let (h, w): (usize, usize) = (ny / 2, nx / 2);
    let (h2, w2): (usize, usize) = (h / 2, w / 2);
    let (h3, w3): (usize, usize) = (h2 / 2, w2 / 2);
    let mut layers: Vec<LayerPlan> = Vec::new();
    layers.push(linear(11, 64));
    push_block(&mut layers, 64, 64, h, w);
    push_block(&mut layers, 64, 128, h2, w2);
    push_block(&mut layers, 128, 256, h3, w3);
    layers.push(transposed(64, 128, 1, h, w));
    layers.push(transposed(128, 256, 2, h, w));
    layers.push(transposed(256, 256, 2, h3 * 2, w3 * 2));
    layers.push(transposed(256, 256, 2, h, w));
    layers.push(conv(1024, num_anchors * num_classes, 1, h, w));
    layers.push(conv(1024, num_anchors * 7, 1, h, w));
    layers.push(conv(1024, num_anchors * 2, 1, h, w));
    assert(layers@ =~= pillar_layers(ny as int, nx as int, num_anchors, num_classes));
    layers
}

/// The channels and the kernels of layers, and which are transposed.
pub open spec fn pillar_convs(ls: Seq<LayerPlan>) -> Seq<ConvP> {
    ls.map_values(|l: LayerPlan| (l.c_in, l.c_out, l.kh, l.kw, l.kind == LayerKind::Transposed))
}

/// Behind the matrix that makes features of points, the weights are those of the convolutions of
/// the network, in order.
pub proof fn lemma_pillar_convs(ny: int, nx: int, num_anchors: usize, num_classes: usize)
    ensures
        pillar_convs(pillar_layers(ny, nx, num_anchors, num_classes).skip(1)) == all_convs(
            num_anchors,
            num_classes,
        ),
{
    let (h, w) = (ny / 2, nx / 2);
    let (h2, w2) = (h / 2, w / 2);
    let (h3, w3) = (h2 / 2, w2 / 2);
    let tail = pillar_tail(h, w, h3, w3, num_anchors, num_classes);
    assert(pillar_convs(backbone_layers(64, 64, 5, h, w)) =~= backbone_convs(64, 64, 5));
    assert(pillar_convs(backbone_layers(64, 128, 5, h2, w2)) =~= backbone_convs(64, 128, 5));
    assert(pillar_convs(backbone_layers(128, 256, 5, h3, w3)) =~= backbone_convs(128, 256, 5));
    assert(pillar_convs(tail) =~= upsampling_convs() + head_convs(num_anchors, num_classes));
    assert(pillar_layers(ny, nx, num_anchors, num_classes).skip(1) =~= backbone_layers(64, 64, 5, h, w)
        + backbone_layers(64, 128, 5, h2, w2) + backbone_layers(128, 256, 5, h3, w3) + tail);
    assert(pillar_convs(pillar_layers(ny, nx, num_anchors, num_classes).skip(1)) =~= all_convs(
        num_anchors,
        num_classes,
    ));
}

/// The detection on pillars of points with eleven features, and the places of the pillars.
pub open spec fn pillar_graph(
    ps: Seq<(Tensor, Tensor)>,
    ny: usize,
    nx: usize,
    n_pillars: usize,
    max_points: usize,
) -> (Graph, Seq<EdgeId>) {
    let (g, pillars) = empty_graph(0).input(seq![n_pillars, max_points, 11], DataType::Uint);
    let (g, coords) = g.input(seq![n_pillars, 2], DataType::Uint);
    g.pointpillar(ps, ny, nx, n_pillars, max_points, pillars, coords)
}

/// Builds the graph of the detection with the given weights and its inputs.
pub fn build_pointpillar(
    ny: usize,
    nx: usize,
    n_pillars: usize,
    max_points: usize,
    num_anchors: usize,
    num_classes: usize,
    all_weights: Vec<(Witness, Witness)>,
) -> (r: DagBuilder)
    requires
        pillar_graph(pair_list(all_weights@), ny, nx, n_pillars, max_points).0.ok,
    ensures
        r.wf(),
        r@ == pillar_graph(pair_list(all_weights@), ny, nx, n_pillars, max_points).0,
{
    let mut g: DagBuilder = DagBuilder::new();
    let points: Vec<usize> = vec![n_pillars, max_points, 11];
    assert(points@ =~= seq![n_pillars, max_points, 11]);
    let pillars: EdgeId = g.input(points, DataType::Uint);
    let places: Vec<usize> = vec![n_pillars, 2];
    assert(places@ =~= seq![n_pillars, 2]);
    let coords: EdgeId = g.input(places, DataType::Uint);
    let inlet: Vec<EdgeId> = vec![pillars, coords];
    let _output = g.pipe(
        inlet.as_slice(),
        pointpillar(all_weights, ny, nx, n_pillars, max_points, num_anchors, num_classes),
    );
    g
}

impl Graph {
    /// Painted points: the scores of the map at the pixels of the points, behind the features of
    /// the points.
    #[verifier::opaque]
    pub open spec fn painted(
        self,
        seg_map: EdgeId,
        pixel_coords: EdgeId,
        point_features: EdgeId,
        n_points: usize,
        num_classes: usize,
        seg_h: usize,
        seg_w: usize,
    ) -> (Graph, EdgeId) {
        let (g, gathered) = self.gather_from_grid(seg_map, pixel_coords, n_points, num_classes, seg_h, seg_w);
        let (g, feat_t) = g.einsum("pf->fp"@, seq![point_features], false);
        let (g, gathered_t) = g.einsum("pc->cp"@, seq![gathered], false);
        let (g, both) = g.general_concat(feat_t, gathered_t);
        g.einsum("fp->pf"@, seq![both], false)
    }
}

/// The fusion: a map of scores, the pixels of the points and their features come in, painted points
/// go out.
pub open spec fn fusion_graph(
    n_points: usize,
    num_classes: usize,
    base_features: usize,
    seg_h: usize,
    seg_w: usize,
) -> (Graph, EdgeId) {
    let (g, seg_map) = empty_graph(0).input(seq![num_classes, seg_h, seg_w], DataType::Uint);
    let (g, pixel_coords) = g.input(seq![n_points, 2], DataType::Uint);
    let (g, point_features) = g.input(seq![n_points, base_features], DataType::Uint);
    g.painted(seg_map, pixel_coords, point_features, n_points, num_classes, seg_h, seg_w)
}

/// Builds the graph of the fusion with its inputs.
pub fn build_fusion(
    n_points: usize,
    num_classes: usize,
    base_features: usize,
    seg_h: usize,
    seg_w: usize,
) -> (r: DagBuilder)
    requires
        fusion_graph(n_points, num_classes, base_features, seg_h, seg_w).0.ok,
    ensures
        r.wf(),
        r@ == fusion_graph(n_points, num_classes, base_features, seg_h, seg_w).0,
{
    broadcast use group_ops_ok;

    reveal(Graph::painted);
    let mut g: DagBuilder = DagBuilder::new();
    let map_shape: Vec<usize> = vec![num_classes, seg_h, seg_w];
    assert(map_shape@ =~= seq![num_classes, seg_h, seg_w]);
    let seg_map: EdgeId = g.input(map_shape, DataType::Uint);
    let places: Vec<usize> = vec![n_points, 2];
    assert(places@ =~= seq![n_points, 2]);
    let pixel_coords: EdgeId = g.input(places, DataType::Uint);
    let features: Vec<usize> = vec![n_points, base_features];
    assert(features@ =~= seq![n_points, base_features]);
    let point_features: EdgeId = g.input(features, DataType::Uint);
    let gathered: EdgeId = g.gather_from_grid(seg_map, pixel_coords, n_points, num_classes, seg_h, seg_w);
    let feat_t: EdgeId = g.einsum("pf->fp".to_string(), list1(point_features), false)[0];
    let gathered_t: EdgeId = g.einsum("pc->cp".to_string(), list1(gathered), false)[0];
    let both: EdgeId = g.general_concat(feat_t, gathered_t);
    let _output: EdgeId = g.einsum("fp->pf".to_string(), list1(both), false)[0];
    g
}

} // verus!
