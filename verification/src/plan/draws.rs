//! Weights and inputs at random.
use vstd::arithmetic::power2::*;
use vstd::prelude::*;

use crate::dag::witness::{clone_words, known, DataType, Role, Tensor, Witness};
use crate::field::GoldilocksField;
use crate::plan::layers::LayerPlan;
use crate::plan::layout::volume;
use crate::plan::transformers::make_weight;
use crate::plan::weights::{placeable, reduced, remainders, sizes};
use crate::util::arith::num_vars;

verus! {

/// A random number, from `rand::random`. It depends on chance, so nothing is said about it. The
/// program stops where the system has no source of randomness to seed the generator with.
#[verifier::external_body]
fn draw() -> (r: u32) {
    rand::random::<u32>()
}

/// Random numbers.
pub fn draws(n: usize) -> (r: Vec<u32>)
    ensures
        r.len() == n,
{
    let mut r: Vec<u32> = Vec::new();
    while r.len() < n
        invariant
            r.len() <= n,
        decreases n - r.len(),
    {
        r.push(draw());
    }
    r
}

/// Every word is below the bound.
pub open spec fn all_below(words: Seq<GoldilocksField>, bound: int) -> bool {
    forall|i: int| 0 <= i < words.len() ==> (#[trigger] words[i]).0 < bound
}

/// Remainders are below the bound.
pub proof fn lemma_remainders_below(ds: Seq<u32>, bound: int)
    requires
        0 < bound <= u32::MAX,
    ensures
        all_below(remainders(ds, bound), bound),
{
    assert forall|i: int| 0 <= i < ds.len() implies (#[trigger] remainders(ds, bound)[i]).0 < bound by {
        vstd::arithmetic::div_mod::lemma_mod_bound(ds[i] as int, bound);
    }
}

/// Random words below a bound.
pub fn random_words(size: usize, bound: u32) -> (r: Vec<GoldilocksField>)
    requires
        bound > 0,
    ensures
        r.len() == size,
        all_below(r@, bound as int),
{
    let ds: Vec<u32> = draws(size);
    proof {
        lemma_remainders_below(ds@, bound as int);
    }
    reduced(ds.as_slice(), bound)
}

/// Random words below `500`.
pub fn generate_random_field_vec(size: usize) -> (r: Vec<GoldilocksField>)
    ensures
        r.len() == size,
        all_below(r@, 500),
{
    random_words(size, 500)
}

/// Random weights and a random bias for a layer, below the given bounds; `None` where they do not
/// fit in memory.
pub fn random_layer(layer: &LayerPlan, bound: u32, bias_bound: u32) -> (r: Option<(Witness, Witness)>)
    requires
        bound > 0,
        bias_bound > 0,
    ensures
        r is Some <==> placeable(layer.dims()) && placeable(layer.bias_dims()),
        r matches Some(p) ==> drawn_for(*layer, bound as int, bias_bound as int, p),
{
    let entries: usize = match sizes(&layer.weight_shape()) {
        Some((n, _)) => n,
        None => {
            return None;
        },
    };
    if sizes(&layer.bias_shape()).is_none() {
        return None;
    }
    let words: Vec<GoldilocksField> = random_words(entries, bound);
    let bias: Vec<GoldilocksField> = random_words(layer.bias_channels(), bias_bound);
    let p: (Witness, Witness) = layer.generate(words.as_slice(), bias.as_slice());
    assert(random_for(*layer, bound as int, bias_bound as int, words@, bias@));
    assert((p.0@, p.1@) == layer.tensors(words@, bias@));
    Some(p)
}

/// As many words below the first bound as the layer has weights, and words below the second for its
/// bias.
pub open spec fn random_for(
    layer: LayerPlan,
    bound: int,
    bias_bound: int,
    words: Seq<GoldilocksField>,
    bias: Seq<GoldilocksField>,
) -> bool {
    &&& words.len() == volume(layer.dims())
    &&& all_below(words, bound)
    &&& bias.len() == layer.channels()
    &&& all_below(bias, bias_bound)
}

/// The pair holds weights and a bias that were drawn for the layer.
pub open spec fn drawn_for(layer: LayerPlan, bound: int, bias_bound: int, p: (Witness, Witness)) -> bool {
    exists|words: Seq<GoldilocksField>, bias: Seq<GoldilocksField>|
        random_for(layer, bound, bias_bound, words, bias) && (p.0@, p.1@) == #[trigger] layer.tensors(
            words,
            bias,
        )
}

/// The weights of all layers, in order; `None` where one does not fit in memory.
pub fn random_layers(layers: &Vec<LayerPlan>, bound: u32, bias_bound: u32) -> (r: Option<
    Vec<(Witness, Witness)>,
>)
    requires
        bound > 0,
        bias_bound > 0,
    ensures
        r is Some <==> forall|i: int|
            0 <= i < layers.len() ==> placeable((#[trigger] layers[i]).dims()) && placeable(
                layers[i].bias_dims(),
            ),
        r matches Some(ps) ==> ps.len() == layers.len() && forall|i: int|
            0 <= i < ps.len() ==> drawn_for(
                layers[i],
                bound as int,
                bias_bound as int,
                #[trigger] ps[i],
            ),
{
    let mut ps: Vec<(Witness, Witness)> = Vec::new();
    let mut i: usize = 0;
    while i < layers.len()
        invariant
            bound > 0,
            bias_bound > 0,
            i <= layers.len(),
            ps.len() == i,
            forall|k: int|
                0 <= k < i ==> placeable((#[trigger] layers[k]).dims()) && placeable(layers[k].bias_dims()),
            forall|k: int|
                0 <= k < i ==> drawn_for(
                    layers[k],
                    bound as int,
                    bias_bound as int,
                    #[trigger] ps[k],
                ),
        decreases layers.len() - i,
    {
        match random_layer(&layers[i], bound, bias_bound) {
            Some(p) => {
                ps.push(p);
            },
            None => {
                assert(!(placeable(layers[i as int].dims()) && placeable(layers[i as int].bias_dims())));
                return None;
            },
        }
        i = i + 1;
    }
    Some(ps)
}

/// The tensor holds scaled numbers below `500` that were drawn for the shape.
pub open spec fn drawn_weight(shape: Seq<usize>, sf_log: usize, t: Tensor) -> bool {
    exists|ds: Seq<u32>|
        ds.len() == pow2(num_vars(shape)) && t == #[trigger] known(
            shape,
            remainders(ds, 500),
            DataType::Float,
            sf_log,
            Role::Constant,
        )
}

/// A random weight of the given shape; `None` where it does not fit in memory.
pub fn random_weight(shape: &Vec<usize>, sf_log: usize) -> (r: Option<Witness>)
    ensures
        r is Some <==> placeable(shape@),
        r matches Some(t) ==> drawn_weight(shape@, sf_log, t@),
{
    match sizes(shape) {
        Some((_, size)) => {
            let ds: Vec<u32> = draws(size);
            Some(make_weight(clone_words(shape.as_slice()), ds.as_slice(), sf_log))
        },
        None => None,
    }
}

/// Random weights for every layer: a list for each shape, with a weight for each layer. `None` where
/// one does not fit in memory.
pub fn generate_layer_weights(shapes: &Vec<Vec<usize>>, num_layers: usize, sf_log: usize) -> (r: Option<
    Vec<Vec<Witness>>,
>)
    ensures
        r is Some <==> num_layers == 0 || forall|i: int|
            0 <= i < shapes.len() ==> placeable((#[trigger] shapes[i])@),
        r matches Some(cols) ==> {
            &&& cols.len() == shapes.len()
            &&& forall|i: int| 0 <= i < cols.len() ==> (#[trigger] cols[i]).len() == num_layers
            &&& forall|i: int, k: int|
                0 <= i < cols.len() && 0 <= k < num_layers ==> drawn_weight(
                    shapes[i]@,
                    sf_log,
                    (#[trigger] cols[i][k])@,
                )
        },
{
    let mut cols: Vec<Vec<Witness>> = Vec::new();
    let mut i: usize = 0;
    while i < shapes.len()
        invariant
            i <= shapes.len(),
            cols.len() == i,
            num_layers > 0 ==> forall|j: int| 0 <= j < i ==> placeable((#[trigger] shapes[j])@),
            forall|j: int| 0 <= j < i ==> (#[trigger] cols[j]).len() == num_layers,
            forall|j: int, k: int|
                0 <= j < i && 0 <= k < num_layers ==> drawn_weight(
                    shapes[j]@,
                    sf_log,
                    (#[trigger] cols[j][k])@,
                ),
        decreases shapes.len() - i,
    {
        let mut col: Vec<Witness> = Vec::new();
        while col.len() < num_layers
            invariant
                i < shapes.len(),
                col.len() <= num_layers,
                col.len() > 0 ==> placeable(shapes[i as int]@),
                forall|k: int|
                    0 <= k < col.len() ==> drawn_weight(shapes[i as int]@, sf_log, (#[trigger] col[k])@),
            decreases num_layers - col.len(),
        {
            match random_weight(&shapes[i], sf_log) {
                Some(t) => {
                    col.push(t);
                },
                None => {
                    assert(!placeable(shapes[i as int]@));
                    return None;
                },
            }
        }
        let ghost before = cols@;
        cols.push(col);
        assert forall|j: int, k: int| 0 <= j < i + 1 && 0 <= k < num_layers implies drawn_weight(
            shapes[j]@,
            sf_log,
            (#[trigger] cols[j][k])@,
        ) by {
            if j < i {
                assert(cols[j] == before[j]);
                assert(drawn_weight(shapes[j]@, sf_log, before[j][k]@));
            } else {
                assert(drawn_weight(shapes[i as int]@, sf_log, col[k]@));
            }
        }
        i = i + 1;
    }
    Some(cols)
}

} // verus!
