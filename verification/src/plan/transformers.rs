//! The weights of transformers.
use vstd::prelude::*;

use crate::dag::witness::{fits, known, DataType, Role, Witness};
use crate::plan::weights::{reduced, remainders};

verus! {

/// Sides of Llama 2 with 7 billion weights: width, width of keys and values, width of the gated
/// layer, words.
pub const LLAMA2_7B: (usize, usize, usize, usize) = (4096, 4096, 11008, 32000);

/// The same of Llama 3 with 8 billion weights.
pub const LLAMA3_8B: (usize, usize, usize, usize) = (4096, 1024, 14336, 128256);

/// Width of GPT-J with 6 billion weights, and of its dense layer.
pub const GPTJ_6B: (usize, usize) = (4096, 16384);

/// Width of GPT-2, and of its dense layer.
pub const GPT2: (usize, usize) = (768, 3072);

/// A list of shapes.
pub open spec fn shape_list(s: Seq<Vec<usize>>) -> Seq<Seq<usize>> {
    s.map_values(|v: Vec<usize>| v@)
}

/// Adds the shape of a vector.
fn push_vector(list: &mut Vec<Vec<usize>>, a: usize)
    ensures
        shape_list(final(list)@) == shape_list(old(list)@).push(seq![a]),
{
    let ghost before = shape_list(list@);
    let v: Vec<usize> = vec![a];
    assert(v@ =~= seq![a]);
    list.push(v);
    assert(shape_list(list@) =~= before.push(seq![a]));
}

/// Adds the shape of a matrix.
fn push_matrix(list: &mut Vec<Vec<usize>>, a: usize, b: usize)
    ensures
        shape_list(final(list)@) == shape_list(old(list)@).push(seq![a, b]),
{
    let ghost before = shape_list(list@);
    let v: Vec<usize> = vec![a, b];
    assert(v@ =~= seq![a, b]);
    list.push(v);
    assert(shape_list(list@) =~= before.push(seq![a, b]));
}

/// A constant of scaled numbers, one draw below `500` for every place of the padded tensor.
pub fn make_weight(shape: Vec<usize>, draws: &[u32], sf_log: usize) -> (r: Witness)
    requires
        fits(shape@, draws@.len()),
    ensures
        r@ == known(shape@, remainders(draws@, 500), DataType::Float, sf_log, Role::Constant),
{
    Witness::new(shape, reduced(draws, 500), DataType::Float, sf_log, Role::Constant)
}

/// The same for integers.
pub fn make_uint_weight(shape: Vec<usize>, draws: &[u32]) -> (r: Witness)
    requires
        fits(shape@, draws@.len()),
    ensures
        r@ == known(shape@, remainders(draws@, 500), DataType::Uint, 0, Role::Constant),
{
    Witness::new(shape, reduced(draws, 500), DataType::Uint, 0, Role::Constant)
}

/// Shapes of the weights of a layer of Llama: the norm and the four projections of the
/// attention, then the norm and the three matrices of the gated layer.
pub open spec fn llama_shapes(hidden: usize, kv: usize, ffn: usize) -> Seq<Seq<usize>> {
    seq![
        seq![hidden],
        seq![hidden, hidden],
        seq![hidden, kv],
        seq![hidden, kv],
        seq![hidden, hidden],
        seq![hidden],
        seq![hidden, ffn],
        seq![hidden, ffn],
        seq![ffn, hidden],
    ]
}

/// Shapes of the weights of a layer of Llama: the norm and the four projections of the
/// attention, then the norm and the three matrices of the gated layer.
pub fn llama_layer_shapes(hidden: usize, kv: usize, ffn: usize) -> (r: Vec<Vec<usize>>)
    ensures
        shape_list(r@) == llama_shapes(hidden, kv, ffn),
        r.len() == 9,
{
    let mut r: Vec<Vec<usize>> = Vec::new();
    push_vector(&mut r, hidden);
    push_matrix(&mut r, hidden, hidden);
    push_matrix(&mut r, hidden, kv);
    push_matrix(&mut r, hidden, kv);
    push_matrix(&mut r, hidden, hidden);
    push_vector(&mut r, hidden);
    push_matrix(&mut r, hidden, ffn);
    push_matrix(&mut r, hidden, ffn);
    push_matrix(&mut r, ffn, hidden);
    assert(shape_list(r@) =~= llama_shapes(hidden, kv, ffn));
    r
}

/// Shapes of the weights of a layer of GPT-J: the norm, the four projections, the shift of the
/// norm, then the two matrices of the dense layer and their biases.
pub open spec fn gptj_shapes(hidden: usize, ffn: usize) -> Seq<Seq<usize>> {
    seq![
        seq![hidden],
        seq![hidden, hidden],
        seq![hidden, hidden],
        seq![hidden, hidden],
        seq![hidden, hidden],
        seq![hidden],
        seq![hidden, ffn],
        seq![ffn, hidden],
        seq![ffn],
        seq![hidden],
    ]
}

/// Shapes of the weights of a layer of GPT-J: the norm, the four projections, the shift of the
/// norm, then the two matrices of the dense layer and their biases.
pub fn gptj_layer_shapes(hidden: usize, ffn: usize) -> (r: Vec<Vec<usize>>)
    ensures
        shape_list(r@) == gptj_shapes(hidden, ffn),
        r.len() == 10,
{
    let mut r: Vec<Vec<usize>> = Vec::new();
    push_vector(&mut r, hidden);
    push_matrix(&mut r, hidden, hidden);
    push_matrix(&mut r, hidden, hidden);
    push_matrix(&mut r, hidden, hidden);
    push_matrix(&mut r, hidden, hidden);
    push_vector(&mut r, hidden);
    push_matrix(&mut r, hidden, ffn);
    push_matrix(&mut r, ffn, hidden);
    push_vector(&mut r, ffn);
    push_vector(&mut r, hidden);
    assert(shape_list(r@) =~= gptj_shapes(hidden, ffn));
    r
}

/// Shapes of the weights of a layer of GPT-2: the norm, the four projections, the shift of the
/// norm and the biases of the projections, then the same for the dense layer.
pub open spec fn gpt2_shapes(hidden: usize, ffn: usize) -> Seq<Seq<usize>> {
    seq![
        seq![hidden],
        seq![hidden, hidden],
        seq![hidden, hidden],
        seq![hidden, hidden],
        seq![hidden, hidden],
        seq![hidden],
        seq![hidden],
        seq![hidden],
        seq![hidden],
        seq![hidden],
        seq![hidden],
        seq![hidden, ffn],
        seq![ffn, hidden],
        seq![hidden],
        seq![ffn],
        seq![hidden],
    ]
}

/// Shapes of the weights of a layer of GPT-2: the norm, the four projections, the shift of the
/// norm and the biases of the projections, then the same for the dense layer.
pub fn gpt2_layer_shapes(hidden: usize, ffn: usize) -> (r: Vec<Vec<usize>>)
    ensures
        shape_list(r@) == gpt2_shapes(hidden, ffn),
        r.len() == 16,
{
    let mut r: Vec<Vec<usize>> = Vec::new();
    push_vector(&mut r, hidden);
    push_matrix(&mut r, hidden, hidden);
    push_matrix(&mut r, hidden, hidden);
    push_matrix(&mut r, hidden, hidden);
    push_matrix(&mut r, hidden, hidden);
    push_vector(&mut r, hidden);
    push_vector(&mut r, hidden);
    push_vector(&mut r, hidden);
    push_vector(&mut r, hidden);
    push_vector(&mut r, hidden);
    push_vector(&mut r, hidden);
    push_matrix(&mut r, hidden, ffn);
    push_matrix(&mut r, ffn, hidden);
    push_vector(&mut r, hidden);
    push_vector(&mut r, ffn);
    push_vector(&mut r, hidden);
    assert(shape_list(r@) =~= gpt2_shapes(hidden, ffn));
    r
}

/// Shapes of the weights of a block of the encoder of Whisper: the norm, the projections and
/// their biases, then the norm and the two layers with their biases.
pub open spec fn encoder_shapes(n_state: usize, mlp_dim: usize) -> Seq<Seq<usize>> {
    seq![
        seq![n_state],
        seq![n_state],
        seq![n_state, n_state],
        seq![n_state, n_state],
        seq![n_state, n_state],
        seq![n_state, n_state],
        seq![n_state],
        seq![n_state],
        seq![n_state],
        seq![n_state],
        seq![n_state],
        seq![n_state],
        seq![n_state, mlp_dim],
        seq![mlp_dim, n_state],
        seq![mlp_dim],
        seq![n_state],
    ]
}

/// Shapes of the weights of a block of the encoder of Whisper: the norm, the projections and
/// their biases, then the norm and the two layers with their biases.
pub fn encoder_block_shapes(n_state: usize, mlp_dim: usize) -> (r: Vec<Vec<usize>>)
    ensures
        shape_list(r@) == encoder_shapes(n_state, mlp_dim),
        r.len() == 16,
{
    let mut r: Vec<Vec<usize>> = Vec::new();
    push_vector(&mut r, n_state);
    push_vector(&mut r, n_state);
    push_matrix(&mut r, n_state, n_state);
    push_matrix(&mut r, n_state, n_state);
    push_matrix(&mut r, n_state, n_state);
    push_matrix(&mut r, n_state, n_state);
    push_vector(&mut r, n_state);
    push_vector(&mut r, n_state);
    push_vector(&mut r, n_state);
    push_vector(&mut r, n_state);
    push_vector(&mut r, n_state);
    push_vector(&mut r, n_state);
    push_matrix(&mut r, n_state, mlp_dim);
    push_matrix(&mut r, mlp_dim, n_state);
    push_vector(&mut r, mlp_dim);
    push_vector(&mut r, n_state);
    assert(shape_list(r@) =~= encoder_shapes(n_state, mlp_dim));
    r
}

/// Shapes of the weights of a block of the decoder of Whisper: norm, projections and biases of
/// the attention to itself and of that to the encoder, then the norm and the two layers with
/// their biases.
pub open spec fn decoder_shapes(n_state: usize, mlp_dim: usize) -> Seq<Seq<usize>> {
    seq![
        seq![n_state],
        seq![n_state],
        seq![n_state, n_state],
        seq![n_state, n_state],
        seq![n_state, n_state],
        seq![n_state, n_state],
        seq![n_state],
        seq![n_state],
        seq![n_state],
        seq![n_state],
        seq![n_state],
        seq![n_state],
        seq![n_state, n_state],
        seq![n_state, n_state],
        seq![n_state, n_state],
        seq![n_state, n_state],
        seq![n_state],
        seq![n_state],
        seq![n_state],
        seq![n_state],
        seq![n_state],
        seq![n_state],
        seq![n_state, mlp_dim],
        seq![mlp_dim, n_state],
        seq![mlp_dim],
        seq![n_state],
    ]
}

/// Shapes of the weights of a block of the decoder of Whisper: norm, projections and biases of
/// the attention to itself and of that to the encoder, then the norm and the two layers with
/// their biases.
pub fn decoder_block_shapes(n_state: usize, mlp_dim: usize) -> (r: Vec<Vec<usize>>)
    ensures
        shape_list(r@) == decoder_shapes(n_state, mlp_dim),
        r.len() == 26,
{
    let mut r: Vec<Vec<usize>> = Vec::new();
    push_vector(&mut r, n_state);
    push_vector(&mut r, n_state);
    push_matrix(&mut r, n_state, n_state);
    push_matrix(&mut r, n_state, n_state);
    push_matrix(&mut r, n_state, n_state);
    push_matrix(&mut r, n_state, n_state);
    push_vector(&mut r, n_state);
    push_vector(&mut r, n_state);
    push_vector(&mut r, n_state);
    push_vector(&mut r, n_state);
    push_vector(&mut r, n_state);
    push_vector(&mut r, n_state);
    push_matrix(&mut r, n_state, n_state);
    push_matrix(&mut r, n_state, n_state);
    push_matrix(&mut r, n_state, n_state);
    push_matrix(&mut r, n_state, n_state);
    push_vector(&mut r, n_state);
    push_vector(&mut r, n_state);
    push_vector(&mut r, n_state);
    push_vector(&mut r, n_state);
    push_vector(&mut r, n_state);
    push_vector(&mut r, n_state);
    push_matrix(&mut r, n_state, mlp_dim);
    push_matrix(&mut r, mlp_dim, n_state);
    push_vector(&mut r, mlp_dim);
    push_vector(&mut r, n_state);
    assert(shape_list(r@) =~= decoder_shapes(n_state, mlp_dim));
    r
}

} // verus!
