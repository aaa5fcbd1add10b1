//! Graphs of networks.
use zk_torch::dag::deeplabv3plus::{
    deeplabv3plus_backbone_output_channels, deeplabv3plus_conv_configs, deeplabv3plus_num_convs,
};
use zk_torch::dag::block::BasicBlockType;
use zk_torch::dag::generate::{generate, has_scores};
use zk_torch::dag::gptj::{gptj_attention, gptj_layer_norm, gptj_mlp};
use zk_torch::dag::llama::{
    llama3_attention, llama_attention, llama_mlp, llama_rms_norm, rope_layout,
};
use zk_torch::dag::oneshot::{check_shift, extract_argmax_all, extract_argmax_at, place_token};
use zk_torch::dag::pointpillar::pointpillar_conv_configs;
use zk_torch::dag::resnet::{resnet50, resnet50_conv_configs, resnet50_num_convs, resnet50_output_shape};
use zk_torch::dag::transformer::{pair_swap_perm_matrix, pow2_word};
use zk_torch::dag::unet3d::{
    unet3d, unet3d_conv_configs, unet3d_instancenorm_configs, unet3d_num_convs, unet3d_output_shape,
};
use zk_torch::dag::{
    gpt_j_6b, llama3_8b, llama_2_7b, vgg11, vgg11_output_shape, vgg_output_shape, Dag, DagBuilder, DataType,
    Role, Witness,
};
use zk_torch::plan::convnets::unet_weight_plan;
use zk_torch::plan::deeplab::{build_deeplabv3plus, deeplab_weight_plan};
use zk_torch::plan::draws::{
    draws, generate_layer_weights, generate_random_field_vec, random_layers, random_words,
};
use zk_torch::plan::layers::conv;
use zk_torch::plan::pillars::{build_pointpillar, pillar_weight_plan};
use zk_torch::plan::transformers::{gptj_layer_shapes, llama_layer_shapes, make_weight};
use zk_torch::plan::weights::{
    generate_conv3d_weight, generate_conv_weight, generate_fc_bias, generate_fc_weight,
    generate_instancenorm_params, sizes,
};
use zk_torch::dag::schedule::pools_for;
use zk_torch::dag::schedule::pools_here;
use zk_torch::{DenseMLPoly, GoldilocksField, MLPoly, GOLDILOCKS_PRIME};

fn gl(v: &[u64]) -> Vec<GoldilocksField> {
    v.iter().map(|&x| GoldilocksField(x)).collect()
}

fn weight(shape: Vec<usize>) -> Witness {
    let (_, size) = sizes(&shape).unwrap();
    make_weight(shape, &draws(size), 4)
}

fn fc(i: usize, o: usize) -> (Witness, Witness) {
    (generate_fc_weight(i, o, &random_words(i * o, 500)), generate_fc_bias(&random_words(o, 100)))
}

#[test]
fn vgg_output_shapes() {
    assert_eq!(vgg11_output_shape(1), (64, 16));
    assert_eq!(vgg11_output_shape(8), (512, 1));
    assert_eq!(vgg_output_shape(1), (64, 32));
    assert_eq!(vgg_output_shape(2), (64, 16));
    assert_eq!(vgg_output_shape(13), (512, 1));
}

#[test]
fn vgg_builds() {
    let conv = generate_conv_weight(3, 64, 3, 3, &random_words(64 * 27, 500));
    let bias = Witness::new(vec![64, 32, 32], vec![], DataType::Uint, 0, Role::Constant);
    let (w, b): (Vec<_>, Vec<_>) = [(64 * 16 * 16, 2), (2, 2), (2, 10)].iter().map(|&(i, o)| fc(i, o)).unzip();
    let mut g = DagBuilder::new();
    let x = g.input(vec![3, 32, 32], DataType::Uint);
    let out = g.pipe(&[x], vgg11(vec![conv], vec![bias], w, b));
    assert_eq!(g.shape_of(out[0]), vec![10]);
}

#[test]
fn resnet_tables() {
    assert_eq!(resnet50_num_convs(), 53);
    let configs = resnet50_conv_configs();
    assert_eq!(configs[0], (3, 64, 7, 7));
    assert_eq!(configs.len(), 53);
    assert_eq!(resnet50_output_shape(53).0, 2048);
}

#[test]
fn resnet_builds() {
    let w = generate_conv_weight(3, 64, 7, 7, &random_words(64 * 3 * 49, 500));
    let (out_c, _) = resnet50_output_shape(1);
    let (fw, fb) = fc(out_c, 10);
    let mut g = DagBuilder::new();
    let x = g.input(vec![3, 32, 32], DataType::Uint);
    let out = g.pipe(&[x], resnet50(vec![w], fw, Some(fb), 10, 1));
    assert_eq!(g.shape_of(out[0]), vec![10]);
}

#[test]
fn unet_tables() {
    assert_eq!(unet3d_num_convs(), unet3d_conv_configs().len());
    assert_eq!(unet3d_conv_configs()[0], (1, 32, 3, 3, 3));
    assert_eq!(unet3d_instancenorm_configs().len(), 22);
    assert_eq!(unet3d_output_shape(6, 16, 8, 4), (3, 16, 8, 4));
}

#[test]
fn unet_builds() {
    let plan = unet_weight_plan(2);
    let kernel = |&(a, b, k): &(usize, usize, usize)| {
        generate_conv3d_weight(a, b, k, k, k, &random_words(a * b * k * k * k, 100))
    };
    let (gammas, betas) =
        plan.norms.iter().map(|&c| generate_instancenorm_params(&draws(c), &draws(c))).unzip();
    let mut g = DagBuilder::new();
    let x = g.input(vec![1, 4, 4, 4], DataType::Uint);
    let out = g.pipe(
        &[x],
        unet3d(
            plan.convs.iter().map(kernel).collect(),
            plan.transposed.iter().map(kernel).collect(),
            gammas,
            betas,
            None,
            2,
            (1e-5f64).to_bits(),
        ),
    );
    assert_eq!(g.shape_of(out[0]), vec![3, 4, 4, 4]);
}

#[test]
fn deeplab_counts() {
    assert_eq!(deeplabv3plus_num_convs(3, 5), 15);
    assert_eq!(deeplabv3plus_backbone_output_channels(3), 64);
    assert_eq!(deeplabv3plus_backbone_output_channels(4), 256);
    assert_eq!(deeplabv3plus_backbone_output_channels(1000), 2048);
    assert_eq!(pointpillar_conv_configs(16, 16, 2, 5).len(), 25);
}

#[test]
fn deeplab_builds() {
    let weights = random_layers(&deeplab_weight_plan(3, 32, 32, 5), 100, 50).unwrap();
    let g = build_deeplabv3plus(3, 32, 32, 5, weights);
    let (dag, witnesses) = g.compile();
    assert!(dag.output_ports.iter().any(|&e| witnesses[e][0].shape == vec![5, 16, 16]));
}

#[test]
fn pillars_build() {
    let weights = random_layers(&pillar_weight_plan(16, 16, 2, 5), 100, 50).unwrap();
    let g = build_pointpillar(16, 16, 4, 4, 2, 5, weights);
    let (dag, _) = g.compile();
    assert_eq!(dag.input_ports.len(), 2);
    assert!(dag.nodes.len() > 25);
}

#[test]
fn llama_builds() {
    let (hidden, ffn, vocab, seq) = (8, 16, 32000, 1);
    let mut cols = llama_layer_shapes(hidden, hidden, ffn).into_iter().map(|s| vec![weight(s)]);
    let mut next = || cols.next().unwrap();
    let (n1, q, k, v, o) = (next(), next(), next(), next(), next());
    let (n2, p1, p2, p3) = (next(), next(), next(), next());
    let mut g = DagBuilder::with_scale(4);
    let x = g.input(vec![1, seq, hidden], DataType::Float);
    let out = g.pipe(
        &[x],
        llama_2_7b(
            n1,
            q,
            k,
            v,
            o,
            n2,
            p1,
            p2,
            p3,
            weight(vec![hidden]),
            weight(vec![hidden, vocab]),
            weight(vec![seq, 4]),
            weight(vec![seq, 4]),
            2,
            4,
            seq,
            8,
        ),
    );
    assert_eq!(g.shape_of(out[0]), vec![1, vocab]);
}

#[test]
fn llama3_builds() {
    let (hidden, kv, ffn, vocab, seq) = (16, 8, 16, 32, 2);
    let mut cols = llama_layer_shapes(hidden, kv, ffn).into_iter().map(|s| vec![weight(s)]);
    let mut next = || cols.next().unwrap();
    let (n1, q, k, v, o) = (next(), next(), next(), next(), next());
    let (n2, p1, p2, p3) = (next(), next(), next(), next());
    let mut g = DagBuilder::with_scale(4);
    let x = g.input(vec![1, seq, hidden], DataType::Float);
    let out = g.pipe(
        &[x],
        llama3_8b(
            n1,
            q,
            k,
            v,
            o,
            n2,
            p1,
            p2,
            p3,
            weight(vec![hidden]),
            weight(vec![hidden, vocab]),
            weight(vec![seq, 4]),
            weight(vec![seq, 4]),
            seq,
            4,
            4,
            2,
            vocab,
            8,
        ),
    );
    assert!(g.shape_of(out[0]).contains(&vocab));
}

#[test]
fn gptj_builds() {
    let (hidden, ffn, vocab, seq) = (8, 16, 32, 2);
    let mut cols = gptj_layer_shapes(hidden, ffn).into_iter().map(|s| vec![weight(s)]);
    let mut next = || cols.next().unwrap();
    let (n, q, k, v, o) = (next(), next(), next(), next(), next());
    let (nb, p1, p2, b1, b2) = (next(), next(), next(), next(), next());
    let mut g = DagBuilder::with_scale(4);
    let x = g.input(vec![1, seq, hidden], DataType::Float);
    let out = g.pipe(
        &[x],
        gpt_j_6b(
            n,
            q,
            k,
            v,
            o,
            nb,
            p1,
            p2,
            b1,
            b2,
            weight(vec![hidden]),
            weight(vec![hidden]),
            weight(vec![hidden, vocab]),
            weight(vec![vocab]),
            weight(vec![seq, 4]),
            weight(vec![seq, 4]),
            2,
            4,
            seq,
            8,
            27,
        ),
    );
    assert_eq!(g.shape_of(out[0]), vec![1, seq, vocab]);
}

#[test]
fn swaps_and_powers() {
    let m = pair_swap_perm_matrix(4);
    assert_eq!(m.len(), 16);
    let ones: Vec<usize> = (0..16).filter(|&k| m[k].0 == 1).collect();
    assert_eq!(ones, vec![1, 4, 11, 14]);
    assert_eq!(pow2_word(5), 32);
}

#[test]
fn rotations_are_laid_out() {
    // two pairs, three positions
    let even = vec![1, 2, 3, 4, 5, 6];
    let odd = vec![-1, -2, -3, -4, -5, -6];
    let p = GOLDILOCKS_PRIME;
    let r: Vec<u64> = rope_layout(4, 3, &even, &odd).iter().map(|x| x.0).collect();
    assert_eq!(r, vec![1, 2, 3, 0, p - 1, p - 2, p - 3, 0, 4, 5, 6, 0, p - 4, p - 5, p - 6, 0]);
}

#[test]
fn selectors_pick_rows() {
    let s = DagBuilder::build_one_hot_selector(2, 4, &[3, 1]);
    assert_eq!(s.shape, vec![2, 4]);
    let words: Vec<u64> = s.data.as_ref().unwrap().evaluations().iter().map(|x| x.0).collect();
    assert_eq!(words, vec![0, 0, 0, 1, 0, 0, 1, 0]);
}

#[test]
fn best_tokens() {
    // scores of four tokens at two positions; the second token wins at 0, the first at 1
    let scores = gl(&[1, 9, 5, 8, GOLDILOCKS_PRIME - 3, 2, 5, 2]);
    let ws = vec![vec![Witness::new(vec![2, 4], scores, DataType::Float, 0, Role::Output)]];
    assert_eq!(extract_argmax_at(&ws, 0, 0, 2, 4), 1);
    assert_eq!(extract_argmax_all(&ws, 0, 2, 4), vec![1, 0]);
}

#[test]
fn shifts_are_checked() {
    assert!(check_shift(&[7, 3, 4, 5], &[9, 4, 5, 0], 2));
    assert!(!check_shift(&[7, 3, 4, 5], &[9, 4, 6, 0], 2));
    assert!(check_shift(&[7], &[9], 1));
}

#[test]
fn tokens_are_placed() {
    let mut ws = vec![vec![DagBuilder::build_one_hot_selector(2, 4, &[3, 0])]];
    let mut tokens = vec![3, 0];
    place_token(&mut ws, 0, &mut tokens, 1, 2, 4);
    assert_eq!(tokens, vec![3, 2]);
    let expected = DagBuilder::build_one_hot_selector(2, 4, &[3, 2]);
    assert_eq!(
        ws[0][0].data.as_ref().unwrap().evaluations(),
        expected.data.as_ref().unwrap().evaluations()
    );
}

#[test]
fn embedding_and_scores() {
    let (seq, vocab, hidden) = (2, 4, 8);
    let mut g = DagBuilder::with_scale(4);
    let w_e = g.param(weight(vec![vocab, hidden]));
    let (h0, s) = g.embedding_lookup(w_e, seq, vocab, &[1, 3]);
    assert_eq!(g.shape_of(h0), vec![seq, hidden]);
    assert_eq!(g.shape_of(s), vec![seq, vocab]);
    let h = g.change_shape(h0, vec![1, seq, hidden]);
    let logits = g.lm_head_weight_tied(h, w_e, seq, vocab);
    assert_eq!(g.shape_of(logits), vec![seq, vocab]);
    let own = g.param(weight(vec![hidden, vocab]));
    let logits = g.lm_head(h, own, seq, vocab);
    assert_eq!(g.shape_of(logits), vec![seq, vocab]);
    let sel = g.argmax_check(logits, seq, vocab, &[0, 0]);
    assert_eq!(g.shape_of(sel), vec![seq, vocab]);
    let (dag, _) = g.compile();
    assert_eq!(dag.range.len() > 0, true);
}

#[test]
fn random_words_are_small_and_differ() {
    let a = generate_random_field_vec(200);
    assert_eq!(a.len(), 200);
    assert!(a.iter().all(|x| x.0 < 500));
    assert!(a.iter().any(|x| *x != a[0]));
}

#[test]
fn layer_weights_have_their_shapes() {
    let shapes = llama_layer_shapes(8, 4, 16);
    let cols = generate_layer_weights(&shapes, 3, 6).unwrap();
    assert_eq!(cols.len(), 9);
    assert!(cols.iter().zip(&shapes).all(|(c, s)| c.len() == 3 && c.iter().all(|w| w.shape == *s && w.sf == 6)));
    assert!(generate_layer_weights(&vec![vec![1 << 40, 1 << 40]], 1, 6).is_none());
    let words = cols[1][2].data.as_ref().unwrap().evaluations();
    assert!(words.len() == 64 && words.iter().all(|w| w.0 < 500));
    let (w, b) = random_layers(&vec![conv(2, 2, 3, 2, 2)], 7, 3).unwrap().remove(0);
    assert!(w.data.as_ref().unwrap().evaluations().iter().all(|x| x.0 < 7));
    assert!(b.data.as_ref().unwrap().evaluations().iter().all(|x| x.0 < 3));
}

#[test]
fn pools() {
    assert_eq!(pools_for(64, None, 2, 12), Some((24, 40)));
    assert_eq!(pools_for(24, None, 2, 12), Some((24, 1)));
    assert_eq!(pools_for(8, Some(9), 2, 12), None);
    assert_eq!(pools_for(8, None, 0, 12), Some((1, 7)));
    let (device, host) = pools_here(Some(1), 1, 1).unwrap();
    assert!(device == 1 && host >= 1);
    assert!(pools_here(Some(usize::MAX), 1, 1).is_none());
}

#[test]
fn parts_of_transformers_build() {
    let (hidden, ffn, seq) = (8, 16, 2);
    let mut g = DagBuilder::with_scale(4);
    let x = g.input(vec![1, seq, hidden], DataType::Float);
    let norm = g.param(weight(vec![hidden]));
    let shift = g.param(weight(vec![hidden]));
    let square: Vec<_> = (0..4).map(|_| g.param(weight(vec![hidden, hidden]))).collect();
    let cos = g.param(weight(vec![seq, 4]));
    let sin = g.param(weight(vec![seq, 4]));
    let up = g.param(weight(vec![hidden, ffn]));
    let gate = g.param(weight(vec![hidden, ffn]));
    let down = g.param(weight(vec![ffn, hidden]));
    let up_bias = g.param(weight(vec![ffn]));
    let same = vec![1, seq, hidden];

    let y = g.pipe(&[x], gptj_layer_norm(norm, shift));
    assert_eq!(g.shape_of(y[0]), same);
    let y = g.pipe(&[x], gptj_mlp(up, down, up_bias, shift, 27));
    assert_eq!(g.shape_of(y[0]), same);
    let y = g.pipe(
        &[x],
        gptj_attention(square[0], square[1], square[2], square[3], 2, 4, seq, cos, sin, 8),
    );
    assert_eq!(g.shape_of(y[0]), same);
    let y = g.pipe(&[x], llama_mlp(up, gate, down));
    assert_eq!(g.shape_of(y[0]), same);
    let y = g.pipe(
        &[x],
        llama_attention(square[0], square[1], square[2], square[3], 2, 4, seq, cos, sin, 8),
    );
    assert_eq!(g.shape_of(y[0]), same);
    let kv: Vec<_> = (0..2).map(|_| g.param(weight(vec![hidden, 4]))).collect();
    let y = g.pipe(
        &[x],
        llama3_attention(square[0], kv[0], kv[1], square[3], cos, sin, 2, 1, 4, seq, 8),
    );
    assert_eq!(g.shape_of(y[0]), same);

    let one = g.input(vec![1, 1, hidden], DataType::Float);
    let y = g.pipe(&[one], llama_rms_norm(norm));
    assert_eq!(g.shape_of(y[0]), vec![1, 1, hidden]);
    let heads = g.input(vec![1, seq, 2, 4], DataType::Float);
    let y = g.rope_with_vecs(heads, cos, sin);
    assert_eq!(g.shape_of(y[0]), vec![1, seq, 2, 4]);
    let h0 = g.input(vec![seq, hidden], DataType::Float);
    let y = g.add_positional_encoding(h0, weight(vec![seq, hidden]));
    assert_eq!(g.shape_of(y), vec![seq, hidden]);
}

#[test]
fn convolutions_along_a_line() {
    let mut g = DagBuilder::new();
    let x = g.input(vec![4, 16], DataType::Uint);
    let w = g.param(Witness::new(vec![2, 4, 3], vec![], DataType::Uint, 0, Role::Constant));
    let y = g.conv1d(x, w, 3);
    assert_eq!(g.shape_of(y[0]), vec![2, 14]);
    let y = g.conv1d_strided(x, w, 3, 2);
    assert_eq!(g.shape_of(y[0]), vec![2, 7]);
    let p = g.pad1d(x, 1, 2);
    assert_eq!(g.shape_of(p), vec![4, 19]);
}

#[test]
fn polynomials_become_tensors() {
    let poly = DenseMLPoly::new(1, gl(&[4, 5]));
    let w = Witness::new_dense_poly(vec![2], poly, DataType::Int, 3, Role::Output);
    assert_eq!((w.sf, w.data_type, w.role), (3, DataType::Int, Role::Output));
    assert_eq!(w.data.as_ref().unwrap().evaluations(), gl(&[4, 5]));
}

#[test]
fn deeplab_backbones_grow_by_whole_units() {
    // eleven convolutions follow the backbone
    let size = |n: usize| deeplabv3plus_conv_configs(n).len() - 11;
    assert_eq!(size(0), 3);
    assert_eq!(size(3), 3);
    assert_eq!(size(106), 106);
    assert_eq!(size(1000), 106);
    for n in 4..106 {
        assert!(n <= size(n) && size(n) <= n + 3);
    }
    let (small, large) = (deeplabv3plus_conv_configs(20), deeplabv3plus_conv_configs(60));
    assert_eq!(large[..size(20)], small[..size(20)]);
}

/// A graph whose scores are its selector times a table.
fn scorer(seq_len: usize, vocab: usize, tokens: &[usize]) -> (Dag, Vec<Vec<Witness>>, usize, usize) {
    let mut g = DagBuilder::new();
    let selector = g.param(DagBuilder::build_one_hot_selector(seq_len, vocab, tokens));
    let zeros = Witness::new(vec![seq_len, vocab], vec![], DataType::Float, 0, Role::Input);
    let x = g.input(vec![seq_len, vocab], DataType::Float);
    let scores = g.add(selector, x)[0];
    let (dag, mut witnesses) = g.compile();
    witnesses[x] = vec![zeros];
    (dag, witnesses, scores, selector)
}

/// The token after `t` scores best at the position of `t`.
fn next_best(_: &BasicBlockType, inputs: &Vec<Witness>) -> Vec<Witness> {
    let words = inputs[0].data.as_ref().unwrap().evaluations();
    let (rows, cols) = (4, 8);
    let mut scores = vec![0; rows * cols];
    for k in 0..rows * cols {
        if words[k].0 == 1 {
            let (i, v) = (k % rows, k / rows);
            scores[i + rows * ((v + 1) % 5)] = 7;
        }
    }
    vec![Witness::new(vec![4, 5], gl(&scores), DataType::Float, 0, Role::Output)]
}

#[test]
fn texts_are_generated() {
    let mut tokens = vec![3, 2, 0, 0];
    let (dag, mut witnesses, scores, selector) = scorer(4, 5, &tokens);
    assert!(generate(&dag, &mut witnesses, scores, selector, &mut tokens, 2, 5, &next_best));
    assert_eq!(tokens, vec![3, 2, 3, 4]);
    // the last token is selected for the run that follows
    let chosen = witnesses[selector][0].data.as_ref().unwrap().evaluations();
    let expected = DagBuilder::build_one_hot_selector(4, 5, &tokens);
    assert_eq!(chosen, expected.data.as_ref().unwrap().evaluations());
    dag.run(&mut witnesses, &[], &next_best);
    assert!(has_scores(&witnesses, scores, 4, 5));
    let next = extract_argmax_all(&witnesses, scores, 4, 5);
    assert!(check_shift(&tokens, &next, 2));
}

#[test]
fn a_text_without_scores_is_left() {
    let mut tokens = vec![3, 2, 0, 0];
    let (dag, mut witnesses, scores, selector) = scorer(4, 5, &tokens);
    let blank = |_: &BasicBlockType, _: &Vec<Witness>| {
        vec![Witness::new_wo_data(vec![4, 5], DataType::Float, 0, Role::Output)]
    };
    assert!(!generate(&dag, &mut witnesses, scores, selector, &mut tokens, 2, 5, &blank));
    assert_eq!(tokens, vec![3, 2, 0, 0]);
    assert!(!has_scores(&witnesses, scores, 4, 5));
}
