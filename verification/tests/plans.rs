//! Weights, files and predictions.
use zk_torch::dag::deeplabv3plus::{deeplabv3plus_conv_configs, deeplabv3plus_num_convs};
use zk_torch::dag::pointpillar::pointpillar_conv_configs;
use zk_torch::dag::vgg::{VGG11_BLOCKS, VGG16_BLOCKS};
use zk_torch::dag::{DataType, PolyData, Role, Witness};
use zk_torch::plan::convnets::{
    conv_spatial_dims, max_num_vars, unet_weight_plan, vgg_dense_plan, vgg_weight_plan, VGG11_CONV_CONFIGS,
    VGG16_CONV_CONFIGS,
};
use zk_torch::plan::deeplab::deeplab_weight_plan;
use zk_torch::plan::layers::{conv, depthwise, linear, transposed, LayerKind};
use zk_torch::plan::metadata::{read_labels, read_metadata};
use zk_torch::plan::pillars::{build_fusion, pillar_weight_plan};
use zk_torch::plan::predict::{extract_prediction, rank_classes, to_double};
use zk_torch::plan::tensor_file::{load_tensor, read_tensor};
use zk_torch::plan::text::{lines, parse_i32, parse_usize, split, words};
use zk_torch::plan::transformers::{
    decoder_block_shapes, encoder_block_shapes, gpt2_layer_shapes, gptj_layer_shapes, llama_layer_shapes,
    make_uint_weight, make_weight, GPT2, GPTJ_6B, LLAMA2_7B, LLAMA3_8B,
};
use zk_torch::plan::weights::{
    generate_bias_1d, generate_bias_3d, generate_conv3d_weight, generate_conv_transpose_weight,
    generate_conv_weight, generate_dw_conv_weight, generate_fc_bias, generate_fc_weight,
    generate_instancenorm_params, generate_linear_weight, grid_input, make_conv1d_weight, random_input, reduced,
    sizes,
};
use zk_torch::plan::yolo::yolo_weight_plan;
use zk_torch::{GoldilocksField, MLPoly, GOLDILOCKS_PRIME};

fn gl(v: &[u64]) -> Vec<GoldilocksField> {
    v.iter().map(|&x| GoldilocksField(x)).collect()
}

fn values(w: &Witness) -> Vec<u64> {
    w.data.as_ref().unwrap().evaluations().iter().map(|x| x.0).collect()
}

fn chars(s: &str) -> Vec<char> {
    s.chars().collect()
}

fn strings(v: Vec<Vec<char>>) -> Vec<String> {
    v.into_iter().map(|t| t.into_iter().collect()).collect()
}

#[test]
fn kernels_are_padded() {
    let words: Vec<u64> = (1..=9).collect();
    let w = generate_conv_weight(1, 1, 3, 3, &gl(&words));
    assert_eq!(w.shape, vec![1, 1, 3, 3]);
    assert_eq!(w.role, Role::Constant);
    assert_eq!(values(&w), vec![1, 2, 3, 0, 4, 5, 6, 0, 7, 8, 9, 0, 0, 0, 0, 0]);
}

#[test]
fn kernel_positions() {
    let (c_in, c_out, k) = (3, 2, 3);
    let words: Vec<u64> = (0..(c_in * c_out * k * k) as u64).map(|x| x + 1).collect();
    let w = values(&generate_conv_weight(c_in, c_out, k, k, &gl(&words)));
    assert_eq!(w.len(), 2 * 4 * 4 * 4);
    for d in 0..c_out {
        for c in 0..c_in {
            for y in 0..k {
                for x in 0..k {
                    let at = x + y * 4 + c * 16 + d * 64;
                    assert_eq!(w[at], words[((d * c_in + c) * k + y) * k + x]);
                }
            }
        }
    }
    assert_eq!(w.iter().filter(|&&v| v != 0).count(), words.len());
}

#[test]
fn other_kernels() {
    let w = generate_dw_conv_weight(2, 1, 3, &gl(&[1, 2, 3, 4, 5, 6]));
    assert_eq!(w.shape, vec![2, 1, 1, 3]);
    assert_eq!(values(&w), vec![1, 2, 3, 0, 4, 5, 6, 0]);
    let w = generate_conv_transpose_weight(1, 3, 1, 1, &gl(&[7, 8, 9]));
    assert_eq!(w.shape, vec![1, 3, 1, 1]);
    assert_eq!(values(&w), vec![7, 8, 9, 0]);
    let w = generate_conv3d_weight(1, 1, 1, 1, 3, &gl(&[1, 2, 3]));
    assert_eq!(w.shape, vec![1, 1, 1, 1, 3]);
    assert_eq!(values(&w), vec![1, 2, 3, 0]);
    let w = make_conv1d_weight(1, 2, 3, &gl(&[1, 2, 3, 4, 5, 6]));
    assert_eq!(w.shape, vec![1, 2, 3]);
    assert_eq!(values(&w), vec![1, 2, 3, 0, 4, 5, 6, 0]);
}

#[test]
fn matrices_and_biases() {
    let m = generate_linear_weight(2, 3, &gl(&[1, 2, 3, 4, 5, 6]));
    assert_eq!(values(&m), vec![1, 2, 3, 0, 4, 5, 6, 0]);
    let m = generate_fc_weight(2, 3, &gl(&[1, 2, 3, 4, 5, 6]));
    assert_eq!(m.shape, vec![2, 3]);
    assert_eq!(values(&m), vec![1, 4, 2, 5, 3, 6, 0, 0]);
    let m = generate_fc_weight(3, 2, &gl(&[1, 2, 3, 4, 5, 6]));
    assert_eq!(values(&m), vec![1, 3, 5, 0, 2, 4, 6, 0]);
    assert_eq!(values(&generate_bias_1d(&gl(&[1, 2, 3]))), vec![1, 2, 3, 0]);
    assert_eq!(values(&generate_fc_bias(&gl(&[4, 5, 6]))), vec![4, 5, 6, 0]);
    let b = generate_bias_3d(1, 3, &gl(&[8, 9]));
    assert_eq!(b.shape, vec![2, 1, 3]);
    assert_eq!(values(&b), vec![8, 8, 8, 0, 9, 9, 9, 0]);
}

#[test]
fn norms_have_no_zero_scale() {
    let (gamma, beta) = generate_instancenorm_params(&[0, 100, 99], &[0, 101, 7]);
    assert_eq!(values(&gamma), vec![1, 1, 100, 0]);
    assert_eq!(values(&beta), vec![0, 1, 7, 0]);
}

#[test]
fn inputs_from_draws() {
    assert_eq!(reduced(&[500, 1001, 3], 500), gl(&[0, 1, 3]));
    let x = random_input(vec![3], &[501, 502, 503, 504]);
    assert_eq!(x.role, Role::Input);
    assert_eq!(values(&x), vec![1, 2, 3, 4]);
    let p = grid_input(&[10, 10, 5, 5, 7, 9], 4, 6);
    assert_eq!(p.shape, vec![3, 2]);
    assert_eq!(values(&p), vec![2, 4, 1, 5, 3, 3, 0, 0]);
    let w = make_weight(vec![2], &[600, 7], 5);
    assert_eq!((w.data_type, w.sf), (DataType::Float, 5));
    assert_eq!(values(&w), vec![100, 7]);
    assert_eq!(make_uint_weight(vec![2], &[600, 7]).data_type, DataType::Uint);
}

#[test]
fn sizes_with_and_without_padding() {
    assert_eq!(sizes(&vec![3, 5]), Some((15, 32)));
    assert_eq!(sizes(&vec![]), Some((1, 1)));
    assert_eq!(sizes(&vec![1 << 40, 1 << 40]), None);
}

#[test]
fn yolo_counts() {
    let counts: Vec<usize> = (0..10).map(|s| yolo_weight_plan(s, 640).len()).collect();
    assert_eq!(counts, vec![0, 1, 2, 6, 11, 21, 33, 56, 80, 80]);
    let all = yolo_weight_plan(8, 640);
    assert_eq!(all[0], (3, 16, 3, 3, false, 320, 320));
    assert_eq!(all[32], (512, 256, 1, 1, false, 20, 20));
    assert_eq!(all[59], (64, 64, 3, 3, true, 80, 80));
    assert_eq!(yolo_weight_plan(3, 640)[..], all[..6]);
}

#[test]
fn deeplab_plan_follows_the_network() {
    for n in [0, 3, 4, 33, 104] {
        let plan = deeplab_weight_plan(n, 512, 512, 5);
        assert_eq!(plan.len(), deeplabv3plus_num_convs(n, 5));
        let configs = deeplabv3plus_conv_configs(n);
        for (l, c) in plan.iter().zip(configs.iter()) {
            assert_eq!((l.c_in, l.c_out, l.kh, l.kw, l.kind == LayerKind::Depthwise), *c);
        }
        assert_eq!(plan[plan.len() - 1].c_out, 5);
    }
}

#[test]
fn deeplab_sides() {
    let plan = deeplab_weight_plan(4, 64, 32, 5);
    assert_eq!(plan[0], conv(3, 64, 3, 32, 16));
    assert_eq!(plan[3], conv(64, 64, 1, 16, 8));
    assert_eq!(plan[7], linear(256, 256));
    assert_eq!(plan[13], conv(256, 48, 1, 16, 8));
    assert_eq!(plan[14], depthwise(512, 3, 32, 16));
    assert_eq!(plan[18], conv(256, 5, 1, 32, 16));
}

#[test]
fn pillar_plan_follows_the_network() {
    let plan = pillar_weight_plan(496, 432, 2, 5);
    assert_eq!(plan.len(), 26);
    assert_eq!(plan[0], linear(11, 64));
    assert_eq!(plan[1], conv(64, 64, 3, 248, 216));
    assert_eq!(plan[7], conv(64, 128, 3, 124, 108));
    assert_eq!(plan[21], transposed(256, 256, 2, 124, 108));
    let configs = pointpillar_conv_configs(496, 432, 2, 5);
    for (l, c) in plan[1..].iter().zip(configs.iter()) {
        assert_eq!((l.c_in, l.c_out, l.kh, l.kw, l.kind == LayerKind::Transposed), *c);
    }
}

#[test]
fn layers_make_their_weights() {
    let layer = conv(1, 2, 1, 1, 2);
    let (w, b) = layer.generate(&gl(&[3, 4]), &gl(&[5, 6]));
    assert_eq!(w.shape, layer.weight_shape());
    assert_eq!(b.shape, layer.bias_shape());
    assert_eq!(values(&w), vec![3, 4]);
    assert_eq!(values(&b), vec![5, 5, 6, 6]);
    let layer = linear(2, 1);
    let (w, b) = layer.generate(&gl(&[3, 4]), &gl(&[5]));
    assert_eq!(values(&w), vec![3, 4]);
    assert_eq!((b.shape.clone(), values(&b)), (vec![1], vec![5]));
    assert_eq!(depthwise(7, 3, 1, 1).bias_channels(), 7);
    assert_eq!(transposed(2, 3, 1, 1, 1).weight_shape(), vec![2, 3, 1, 1]);
}

#[test]
fn fusion_paints_points() {
    let g = build_fusion(4, 2, 2, 2, 2);
    let last = g.num_edges - 1;
    assert_eq!(g.shape_of(last), vec![4, 4]);
}

#[test]
fn vgg_sides() {
    assert_eq!(conv_spatial_dims(&VGG11_BLOCKS, 8), vec![32, 16, 8, 8, 4, 4, 2, 2]);
    assert_eq!(conv_spatial_dims(&VGG16_BLOCKS, 5), vec![32, 32, 16, 16, 8]);
    assert_eq!(conv_spatial_dims(&VGG16_BLOCKS, 0), Vec::<usize>::new());
    assert_eq!(conv_spatial_dims(&VGG16_BLOCKS, 100).len(), 13);
}

#[test]
fn vgg_weights() {
    let plan = vgg_weight_plan(&VGG11_CONV_CONFIGS, &VGG11_BLOCKS, 3);
    assert_eq!(plan, vec![conv(3, 64, 3, 32, 32), conv(64, 128, 3, 16, 16), conv(128, 256, 3, 8, 8)]);
    assert_eq!(vgg_weight_plan(&VGG16_CONV_CONFIGS, &VGG16_BLOCKS, 99).len(), 13);
    assert_eq!(vgg_dense_plan(512, 10), vec![(512, 4096), (4096, 4096), (4096, 10)]);
}

#[test]
fn unet_weights() {
    let one = unet_weight_plan(1);
    assert_eq!(one.convs, vec![(32, 1, 3), (32, 32, 3), (3, 32, 1)]);
    assert!(one.transposed.is_empty());
    assert_eq!(one.norms, vec![32, 32]);
    let two = unet_weight_plan(2);
    assert_eq!(two.convs[4..], [(32, 64, 3), (32, 32, 3), (3, 32, 1)]);
    assert_eq!(two.transposed, vec![(64, 32, 2)]);
    let six = unet_weight_plan(6);
    assert_eq!((six.convs.len(), six.transposed.len(), six.norms.len()), (23, 5, 22));
}

#[test]
fn table_sizes() {
    let t = |n: usize| vec![Witness::new(vec![1 << n], vec![], DataType::Uint, 0, Role::Input)];
    let ws = vec![t(3), vec![], t(7), t(5)];
    assert_eq!(max_num_vars(&ws, usize::MAX), 7);
    assert_eq!(max_num_vars(&ws, 6), 5);
    assert_eq!(max_num_vars(&ws, 1), 10);
    assert_eq!(max_num_vars(&vec![], 22), 10);
}

#[test]
fn transformer_shapes() {
    let (h, kv, f, _) = LLAMA2_7B;
    let s = llama_layer_shapes(h, kv, f);
    assert_eq!(s.len(), 9);
    assert_eq!(s[6], vec![4096, 11008]);
    let (h, kv, f, v) = LLAMA3_8B;
    assert_eq!(llama_layer_shapes(h, kv, f)[2], vec![4096, 1024]);
    assert_eq!(v, 128256);
    let s = gptj_layer_shapes(GPTJ_6B.0, GPTJ_6B.1);
    assert_eq!((s.len(), s[7].clone()), (10, vec![16384, 4096]));
    let s = gpt2_layer_shapes(GPT2.0, GPT2.1);
    assert_eq!((s.len(), s[14].clone()), (16, vec![3072]));
    let s = encoder_block_shapes(384, 1536);
    assert_eq!((s.len(), s[12].clone()), (16, vec![384, 1536]));
    let s = decoder_block_shapes(384, 1536);
    assert_eq!((s.len(), s[12].clone(), s[25].clone()), (26, vec![384, 384], vec![384]));
}

#[test]
fn tensors_in_files() {
    let mut bytes = vec![2, 0, 0, 0, 2, 0, 0, 0, 0, 1, 0, 0];
    bytes.extend([1, 2, 0, 0, 0, 0, 0, 0]);
    bytes.extend([0, 0, 0, 0, 0, 0, 0, 0x80]);
    bytes.extend([9, 9, 9]);
    let (shape, words) = read_tensor(&bytes).unwrap();
    assert_eq!(shape, vec![2, 256]);
    assert_eq!(words, gl(&[0x201, 0x8000_0000_0000_0000]));
    let w = load_tensor(&bytes, 6, Role::Constant).unwrap();
    assert_eq!((w.sf, w.role), (6, Role::Constant));
    assert_eq!(values(&w)[..3], [0x201, 0x8000_0000_0000_0000, 0]);
}

#[test]
fn short_files_are_refused() {
    assert!(read_tensor(&[1, 0, 0]).is_none());
    assert!(read_tensor(&[1, 0, 0, 0, 5, 0, 0]).is_none());
    assert_eq!(read_tensor(&[0, 0, 0, 0]).unwrap(), (vec![], vec![]));
    // two words for one entry
    let mut bytes = vec![1, 0, 0, 0, 1, 0, 0, 0];
    bytes.extend([0; 16]);
    assert!(load_tensor(&bytes, 0, Role::Input).is_none());
}

#[test]
fn text_is_split() {
    assert_eq!(strings(split(&chars("a,,b"), ',')), vec!["a", "", "b"]);
    assert_eq!(strings(split(&[], ',')), vec![""]);
    assert_eq!(strings(lines(&chars("one\r\ntwo\n\nlast\r"))), vec!["one", "two", "", "last\r"]);
    assert!(lines(&[]).is_empty());
    for t in ["", "\n", "a", "a\n", "a\nb\r\n", "\r\n\r"] {
        let expected: Vec<String> = t.lines().map(|l| l.to_string()).collect();
        assert_eq!(strings(lines(&chars(t))), expected);
    }
    for t in ["", "  a  b\u{3000}c ", "\u{85}x\ty"] {
        let expected: Vec<String> = t.split_whitespace().map(|l| l.to_string()).collect();
        assert_eq!(strings(words(&chars(t))), expected);
    }
}

#[test]
fn numbers_are_read() {
    for t in ["0", "+7", "007", "18446744073709551615", "18446744073709551616", "", "+", "-1", "1a", " 1"] {
        assert_eq!(parse_usize(&chars(t)), t.parse::<usize>().ok(), "{}", t);
    }
    for t in ["0", "-0", "+7", "-2147483648", "-2147483649", "2147483647", "2147483648", "-", "", "--1"] {
        assert_eq!(parse_i32(&chars(t)), t.parse::<i32>().ok(), "{}", t);
    }
}

#[test]
fn metadata_is_read() {
    let text = "sf_log=12\nnum_conv=2\nnum_classes=1000\nconv_000=3,64,7,7\nother\nconv_001=64,64,1,1\n";
    let m = read_metadata(&chars(text)).unwrap();
    assert_eq!((m.sf_log, m.num_conv), (12, 2));
    assert_eq!(m.configs, vec![(3, 64, 7, 7), (64, 64, 1, 1)]);
    let m = read_metadata(&chars("")).unwrap();
    assert_eq!((m.sf_log, m.num_conv, m.configs.len()), (10, 0, 0));
    // a line with two equals signs, and one with three numbers
    let m = read_metadata(&chars("conv_0=1=2\nconv_1=1,2,3\n")).unwrap();
    assert_eq!(m.configs.len(), 0);
}

#[test]
fn bad_metadata_is_refused() {
    assert!(read_metadata(&chars("num_conv=1\n")).is_none());
    assert!(read_metadata(&chars("sf_log=x\n")).is_none());
    assert!(read_metadata(&chars("num_classes=\n")).is_none());
    assert!(read_metadata(&chars("conv_0=1,2,x,4\n")).is_none());
}

#[test]
fn labels_are_read() {
    let text = "0 65\n1   -970\nbad line\n3\n4 5 6\n";
    assert_eq!(read_labels(&chars(text)), vec![(0, 65), (1, -970), (4, 5)]);
}

#[test]
fn classes_are_ranked() {
    let evals = gl(&[5, GOLDILOCKS_PRIME - 1, 9, 9, 0]);
    assert_eq!(rank_classes(&evals, 5), vec![2, 3, 0, 4, 1]);
    assert_eq!(extract_prediction(&evals, 5), Some(2));
    assert_eq!(extract_prediction(&evals, 2), Some(0));
    assert_eq!(extract_prediction(&evals, 0), None);
}

#[test]
fn close_scores_tie_in_double_precision() {
    let big = 1u64 << 60;
    assert_eq!(extract_prediction(&gl(&[big, big + 1]), 2), Some(0));
    assert_eq!(extract_prediction(&gl(&[big, big + 1000]), 2), Some(1));
    for v in [0i128, 1, (1 << 53) + 1, (1 << 53) + 3, -((1 << 62) + 12345), (1 << 63) - 1, 1 << 63] {
        assert_eq!(to_double(v), v as f64 as i128);
    }
}

#[test]
fn dense_data_is_kept() {
    let w = Witness::new(vec![2], gl(&[1, 2]), DataType::Uint, 0, Role::Input);
    match w.data {
        Some(PolyData::Dense(p)) => assert_eq!(p.n, 1),
        _ => panic!("expected dense data"),
    }
}
