//! Polynomials, transcripts and sum-check.
use zk_torch::field::{ext2_add, ext2_inv, ext2_mul, ext2_sub, gl_add, gl_inv, gl_mul, gl_sub};
use zk_torch::poly::basis::{evaluate_lagrange_basis, evaluate_univariate, range_dense, two_pow_dense};
use zk_torch::poly::SparseMLPoly;
use zk_torch::sumcheck::verify::interpolate_and_evaluate_ext2;
use zk_torch::sumcheck::{
    CpuLinearSumcheckProverExt2, GeneralLinearSumcheckProver, GpuLinearSumcheckProver,
    LinearSumcheckProver, SumcheckProver, SumcheckVerifier,
};
use zk_torch::sumcheck::cpu_ext2_prover::{fold_polys_ext2, round_message_ext2};
use zk_torch::transcript::{Digest, Label};
use zk_torch::util::arith::{f_to_int, field_from_i64, get_n, log2c, next_pow};
use zk_torch::util::shape::broadcast_shape;
use zk_torch::{CryptoField, DenseMLPoly, GoldilocksExt2, GoldilocksField, MLPoly, Transcript, GOLDILOCKS_PRIME};

fn mix(a: Digest, b: Digest) -> Digest {
    let f = |x: u64, y: u64, k: u64| {
        let z = x.rotate_left(17) ^ y.wrapping_mul(0x9E37_79B9_7F4A_7C15).wrapping_add(k);
        (z ^ (z >> 29)).wrapping_mul(0xBF58_476D_1CE4_E5B9)
    };
    let w0 = f(a.w0, b.w0, 1);
    let w1 = f(a.w1, b.w1 ^ w0, 2);
    let w2 = f(a.w2, b.w2 ^ w1, 3);
    let w3 = f(a.w3, b.w3 ^ w2, 4);
    Digest { w0: w0 ^ w3, w1: w1 ^ w0.rotate_left(9), w2, w3 }
}

type Script = Transcript<fn(Digest, Digest) -> Digest>;

fn script(name: &[u8]) -> Script {
    Transcript::new(name, mix as fn(Digest, Digest) -> Digest)
}

fn gl(x: u64) -> GoldilocksField {
    GoldilocksField(x)
}

fn ext(x: u64) -> GoldilocksExt2 {
    GoldilocksExt2::from_base(gl(x))
}

fn words(v: &[u64]) -> Vec<GoldilocksField> {
    v.iter().map(|&x| gl(x)).collect()
}

fn ext_words(v: &[u64]) -> Vec<GoldilocksExt2> {
    v.iter().map(|&x| ext(x)).collect()
}

#[test]
fn test_dense_ml_poly_new() {
    let poly = DenseMLPoly::new(2, words(&[1, 2, 3, 4]));
    assert_eq!(poly.n, 2);
    assert_eq!(poly.len(), 4);
}

#[test]
fn test_fix_variables() {
    let poly = DenseMLPoly::new(2, words(&[1, 2, 3, 4]));
    let r = gl(5);
    let result = DenseMLPoly::fix_variables(&poly, &[r]);
    assert_eq!(result.n, 1);
    assert_eq!(result.evaluations.len(), 2);
    assert_eq!(result.evaluations[0], gl(6));
    assert_eq!(result.evaluations[1], gl(8));
}

#[test]
fn test_evaluate() {
    let poly = DenseMLPoly::new(2, words(&[1, 2, 3, 4]));
    let val = poly.evaluate(&[gl(0), gl(0)]);
    assert_eq!(val, gl(1));

    let val = poly.evaluate(&[gl(1), gl(0)]);
    assert_eq!(val, gl(2));

    let val = poly.evaluate(&[gl(1), gl(1)]);
    assert_eq!(val, gl(4));
}

#[test]
fn test_cpu_ext2_prover_basic() {
    let p1 = ext_words(&[1, 2, 3, 4]);
    let p2 = ext_words(&[5, 6, 7, 8]);
    let expected_sum = ext(70);

    let mut transcript = script(b"test_cpu_ext2");
    let mut prover = CpuLinearSumcheckProverExt2::new(2, 2, &mut transcript);
    let mut polys = vec![p1, p2];
    let proof = prover.prove(&mut polys, &mut transcript);

    let round0_sum = ext2_add(proof.round_messages[0][0], proof.round_messages[0][1]);
    assert_eq!(round0_sum, expected_sum);

    let mut verify_transcript = script(b"test_cpu_ext2");
    let (verified, _challenges) =
        SumcheckVerifier::verify(&proof, expected_sum, 2, 2, &mut verify_transcript);
    assert!(verified, "CPU Ext2 proof should verify");
}

#[test]
fn test_linear_sumcheck_basic() {
    let p1 = DenseMLPoly::new(2, words(&[1, 2, 3, 4]));
    let p2 = DenseMLPoly::new(2, words(&[5, 6, 7, 8]));

    let mut transcript = script(b"test");
    let mut prover = LinearSumcheckProver::new(2, 2, &mut transcript);

    let mut verify_transcript = script(b"test");
    LinearSumcheckProver::new(2, 2, &mut verify_transcript);

    let proof = prover.prove(&vec![p1, p2], &mut transcript);

    let round0_sum = proof.round_messages[0][0] + proof.round_messages[0][1];
    assert_eq!(round0_sum, ext(70));
}

#[test]
fn test_interpolation_ext2() {
    let evals = vec![ext(3), ext(5)];
    let result = interpolate_and_evaluate_ext2(&evals, ext(2));
    assert_eq!(result, ext(7));
}

#[test]
fn base_field_arithmetic() {
    let p = GOLDILOCKS_PRIME;
    assert_eq!(gl_add(gl(p - 1), gl(2)), gl(1));
    assert_eq!(gl_sub(gl(1), gl(2)), gl(p - 1));
    assert_eq!(gl_mul(gl(p - 1), gl(p - 1)), gl(1));
    assert_eq!(gl_mul(gl(1 << 32), gl(1 << 32)), gl((1 << 32) - 1));
    assert_eq!(gl_mul(gl_inv(gl(12345)), gl(12345)), gl(1));
    assert_eq!(gl_inv(gl(2)), gl((p + 1) / 2));
}

#[test]
fn extension_arithmetic() {
    let a = GoldilocksExt2::new(gl(3), gl(4));
    let b = GoldilocksExt2::new(gl(5), gl(6));
    assert_eq!(ext2_mul(a, b), GoldilocksExt2::new(gl(15 + 7 * 24), gl(18 + 20)));
    assert_eq!(ext2_sub(ext2_add(a, b), b), a);
    assert_eq!(ext2_mul(a, ext2_inv(a)), GoldilocksExt2::one());
    assert_eq!(ext2_add(GoldilocksExt2::zero(), a), a);
}

#[test]
fn signed_values() {
    assert_eq!(f_to_int(gl(5)), 5);
    assert_eq!(f_to_int(gl(GOLDILOCKS_PRIME - 5)), -5);
    assert_eq!(field_from_i64(-5), gl(GOLDILOCKS_PRIME - 5));
    for v in [0i64, 1, -1, 1 << 40, -(1 << 40), i64::MAX / 2] {
        assert_eq!(f_to_int(field_from_i64(v)), v as i128);
    }
}

#[test]
fn sizes_of_shapes() {
    assert_eq!(log2c(0), 0);
    assert_eq!(log2c(1), 0);
    assert_eq!(log2c(5), 3);
    assert_eq!(next_pow(5), 8);
    assert_eq!(next_pow(8), 8);
    assert_eq!(get_n(&[3, 32, 33]), 2 + 5 + 6);
}

#[test]
fn shapes_broadcast() {
    assert_eq!(broadcast_shape(&[2, 3], &[3]), Some(vec![2, 3]));
    assert_eq!(broadcast_shape(&[2, 1], &[1, 4]), Some(vec![2, 4]));
    assert_eq!(broadcast_shape(&[2, 3], &[2]), None);
}

#[test]
fn dense_arithmetic() {
    let a = DenseMLPoly::new(1, words(&[1, 2]));
    let b = DenseMLPoly::new(1, words(&[10, 20]));
    assert_eq!(a.add_poly(&b).evaluations, words(&[11, 22]));
    assert_eq!(b.sub_poly(&a).evaluations, words(&[9, 18]));
    assert_eq!(a.scale(gl(7)).evaluations, words(&[7, 14]));
    assert_eq!(DenseMLPoly::zero(2).evaluations, words(&[0, 0, 0, 0]));
}

#[test]
fn evaluation_in_the_extension() {
    let poly = DenseMLPoly::new(2, words(&[1, 2, 3, 4]));
    let x = GoldilocksExt2::new(gl(5), gl(1));
    let y = GoldilocksExt2::new(gl(0), gl(2));
    // f(x, y) = 1 + x + 2 y
    let expected = ext2_add(ext2_add(GoldilocksExt2::one(), x), ext2_add(y, y));
    assert_eq!(poly.evaluate_ext2(&[x, y]), expected);
}

#[test]
fn fixing_variables_then_evaluating() {
    let poly = DenseMLPoly::new(3, words(&[3, 1, 4, 1, 5, 9, 2, 6]));
    let point = words(&[11, 22, 33]);
    let fixed = poly.fix_variables(&point[..2]);
    assert_eq!(fixed.evaluate(&point[2..]), poly.evaluate(&point));
}

#[test]
fn lagrange_basis_selects() {
    let basis = evaluate_lagrange_basis(&words(&[1, 0]));
    assert_eq!(basis, words(&[0, 1, 0, 0]));
    let basis = evaluate_lagrange_basis(&words(&[2, 3]));
    let sum = basis.iter().fold(gl(0), |acc, &x| gl_add(acc, x));
    assert_eq!(sum, gl(1));
    assert_eq!(basis[3], gl(6));
}

#[test]
fn fixed_tables() {
    assert_eq!(range_dense(2).evaluations, words(&[0, 1, 2, 3]));
    let t = two_pow_dense().evaluations;
    assert_eq!(t.len(), 16);
    assert_eq!(t[0], gl(1 << 15));
    assert_eq!(t[10], gl(1 << 5));
    assert_eq!(t[15], gl(1));
}

#[test]
fn univariate_value() {
    assert_eq!(evaluate_univariate(&words(&[1, 2, 3]), gl(10)), gl(321));
}

#[test]
fn sparse_polynomials() {
    let mut map = std::collections::HashMap::new();
    map.insert(1usize, gl(7));
    map.insert(6usize, gl(9));
    let sparse = SparseMLPoly::new(3, map);
    let dense = sparse.to_dense();
    assert_eq!(dense.evaluations, words(&[0, 7, 0, 0, 0, 0, 9, 0]));
    let point = words(&[4, 5, 6]);
    assert_eq!(sparse.evaluate_at_point(&point), dense.evaluate(&point));
    assert_eq!(sparse.fix_variables(&point[..1]).to_dense().evaluations, dense.fix_variables(&point[..1]).evaluations);
    assert_eq!(sparse.mul_by_scalar(gl(2)).to_dense().evaluations[6], gl(18));
    let blocks = sparse.split_into_blocks(2);
    assert_eq!(blocks.len(), 2);
    assert_eq!(blocks[1].to_dense().evaluations, words(&[0, 0, 9, 0]));
}

#[test]
fn bytes_of_elements() {
    let x = gl(0x0102_0304_0506_0708);
    let bytes = x.to_bytes_le();
    assert_eq!(bytes.len(), 8);
    assert_eq!(GoldilocksField::from_bytes_le(&bytes), x);
}

#[test]
fn transcripts_agree_and_differ() {
    let mut a = script(b"name");
    let mut b = script(b"name");
    let mut c = script(b"game");
    a.append_u64(Label::NumVar, 5);
    b.append_u64(Label::NumVar, 5);
    c.append_u64(Label::NumVar, 5);
    let x = a.challenge_ext2(Label::Challenge);
    assert_eq!(x, b.challenge_ext2(Label::Challenge));
    assert_ne!(x, c.challenge_ext2(Label::Challenge));
    assert_ne!(a.fork(0).state, a.fork(1).state);
}

#[test]
fn wrong_sum_is_refused() {
    let mut transcript = script(b"s");
    let mut prover = CpuLinearSumcheckProverExt2::new(2, 2, &mut transcript);
    let mut polys = vec![ext_words(&[1, 2, 3, 4]), ext_words(&[5, 6, 7, 8])];
    let proof = prover.prove(&mut polys, &mut transcript);
    let (fine, _) = SumcheckVerifier::verify(&proof, ext(70), 2, 2, &mut script(b"s"));
    assert!(fine);
    let (fine, _) = SumcheckVerifier::verify(&proof, ext(71), 2, 2, &mut script(b"s"));
    assert!(!fine);
}

#[test]
fn changed_message_is_refused() {
    let mut transcript = script(b"s");
    let mut prover = CpuLinearSumcheckProverExt2::new(2, 2, &mut transcript);
    let mut polys = vec![ext_words(&[1, 2, 3, 4]), ext_words(&[5, 6, 7, 8])];
    let mut proof = prover.prove(&mut polys, &mut transcript);
    proof.round_messages[1][2] = ext2_add(proof.round_messages[1][2], GoldilocksExt2::one());
    let (fine, _) = SumcheckVerifier::verify(&proof, ext(70), 2, 2, &mut script(b"s"));
    assert!(!fine);
}

#[test]
fn final_values_are_those_at_the_challenges() {
    let mut transcript = script(b"s");
    let mut prover = CpuLinearSumcheckProverExt2::new(3, 1, &mut transcript);
    let mut polys = vec![ext_words(&[3, 1, 4, 1, 5, 9, 2, 6])];
    let proof = prover.prove(&mut polys, &mut transcript);
    let poly = DenseMLPoly::new(3, words(&[3, 1, 4, 1, 5, 9, 2, 6]));
    assert_eq!(prover.final_eval(0), poly.evaluate_ext2(&prover.challenges));
    assert_eq!(proof.final_eval, prover.final_eval(0));
}

#[test]
fn general_sums() {
    // sum over x of eq(x) * (2 p1(x) p2(x) + 3 p3(x) p1(x))
    let p1 = || DenseMLPoly::new(2, words(&[1, 2, 3, 4]));
    let p2 = DenseMLPoly::new(2, words(&[5, 6, 7, 8]));
    let p3 = DenseMLPoly::new(2, words(&[1, 1, 1, 1]));
    let eq = DenseMLPoly::new(2, words(&[1, 1, 1, 1]));
    let instances = (words(&[2, 3]), vec![vec![p1(), p2], vec![p3, p1()]], eq);
    let mut transcript = script(b"g");
    let mut prover = GeneralLinearSumcheckProver::new(2, 3, &mut transcript);
    let proof = prover.prove(&instances, &mut transcript);
    let sum = proof.round_messages[0][0] + proof.round_messages[0][1];
    assert_eq!(sum, ext(2 * 70 + 3 * 10));
}

#[test]
fn device_rounds_match_the_host() {
    let polys = vec![ext_words(&[1, 2, 3, 4]), ext_words(&[5, 6, 7, 8])];

    let mut host_script = script(b"d");
    let mut host = CpuLinearSumcheckProverExt2::new(2, 2, &mut host_script);
    let mut host_polys = polys.clone();
    let expected = host.prove(&mut host_polys, &mut host_script);

    let mut device_script = script(b"d");
    let mut prover = GpuLinearSumcheckProver::new(2, 2, &mut device_script);
    let mut held = polys;
    for _ in 0..2 {
        let message = round_message_ext2(&held, held[0].len() / 2);
        let challenge = prover.round(message, &mut device_script);
        fold_polys_ext2(&mut held, challenge);
    }
    let proof = prover.finish(vec![held[0][0], held[1][0]]);
    assert_eq!(proof.round_messages, expected.round_messages);
    assert_eq!(proof.final_eval, expected.final_eval);
    assert_eq!(prover.challenges, host.challenges);
    assert_eq!(prover.final_eval(1), host.final_eval(1));
    assert_eq!(device_script.state, host_script.state);
}

#[test]
fn general_proofs_verify_over_base_challenges() {
    fn flat(a: Digest, b: Digest) -> Digest {
        Digest { w1: 0, ..mix(a, b) }
    }
    let new = || Transcript::new(b"g", flat as fn(Digest, Digest) -> Digest);
    let p1 = DenseMLPoly::new(2, words(&[1, 2, 3, 4]));
    let p2 = DenseMLPoly::new(2, words(&[5, 6, 7, 8]));
    let eq = DenseMLPoly::new(2, words(&[1, 1, 1, 1]));
    let mut transcript = new();
    let mut prover = GeneralLinearSumcheckProver::new(2, 3, &mut transcript);
    let proof = prover.prove(&(words(&[2]), vec![vec![p1, p2]], eq), &mut transcript);
    let (fine, _) = SumcheckVerifier::verify_general(&proof, ext(140), 2, 3, &mut new());
    assert!(fine);
    let (fine, _) = SumcheckVerifier::verify_general(&proof, ext(141), 2, 3, &mut new());
    assert!(!fine);
}

#[test]
fn observing_is_absorbing() {
    let (mut a, mut b) = (script(b"o"), script(b"o"));
    a.observe_ext2(ext(5));
    b.append_ext2(Label::Empty, &ext(5));
    assert_eq!(a.state, b.state);
    assert_eq!(a.sample_challenge_ext2(), b.sample_challenge_ext2());
}

#[test]
fn values_are_canonical_words() {
    let big = GOLDILOCKS_PRIME + 5;
    let poly = DenseMLPoly::new(1, words(&[big, 7]));
    assert_eq!(poly.evaluate(&[gl(0)]), gl(5));
    assert_eq!(poly.evaluate(&[gl(1)]), gl(7));
    // a constant is handed out as it stands
    assert_eq!(DenseMLPoly::new(0, words(&[big])).evaluate(&[]), gl(big));
}

#[test]
fn nothing_fixed_and_nothing_split_keep_the_selection() {
    let sparse = zk_torch::poly::SelectionPolynomial::new(2, 1, vec![(0, 1), (1, 0), (2, 0), (3, 1)]).to_sparse();
    let copies = [sparse.fix_variables(&[]), sparse.split_into_blocks(3).remove(0)];
    for copy in copies.iter() {
        assert_eq!(copy.n, 3);
        assert_eq!(copy.evaluations, sparse.evaluations);
        assert_eq!(copy.indices, sparse.indices);
        assert_eq!(copy.selection.input_num_vars, 2);
        assert_eq!(copy.selection.table_num_vars, 1);
        assert_eq!(copy.selection.selection, sparse.selection.selection);
    }
    let blocks = sparse.split_into_blocks(2);
    assert_eq!(blocks.len(), 2);
    for block in blocks.iter() {
        let mut listed: Vec<usize> = block.indices.iter().cloned().collect();
        let mut held: Vec<usize> = block.evaluations.keys().cloned().collect();
        listed.sort();
        held.sort();
        assert_eq!(listed, held);
        assert!(block.selection.selection.is_empty());
    }
}
