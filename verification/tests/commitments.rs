//! Commitments, openings, and how work is spread.
use zk_torch::commit::basefold::{
    BasefoldCommitKey, BasefoldProofExt2, BasefoldVerifierKey, SumcheckOracle,
};
use zk_torch::commit::cpu_basefold::{
    bit_reverse, bit_reverse_vec, compute_oracle_ext2, BasefoldTable, FoldingEntry,
};
use zk_torch::commit::cpu_open::{cpu_full_open_ext2, HostCommitmentCache};
use zk_torch::commit::merkle::{CpuMerkleTree, MerkleHasher};
use zk_torch::commit::sparse_basefold::SparseBasefoldCommit;
use zk_torch::commit::store::GpuCommitmentStore;
use zk_torch::commit::task::{open_task, task_transcript};
use zk_torch::dag::schedule::{
    device_index, device_pool_size, device_queues, host_pool_size, sort_largest_first, split_tasks,
};
use zk_torch::poly::SparseMLPoly;
use zk_torch::field::{ext2_add, ext2_mul, ext2_sub};
use zk_torch::transcript::{Digest, Label};
use zk_torch::{DenseMLPoly, GoldilocksExt2, GoldilocksField, Transcript, GOLDILOCKS_PRIME};

fn mix(a: Digest, b: Digest) -> Digest {
    let f = |x: u64, y: u64, k: u64| {
        let z = x.rotate_left(17) ^ y.wrapping_mul(0x9E37_79B9_7F4A_7C15).wrapping_add(k);
        (z ^ (z >> 29)).wrapping_mul(0xBF58_476D_1CE4_E5B9)
    };
    let w0 = f(a.w0, b.w0, 1);
    let w1 = f(a.w1, b.w1 ^ w0, 2);
    let w2 = f(a.w2, b.w2 ^ w1, 3);
    let w3 = f(a.w3, b.w3 ^ w2, 4);
    Digest { w0: w0 ^ w3, w1: w1 ^ w0.rotate_left(9), w2, w3 }
}

fn gl_leaf(a: GoldilocksField, b: GoldilocksField) -> Digest {
    mix(Digest { w0: a.0, w1: b.0, w2: 0, w3: 7 }, Digest { w0: 1, w1: 2, w2: 3, w3: 4 })
}

fn ext2_leaf(a: GoldilocksExt2, b: GoldilocksExt2) -> Digest {
    mix(Digest { w0: a.c0.0, w1: a.c1.0, w2: b.c0.0, w3: b.c1.0 }, Digest { w0: 5, w1: 6, w2: 7, w3: 8 })
}

fn ext(x: u64) -> GoldilocksExt2 {
    GoldilocksExt2::from_base(GoldilocksField(x))
}

#[test]
fn bits_are_reversed() {
    assert_eq!(bit_reverse(0b001, 3), 0b100);
    assert_eq!(bit_reverse(0b110, 3), 0b011);
    assert_eq!(bit_reverse_vec(&vec![0, 1, 2, 3], 2), vec![0, 2, 1, 3]);
    for x in 0..16 {
        assert_eq!(bit_reverse(bit_reverse(x, 4), 4), x);
    }
}

#[test]
fn paths_lead_to_the_root() {
    let hasher = MerkleHasher { compress: mix, gl_leaf, ext2_leaf };
    let codeword: Vec<u64> = (0..8).collect();
    let tree = CpuMerkleTree::build_from_gl_pairs(&codeword, &hasher);
    for leaf in 0..4usize {
        let mut h = gl_leaf(GoldilocksField(2 * leaf as u64), GoldilocksField(2 * leaf as u64 + 1));
        let mut at = leaf;
        for sibling in tree.auth_path(leaf) {
            h = if at % 2 == 0 { mix(h, sibling) } else { mix(sibling, h) };
            at /= 2;
        }
        assert_eq!(h, tree.root());
    }
}

#[test]
fn oracle_is_the_round_polynomial() {
    // (1 + x)(5 + x) + (3 + x)(7 + x) = 26 + 16 x + 2 x^2
    let a = vec![ext(1), ext(2), ext(3), ext(4)];
    let b = vec![ext(5), ext(6), ext(7), ext(8)];
    let o = compute_oracle_ext2(&a, &b, 4);
    assert_eq!((o.c0, o.c1, o.c2), (ext(26), ext(16), ext(2)));
}

#[test]
fn openings_claim_the_value() {
    let values: Vec<u64> = vec![3, 1, 4, 1];
    let mut codeword = values.clone();
    codeword.extend(values.iter());
    let hasher = MerkleHasher { compress: mix, gl_leaf, ext2_leaf };
    let tree = CpuMerkleTree::build_from_gl_pairs(&codeword, &hasher);
    let commitment = HostCommitmentCache {
        num_vars: 2,
        log_rate: 1,
        root: tree.root(),
        codeword: codeword.clone(),
        bh_evals: bit_reverse_vec(&values, 2),
    };
    let entry = FoldingEntry { point: GoldilocksField(2), weight: GoldilocksField(3) };
    let table = BasefoldTable {
        entries: vec![entry; 14],
        level_offsets: vec![0, 4, 8],
        level_sizes: vec![4, 4, 4],
    };
    let point = vec![GoldilocksExt2::new(GoldilocksField(5), GoldilocksField(1)), ext(9)];
    let proof = open_task(&commitment, &point, &table, &hasher, mix, ext(77), 3, 2);
    let poly = DenseMLPoly::new(2, values.iter().map(|&x| GoldilocksField(x)).collect());
    assert_eq!(proof.eval, poly.evaluate_ext2(&point));
    assert_eq!(proof.gpu_proof.query_proofs.len(), 2);
    assert_eq!(proof.gpu_proof.sumcheck_oracles.len(), 2);
    // the pair that a query asks for is committed to
    let q = &proof.gpu_proof.query_proofs[0];
    let (a, b) = q.values[0];
    let mut h = gl_leaf(a.c0, b.c0);
    let mut at = q.index / 2;
    if tree.layers[0][at] != h {
        at = q.index;
    }
    for sibling in &q.merkle_paths[0] {
        h = if at % 2 == 0 { mix(h, *sibling) } else { mix(*sibling, h) };
        at /= 2;
    }
    assert_eq!(h, tree.root());
}

#[test]
fn tasks_have_scripts_of_their_own() {
    let a = task_transcript(mix, ext(1), 0);
    assert_eq!(a.state, task_transcript(mix, ext(1), 0).state);
    assert_ne!(a.state, task_transcript(mix, ext(1), 1).state);
    assert_ne!(a.state, task_transcript(mix, ext(2), 0).state);
}

fn cache(num_vars: usize) -> HostCommitmentCache {
    HostCommitmentCache {
        num_vars,
        log_rate: 1,
        root: Digest { w0: 1, w1: 2, w2: 3, w3: 4 },
        codeword: vec![0; 2 << num_vars],
        bh_evals: vec![0; 1 << num_vars],
    }
}

/// Whether a path leads from a leaf to a root.
fn leads_to(leaf: Digest, index: usize, path: &[Digest], root: Digest) -> bool {
    let (mut h, mut at) = (leaf, index);
    for sibling in path {
        h = if at % 2 == 0 { mix(h, *sibling) } else { mix(*sibling, h) };
        at /= 2;
    }
    h == root
}

/// Follows an opening on its transcript: the rounds of the sum add up from the claimed value, and
/// every query leads from the committed codeword through the folded ones to the last.
fn opening_holds(
    root: Digest,
    point: &Vec<GoldilocksExt2>,
    proof: &BasefoldProofExt2,
    table: &BasefoldTable,
    transcript: &mut Transcript<fn(Digest, Digest) -> Digest>,
    codeword_log: usize,
) -> bool {
    transcript.observe_hash(&root);
    transcript.append_all_ext2(Label::Empty, point);
    let send = |t: &mut Transcript<fn(Digest, Digest) -> Digest>, o: &SumcheckOracle| {
        t.append_all_ext2(Label::Empty, &vec![o.c0, o.c1, o.c2])
    };
    let at = |o: &SumcheckOracle, x: GoldilocksExt2| {
        ext2_add(o.c0, ext2_mul(x, ext2_add(o.c1, ext2_mul(x, o.c2))))
    };
    let adds_up = |o: &SumcheckOracle, sum: GoldilocksExt2| ext2_add(at(o, ext(0)), at(o, ext(1))) == sum;
    let oracles = &proof.sumcheck_oracles;
    let mut ok = oracles.len() == point.len()
        && proof.folded_roots.len() == point.len() - 1
        && adds_up(&oracles[0], proof.eval);
    send(transcript, &oracles[0]);
    let mut challenges = vec![];
    for k in 0..point.len() - 1 {
        let c = transcript.sample_challenge_ext2();
        ok = ok && adds_up(&oracles[k + 1], at(&oracles[k], c));
        send(transcript, &oracles[k + 1]);
        transcript.observe_hash(&proof.folded_roots[k]);
        challenges.push(c);
    }
    challenges.push(transcript.sample_challenge_ext2());
    for q in &proof.query_proofs {
        ok = ok && q.index as u64 == transcript.sample_challenge().0 % (1 << (codeword_log - 1));
        let mut index = q.index;
        for k in 0..point.len() {
            let (a, b) = q.values[k];
            ok = ok
                && if k == 0 {
                    leads_to(gl_leaf(a.c0, b.c0), index, &q.merkle_paths[0], root)
                } else {
                    leads_to(ext2_leaf(a, b), index, &q.merkle_paths[k], proof.folded_roots[k - 1])
                };
            let e = table.entries[table.level_offsets[k] + index];
            let slope = ext2_mul(ext2_sub(b, a), GoldilocksExt2::from_base(e.weight));
            let folded =
                ext2_add(a, ext2_mul(ext2_sub(challenges[k], GoldilocksExt2::from_base(e.point)), slope));
            ok = ok
                && folded
                    == if k + 1 == point.len() {
                        proof.final_codeword[index]
                    } else if index % 2 == 0 {
                        q.values[k + 1].0
                    } else {
                        q.values[k + 1].1
                    };
            index /= 2;
        }
    }
    ok
}

#[test]
fn test_cpu_vs_gpu_opening() {
    let num_vars = 6;
    let max_num_vars = 9;
    let log_rate = 3;
    let seed = 42;
    let num_queries = 10;
    let p = GOLDILOCKS_PRIME;

    let evals: Vec<u64> = (0..64).map(|i| (p - 1 - i * 1000 % p) % p).collect();
    let mut codeword = vec![];
    for _ in 0..1 << log_rate {
        codeword.extend(evals.iter());
    }
    let hasher = MerkleHasher { compress: mix, gl_leaf, ext2_leaf };
    let commitment = HostCommitmentCache {
        num_vars,
        log_rate,
        root: CpuMerkleTree::build_from_gl_pairs(&codeword, &hasher).root(),
        codeword,
        bh_evals: bit_reverse_vec(&evals, num_vars),
    };

    // a table for more variables than the polynomial has
    let mut table = BasefoldTable { entries: vec![], level_offsets: vec![], level_sizes: vec![] };
    for level in 0..max_num_vars {
        let size = 1usize << (max_num_vars + log_rate - 1 - level);
        table.level_offsets.push(table.entries.len());
        table.level_sizes.push(size);
        for i in 0..size as u64 {
            let d = mix(
                Digest { w0: seed, w1: level as u64, w2: i, w3: 0 },
                Digest { w0: 1, w1: 2, w2: 3, w3: 4 },
            );
            table.entries.push(FoldingEntry { point: GoldilocksField(d.w0 % p), weight: GoldilocksField(d.w1 % p) });
        }
    }

    let point: Vec<GoldilocksExt2> =
        (0..num_vars).map(|i| GoldilocksExt2::from_base(GoldilocksField(100 + i as u64))).collect();
    let script = || {
        let mut t = Transcript::new(b"test-open", mix as fn(Digest, Digest) -> Digest);
        t.append_u64(Label::Empty, 42);
        t
    };
    let cpu_proof = cpu_full_open_ext2(&commitment, &point, &table, &hasher, &mut script(), num_queries);

    let poly = DenseMLPoly::new(num_vars, evals.iter().map(|&x| GoldilocksField(x)).collect());
    let value = poly.evaluate_ext2(&point);
    assert_eq!(value.c0.0, cpu_proof.gpu_proof.eval.c0.0, "eval mismatch");
    assert_eq!(cpu_proof.eval, value);
    assert_eq!(cpu_proof.gpu_proof.query_proofs.len(), num_queries);
    let holds = |proof: &BasefoldProofExt2| {
        opening_holds(commitment.root, &point, proof, &table, &mut script(), num_vars + log_rate)
    };
    assert!(holds(&cpu_proof.gpu_proof), "CPU proof should verify");
    let mut other = cpu_proof.gpu_proof;
    other.eval = ext2_add(other.eval, ext(1));
    assert!(!holds(&other));
    other.eval = ext2_sub(other.eval, ext(1));
    other.query_proofs[9].values[3].0 = ext2_add(other.query_proofs[9].values[3].0, ext(1));
    assert!(!holds(&other));
}

#[test]
fn commitments_move_to_the_host() {
    let table = BasefoldTable { entries: vec![], level_offsets: vec![], level_sizes: vec![] };
    let mut store = GpuCommitmentStore::new(table, 3);
    assert!(!store.use_reupload());
    store.commitments[1] = Some(cache(2));
    store.device_ids[1] = Some(0);
    // one that lives on a device with a high number moves too
    store.commitments[2] = Some(cache(3));
    store.device_ids[2] = Some(7);
    store.download_and_free();
    assert!(store.commitments.iter().all(|c| c.is_none()));
    assert!(store.host_caches[0].is_none());
    assert_eq!(store.host_caches[1].as_ref().unwrap().num_vars, 2);
    assert_eq!(store.host_caches[2].as_ref().unwrap().num_vars, 3);
    assert!(store.use_reupload());
}

#[test]
fn commitments_are_freed() {
    let table = BasefoldTable { entries: vec![], level_offsets: vec![], level_sizes: vec![] };
    let mut store = GpuCommitmentStore::new(table, 2);
    store.commitments[0] = Some(cache(2));
    store.free_commitments();
    assert!(store.commitments.iter().all(|c| c.is_none()));
}

#[test]
fn largest_tasks_come_first() {
    let sizes = vec![3, 9, 5, 9];
    assert_eq!(sort_largest_first(&sizes, &vec![0, 1, 2, 3]), vec![1, 3, 2, 0]);
    assert_eq!(split_tasks(&sizes, 4), (vec![0], vec![1, 3, 2]));
}

#[test]
fn devices_and_pools() {
    assert_eq!(device_index(Some(5), 4), 1);
    assert_eq!(device_index(None, 4), 0);
    assert_eq!(device_pool_size(Some(3), 2, 8), 3);
    assert_eq!(device_pool_size(None, 2, 8), 16);
    assert_eq!(host_pool_size(64, 16), 48);
}

#[test]
fn sparse_commitments() {
    let mut map = std::collections::HashMap::new();
    map.insert(2usize, GoldilocksField(5));
    let poly = SparseMLPoly::new(2, map);
    let key = BasefoldCommitKey::default();
    let root = Digest { w0: 1, w1: 2, w2: 3, w3: 4 };
    let c = SparseBasefoldCommit::commit_sparse(&poly, &key, root);
    assert_eq!((c.root, c.num_vars), (root, 2));
    // five times (1 - x) y
    let point = [ext(3), ext(7)];
    let proof = SparseBasefoldCommit::open_sparse(&c, &poly, &key, &point);
    let value = GoldilocksExt2::from_base(GoldilocksField(GOLDILOCKS_PRIME - 70));
    assert_eq!(proof.eval, value);
    let vk = BasefoldVerifierKey::from(&key);
    assert!(SparseBasefoldCommit::verify_sparse(&c, &proof, &vk, &point, value));
    assert!(!SparseBasefoldCommit::verify_sparse(&c, &proof, &vk, &point, ext(1)));
}

#[test]
fn devices_have_queues() {
    let queues = device_queues(&vec![0, 1, 2, 3], &vec![4, 9, 6, 9], &vec![Some(0), Some(1), Some(3), None], 2);
    assert_eq!(queues, vec![vec![3, 0], vec![1, 2]]);
}
