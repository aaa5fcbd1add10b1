//! Proofs about whole graphs.
use rand::rngs::StdRng;
use rand::{Rng, SeedableRng};
use zk_torch::commit::basefold::{BasefoldCommitmentData, BasefoldOpeningProof, BasefoldProofExt2};
use zk_torch::commit::cpu_basefold::{bit_reverse_vec, BasefoldTable};
use zk_torch::commit::cpu_open::HostCommitmentCache;
use zk_torch::commit::store::GpuCommitmentStore;
use zk_torch::dag::backward::BlockReply;
use zk_torch::dag::block::{BasicBlockType, Op};
use zk_torch::dag::check_pass::CheckReply;
use zk_torch::dag::outputs::evaluate;
use zk_torch::dag::pointwise::{check_split, split_claim};
use zk_torch::dag::prove::DagProof;
use zk_torch::dag::run::run_pointwise;
use zk_torch::dag::verify::Checks;
use zk_torch::dag::{
    partition_dag, Claim, Dag, DagBuilder, DataType, EdgeId, NodeId, ParallelProof, PolyData, Role, Witness,
};
use zk_torch::field::{ext2_add, ext2_field_eq, ext2_sub};
use zk_torch::poly::SelectionPolynomial;
use zk_torch::sumcheck::SumcheckProof;
use zk_torch::transcript::Digest;
use zk_torch::{GoldilocksExt2, GoldilocksField, MLPoly, Transcript};

fn mix(a: Digest, b: Digest) -> Digest {
    let f = |x: u64, y: u64, k: u64| {
        let z = x.rotate_left(17) ^ y.wrapping_mul(0x9E37_79B9_7F4A_7C15).wrapping_add(k);
        (z ^ (z >> 29)).wrapping_mul(0xBF58_476D_1CE4_E5B9)
    };
    let w0 = f(a.w0, b.w0, 1);
    let w1 = f(a.w1, b.w1 ^ w0, 2);
    let w2 = f(a.w2, b.w2 ^ w1, 3);
    let w3 = f(a.w3, b.w3 ^ w2, 4);
    Digest { w0: w0 ^ w3, w1: w1 ^ w0.rotate_left(9), w2, w3 }
}

type Script = Transcript<fn(Digest, Digest) -> Digest>;

fn script(name: &[u8]) -> Script {
    Transcript::new(name, mix as fn(Digest, Digest) -> Digest)
}

fn tensor(v: &[u64]) -> Witness {
    let words = v.iter().map(|&x| GoldilocksField(x)).collect();
    Witness::new(vec![v.len()], words, DataType::Uint, 0, Role::Input)
}

fn pointwise(block: &BasicBlockType, inputs: &Vec<Witness>) -> Vec<Witness> {
    match block {
        BasicBlockType::Op(op) => vec![run_pointwise(*op, &inputs[0], &inputs[1])],
        _ => panic!("only sums and differences"),
    }
}

/// Commits to the values themselves.
fn commit_values(d: &PolyData, num_vars: usize, _device: usize) -> Option<HostCommitmentCache> {
    let values: Vec<u64> = d.evaluations().iter().map(|x| x.0).collect();
    let mut codeword = values.clone();
    codeword.extend(values.iter());
    let root = values
        .iter()
        .fold(Digest { w0: 0, w1: 0, w2: 0, w3: 0 }, |s, &x| mix(s, Digest { w0: x, w1: 0, w2: 0, w3: 0 }));
    Some(HostCommitmentCache { num_vars, log_rate: 1, root, codeword, bh_evals: bit_reverse_vec(&values, num_vars) })
}

fn copy(c: &Claim) -> Claim {
    Claim { edge_id: c.edge_id, sparse_id: c.sparse_id, point: c.point.clone(), eval: c.eval }
}

fn no_proof(eval: GoldilocksExt2) -> BasefoldOpeningProof {
    BasefoldOpeningProof {
        eval,
        gpu_proof: BasefoldProofExt2 {
            eval,
            sumcheck_oracles: vec![],
            folded_roots: vec![],
            final_codeword: vec![],
            query_proofs: vec![],
        },
    }
}

/// A point that depends on a digest.
fn point_from(state: Digest, n: usize) -> Vec<GoldilocksExt2> {
    (0..n as u64)
        .map(|k| {
            let d = mix(state, Digest { w0: k, w1: 0, w2: 0, w3: 0 });
            GoldilocksExt2::new(GoldilocksField(d.w0 >> 1), GoldilocksField(d.w1 >> 1))
        })
        .collect()
}

struct Setting {
    dag: Dag,
    witnesses: Vec<Vec<Witness>>,
    commitments: Vec<Option<BasefoldCommitmentData>>,
}

/// Sums that read one another, `first` being fed with numbers from one on.
fn chain(links: usize) -> Setting {
    let mut g = DagBuilder::new();
    let mut x = g.input(vec![4], DataType::Uint);
    let mut feed = vec![(x, tensor(&[1, 2, 3, 4]))];
    for k in 0..links {
        let b = g.input(vec![4], DataType::Uint);
        let k = k as u64 + 1;
        feed.push((b, tensor(&[10 * k, 20 * k, 30 * k, 40 * k])));
        x = g.add(x, b)[0];
        g.mark_boundary(x);
    }
    let (dag, mut witnesses) = g.compile();
    dag.run(&mut witnesses, &feed, &pointwise);
    let mut commitments: Vec<Option<BasefoldCommitmentData>> = vec![None; dag.num_edges()];
    let table = BasefoldTable { entries: vec![], level_offsets: vec![], level_sizes: vec![] };
    let mut store = GpuCommitmentStore::new(table, dag.num_edges());
    dag.commit(&witnesses, &mut commitments, &mut store, None, 1, &commit_values);
    Setting { dag, witnesses, commitments }
}

impl Setting {
    fn is_pointwise(&self, u: NodeId) -> bool {
        matches!(&self.dag.nodes[u].kind, BasicBlockType::Op(Op::Add) | BasicBlockType::Op(Op::Sub))
    }

    /// A claim about a sum becomes a claim about each summand at the same point; a claim about
    /// another block becomes a claim about each input at a point that the digest gives.
    fn block(&self, u: NodeId, claims: &Vec<Claim>, state: Digest) -> BlockReply {
        let c = &claims[0];
        let claims = self.dag.nodes[u]
            .inputs
            .iter()
            .map(|&e| {
                let data = self.witnesses[e][0].data.as_ref().unwrap();
                let point = if self.is_pointwise(u) { c.point.clone() } else { point_from(state, data.n()) };
                let eval = evaluate(data, &point);
                Claim { edge_id: e, sparse_id: 0, point, eval }
            })
            .collect();
        BlockReply { proofs: vec![], claims, state: mix(state, state) }
    }

    fn open(&self, _task: usize, _e: EdgeId, c: &Claim, _seed: GoldilocksExt2) -> BasefoldOpeningProof {
        no_proof(c.eval)
    }

    /// What a node makes of the values of its inputs.
    fn combine(&self, u: NodeId, a: GoldilocksExt2, b: GoldilocksExt2) -> GoldilocksExt2 {
        match &self.dag.nodes[u].kind {
            BasicBlockType::Op(Op::Sub) => ext2_sub(a, b),
            _ => ext2_add(a, b),
        }
    }

    /// Each input is claimed to have the value that it has, at the point that the digest gives.
    fn inputs_claimed(&self, u: NodeId, claims: &Vec<Claim>, state: Digest) -> bool {
        let inputs = &self.dag.nodes[u].inputs;
        claims.len() == inputs.len() + 1
            && inputs.iter().zip(claims.iter()).all(|(&e, c)| {
                let data = self.witnesses[e][0].data.as_ref().unwrap();
                c.edge_id == e
                    && c.point == point_from(state, data.n())
                    && ext2_field_eq(evaluate(data, &c.point), c.eval)
            })
    }

    fn opens(&self, c: &Claim, p: &BasefoldOpeningProof) -> bool {
        let value = evaluate(self.witnesses[c.edge_id][0].data.as_ref().unwrap(), &c.point);
        ext2_field_eq(value, c.eval) && ext2_field_eq(value, p.eval)
    }

    fn prove(&self, name: &[u8]) -> Option<DagProof> {
        let block = |u: NodeId, _: &Vec<EdgeId>, c: &Vec<Claim>, s: Digest| self.block(u, c, s);
        let reduce = |_: NodeId, _: &Vec<EdgeId>, c: &Vec<Claim>, s: Digest| BlockReply {
            proofs: vec![],
            claims: vec![copy(&c[0])],
            state: s,
        };
        let open = |t: usize, e: EdgeId, c: &Claim, s: GoldilocksExt2| self.open(t, e, c, s);
        self.dag.prove(&self.witnesses, &self.commitments, &mut script(name), &block, &reduce, &open)
    }

    fn verify(&self, name: &[u8], p: &DagProof) -> Option<bool> {
        let block = |u: NodeId, c: &Vec<Claim>, _: &Vec<SumcheckProof>, s: Digest| CheckReply {
            ok: if self.is_pointwise(u) {
                ext2_field_eq(self.combine(u, c[0].eval, c[1].eval), c[2].eval)
                    && c[0].point == c[2].point
                    && c[1].point == c[2].point
            } else {
                self.inputs_claimed(u, c, s)
            },
            state: mix(s, s),
        };
        let reducer =
            |_: NodeId, _: &Vec<Claim>, _: &Vec<SumcheckProof>, s: Digest| CheckReply { ok: true, state: s };
        let opening = |_: usize,
                       _: &BasefoldCommitmentData,
                       c: &Claim,
                       p: &BasefoldOpeningProof,
                       _: GoldilocksExt2| self.opens(c, p);
        let checks = Checks { block, reducer, opening, sf: 1 };
        self.dag.verify(
            &p.0,
            &p.1,
            &p.2,
            &p.3,
            &p.4,
            &self.witnesses,
            &self.commitments,
            &mut script(name),
            &checks,
        )
    }

    fn prove_parallel(&self, name: &[u8]) -> Option<ParallelProof> {
        let parts = partition_dag(&self.dag, &self.dag.boundary_edges);
        let block = |u: NodeId, _: &Vec<EdgeId>, c: &Vec<Claim>, s: Digest| self.block(u, c, s);
        let reduce = |_: NodeId, _: &Vec<EdgeId>, c: &Vec<Claim>, s: Digest| BlockReply {
            proofs: vec![],
            claims: vec![copy(&c[0])],
            state: s,
        };
        let open = |t: usize, e: EdgeId, c: &Claim, s: GoldilocksExt2| self.open(t, e, c, s);
        self.dag.prove_parallel(
            &self.witnesses,
            &self.commitments,
            &mut script(name),
            &parts,
            &block,
            &reduce,
            &open,
        )
    }

    fn verify_parallel(&self, name: &[u8], p: &ParallelProof) -> Option<bool> {
        let parts = partition_dag(&self.dag, &self.dag.boundary_edges);
        let block = |_: NodeId, c: &Vec<Claim>, _: &Vec<SumcheckProof>, s: Digest| CheckReply {
            ok: ext2_field_eq(ext2_add(c[0].eval, c[1].eval), c[2].eval),
            state: mix(s, s),
        };
        let reducer =
            |_: NodeId, _: &Vec<Claim>, _: &Vec<SumcheckProof>, s: Digest| CheckReply { ok: true, state: s };
        let opening = |_: usize,
                       _: &BasefoldCommitmentData,
                       c: &Claim,
                       p: &BasefoldOpeningProof,
                       _: GoldilocksExt2| self.opens(c, p);
        let checks = Checks { block, reducer, opening, sf: 1 };
        self.dag.verify_parallel(
            p,
            &self.witnesses,
            &self.commitments,
            &mut script(name),
            &parts,
            &checks,
        )
    }
}

#[test]
fn test_dag_end_to_end() {
    let s = chain(1);
    let out = *s.dag.output_ports.last().unwrap();
    let values: Vec<u64> = s.witnesses[out][0].data.as_ref().unwrap().evaluations().iter().map(|x| x.0).collect();
    assert_eq!(values, vec![11, 22, 33, 44]);
    let proof = s.prove(b"test_dag").unwrap();
    let verified = s.verify(b"test_dag", &proof);
    assert_eq!(verified, Some(true), "End-to-end DAG verification should pass");
}

#[test]
fn long_chains_verify() {
    let s = chain(5);
    let proof = s.prove(b"chain").unwrap();
    assert_eq!(proof.0.iter().filter(|p| p.is_some()).count(), 5);
    assert_eq!(s.verify(b"chain", &proof), Some(true));
}

#[test]
fn another_name_is_refused() {
    let s = chain(2);
    let proof = s.prove(b"one").unwrap();
    assert_eq!(s.verify(b"one", &proof), Some(true));
    assert_ne!(s.verify(b"two", &proof), Some(true));
}

#[test]
fn a_changed_claim_is_refused() {
    let s = chain(2);
    let mut proof = s.prove(b"x").unwrap();
    if let Some(node) = &mut proof.0[0] {
        node.1[0].eval = ext2_add(node.1[0].eval, GoldilocksExt2::one());
    }
    assert_ne!(s.verify(b"x", &proof), Some(true));
}

#[test]
fn a_changed_opening_is_refused() {
    let s = chain(2);
    let mut proof = s.prove(b"x").unwrap();
    let e = proof.1.iter().position(|p| !p.dense_opening_proof.is_empty()).unwrap();
    proof.1[e].dense_opening_proof[0].eval = ext2_add(proof.1[e].dense_opening_proof[0].eval, GoldilocksExt2::one());
    assert_eq!(s.verify(b"x", &proof), Some(false));
}

#[test]
fn a_missing_node_proof_is_noticed() {
    let s = chain(2);
    let mut proof = s.prove(b"x").unwrap();
    proof.0[1] = None;
    assert_eq!(s.verify(b"x", &proof), None);
}

#[test]
fn partitions_verify() {
    let mut s = chain(4);
    s.dag.set_partition_boundaries(2);
    let proof = s.prove_parallel(b"parts").unwrap();
    assert_eq!(proof.partition_proofs.len(), 2);
    assert_eq!(proof.boundary_evals.len(), 1);
    assert_eq!(s.verify_parallel(b"parts", &proof), Some(true));
}

/// A chain in two partitions, with a commitment to the edge between them.
fn cut_chain() -> (Setting, EdgeId) {
    let mut s = chain(4);
    s.dag.set_partition_boundaries(2);
    let table = BasefoldTable { entries: vec![], level_offsets: vec![], level_sizes: vec![] };
    let mut store = GpuCommitmentStore::new(table, s.dag.num_edges());
    s.dag.commit(&s.witnesses, &mut s.commitments, &mut store, None, 1, &commit_values);
    let b = s.dag.boundary_edges[0];
    assert!(s.commitments[b].is_some());
    (s, b)
}

#[test]
fn committed_boundaries_are_opened() {
    let (s, b) = cut_chain();
    let proof = s.prove_parallel(b"cut").unwrap();
    assert_eq!(proof.edge_proofs[b].dense_opening_proof.len(), 1);
    assert_eq!(s.verify_parallel(b"cut", &proof), Some(true));

    // another opening, another value sent, or a claim taken away
    let mut proof = s.prove_parallel(b"cut").unwrap();
    let p = &mut proof.edge_proofs[b].dense_opening_proof[0];
    p.gpu_proof.eval = ext2_add(p.gpu_proof.eval, GoldilocksExt2::one());
    p.eval = p.gpu_proof.eval;
    assert_eq!(s.verify_parallel(b"cut", &proof), Some(false));
    let mut proof = s.prove_parallel(b"cut").unwrap();
    proof.boundary_evals[0].2 = ext2_add(proof.boundary_evals[0].2, GoldilocksExt2::one());
    assert_eq!(s.verify_parallel(b"cut", &proof), Some(false));
    let mut proof = s.prove_parallel(b"cut").unwrap();
    proof.edge_proofs[b].claims.clear();
    assert_ne!(s.verify_parallel(b"cut", &proof), Some(true));
    let mut proof = s.prove_parallel(b"cut").unwrap();
    proof.edge_proofs[b].dense_opening_proof.clear();
    assert_ne!(s.verify_parallel(b"cut", &proof), Some(true));
}

#[test]
fn boundaries_are_gone_through_in_order() {
    let mut s = chain(6);
    s.dag.set_partition_boundaries(3);
    let changed = |p: &mut ParallelProof| p.boundary_evals[0].1[0] = ext2_add(p.boundary_evals[0].1[0], GoldilocksExt2::one());
    // the first boundary is refused before the second is missed
    let mut proof = s.prove_parallel(b"order").unwrap();
    changed(&mut proof);
    proof.boundary_evals.pop();
    assert_eq!(s.verify_parallel(b"order", &proof), Some(false));
    // without a refusal before it, what is missing leaves no verdict
    let mut proof = s.prove_parallel(b"order").unwrap();
    proof.boundary_evals.pop();
    assert_eq!(s.verify_parallel(b"order", &proof), None);
    // nor does a claim about another edge
    let mut proof = s.prove_parallel(b"order").unwrap();
    changed(&mut proof);
    proof.boundary_evals[0].0 += 1;
    assert_eq!(s.verify_parallel(b"order", &proof), None);
}

#[test]
fn a_changed_boundary_point_is_refused() {
    let mut s = chain(4);
    s.dag.set_partition_boundaries(2);
    let mut proof = s.prove_parallel(b"parts").unwrap();
    proof.boundary_evals[0].1[0] = ext2_add(proof.boundary_evals[0].1[0], GoldilocksExt2::one());
    assert_eq!(s.verify_parallel(b"parts", &proof), Some(false));
}

#[test]
fn a_changed_partition_is_refused() {
    let mut s = chain(4);
    s.dag.set_partition_boundaries(2);
    let mut proof = s.prove_parallel(b"parts").unwrap();
    let part = &mut proof.partition_proofs[0];
    let n = part.node_proofs.iter().position(|p| p.is_some()).unwrap();
    if let Some(node) = &mut part.node_proofs[n] {
        node.1[0].eval = ext2_add(node.1[0].eval, GoldilocksExt2::one());
    }
    assert_eq!(s.verify_parallel(b"parts", &proof), Some(false));
}

/// A difference that is shown to have no negative entry.
fn difference(a: &[u64], b: &[u64]) -> Setting {
    let mut g = DagBuilder::new();
    let x = g.input(vec![4], DataType::Uint);
    let y = g.input(vec![4], DataType::Uint);
    let d = g.sub(x, y)[0];
    g.add_nonneg_node(d);
    let (dag, mut witnesses) = g.compile();
    let eval = |block: &BasicBlockType, inputs: &Vec<Witness>| -> Vec<Witness> {
        match block {
            BasicBlockType::Op(Op::NonNegative) => {
                let values = inputs[0].data.as_ref().unwrap().evaluations();
                let bits = (0..32)
                    .flat_map(|k| values.iter().map(move |v| GoldilocksField((v.0 >> k) & 1)).collect::<Vec<_>>())
                    .collect();
                vec![Witness::new(vec![4, 32], bits, DataType::Uint, 0, Role::Auxiliary)]
            }
            _ => pointwise(block, inputs),
        }
    };
    dag.run(&mut witnesses, &[(x, tensor(a)), (y, tensor(b))], &eval);
    let mut commitments: Vec<Option<BasefoldCommitmentData>> = vec![None; dag.num_edges()];
    let table = BasefoldTable { entries: vec![], level_offsets: vec![], level_sizes: vec![] };
    let mut store = GpuCommitmentStore::new(table, dag.num_edges());
    dag.commit(&witnesses, &mut commitments, &mut store, None, 1, &commit_values);
    Setting { dag, witnesses, commitments }
}

#[test]
fn ranges_are_proved() {
    let s = difference(&[9, 300, 70000, 5], &[4, 1, 2, 5]);
    assert_eq!(s.dag.range.len(), 1);
    let proof = s.prove(b"range").unwrap();
    assert_eq!(proof.2.middle_claims.len(), 1);
    assert_eq!(s.verify(b"range", &proof), Some(true));
}

#[test]
fn bits_are_claimed_at_the_drawn_point() {
    let s = difference(&[9, 300, 70000, 5], &[4, 1, 2, 5]);
    let aux = s.witnesses.iter().position(|w| w[0].role == Role::Auxiliary).unwrap();
    let bits = s.witnesses[aux][0].data.as_ref().unwrap();
    let mut claims: Vec<Vec<Claim>> = (0..s.dag.num_edges()).map(|_| vec![]).collect();
    s.dag.prove_range(&s.witnesses, &mut claims, &mut script(b"drawn"));
    let c = &claims[aux][0];
    assert_eq!(c.point.len(), 7);
    assert!(c.point[..2].iter().any(|x| !ext2_field_eq(*x, GoldilocksExt2::zero())));
    assert!(ext2_field_eq(evaluate(bits, &c.point), c.eval));
}

#[test]
fn sums_split_and_add_up() {
    let s = chain(1);
    let out = s.dag.nodes[0].outputs[0];
    let point = vec![GoldilocksExt2::new(GoldilocksField(3), GoldilocksField(4)), GoldilocksExt2::one()];
    let eval = evaluate(s.witnesses[out][0].data.as_ref().unwrap(), &point);
    let whole = Claim { edge_id: out, sparse_id: 0, point, eval };
    let state = Digest { w0: 1, w1: 2, w2: 3, w3: 4 };
    let reply = split_claim(&s.dag, &s.witnesses, 0, &[copy(&whole)], state).unwrap();
    assert!(reply.proofs.is_empty() && reply.state == state);
    assert_eq!(reply.claims.len(), 2);
    for c in reply.claims.iter() {
        assert!(ext2_field_eq(evaluate(s.witnesses[c.edge_id][0].data.as_ref().unwrap(), &c.point), c.eval));
    }
    let mut sides = reply.claims;
    sides.push(copy(&whole));
    assert!(check_split(&s.dag, 0, &sides, state).ok);
    sides[0].eval = ext2_add(sides[0].eval, GoldilocksExt2::one());
    assert!(!check_split(&s.dag, 0, &sides, state).ok);
    sides.pop();
    assert!(!check_split(&s.dag, 0, &sides, state).ok);
    // no claim, and a point that does not fit
    assert!(split_claim(&s.dag, &s.witnesses, 0, &[], state).is_none());
    let short = Claim { edge_id: out, sparse_id: 0, point: vec![GoldilocksExt2::one()], eval };
    assert!(split_claim(&s.dag, &s.witnesses, 0, &[short], state).is_none());
}

#[test]
fn differences_split_and_add_up() {
    let s = difference(&[9, 300, 70000, 5], &[4, 1, 2, 5]);
    let out = s.dag.nodes[0].outputs[0];
    let point = vec![GoldilocksExt2::new(GoldilocksField(3), GoldilocksField(4)), GoldilocksExt2::one()];
    let eval = evaluate(s.witnesses[out][0].data.as_ref().unwrap(), &point);
    let whole = Claim { edge_id: out, sparse_id: 0, point, eval };
    let state = Digest { w0: 1, w1: 2, w2: 3, w3: 4 };
    let mut sides = split_claim(&s.dag, &s.witnesses, 0, &[copy(&whole)], state).unwrap().claims;
    sides.push(whole);
    assert!(check_split(&s.dag, 0, &sides, state).ok);
    sides.swap(0, 1);
    assert!(!check_split(&s.dag, 0, &sides, state).ok);
}

#[test]
fn changed_range_proofs_are_refused() {
    let s = difference(&[9, 300, 70000, 5], &[4, 1, 2, 5]);
    let mut proof = s.prove(b"range").unwrap();
    let m = &mut proof.2.middle_claims[0];
    m[0] = ext2_add(m[0], GoldilocksExt2::one());
    assert_eq!(s.verify(b"range", &proof), Some(false));
    let mut proof = s.prove(b"range").unwrap();
    proof.2.bool_proofs[0].final_eval = ext2_add(proof.2.bool_proofs[0].final_eval, GoldilocksExt2::one());
    assert_eq!(s.verify(b"range", &proof), Some(false));
}

#[test]
fn range_checks_are_gone_through_in_order() {
    let mut g = DagBuilder::new();
    let x = g.input(vec![4], DataType::Uint);
    let y = g.input(vec![4], DataType::Uint);
    let d = g.sub(x, y)[0];
    g.add_nonneg_node(d);
    g.add_nonneg_node(y);
    let (dag, mut witnesses) = g.compile();
    dag.run(&mut witnesses, &[(x, tensor(&[9, 300, 70000, 5])), (y, tensor(&[4, 1, 2, 5]))], &layer_blocks);
    let claim = |e: EdgeId| {
        let data = witnesses[e][0].data.as_ref().unwrap();
        let point = point_from(Digest { w0: 1, w1: 2, w2: 3, w3: 4 }, data.n());
        let eval = evaluate(data, &point);
        Claim { edge_id: e, sparse_id: 0, point, eval }
    };
    let checked: Vec<EdgeId> = dag.range.iter().map(|&n| dag.nodes[n].inputs[0]).collect();
    let mut claims: Vec<Vec<Claim>> = (0..dag.num_edges()).map(|_| vec![]).collect();
    for &e in &checked {
        claims[e].push(claim(e));
    }
    let before: Vec<Vec<Claim>> = claims.iter().map(|cs| cs.iter().map(copy).collect()).collect();
    let make = || {
        let mut cs: Vec<Vec<Claim>> = before.iter().map(|cs| cs.iter().map(copy).collect()).collect();
        dag.prove_range(&witnesses, &mut cs, &mut script(b"order"))
    };
    let nodes = |n: usize| {
        let mut v: Vec<_> = dag.nodes.iter().map(|_| None).collect();
        for (&node, &e) in dag.range.iter().zip(checked.iter()).take(n) {
            v[node] = Some((vec![], vec![claim(e)]));
        }
        v
    };
    let verify = |n: usize, p: &zk_torch::dag::LookupProof| {
        dag.verify_range(&nodes(n), &witnesses, &before, p, 1, &mut script(b"order"))
    };
    assert_eq!(verify(2, &make()), Some(true));
    // the first check is refused before the second is missed
    let mut proof = make();
    proof.middle_claims[0][0] = ext2_add(proof.middle_claims[0][0], GoldilocksExt2::one());
    proof.middle_claims.pop();
    proof.table_proofs.clear();
    assert_eq!(verify(2, &proof), Some(false));
    let mut proof = make();
    proof.middle_claims.pop();
    assert_eq!(verify(2, &proof), None);
    let mut proof = make();
    proof.middle_claims[0].pop();
    proof.middle_claims[1][0] = ext2_add(proof.middle_claims[1][0], GoldilocksExt2::one());
    assert_eq!(verify(2, &proof), None);
    // no proof of the sum is a refusal
    let mut proof = make();
    proof.table_proofs.clear();
    assert_eq!(verify(2, &proof), Some(false));
    proof.bool_proofs.clear();
    assert_eq!(verify(2, &proof), Some(false));
}

#[test]
fn entries_other_than_bits_are_refused() {
    let mut s = difference(&[9, 300, 70000, 5], &[4, 1, 2, 5]);
    let aux = s.witnesses.iter().position(|w| w[0].role == Role::Auxiliary).unwrap();
    if let Some(PolyData::Dense(p)) = &mut s.witnesses[aux][0].data {
        p.evaluations[3] = GoldilocksField(2);
    }
    let proof = s.prove(b"range").unwrap();
    assert_ne!(s.verify(b"range", &proof), Some(true));
}

#[test]
fn powers_of_two_are_looked_up() {
    let mut g = DagBuilder::new();
    let k = g.input(vec![4], DataType::Uint);
    g.init_values.push(Some(Witness::new_wo_data(vec![4], DataType::Uint, 0, Role::Output)));
    let out = g.add_gkr_node(vec![k], BasicBlockType::Op(Op::TwoPow))[0];
    g.two_pow.push(0);
    let (dag, mut witnesses) = g.compile();
    // exponents 0, 3, 15 and 3; entry `j` of the table is the power of `15 - j`
    let selection = SelectionPolynomial::new(2, 4, vec![(0, 15), (1, 12), (2, 0), (3, 12)]);
    witnesses[k] = vec![Witness::new_sparse(vec![4], selection.to_sparse(), DataType::Uint, 0, Role::Auxiliary)];
    let powers = tensor(&[1, 8, 32768, 8]);
    let point = vec![GoldilocksExt2::new(GoldilocksField(3), GoldilocksField(4)), GoldilocksExt2::one()];
    let eval = evaluate(powers.data.as_ref().unwrap(), &point);
    let mut claims: Vec<Vec<Claim>> = (0..dag.num_edges()).map(|_| vec![]).collect();
    claims[out].push(Claim { edge_id: out, sparse_id: 0, point: point.clone(), eval });
    let proof = dag.prove_two_pow(&witnesses, &mut claims, &mut script(b"powers"));
    assert_eq!(proof.middle_claims[0], vec![eval]);
    // what is left to open is the selection at the point and the challenges
    let c = claims[k].last().unwrap();
    assert_eq!(c.point[..2], point[..]);
    assert!(ext2_field_eq(evaluate(witnesses[k][0].data.as_ref().unwrap(), &c.point), c.eval));

    let node = |eval| vec![Some((vec![], vec![Claim { edge_id: out, sparse_id: 0, point: point.clone(), eval }]))];
    assert_eq!(dag.verify_two_pow(&node(eval), &proof, &mut script(b"powers")), Some(true));
    let wrong = ext2_add(eval, GoldilocksExt2::one());
    assert_eq!(dag.verify_two_pow(&node(wrong), &proof, &mut script(b"powers")), Some(false));
    assert_eq!(dag.verify_two_pow(&node(eval), &proof, &mut script(b"other")), Some(false));
    // a refusal comes before what is missing; without one there is no verdict
    let mut none = proof;
    none.table_proofs.clear();
    assert_eq!(dag.verify_two_pow(&node(wrong), &none, &mut script(b"powers")), Some(false));
    assert_eq!(dag.verify_two_pow(&node(eval), &none, &mut script(b"powers")), None);
    none.middle_claims.clear();
    assert_eq!(dag.verify_two_pow(&node(wrong), &none, &mut script(b"powers")), None);
    assert_eq!(dag.verify_two_pow(&[None], &none, &mut script(b"powers")), None);
}

#[test]
fn claims_about_one_edge_are_combined() {
    let mut g = DagBuilder::new();
    let x = g.input(vec![4], DataType::Uint);
    let b = g.input(vec![4], DataType::Uint);
    let c = g.input(vec![4], DataType::Uint);
    let left = g.add(x, b)[0];
    let right = g.add(x, c)[0];
    let one = g.input(vec![4], DataType::Uint);
    let two = g.input(vec![4], DataType::Uint);
    let _ = g.add(left, one);
    let _ = g.add(right, two);
    let (dag, mut witnesses) = g.compile();
    let feed: Vec<(EdgeId, Witness)> =
        [x, b, c, one, two].iter().map(|&e| (e, tensor(&[e as u64, 2, 3, 4]))).collect();
    dag.run(&mut witnesses, &feed, &pointwise);
    let mut commitments: Vec<Option<BasefoldCommitmentData>> = vec![None; dag.num_edges()];
    let table = BasefoldTable { entries: vec![], level_offsets: vec![], level_sizes: vec![] };
    let mut store = GpuCommitmentStore::new(table, dag.num_edges());
    dag.commit(&witnesses, &mut commitments, &mut store, None, 1, &commit_values);
    let s = Setting { dag, witnesses, commitments };
    let mut proof = s.prove(b"shared").unwrap();
    let reducer = proof.1[x].opening_reducer.as_ref().unwrap();
    assert_eq!(reducer.len(), 1);
    assert_eq!(proof.1[x].claims.len(), 3);
    assert_eq!(s.verify(b"shared", &proof), Some(true));
    let last = proof.1[x].claims.len() - 1;
    proof.1[x].claims[last].eval = ext2_add(proof.1[x].claims[last].eval, GoldilocksExt2::one());
    assert_eq!(s.verify(b"shared", &proof), Some(false));
}

/// The place of an entry of a tensor, whose first dimension varies fastest.
fn place(shape: &[usize], c: usize, i: usize, j: usize) -> usize {
    let side = |k: usize| shape[k].next_power_of_two();
    c + side(0) * (i + side(1) * j)
}

/// A tensor with an entry for every channel, row and column.
fn image(shape: Vec<usize>, entry: impl Fn(usize, usize, usize) -> u64) -> Witness {
    let size: usize = shape.iter().map(|d| d.next_power_of_two()).product();
    let mut words = vec![GoldilocksField(0); size];
    for c in 0..shape[0] {
        for i in 0..shape[1] {
            for j in 0..shape[2] {
                words[place(&shape, c, i, j)] = GoldilocksField(entry(c, i, j));
            }
        }
    }
    Witness::new(shape, words, DataType::Uint, 0, Role::Output)
}

/// The blocks of pooling, padding and ReLU layers, on numbers that are not negative.
fn layer_blocks(block: &BasicBlockType, inputs: &Vec<Witness>) -> Vec<Witness> {
    let x = inputs[0].data.as_ref().unwrap().evaluations();
    let shape = inputs[0].shape.clone();
    let at = |c: usize, i: usize, j: usize| x[place(&shape, c, i, j)].0;
    let BasicBlockType::Op(op) = block else { panic!("no such block") };
    match *op {
        Op::NonNegative => {
            let bits = (0..32)
                .flat_map(|k| x.iter().map(move |v| GoldilocksField((v.0 >> k) & 1)).collect::<Vec<_>>())
                .collect();
            vec![Witness::new(vec![x.len(), 32], bits, DataType::Uint, 0, Role::Auxiliary)]
        }
        Op::GeneralMaxPoolHelper { channels, input_h, input_w, kernel_h, kernel_w, stride_h, stride_w } => {
            let (h, w) = ((input_h - kernel_h) / stride_h + 1, (input_w - kernel_w) / stride_w + 1);
            vec![image(vec![channels, h, w], |c, i, j| {
                let window = (0..kernel_h).flat_map(|a| (0..kernel_w).map(move |b| (a, b)));
                window.map(|(a, b)| at(c, i * stride_h + a, j * stride_w + b)).max().unwrap()
            })]
        }
        Op::SubSample2D { channels, stride_h, stride_w, offset_h, offset_w, out_h, out_w, .. } => {
            vec![image(vec![channels, out_h, out_w], |c, i, j| at(c, i * stride_h + offset_h, j * stride_w + offset_w))]
        }
        Op::ZeroPadAsym { channels, input_h, input_w, pad_h_top, pad_h_bottom, pad_w_left, pad_w_right } => {
            let (h, w) = (input_h + pad_h_top + pad_h_bottom, input_w + pad_w_left + pad_w_right);
            vec![image(vec![channels, h, w], |c, i, j| {
                let inside = i >= pad_h_top && i < pad_h_top + input_h && j >= pad_w_left && j < pad_w_left + input_w;
                if inside { at(c, i - pad_h_top, j - pad_w_left) } else { 0 }
            })]
        }
        Op::ReLUHelper | Op::ProductZeroCheck => vec![image(shape.clone(), |_, _, _| 0)],
        _ => pointwise(block, inputs),
    }
}

/// Runs a graph on an image, proves it and checks the proof.
fn round_trip(g: DagBuilder, image: Vec<GoldilocksField>, name: &[u8]) -> Option<bool> {
    let (dag, mut witnesses) = g.compile();
    let x_data = Witness::new(vec![1, 8, 8], image, DataType::Uint, 0, Role::Input);
    dag.run(&mut witnesses, &[(0, x_data)], &layer_blocks);
    let mut commitments: Vec<Option<BasefoldCommitmentData>> = vec![None; dag.num_edges()];
    let table = BasefoldTable { entries: vec![], level_offsets: vec![], level_sizes: vec![] };
    let mut store = GpuCommitmentStore::new(table, dag.num_edges());
    dag.commit(&witnesses, &mut commitments, &mut store, None, 1, &commit_values);
    let s = Setting { dag, witnesses, commitments };
    let proof = s.prove(name)?;
    s.verify(name, &proof)
}

#[test]
fn test_maxpool_general_prove_verify() {
    let mut g = DagBuilder::new();
    let x = g.input(vec![1, 8, 8], DataType::Uint);
    let _y = g.maxpool_general(x, 3, 3, 2, 2);
    let mut rng = StdRng::seed_from_u64(12345);
    let input_data = (0..64).map(|_| GoldilocksField((rng.gen::<u32>() % 500) as u64)).collect();
    let verified = round_trip(g, input_data, b"test_mp");
    assert!(verified == Some(true), "maxpool_general prove/verify should pass");
}

#[test]
fn test_pad_asym_maxpool_prove_verify() {
    let mut g = DagBuilder::new();
    let x = g.input(vec![1, 8, 8], DataType::Uint);
    let h = g.pad_asym(x, 0, 1, 0, 1);
    let _y = g.maxpool_general(h, 3, 3, 2, 2);
    let mut rng = rand::thread_rng();
    let input_data = (0..64).map(|_| GoldilocksField((rng.gen::<u32>() % 500) as u64)).collect();
    let verified = round_trip(g, input_data, b"test_pm");
    assert!(verified == Some(true), "pad_asym + maxpool_general prove/verify should pass");
}

#[test]
fn test_relu_pad_maxpool_prove_verify() {
    let mut g = DagBuilder::new();
    let x = g.input(vec![1, 8, 8], DataType::Uint);
    let h = g.relu(x);
    let h = g.pad_asym(h, 0, 1, 0, 1);
    let _y = g.maxpool_general(h, 3, 3, 2, 2);
    let mut rng = rand::thread_rng();
    let input_data = (0..64).map(|_| GoldilocksField((rng.gen::<u32>() % 100) as u64)).collect();
    let verified = round_trip(g, input_data, b"test_rpm");
    assert!(verified == Some(true), "relu + pad_asym + maxpool_general prove/verify should pass");
}
