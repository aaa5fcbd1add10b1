//! Building, compiling, running and partitioning graphs.
use zk_torch::dag::block::{BasicBlockType, Op};
use zk_torch::dag::kahn::kahn;
use zk_torch::dag::run::run_pointwise;
use zk_torch::dag::{
    dense_add_relu, edge_partition_map, partition_dag, DagBuilder, DataType, EdgeId, Role, Witness,
};
use zk_torch::{GoldilocksField, MLPoly};

fn gl(x: u64) -> GoldilocksField {
    GoldilocksField(x)
}

fn words(v: &[u64]) -> Vec<GoldilocksField> {
    v.iter().map(|&x| gl(x)).collect()
}

fn tensor(v: &[u64], role: Role) -> Witness {
    Witness::new(vec![v.len()], words(v), DataType::Uint, 0, role)
}

/// Evaluates sums and differences.
fn pointwise(block: &BasicBlockType, inputs: &Vec<Witness>) -> Vec<Witness> {
    match block {
        BasicBlockType::Op(op) => vec![run_pointwise(*op, &inputs[0], &inputs[1])],
        _ => panic!("only sums and differences"),
    }
}

#[test]
fn test_dag_builder_simple_add() {
    let mut g = DagBuilder::new();
    let a = g.input(vec![4], DataType::Uint);
    let b = g.input(vec![4], DataType::Uint);
    let out = g.add(a, b);

    assert_eq!(g.nodes.len(), 1);
    assert!(g.num_edges >= 3);
    assert_eq!(out.len(), 1);
}

#[test]
fn test_dag_builder_compile() {
    let mut g = DagBuilder::new();
    let a = g.input(vec![4], DataType::Uint);
    let b = g.input(vec![4], DataType::Uint);
    let _out = g.add(a, b);

    let (dag, witnesses) = g.compile();

    assert!(!dag.topo.is_empty(), "Topological order should not be empty");
    assert_eq!(dag.input_ports.len(), 2, "Should have 2 inputs");
    assert!(!dag.output_ports.is_empty(), "Should have output ports");
    assert!(!witnesses.is_empty());
}

#[test]
fn test_dag_builder_chain() {
    let mut g = DagBuilder::new();
    let a = g.input(vec![4], DataType::Uint);
    let b_witness = Witness::new(
        vec![4],
        vec![gl(1), gl(1), gl(1), gl(1)],
        DataType::Uint,
        0,
        Role::Constant,
    );
    let b = g.param(b_witness);
    let sum = g.add(a, b);
    let _out = g.einsum("a->a".to_string(), vec![sum[0]], false);

    let (dag, _witnesses) = g.compile();
    assert_eq!(dag.topo.len(), 2);
}

#[test]
fn test_dag_builder_pipe() {
    let mut g = DagBuilder::new();
    let a = g.input(vec![4], DataType::Uint);

    let identity = |g: &mut DagBuilder, x: &[EdgeId]| -> Vec<EdgeId> {
        let e = g.einsum("a->a".to_string(), vec![x[0]], false);
        e
    };
    let _out = g.pipe(&[a], identity);

    let (dag, _witnesses) = g.compile();
    assert_eq!(dag.topo.len(), 1);
}

#[test]
fn test_dag_run_simple_add() {
    let mut g = DagBuilder::new();
    let a = g.input(vec![4], DataType::Uint);
    let b = g.input(vec![4], DataType::Uint);
    let _out = g.add(a, b);

    let (dag, mut witnesses) = g.compile();

    let a_data = tensor(&[1, 2, 3, 4], Role::Input);
    let b_data = tensor(&[10, 20, 30, 40], Role::Input);

    dag.run(&mut witnesses, &[(0, a_data), (1, b_data)], &pointwise);

    let out_edge = dag
        .output_ports
        .iter()
        .find(|&&e| witnesses[e][0].role == Role::Output)
        .copied()
        .unwrap_or(2);
    let out_evals = witnesses[out_edge][0].data.as_ref().unwrap().evaluations();
    assert_eq!(out_evals[0], gl(11));
    assert_eq!(out_evals[1], gl(22));
    assert_eq!(out_evals[2], gl(33));
    assert_eq!(out_evals[3], gl(44));
}

#[test]
fn test_partition_no_split() {
    let mut g = DagBuilder::new();
    let x = g.input(vec![4], DataType::Uint);
    let y = g.input(vec![4], DataType::Uint);
    let _z = g.add(x, y);
    let (dag, _witnesses) = g.compile();

    let partitions = partition_dag(&dag, &[]);
    assert_eq!(partitions.len(), 1);
    assert_eq!(partitions[0].node_ids.len(), dag.nodes.len());
    assert!(partitions[0].boundary_input_edges.is_empty());
    assert!(partitions[0].boundary_output_edges.is_empty());
}

#[test]
fn test_partition_two_way_split() {
    let mut g = DagBuilder::new();
    let x = g.input(vec![4], DataType::Uint);
    let b1 = g.input(vec![4], DataType::Uint);
    let mid = g.add(x, b1);
    let boundary_edge = mid[0];

    let b2 = g.input(vec![4], DataType::Uint);
    let _out = g.add(boundary_edge, b2);

    let (dag, _witnesses) = g.compile();

    let partitions = partition_dag(&dag, &[boundary_edge]);
    assert_eq!(partitions.len(), 2);

    assert_eq!(partitions[0].node_ids.len(), 1);
    assert!(partitions[0].boundary_output_edges.contains(&boundary_edge));
    assert!(partitions[0].boundary_input_edges.is_empty());

    assert_eq!(partitions[1].node_ids.len(), 1);
    assert!(partitions[1].boundary_input_edges.contains(&boundary_edge));
    assert!(partitions[1].boundary_output_edges.is_empty());
}

#[test]
fn test_partition_three_way_split() {
    let mut g = DagBuilder::new();
    let x = g.input(vec![4], DataType::Uint);
    let b1 = g.input(vec![4], DataType::Uint);
    let mid1 = g.add(x, b1);
    let boundary1 = mid1[0];

    let b2 = g.input(vec![4], DataType::Uint);
    let mid2 = g.add(boundary1, b2);
    let boundary2 = mid2[0];

    let b3 = g.input(vec![4], DataType::Uint);
    let _out = g.add(boundary2, b3);

    let (dag, _witnesses) = g.compile();

    let partitions = partition_dag(&dag, &[boundary1, boundary2]);
    assert_eq!(partitions.len(), 3);

    assert_eq!(partitions[0].node_ids.len(), 1);
    assert_eq!(partitions[1].node_ids.len(), 1);
    assert_eq!(partitions[2].node_ids.len(), 1);

    assert!(partitions[0].boundary_output_edges.contains(&boundary1));
    assert!(partitions[1].boundary_input_edges.contains(&boundary1));
    assert!(partitions[1].boundary_output_edges.contains(&boundary2));
    assert!(partitions[2].boundary_input_edges.contains(&boundary2));
}

#[test]
fn constants_are_folded() {
    let mut g = DagBuilder::new();
    let a = g.param(tensor(&[5, 6, 7, 8], Role::Constant));
    let b = g.param(tensor(&[1, 2, 3, 4], Role::Constant));
    let sum = g.add(a, b);
    let diff = g.sub(a, b);
    assert_eq!(g.nodes.len(), 2);
    let (_, witnesses) = g.compile();
    assert_eq!(witnesses[sum[0]][0].data.as_ref().unwrap().evaluations(), words(&[6, 8, 10, 12]));
    assert_eq!(witnesses[diff[0]][0].data.as_ref().unwrap().evaluations(), words(&[4, 4, 4, 4]));
}

#[test]
fn subtraction_runs() {
    let mut g = DagBuilder::new();
    let a = g.input(vec![2], DataType::Uint);
    let b = g.input(vec![2], DataType::Uint);
    let out = g.sub(a, b);
    let (dag, mut witnesses) = g.compile();
    dag.run(&mut witnesses, &[(a, tensor(&[9, 9], Role::Input)), (b, tensor(&[4, 5], Role::Input))], &pointwise);
    assert_eq!(witnesses[out[0]][0].data.as_ref().unwrap().evaluations(), words(&[5, 4]));
}

#[test]
fn later_feeds_win() {
    let mut g = DagBuilder::new();
    let a = g.input(vec![2], DataType::Uint);
    let b = g.input(vec![2], DataType::Uint);
    let out = g.add(a, b);
    let (dag, mut witnesses) = g.compile();
    let feed = [
        (a, tensor(&[1, 1], Role::Input)),
        (b, tensor(&[2, 2], Role::Input)),
        (a, tensor(&[10, 20], Role::Input)),
    ];
    dag.run(&mut witnesses, &feed, &pointwise);
    assert_eq!(witnesses[out[0]][0].data.as_ref().unwrap().evaluations(), words(&[12, 22]));
}

#[test]
fn shapes_of_operations() {
    let mut g = DagBuilder::new();
    let x = g.input(vec![3, 8, 8], DataType::Uint);
    let padded = g.pad(x, 1, 1);
    assert_eq!(g.shape_of(padded), vec![3, 10, 10]);
    let w = g.param(Witness::new(vec![4, 3, 3, 3], words(&[1; 256]), DataType::Uint, 0, Role::Constant));
    let c = g.conv2d(padded, w, (3, 3));
    assert_eq!(g.shape_of(c[0]), vec![4, 8, 8]);
    let s = g.conv2d_strided(padded, w, (3, 3), (2, 2));
    assert_eq!(g.shape_of(s[0]), vec![4, 4, 4]);
    let p = g.maxpool2d(c[0], 2, 2);
    assert_eq!(g.shape_of(p), vec![4, 4, 4]);
    let up = g.upsample_nearest_2x(p);
    assert_eq!(g.shape_of(up), vec![4, 8, 8]);
}

#[test]
fn einsum_shapes() {
    let mut g = DagBuilder::new();
    let a = g.input(vec![2, 3], DataType::Uint);
    let b = g.input(vec![3, 5], DataType::Uint);
    let e = g.einsum("ab,bc->ca".to_string(), vec![a, b], false);
    assert_eq!(e.len(), 1);
    assert_eq!(g.shape_of(e[0]), vec![5, 2]);
}

#[test]
fn scaling_back_keeps_the_scale() {
    let mut g = DagBuilder::with_scale(4);
    let a = g.input(vec![4], DataType::Float);
    let b = g.input(vec![4], DataType::Float);
    let e = g.einsum("a,a->a".to_string(), vec![a, b], true);
    assert_eq!(g.value(e[0]).sf, 4);
    let raw = g.einsum("a,a->a".to_string(), vec![a, b], false);
    assert_eq!(g.value(raw[0]).sf, 8);
}

#[test]
fn layers_come_in_order() {
    let (order, levels) = kahn(&vec![vec![2], vec![2], vec![3], vec![]]);
    assert_eq!(order.len(), 4);
    assert_eq!(levels, vec![vec![0, 1], vec![2], vec![3]]);
}

#[test]
fn boundaries_are_chosen() {
    let mut g = DagBuilder::new();
    let mut x = g.input(vec![4], DataType::Uint);
    for _ in 0..4 {
        let b = g.input(vec![4], DataType::Uint);
        x = g.add(x, b)[0];
        g.mark_boundary(x);
    }
    let (mut dag, _) = g.compile();
    dag.set_partition_boundaries(2);
    assert_eq!(dag.boundary_edges.len(), 1);
    let parts = partition_dag(&dag, &dag.boundary_edges);
    assert_eq!(parts.len(), 2);
    let total: usize = parts.iter().map(|p| p.node_ids.len()).sum();
    assert_eq!(total, dag.nodes.len());
    let map = edge_partition_map(&dag, &parts);
    assert_eq!(map.len(), dag.num_edges());
    assert_eq!(map[0], Some(0));
    assert_eq!(map[dag.num_edges() - 1], Some(1));
}

#[test]
fn partitions_keep_the_order() {
    let mut g = DagBuilder::new();
    let mut x = g.input(vec![4], DataType::Uint);
    let mut cuts = Vec::new();
    for _ in 0..5 {
        let b = g.input(vec![4], DataType::Uint);
        x = g.add(x, b)[0];
        cuts.push(x);
    }
    let (dag, _) = g.compile();
    let parts = partition_dag(&dag, &[cuts[1], cuts[3]]);
    let nodes: Vec<Vec<usize>> = parts.iter().map(|p| p.node_ids.clone()).collect();
    assert_eq!(nodes, vec![vec![0, 1], vec![2, 3], vec![4]]);
}

#[test]
fn dense_layer_builds() {
    let mut g = DagBuilder::new();
    let x = g.input(vec![4], DataType::Uint);
    let w = Witness::new(vec![4, 2], words(&[1, 2, 3, 4, 5, 6, 7, 8]), DataType::Uint, 0, Role::Constant);
    let b = Witness::new(vec![2], words(&[1, 1]), DataType::Uint, 0, Role::Constant);
    let out = g.pipe(&[x], dense_add_relu(w, b));
    assert_eq!(out.len(), 1);
    assert_eq!(g.shape_of(out[0]), vec![2]);
}

#[test]
fn entries_of_tensors() {
    let mut t = Witness::new(vec![3, 2], words(&[1, 2, 3, 9, 4, 5, 6, 9]), DataType::Uint, 0, Role::Input);
    assert_eq!(t.get(&[2, 1]), gl(6));
    assert_eq!(t.get(&[0, 1]), gl(4));
    t.clear_data();
    assert!(t.data.is_none());
    let short = Witness::new(vec![4], words(&[7]), DataType::Uint, 0, Role::Input);
    assert_eq!(short.data.as_ref().unwrap().evaluations(), words(&[7, 0, 0, 0]));
}

#[test]
fn padding_is_cleared() {
    let mut t = Witness::new(vec![2, 3], words(&[1, 2, 3, 9, 4, 5, 6, 9]), DataType::Uint, 0, Role::Input);
    t.zero_pad_if_needed();
    assert_eq!(t.data.as_ref().unwrap().evaluations(), words(&[1, 2, 3, 0, 4, 5, 6, 0]));
}

#[test]
fn operations_are_recorded() {
    let mut g = DagBuilder::new();
    let a = g.input(vec![4], DataType::Uint);
    let b = g.input(vec![4], DataType::Uint);
    let _ = g.add(a, b);
    match &g.nodes[0].kind {
        BasicBlockType::Op(op) => assert_eq!(*op, Op::Add),
        _ => panic!("a sum is a plain block"),
    }
    assert_eq!(g.nodes[0].inputs, vec![a, b]);
}

#[test]
fn exponentials_hold_the_taylor_constants() {
    let mut g = DagBuilder::with_scale(10);
    let x = g.input(vec![3], DataType::Float);
    let e = g.exp(x)[0];
    assert_eq!(g.shape_of(e), vec![3]);
    let constants: Vec<Vec<GoldilocksField>> = g
        .init_values
        .iter()
        .flatten()
        .filter(|w| w.role == Role::Constant)
        .map(|w| {
            assert_eq!(w.sf, 15);
            w.data.as_ref().unwrap().evaluations().to_vec()
        })
        .collect();
    assert_eq!(
        constants,
        vec![
            words(&[5461, 5461, 5461, 0]),
            words(&[16384, 16384, 16384, 0]),
            words(&[32768, 32768, 32768, 0]),
        ]
    );
}

#[test]
fn nodes_compile_in_any_order() {
    let mut g = DagBuilder::new();
    let a = g.input(vec![4], DataType::Uint);
    let b = g.input(vec![4], DataType::Uint);
    let c = g.add(a, b)[0];
    let d = g.add(c, b)[0];
    // the second sum stands before the first
    g.nodes.swap(0, 1);
    g.nodes[0].id = 0;
    g.nodes[1].id = 1;
    let (dag, mut witnesses) = g.compile();
    assert_eq!(dag.topo, vec![1, 0]);
    assert_eq!(dag.producers[c], Some(1));
    assert_eq!(dag.producers[d], Some(0));
    let feed = [(a, tensor(&[1, 2, 3, 4], Role::Input)), (b, tensor(&[10, 20, 30, 40], Role::Input))];
    dag.run(&mut witnesses, &feed, &pointwise);
    let out = witnesses[d][0].data.as_ref().unwrap().evaluations().to_vec();
    assert_eq!(out, words(&[21, 42, 63, 84]));
}

#[test]
fn padding_is_cleared_and_nothing_else() {
    let mut w = Witness::new(vec![3], words(&[5, 6, 7]), DataType::Uint, 0, Role::Input);
    if let Some(zk_torch::dag::PolyData::Dense(p)) = &mut w.data {
        p.evaluations[3] = gl(9);
    }
    w.zero_pad_if_needed();
    let data = w.data.as_ref().unwrap();
    assert_eq!(data.n(), 2);
    assert_eq!(data.evaluations().to_vec(), words(&[5, 6, 7, 0]));
}
