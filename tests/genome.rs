use neat::genome::genes::{ActivationFunction, ConnectionGene, NodeGene, NodeType};
use neat::genome::genome::Genome;
use neat::nn::feedforward::topological_peel;
use neat::state::InnovationRecord;
use rand::rngs::StdRng;
use rand::SeedableRng;

type G = Genome<f32, ()>;

fn genesis(inputs: usize, outputs: usize, rec: &mut InnovationRecord) -> G {
    let n = (inputs + 1) * outputs;
    let weights: Vec<f32> = (0..n).map(|i| i as f32 * 0.25 - 0.5).collect();
    let params = vec![(); outputs];
    Genome::create_initial_genome(inputs, outputs, ActivationFunction::Sigmoid, (), &params, &weights, rec)
}

fn has_pair(g: &G, a: usize, b: usize) -> bool {
    g.connections.iter().any(|c| c.in_node == a && c.out_node == b)
}

fn check_invariants(g: &G) {
    assert!(g.is_well_formed());
    for (i, c) in g.connections.iter().enumerate() {
        assert!(!g.input_nodes.contains(&c.out_node));
        assert_ne!(c.out_node, g.bias_node);
        assert!(!g.output_nodes.contains(&c.in_node));
        assert_ne!(c.in_node, c.out_node);
        for d in &g.connections[i + 1..] {
            assert!(!(c.in_node == d.in_node && c.out_node == d.out_node));
            assert_ne!(c.innovation, d.innovation);
        }
    }
    assert_eq!(g.nodes.iter().filter(|n| n.id == g.bias_node).count(), 1);
}

#[test]
fn genesis_connects_inputs_and_bias_to_outputs() {
    let mut rec = InnovationRecord::new();
    let g = genesis(2, 1, &mut rec);
    assert_eq!(g.input_nodes, vec![0, 1]);
    assert_eq!(g.bias_node, 2);
    assert_eq!(g.output_nodes, vec![3]);
    assert_eq!(g.nodes.len(), 4);
    assert_eq!(g.connections.len(), 3);
    assert!(has_pair(&g, 0, 3) && has_pair(&g, 1, 3) && has_pair(&g, 2, 3));
    let ids: Vec<usize> = g.connections.iter().map(|c| c.innovation).collect();
    assert_eq!(ids, vec![0, 1, 2]);
    assert!(g.connections.iter().all(|c| c.enabled));
    assert_eq!(g.connections[1].weight, -0.25);
    assert_eq!(g.nodes[3].activation, ActivationFunction::Sigmoid);
    assert_eq!(g.nodes[0].activation, ActivationFunction::Identity);
    assert_eq!(g.node_type(2), NodeType::Bias);
    assert_eq!(g.node_type(0), NodeType::Input);
    assert_eq!(g.node_type(3), NodeType::Output);
    assert_eq!(g.node_type(9), NodeType::Hidden);
    check_invariants(&g);
}

#[test]
fn genesis_with_no_outputs_has_no_connections() {
    let mut rec = InnovationRecord::new();
    let g = genesis(3, 0, &mut rec);
    assert_eq!(g.nodes.len(), 4);
    assert!(g.connections.is_empty());
}

#[test]
fn candidates_exclude_existing_and_forbidden_pairs() {
    let mut rec = InnovationRecord::new();
    let g = genesis(1, 1, &mut rec);
    // nodes: 0 input, 1 bias, 2 output; both allowed pairs exist
    assert!(g.connection_candidates().is_empty());
    let mut g2 = g.clone();
    g2.nodes.push(NodeGene::new(7, ActivationFunction::Relu, ()));
    let mut c = g2.connection_candidates();
    c.sort();
    assert_eq!(c, vec![(0, 7), (1, 7), (7, 2)]);
}

#[test]
fn add_connection_uses_registry_ids() {
    let mut rec = InnovationRecord::new();
    let mut g = genesis(1, 1, &mut rec);
    g.nodes.push(NodeGene::new(9, ActivationFunction::Relu, ()));
    let mut rng = StdRng::seed_from_u64(7);
    assert!(g.add_connection_mutation(&mut rng, 0.5, &mut rec));
    assert_eq!(g.connections.len(), 3);
    let added = g.connections[2];
    assert_eq!(added.innovation, 2);
    assert_eq!(added.weight, 0.5);
    assert!(added.enabled);
    check_invariants(&g);
}

#[test]
fn add_connection_on_full_genome_does_nothing() {
    let mut rec = InnovationRecord::new();
    let mut g = genesis(1, 1, &mut rec);
    let mut rng = StdRng::seed_from_u64(1);
    assert!(!g.add_connection_mutation(&mut rng, 0.5, &mut rec));
    assert_eq!(g.connections.len(), 2);
    assert_eq!(rec.record_connection_innovation(9, 9), 2);
}

#[test]
fn add_node_splits_an_enabled_connection() {
    let mut rec = InnovationRecord::new();
    let mut g = genesis(1, 1, &mut rec);
    g.connections[1].enabled = false;
    let mut rng = StdRng::seed_from_u64(3);
    let t = g.add_node_mutation(&mut rng, ActivationFunction::Tanh, (), 1.0, &mut rec);
    // only connection 0 (0 -> 2) is enabled
    assert_eq!(t, Some((3, 2, 3)));
    assert!(!g.connections[0].enabled);
    assert_eq!(g.connections.len(), 4);
    let into = g.connections[2];
    let out = g.connections[3];
    assert_eq!((into.in_node, into.out_node, into.innovation, into.weight), (0, 3, 2, 1.0));
    assert_eq!((out.in_node, out.out_node, out.innovation), (3, 2, 3));
    assert_eq!(out.weight, g.connections[0].weight);
    assert_eq!(g.node_type(3), NodeType::Hidden);
    assert_eq!(g.nodes[3].activation, ActivationFunction::Tanh);
    check_invariants(&g);
}

#[test]
fn add_node_without_enabled_connection_does_nothing() {
    let mut rec = InnovationRecord::new();
    let mut g = genesis(1, 1, &mut rec);
    g.connections[0].enabled = false;
    g.connections[1].enabled = false;
    let before = g.clone();
    let mut rng = StdRng::seed_from_u64(3);
    assert_eq!(g.add_node_mutation(&mut rng, ActivationFunction::Tanh, (), 1.0, &mut rec), None);
    assert_eq!(g.connections.len(), before.connections.len());
    assert_eq!(g.nodes.len(), before.nodes.len());
}

#[test]
fn innovation_stability_across_two_genomes() {
    let mut rec = InnovationRecord::new();
    let template = genesis(1, 1, &mut rec);
    let mut a = template.clone();
    let mut b = template.clone();
    a.connections[1].enabled = false;
    b.connections[1].enabled = false;
    let mut rng = StdRng::seed_from_u64(11);
    let ta = a.add_node_mutation(&mut rng, ActivationFunction::Sigmoid, (), 1.0, &mut rec);
    let tb = b.add_node_mutation(&mut rng, ActivationFunction::Sigmoid, (), 1.0, &mut rec);
    assert!(ta.is_some());
    assert_eq!(ta, tb);
    let ids_a: Vec<usize> = a.connections.iter().map(|c| c.innovation).collect();
    let ids_b: Vec<usize> = b.connections.iter().map(|c| c.innovation).collect();
    assert_eq!(ids_a, ids_b);
}

#[test]
fn toggle_flips_one_connection() {
    let mut rec = InnovationRecord::new();
    let mut g = genesis(2, 2, &mut rec);
    let mut rng = StdRng::seed_from_u64(5);
    let k = g.toggle_enable_mutation(&mut rng).unwrap();
    assert!(!g.connections[k].enabled);
    assert_eq!(g.connections.iter().filter(|c| !c.enabled).count(), 1);
    let mut empty = genesis(2, 0, &mut rec);
    assert_eq!(empty.toggle_enable_mutation(&mut rng), None);
}

#[test]
fn crossover_takes_genes_of_the_fitter_parent() {
    let mut rec = InnovationRecord::new();
    let base = genesis(1, 1, &mut rec);
    let mut fitter = base.clone();
    let mut rng = StdRng::seed_from_u64(2);
    fitter.add_node_mutation(&mut rng, ActivationFunction::Relu, (), 1.0, &mut rec).unwrap();
    let mut other = base.clone();
    other.nodes.push(NodeGene::new(40, ActivationFunction::Relu, ()));
    other.connections.push(ConnectionGene::new((0, 40), 0.3, 77));
    let child = fitter.crossover(&other, &mut rng);
    // nodes of both parents
    assert!(child.contains_node(40));
    assert_eq!(child.nodes.len(), fitter.nodes.len() + 1);
    // no gene of the less fit parent alone
    assert!(!child.contains_innovation(77));
    let ids: Vec<usize> = child.connections.iter().map(|c| c.innovation).collect();
    assert_eq!(ids, vec![0, 1, 2, 3]);
    check_invariants(&child);
}

#[test]
fn distance_terms_of_a_genome_with_itself_are_zero() {
    let mut rec = InnovationRecord::new();
    let mut g = genesis(2, 2, &mut rec);
    let mut rng = StdRng::seed_from_u64(4);
    g.add_node_mutation(&mut rng, ActivationFunction::Relu, (), 1.0, &mut rec);
    let c = g.compatibility_counts(&g);
    assert_eq!(c.disjoint, 0);
    assert_eq!(c.excess, 0);
    assert_eq!(c.matching.len(), g.connections.len());
    assert!(c.matching.iter().all(|(a, b)| a == b));
    assert_eq!(c.size, g.connections.len());
}

#[test]
fn genesis_identical_genomes_match_fully() {
    let mut rec = InnovationRecord::new();
    let a = genesis(2, 1, &mut rec);
    let b = a.clone();
    let c = a.compatibility_counts(&b);
    assert_eq!((c.disjoint, c.excess), (0, 0));
    assert!(c.matching.iter().all(|(x, y)| x == y));
}

#[test]
fn distance_terms_are_symmetric_and_classified() {
    let mut rec = InnovationRecord::new();
    let base = genesis(1, 1, &mut rec);
    let mut a = base.clone();
    let mut b = base.clone();
    a.nodes.push(NodeGene::new(10, ActivationFunction::Relu, ()));
    a.connections.push(ConnectionGene::new((0, 10), 0.1, 5));
    a.connections.push(ConnectionGene::new((10, 2), 0.1, 9));
    b.nodes.push(NodeGene::new(11, ActivationFunction::Relu, ()));
    b.connections.push(ConnectionGene::new((0, 11), 0.2, 7));
    b.connections[0].weight = 2.0;
    let ab = a.compatibility_counts(&b);
    let ba = b.compatibility_counts(&a);
    // a has 5 (disjoint, <= 7) and 9 (excess, > 7); b has 7 (disjoint, <= 9)
    assert_eq!(ab.disjoint, 2);
    assert_eq!(ab.excess, 1);
    assert_eq!((ba.disjoint, ba.excess), (ab.disjoint, ab.excess));
    assert_eq!(ab.matching.len(), 2);
    assert_eq!(ab.matching[0], (a.connections[0].weight, 2.0));
    assert_eq!(ba.matching[0], (2.0, a.connections[0].weight));
    assert_eq!(ab.size, 4);
    assert_eq!(ba.size, 4);
}

#[test]
fn peel_orders_a_chain_and_drops_a_cycle() {
    // 0 -> 1 -> 2, and a cycle 3 <-> 4 fed by 0
    let nodes = vec![2, 4, 1, 0, 3];
    let edges = vec![(1, 2), (0, 1), (0, 3), (3, 4), (4, 3)];
    let plan = topological_peel(&nodes, &edges);
    assert_eq!(plan.sorted_nodes.len(), 3);
    let pos = |x: usize| plan.sorted_nodes.iter().position(|&y| y == x).unwrap();
    assert!(pos(0) < pos(1) && pos(1) < pos(2));
    assert!(!plan.sorted_nodes.contains(&3) && !plan.sorted_nodes.contains(&4));
    let mut used = plan.used_connections.clone();
    used.sort();
    assert_eq!(used, vec![(0, 1), (0, 3), (1, 2)]);
}

#[test]
fn feedforward_plan_of_a_direct_wire() {
    let mut rec = InnovationRecord::new();
    let mut g = genesis(1, 1, &mut rec);
    g.connections[1].enabled = false;
    let plan = g.feedforward_plan();
    let pos = |x: usize| plan.sorted_nodes.iter().position(|&y| y == x).unwrap();
    assert!(pos(0) < pos(2));
    assert_eq!(plan.used_connections, vec![(0, 2)]);
}

#[test]
fn malformed_genomes_are_detected() {
    let mut rec = InnovationRecord::new();
    let g = genesis(1, 1, &mut rec);
    assert!(g.is_well_formed());
    let mut into_input = g.clone();
    into_input.connections.push(ConnectionGene::new((2, 0), 0.0, 9));
    assert!(!into_input.is_well_formed());
    let mut duplicate_pair = g.clone();
    duplicate_pair.connections.push(ConnectionGene::new((0, 2), 0.0, 9));
    assert!(!duplicate_pair.is_well_formed());
    let mut duplicate_id = g.clone();
    duplicate_id.nodes.push(NodeGene::new(5, ActivationFunction::Relu, ()));
    duplicate_id.connections.push(ConnectionGene::new((0, 5), 0.0, 1));
    assert!(!duplicate_id.is_well_formed());
    let mut duplicate_node = g.clone();
    duplicate_node.nodes.push(NodeGene::new(2, ActivationFunction::Relu, ()));
    assert!(!duplicate_node.is_well_formed());
    let mut no_bias = g.clone();
    no_bias.bias_node = 8;
    assert!(!no_bias.is_well_formed());
}

fn seeded_run(seed: u64) -> (Vec<String>, Vec<usize>) {
    let mut rec = InnovationRecord::new();
    let mut rng = StdRng::seed_from_u64(seed);
    let template = genesis(2, 2, &mut rec);
    let mut pool: Vec<G> = vec![template.clone(), template.clone(), template];
    let mut log = Vec::new();
    for round in 0..30 {
        let i = round % pool.len();
        let g = &mut pool[i];
        g.add_connection_mutation(&mut rng, round as f32, &mut rec);
        if let Some(t) = g.add_node_mutation(&mut rng, ActivationFunction::Relu, (), 1.0, &mut rec) {
            log.push(t.0);
        }
        g.toggle_enable_mutation(&mut rng);
        let child = pool[0].crossover(&pool[1], &mut rng);
        assert!(child.is_well_formed());
        pool.push(child);
    }
    (pool.iter().map(|g| format!("{:?}", g)).collect(), log)
}

#[test]
fn seeded_runs_are_identical() {
    let a = seeded_run(42);
    let b = seeded_run(42);
    assert_eq!(a, b);
    for g in &a.0 {
        assert!(!g.is_empty());
    }
}

#[test]
fn crossover_walks_genes_by_ascending_id() {
    let mut rec = InnovationRecord::new();
    let base = genesis(1, 1, &mut rec);
    let mut fitter = base.clone();
    fitter.nodes.push(NodeGene::new(6, ActivationFunction::Relu, ()));
    fitter.connections.insert(0, ConnectionGene::new((0, 6), 0.5, 20));
    fitter.connections.push(ConnectionGene::new((6, 2), 0.5, 4));
    let mut rng = StdRng::seed_from_u64(9);
    let child = fitter.crossover(&base, &mut rng);
    let ids: Vec<usize> = child.connections.iter().map(|c| c.innovation).collect();
    assert_eq!(ids, vec![0, 1, 4, 20]);
    let order = fitter.innovation_order();
    assert_eq!(order, vec![1, 2, 3, 0]);
}
