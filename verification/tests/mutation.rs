use neat::connection::Connection;
use neat::crossover::count_hidden_nodes;
use neat::fixed::ONE_SIGNED;
use neat::genome::Genome;
use neat::innovation::InnovationRecord;
use neat::node::Node;
use neat::weights::mutated_weight;
use rand::rngs::StdRng;
use rand::SeedableRng;
use std::collections::HashSet;

fn link<const I: usize, const O: usize>(
    in_node: usize,
    out_node: usize,
    weight: i64,
    enabled: bool,
    innovation_number: usize,
) -> Connection<I, O> {
    Connection { in_node: Node(in_node), out_node: Node(out_node), weight, enabled, innovation_number }
}

fn assert_invariants<const I: usize, const O: usize>(genome: &Genome<I, O>) {
    let mut pairs = HashSet::new();
    let mut hidden = HashSet::new();
    for gene in &genome.connections {
        assert!(!gene.in_node.is_output());
        assert!(!gene.out_node.is_bias() && !gene.out_node.is_input());
        assert_ne!(gene.in_node.0, gene.out_node.0);
        assert!(pairs.insert((gene.in_node.0, gene.out_node.0)));
        for node in [gene.in_node, gene.out_node] {
            assert!(node.0 < genome.nodes());
            if node.is_hidden() {
                hidden.insert(node.0);
            }
        }
    }
    assert_eq!(hidden.len(), genome.hidden_nodes);
    assert_eq!(count_hidden_nodes(&genome.connections), genome.hidden_nodes);
}

#[test]
fn new_genome_is_empty() {
    let genome = Genome::<3, 2>::new();
    assert_eq!(genome.hidden_nodes, 0);
    assert!(genome.connections.is_empty());
    assert_eq!(genome.nodes(), 6);
}

#[test]
fn nodes_counts_bias_inputs_outputs_and_hidden_nodes() {
    let genome = Genome::<2, 1> { hidden_nodes: 5, connections: vec![] };
    assert_eq!(genome.nodes(), 9);
}

#[test]
fn connect_appends_an_enabled_gene_with_the_number_of_the_pair() {
    let mut record = InnovationRecord::<2, 1>::new();
    let mut genome = Genome::<2, 1>::new();
    genome.connect(Node(0), Node(3), 5, &mut record);
    genome.connect(Node(2), Node(3), -9, &mut record);
    genome.connect(Node(0), Node(3), 6, &mut record);
    assert_eq!(
        genome.connections,
        vec![link(0, 3, 5, true, 0), link(2, 3, -9, true, 1), link(0, 3, 6, true, 0)]
    );
    assert_eq!(genome.hidden_nodes, 0);
}

#[test]
fn initial_genome_joins_bias_and_inputs_to_every_output() {
    let mut rng = StdRng::seed_from_u64(7);
    let mut record = InnovationRecord::<2, 2>::new();
    let genome = Genome::<2, 2>::new_random_initial(&mut rng, &mut record);
    assert_eq!(genome.hidden_nodes, 0);
    assert_eq!(genome.connections.len(), 6);
    for (k, gene) in genome.connections.iter().enumerate() {
        assert_eq!(gene.in_node.0, k / 2);
        assert_eq!(gene.out_node.0, 3 + k % 2);
        assert!(gene.enabled);
        assert!(-ONE_SIGNED <= gene.weight && gene.weight <= ONE_SIGNED);
        assert_eq!(gene.innovation_number, k);
    }
    assert_invariants(&genome);
    let second = Genome::<2, 2>::new_random_initial(&mut rng, &mut record);
    for (k, gene) in second.connections.iter().enumerate() {
        assert_eq!(gene.innovation_number, k);
    }
    assert!(genome.connections.iter().zip(second.connections.iter()).any(|(a, b)| a.weight != b.weight));
}

#[test]
fn initial_weights_spread_over_the_range() {
    let mut rng = StdRng::seed_from_u64(11);
    let mut record = InnovationRecord::<3, 3>::new();
    let mut seen = HashSet::new();
    let mut negative = false;
    let mut positive = false;
    for _ in 0..20 {
        let genome = Genome::<3, 3>::new_random_initial(&mut rng, &mut record);
        for gene in &genome.connections {
            assert!(-ONE_SIGNED <= gene.weight && gene.weight <= ONE_SIGNED);
            seen.insert(gene.weight);
            negative |= gene.weight < 0;
            positive |= gene.weight > 0;
        }
    }
    assert!(seen.len() > 100);
    assert!(negative && positive);
}

#[test]
fn add_connection_refuses_a_pair_that_leaves_an_output() {
    let mut record = InnovationRecord::<2, 1>::new();
    let mut genome = Genome::<2, 1> { hidden_nodes: 1, connections: vec![link(0, 3, 1, true, 0)] };
    genome.add_connection(Node(3), Node(4), 5, &mut record);
    assert_eq!(genome.connections, vec![link(0, 3, 1, true, 0)]);
    assert_eq!(record.get(Node(9), Node(9)), 0);
}

#[test]
fn add_connection_refuses_a_loop_on_one_node() {
    let mut record = InnovationRecord::<2, 1>::new();
    let mut genome = Genome::<2, 1> { hidden_nodes: 1, connections: vec![] };
    genome.add_connection(Node(4), Node(4), 5, &mut record);
    assert!(genome.connections.is_empty());
    assert_eq!(record.get(Node(9), Node(9)), 0);
}

#[test]
fn add_connection_enables_the_first_gene_of_the_pair() {
    let mut record = InnovationRecord::<2, 1>::new();
    let mut genome = Genome::<2, 1> {
        hidden_nodes: 0,
        connections: vec![
            link(0, 3, 1, true, 0),
            link(1, 3, 2, false, 1),
            link(1, 3, 3, false, 1),
        ],
    };
    genome.add_connection(Node(1), Node(3), 99, &mut record);
    assert_eq!(
        genome.connections,
        vec![link(0, 3, 1, true, 0), link(1, 3, 2, true, 1), link(1, 3, 3, false, 1)]
    );
    assert_eq!(record.get(Node(9), Node(9)), 0);
}

#[test]
fn add_connection_appends_a_new_gene() {
    let mut record = InnovationRecord::<2, 1>::new();
    assert_eq!(record.get(Node(0), Node(3)), 0);
    let mut genome = Genome::<2, 1> { hidden_nodes: 1, connections: vec![link(0, 3, 1, true, 0)] };
    genome.add_connection(Node(4), Node(3), 99, &mut record);
    genome.add_connection(Node(0), Node(4), -5, &mut record);
    assert_eq!(
        genome.connections,
        vec![link(0, 3, 1, true, 0), link(4, 3, 99, true, 1), link(0, 4, -5, true, 2)]
    );
    assert_eq!(genome.hidden_nodes, 1);
    assert_invariants(&genome);
}

#[test]
fn joining_index_finds_the_first_gene_of_a_pair() {
    let genome = Genome::<2, 1> {
        hidden_nodes: 0,
        connections: vec![link(0, 3, 1, true, 0), link(1, 3, 2, true, 1), link(1, 3, 3, true, 1)],
    };
    assert_eq!(genome.joining_index(Node(1), Node(3)), 1);
    assert_eq!(genome.joining_index(Node(3), Node(1)), 3);
}

#[test]
fn split_connection_inserts_a_node() {
    let mut record = InnovationRecord::<2, 1>::new();
    let mut genome = Genome::<2, 1>::new();
    genome.connect(Node(0), Node(3), 100, &mut record);
    genome.connect(Node(1), Node(3), 200, &mut record);
    genome.split_connection(1, &mut record);
    assert_eq!(genome.hidden_nodes, 1);
    assert_eq!(
        genome.connections,
        vec![
            link(0, 3, 100, true, 0),
            link(1, 3, 200, false, 1),
            link(1, 4, ONE_SIGNED, true, 2),
            link(4, 3, 200, true, 3),
        ]
    );
    assert_invariants(&genome);
    genome.split_connection(3, &mut record);
    assert_eq!(genome.hidden_nodes, 2);
    assert_eq!(genome.connections[3], link(4, 3, 200, false, 3));
    assert_eq!(genome.connections[4], link(4, 5, ONE_SIGNED, true, 4));
    assert_eq!(genome.connections[5], link(5, 3, 200, true, 5));
    assert_invariants(&genome);
}

#[test]
fn split_connection_shares_numbers_between_genomes() {
    let mut record = InnovationRecord::<1, 1>::new();
    let mut a = Genome::<1, 1>::new();
    let mut b = Genome::<1, 1>::new();
    a.connect(Node(1), Node(2), 10, &mut record);
    b.connect(Node(1), Node(2), 20, &mut record);
    a.split_connection(0, &mut record);
    b.split_connection(0, &mut record);
    assert_eq!(a.connections[1].innovation_number, b.connections[1].innovation_number);
    assert_eq!(a.connections[2].innovation_number, b.connections[2].innovation_number);
    assert_eq!(b.connections[2].weight, 20);
}

#[test]
fn mutate_new_node_leaves_an_empty_genome_alone() {
    let mut rng = StdRng::seed_from_u64(3);
    let mut record = InnovationRecord::<2, 1>::new();
    let mut genome = Genome::<2, 1>::new();
    genome.mutate_new_node(&mut rng, &mut record);
    assert!(genome.connections.is_empty());
    assert_eq!(genome.hidden_nodes, 0);
}

#[test]
fn mutate_new_node_splits_one_gene() {
    let mut rng = StdRng::seed_from_u64(3);
    let mut record = InnovationRecord::<2, 1>::new();
    let mut genome = Genome::<2, 1>::new_random_initial(&mut rng, &mut record);
    let before = genome.connections.clone();
    genome.mutate_new_node(&mut rng, &mut record);
    assert_eq!(genome.hidden_nodes, 1);
    assert_eq!(genome.connections.len(), 5);
    let split: Vec<usize> = (0..3).filter(|&k| !genome.connections[k].enabled).collect();
    assert_eq!(split.len(), 1);
    let old = before[split[0]];
    assert_eq!(genome.connections[3], link(old.in_node.0, 4, ONE_SIGNED, true, 3));
    assert_eq!(genome.connections[4], link(4, old.out_node.0, old.weight, true, 4));
    assert_invariants(&genome);
}

#[test]
fn mutate_new_connection_stays_within_the_network() {
    let mut rng = StdRng::seed_from_u64(5);
    let mut record = InnovationRecord::<2, 1>::new();
    let mut genome = Genome::<2, 1>::new_random_initial(&mut rng, &mut record);
    genome.split_connection(0, &mut record);
    genome.split_connection(1, &mut record);
    let mut added = 0;
    for _ in 0..200 {
        let before = genome.connections.len();
        genome.mutate_new_connection(&mut rng, &mut record);
        assert!(genome.connections.len() <= before + 1);
        if genome.connections.len() > before {
            added += 1;
            let gene = genome.connections[before];
            assert!(gene.enabled);
            assert!(0 <= gene.weight && gene.weight < ONE_SIGNED);
        }
        assert_eq!(genome.hidden_nodes, 2);
        assert_invariants(&genome);
    }
    assert!(added > 0);
    assert!(genome.connections.iter().all(|g| g.in_node.0 < 6 && g.out_node.0 >= 3 && g.out_node.0 < 6));
}

#[test]
fn mutated_weight_perturbs_by_half_the_sample() {
    assert_eq!(mutated_weight(1000, true, 300), 1150);
    assert_eq!(mutated_weight(1000, true, -300), 850);
    assert_eq!(mutated_weight(1000, true, 3), 1001);
    assert_eq!(mutated_weight(1000, true, -3), 999);
    assert_eq!(mutated_weight(1000, true, 1), 1000);
    assert_eq!(mutated_weight(1000, true, -1), 1000);
    assert_eq!(mutated_weight(-5, true, 0), -5);
}

#[test]
fn mutated_weight_saturates() {
    assert_eq!(mutated_weight(i64::MAX, true, 10), i64::MAX);
    assert_eq!(mutated_weight(i64::MIN, true, -10), i64::MIN);
    assert_eq!(mutated_weight(i64::MIN, true, i64::MIN), i64::MIN);
    assert_eq!(mutated_weight(0, true, i64::MIN), -(1i64 << 62));
    assert_eq!(mutated_weight(0, true, i64::MAX), (1i64 << 62) - 1);
}

#[test]
fn mutated_weight_replaces_within_thirty() {
    let limit = 30 * ONE_SIGNED;
    assert_eq!(mutated_weight(1000, false, 300), 300);
    assert_eq!(mutated_weight(1000, false, -77), -77);
    assert_eq!(mutated_weight(1000, false, limit), limit);
    assert_eq!(mutated_weight(1000, false, limit + 1), limit);
    assert_eq!(mutated_weight(1000, false, -limit - 1), -limit);
    assert_eq!(mutated_weight(1000, false, i64::MAX), limit);
    assert_eq!(mutated_weight(1000, false, i64::MIN), -limit);
}

#[test]
fn mutate_weights_changes_nothing_but_weights() {
    let mut rng = StdRng::seed_from_u64(9);
    let mut record = InnovationRecord::<2, 1>::new();
    let mut genome = Genome::<2, 1>::new_random_initial(&mut rng, &mut record);
    genome.split_connection(0, &mut record);
    let before = genome.connections.clone();
    let noise = vec![40 * ONE_SIGNED, -40 * ONE_SIGNED];
    genome.mutate_weights(&mut rng, &noise);
    assert_eq!(genome.connections.len(), before.len());
    assert_eq!(genome.hidden_nodes, 1);
    for (old, new) in before.iter().zip(genome.connections.iter()) {
        assert_eq!(Connection { weight: old.weight, ..*new }, *old);
        let allowed = [
            old.weight + 20 * ONE_SIGNED,
            old.weight - 20 * ONE_SIGNED,
            30 * ONE_SIGNED,
            -30 * ONE_SIGNED,
        ];
        assert!(allowed.contains(&new.weight));
    }
    assert_invariants(&genome);
}

#[test]
fn mutate_keeps_the_invariants() {
    let mut rng = StdRng::seed_from_u64(21);
    let mut record = InnovationRecord::<2, 1>::new();
    let noise: Vec<i64> = vec![-70000, -30000, -500, 0, 250, 20000, 65536, 100000];
    let mut genome = Genome::<2, 1>::new_random_initial(&mut rng, &mut record);
    for _ in 0..300 {
        let before = genome.clone();
        genome.mutate(&mut rng, &mut record, &noise);
        assert!(genome.connections.len() >= before.connections.len());
        assert!(genome.connections.len() <= before.connections.len() + 3);
        assert!(genome.hidden_nodes == before.hidden_nodes || genome.hidden_nodes == before.hidden_nodes + 1);
        for (old, new) in before.connections.iter().zip(genome.connections.iter()) {
            assert_eq!((old.in_node, old.out_node), (new.in_node, new.out_node));
            assert_eq!(old.innovation_number, new.innovation_number);
        }
        for gene in &genome.connections {
            assert_eq!(record.get(gene.in_node, gene.out_node), gene.innovation_number);
        }
        assert_invariants(&genome);
    }
    assert!(genome.hidden_nodes > 0);
}

#[test]
fn clone_copies_a_genome() {
    let genome = Genome::<2, 1> {
        hidden_nodes: 1,
        connections: vec![link(0, 4, 5, true, 0), link(4, 3, -6, false, 1)],
    };
    let copy = genome.clone();
    assert_eq!(copy.hidden_nodes, 1);
    assert_eq!(copy.connections, genome.connections);
}

#[test]
fn mutate_new_node_splits_enabled_genes_only() {
    let mut record = InnovationRecord::<2, 1>::new();
    let mut rng = StdRng::seed_from_u64(31);
    let mut idle = Genome::<2, 1> {
        hidden_nodes: 0,
        connections: vec![link(0, 3, 5, false, 0), link(1, 3, 6, false, 1)],
    };
    idle.mutate_new_node(&mut rng, &mut record);
    assert_eq!(idle.connections, vec![link(0, 3, 5, false, 0), link(1, 3, 6, false, 1)]);
    assert_eq!(idle.hidden_nodes, 0);
    for _ in 0..50 {
        let mut genome = Genome::<2, 1> {
            hidden_nodes: 0,
            connections: vec![
                link(0, 3, 5, false, 0),
                link(1, 3, 6, true, 1),
                link(2, 3, 7, false, 2),
            ],
        };
        genome.mutate_new_node(&mut rng, &mut record);
        assert_eq!(genome.hidden_nodes, 1);
        assert_eq!(genome.connections[1], link(1, 3, 6, false, 1));
        assert_eq!((genome.connections[3].in_node.0, genome.connections[3].out_node.0), (1, 4));
        assert_eq!((genome.connections[4].in_node.0, genome.connections[4].weight), (4, 6));
    }
}

#[test]
fn enabled_places_lists_the_enabled_genes() {
    let genome = Genome::<2, 1> {
        hidden_nodes: 0,
        connections: vec![
            link(0, 3, 5, true, 0),
            link(1, 3, 6, false, 1),
            link(2, 3, 7, true, 2),
        ],
    };
    assert_eq!(genome.enabled_places(), vec![0, 2]);
    assert_eq!(Genome::<2, 1>::new().enabled_places(), Vec::<usize>::new());
}
