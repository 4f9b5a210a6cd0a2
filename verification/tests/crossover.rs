use neat::connection::Connection;
use neat::crossover::count_hidden_nodes;
use neat::genome::Genome;
use neat::innovation::InnovationRecord;
use neat::node::Node;
use neat::organism::Organism;
use rand::rngs::StdRng;
use rand::SeedableRng;

fn cell<const I: usize, const O: usize>(
    in_node: usize,
    out_node: usize,
    weight: i64,
    enabled: bool,
    innovation_number: usize,
) -> Connection<I, O> {
    Connection { in_node: Node(in_node), out_node: Node(out_node), weight, enabled, innovation_number }
}

fn parents() -> (Genome<2, 1>, Genome<2, 1>) {
    let fitter = Genome::<2, 1> {
        hidden_nodes: 1,
        connections: vec![
            cell(0, 3, 10, true, 0),
            cell(1, 3, 20, false, 1),
            cell(2, 3, 30, true, 2),
            cell(1, 4, 40, false, 3),
            cell(4, 3, 50, true, 4),
        ],
    };
    let other = Genome::<2, 1> {
        hidden_nodes: 2,
        connections: vec![
            cell(0, 3, -10, true, 0),
            cell(1, 3, -20, true, 1),
            cell(1, 4, -40, false, 3),
            cell(2, 5, -60, true, 5),
            cell(5, 3, -70, true, 6),
        ],
    };
    (fitter, other)
}

#[test]
fn crossover_with_keeps_the_genes_of_the_fitter_parent() {
    let (fitter, other) = parents();
    let keep = vec![true; 5];
    let disable = vec![true; 5];
    let child = Genome::crossover_with(&fitter, &other, &keep, &disable);
    assert_eq!(
        child.connections,
        vec![
            cell(0, 3, 10, true, 0),
            cell(1, 3, 20, false, 1),
            cell(2, 3, 30, true, 2),
            cell(1, 4, 40, false, 3),
            cell(4, 3, 50, true, 4),
        ]
    );
    assert_eq!(child.hidden_nodes, 1);
}

#[test]
fn crossover_with_takes_the_other_parents_matching_genes() {
    let (fitter, other) = parents();
    let keep = vec![false; 5];
    let disable = vec![false; 5];
    let child = Genome::crossover_with(&fitter, &other, &keep, &disable);
    assert_eq!(
        child.connections,
        vec![
            cell(0, 3, -10, true, 0),
            cell(1, 3, -20, true, 1),
            cell(2, 3, 30, true, 2),
            cell(1, 4, -40, false, 3),
            cell(4, 3, 50, true, 4),
        ]
    );
    assert_eq!(child.hidden_nodes, 1);
}

#[test]
fn crossover_with_mixes_by_place() {
    let (fitter, other) = parents();
    let keep = vec![false, true, false, true, false];
    let disable = vec![false, true, false, false, false];
    let child = Genome::crossover_with(&fitter, &other, &keep, &disable);
    assert_eq!(
        child.connections,
        vec![
            cell(0, 3, -10, true, 0),
            cell(1, 3, 20, false, 1),
            cell(2, 3, 30, true, 2),
            cell(1, 4, 40, false, 3),
            cell(4, 3, 50, true, 4),
        ]
    );
}

#[test]
fn crossover_with_treats_missing_choices_as_true() {
    let (fitter, other) = parents();
    let child = Genome::crossover_with(&fitter, &other, &vec![], &vec![]);
    let all = Genome::crossover_with(&fitter, &other, &vec![true; 5], &vec![true; 5]);
    assert_eq!(child.connections, all.connections);
}

#[test]
fn crossover_with_leaves_out_genes_of_the_other_parent_only() {
    let (fitter, other) = parents();
    let child = Genome::crossover_with(&other, &fitter, &vec![true; 5], &vec![false; 5]);
    assert_eq!(
        child.connections,
        vec![
            cell(0, 3, -10, true, 0),
            cell(1, 3, -20, true, 1),
            cell(1, 4, -40, false, 3),
            cell(2, 5, -60, true, 5),
            cell(5, 3, -70, true, 6),
        ]
    );
    assert_eq!(child.hidden_nodes, 2);
}

#[test]
fn crossover_counts_the_hidden_nodes_of_the_child() {
    let fitter = Genome::<2, 1> {
        hidden_nodes: 3,
        connections: vec![cell(0, 9, 1, true, 0), cell(9, 3, 1, true, 1), cell(9, 7, 1, true, 2)],
    };
    let child = Genome::crossover_with(&fitter, &Genome::<2, 1>::new(), &vec![], &vec![]);
    assert_eq!(child.hidden_nodes, 2);
    assert_eq!(count_hidden_nodes(&fitter.connections), 2);
    assert_eq!(count_hidden_nodes(&Vec::<Connection<2, 1>>::new()), 0);
}

#[test]
fn crossover_draws_one_of_the_possible_children() {
    let (fitter, other) = parents();
    let mut rng = StdRng::seed_from_u64(17);
    let mut from_other = 0;
    let mut enabled_second = 0;
    for _ in 0..400 {
        let child = Genome::crossover(&fitter, &other, &mut rng);
        assert_eq!(child.connections.len(), 5);
        assert_eq!(child.hidden_nodes, 1);
        for (k, gene) in child.connections.iter().enumerate() {
            let mine = fitter.connections[k];
            assert_eq!(gene.innovation_number, mine.innovation_number);
            assert_eq!((gene.in_node, gene.out_node), (mine.in_node, mine.out_node));
            assert!(gene.weight == mine.weight || gene.weight == -mine.weight);
        }
        assert_eq!(child.connections[2], fitter.connections[2]);
        assert_eq!(child.connections[4], fitter.connections[4]);
        assert!(child.connections[0].enabled);
        assert!(!child.connections[3].enabled);
        if child.connections[0].weight == -10 {
            from_other += 1;
        }
        if child.connections[1].enabled {
            enabled_second += 1;
        }
    }
    assert!(from_other > 10 && from_other < 100);
    assert!(enabled_second > 50 && enabled_second < 160);
}

#[test]
fn crossover_of_genomes_of_one_record_keeps_the_structure_of_the_fitter() {
    let mut rng = StdRng::seed_from_u64(2);
    let mut record = InnovationRecord::<2, 1>::new();
    let noise = vec![-20000, 5, 30000];
    let mut a = Genome::<2, 1>::new_random_initial(&mut rng, &mut record);
    let mut b = Genome::<2, 1>::new_random_initial(&mut rng, &mut record);
    for _ in 0..40 {
        a.mutate(&mut rng, &mut record, &noise);
        b.mutate(&mut rng, &mut record, &noise);
    }
    let child = Genome::crossover(&a, &b, &mut rng);
    assert_eq!(child.hidden_nodes, a.hidden_nodes);
    assert_eq!(child.connections.len(), a.connections.len());
    for (mine, gene) in a.connections.iter().zip(child.connections.iter()) {
        assert_eq!((mine.in_node, mine.out_node), (gene.in_node, gene.out_node));
        assert_eq!(mine.innovation_number, gene.innovation_number);
    }
}

#[test]
fn organism_starts_without_fitness() {
    let organism = Organism::new(Genome::<2, 1> { hidden_nodes: 0, connections: vec![cell(0, 3, 1, true, 0)] });
    assert_eq!(organism.fitness, 0);
    assert_eq!(organism.genome.connections, vec![cell(0, 3, 1, true, 0)]);
}

#[test]
fn organism_crossover_follows_the_fitter_parent() {
    let mut rng = StdRng::seed_from_u64(4);
    let (fitter, other) = parents();
    let strong = Organism { fitness: 9, genome: fitter };
    let weak = Organism { fitness: 3, genome: other };
    let child = Organism::crossover(&weak, &strong, &mut rng);
    assert_eq!(child.fitness, 0);
    assert_eq!(child.genome.connections.len(), 5);
    assert_eq!(child.genome.connections[4].innovation_number, 4);
    let child = Organism::crossover(&strong, &weak, &mut rng);
    assert_eq!(child.genome.connections[4].innovation_number, 4);
    let tie = Organism { fitness: 9, genome: weak.genome.clone() };
    let child = Organism::crossover(&strong, &tie, &mut rng);
    assert_eq!(child.genome.connections[4].innovation_number, 6);
}
