use neat::environment::{ConfigError, Environment};
use neat::evaluator::Evaluator;
use neat::fixed::ONE;
use neat::genome::Genome;
use neat::innovation::InnovationRecord;
use neat::population::Population;
use rand::rngs::StdRng;
use rand::SeedableRng;
use std::collections::HashSet;

struct Counting {
    calls: usize,
}

impl Environment<2, 1> for Counting {
    fn evaluate(&mut self, genome: &Genome<2, 1>) -> u64 {
        self.calls += 1;
        let enabled = genome.connections.iter().filter(|g| g.enabled).count() as u64;
        enabled * ONE + (self.calls as u64 % 7) * ONE / 8
    }
}

struct Nothing;

impl Environment<2, 0> for Nothing {
    fn evaluate(&mut self, _genome: &Genome<2, 0>) -> u64 {
        0
    }
}

struct Huge;

impl Environment<{ usize::MAX }, 1> for Huge {
    fn evaluate(&mut self, _genome: &Genome<{ usize::MAX }, 1>) -> u64 {
        0
    }
}

fn samples() -> Vec<i64> {
    vec![-98304, -65536, -40000, -16384, -1000, 0, 1000, 16384, 40000, 65536, 98304]
}

#[test]
fn new_refuses_a_target_size_of_zero() {
    let run = Evaluator::<2, 1, _>::new(Counting { calls: 0 }, 0, StdRng::seed_from_u64(1), samples());
    assert!(matches!(run, Err(ConfigError::ZeroTargetSize)));
    let run = Evaluator::<2, 1, _>::new(Counting { calls: 0 }, 0, StdRng::seed_from_u64(1), vec![]);
    assert!(matches!(run, Err(ConfigError::ZeroTargetSize)));
}

#[test]
fn new_refuses_an_empty_noise_table() {
    let run = Evaluator::<2, 1, _>::new(Counting { calls: 0 }, 5, StdRng::seed_from_u64(1), vec![]);
    assert!(matches!(run, Err(ConfigError::EmptyNoise)));
}

#[test]
fn new_refuses_a_network_without_outputs() {
    let run = Evaluator::<2, 0, _>::new(Nothing, 5, StdRng::seed_from_u64(1), samples());
    assert!(matches!(run, Err(ConfigError::NoOutputs)));
}

#[test]
fn population_new_refuses_a_target_size_of_zero() {
    let mut rng = StdRng::seed_from_u64(1);
    let mut record = InnovationRecord::<2, 1>::new();
    let made = Population::<2, 1>::new(&mut rng, &mut record, 0);
    assert!(matches!(made, Err(ConfigError::ZeroTargetSize)));
    assert_eq!(record.get(neat::node::Node(0), neat::node::Node(3)), 0);
}

#[test]
fn population_new_makes_minimal_genomes() {
    let mut rng = StdRng::seed_from_u64(1);
    let mut record = InnovationRecord::<2, 1>::new();
    let population = Population::<2, 1>::new(&mut rng, &mut record, 7).unwrap();
    assert_eq!((population.target_size, population.generation), (7, 0));
    assert_eq!(population.members.len(), 7);
    for member in &population.members {
        assert_eq!(member.hidden_nodes, 0);
        assert_eq!(member.connections.len(), 3);
        for (k, gene) in member.connections.iter().enumerate() {
            assert_eq!((gene.in_node.0, gene.out_node.0, gene.innovation_number), (k, 3, k));
        }
    }
}

#[test]
fn evaluate_scores_the_members_in_order() {
    let mut rng = StdRng::seed_from_u64(1);
    let mut record = InnovationRecord::<2, 1>::new();
    let population = Population::<2, 1>::new(&mut rng, &mut record, 4).unwrap();
    let mut env = Counting { calls: 0 };
    let evaluation = population.evaluate(&mut env);
    assert_eq!(env.calls, 4);
    assert_eq!(
        evaluation.fitness,
        vec![3 * ONE + ONE / 8, 3 * ONE + 2 * ONE / 8, 3 * ONE + 3 * ONE / 8, 3 * ONE + 4 * ONE / 8]
    );
}

#[test]
fn first_call_speciates_and_evaluates_only() {
    let mut run = Evaluator::<2, 1, _>::new(Counting { calls: 0 }, 6, StdRng::seed_from_u64(5), samples())
        .unwrap();
    assert!(run.last_speciation().is_none() && run.last_evaluation().is_none());
    assert_eq!(run.population().generation, 0);
    let before: Vec<_> = run.population().members.iter().map(|m| m.connections.clone()).collect();
    run.evaluate_and_evolve();
    let after: Vec<_> = run.population().members.iter().map(|m| m.connections.clone()).collect();
    assert_eq!(before, after);
    assert_eq!(run.population().generation, 1);
    assert_eq!(run.env().calls, 6);
    assert_eq!(run.last_evaluation().unwrap().fitness.len(), 6);
    assert_eq!(run.last_speciation().unwrap().member_map.len(), 6);
}

#[test]
fn generations_keep_the_run_consistent() {
    let mut run = Evaluator::<2, 1, _>::new(Counting { calls: 0 }, 30, StdRng::seed_from_u64(9), samples())
        .unwrap();
    for generation in 1..=25 {
        run.evaluate_and_evolve();
        assert_eq!(run.population().generation, generation);
        assert_eq!(run.population().target_size, 30);
        let size = run.population().members.len();
        let speciation = run.last_speciation().unwrap();
        let evaluation = run.last_evaluation().unwrap();
        assert_eq!(evaluation.fitness.len(), size);
        assert_eq!(speciation.member_map.len(), size);
        let mut ids = HashSet::new();
        let mut members = HashSet::new();
        for species in &speciation.species {
            assert!(ids.insert(species.id));
            for &member in &species.members {
                assert!(members.insert(member));
                assert_eq!(speciation.member_map[member], species.id);
            }
        }
        assert_eq!(members.len(), size);
        for member in &run.population().members {
            let mut pairs = HashSet::new();
            let mut hidden = HashSet::new();
            for gene in &member.connections {
                assert!(!gene.in_node.is_output());
                assert!(pairs.insert((gene.in_node.0, gene.out_node.0)));
                assert_eq!(run.innovation_record().lookup(gene.in_node, gene.out_node), Some(gene.innovation_number));
                for node in [gene.in_node, gene.out_node] {
                    if node.is_hidden() {
                        hidden.insert(node.0);
                    }
                }
            }
            assert_eq!(hidden.len(), member.hidden_nodes);
        }
        if generation <= 10 {
            assert!(size > 0);
        }
    }
}

#[test]
fn population_mutate_keeps_size_and_structure() {
    let mut rng = StdRng::seed_from_u64(12);
    let mut record = InnovationRecord::<2, 1>::new();
    let mut population = Population::<2, 1>::new(&mut rng, &mut record, 40).unwrap();
    let before: Vec<_> = population.members.iter().map(|m| m.connections.clone()).collect();
    population.mutate(&mut rng, &mut record, &samples());
    assert_eq!(population.members.len(), 40);
    let mut changed = 0;
    for (old, member) in before.iter().zip(population.members.iter()) {
        assert!(member.connections.len() >= old.len());
        for (a, b) in old.iter().zip(member.connections.iter()) {
            assert_eq!((a.in_node, a.out_node, a.innovation_number), (b.in_node, b.out_node, b.innovation_number));
        }
        if *old != member.connections {
            changed += 1;
        }
    }
    assert!(changed > 0 && changed < 25);
}

#[test]
fn new_refuses_a_layout_beyond_the_machine_numbers() {
    let run = Evaluator::<{ usize::MAX }, 1, _>::new(Huge, 5, StdRng::seed_from_u64(1), samples());
    assert!(matches!(run, Err(ConfigError::TooManyNodes)));
}

#[test]
fn errors_are_reported_in_a_fixed_order() {
    let run = Evaluator::<2, 0, _>::new(Nothing, 0, StdRng::seed_from_u64(1), vec![]);
    assert!(matches!(run, Err(ConfigError::ZeroTargetSize)));
    let run = Evaluator::<2, 0, _>::new(Nothing, 1, StdRng::seed_from_u64(1), vec![]);
    assert!(matches!(run, Err(ConfigError::EmptyNoise)));
}

#[test]
fn population_clone_copies_the_members() {
    let mut rng = StdRng::seed_from_u64(1);
    let mut record = InnovationRecord::<2, 1>::new();
    let population = Population::<2, 1>::new(&mut rng, &mut record, 3).unwrap();
    let copy = population.clone();
    assert_eq!(copy.members, population.members);
    assert_eq!((copy.target_size, copy.generation), (3, 0));
}

#[test]
fn population_new_refuses_a_layout_beyond_the_machine_numbers() {
    let mut rng = StdRng::seed_from_u64(1);
    let mut record = InnovationRecord::<{ usize::MAX }, 1>::new();
    let made = Population::<{ usize::MAX }, 1>::new(&mut rng, &mut record, 3);
    assert!(matches!(made, Err(ConfigError::TooManyNodes)));
    let mut record = InnovationRecord::<{ usize::MAX - 1 }, 1>::new();
    let made = Population::<{ usize::MAX - 1 }, 1>::new(&mut rng, &mut record, 0);
    assert!(matches!(made, Err(ConfigError::ZeroTargetSize)));
}
