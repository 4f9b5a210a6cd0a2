use neat::connection::Connection;
use neat::evaluation::Evaluation;
use neat::genome::Genome;
use neat::innovation::InnovationRecord;
use neat::node::Node;
use neat::population::Population;
use neat::speciate::{first_compatible_index, first_compatible_tabled, table_representatives};
use neat::speciation::{fresh_id, Speciation};
use neat::species::Species;
use rand::rngs::StdRng;
use rand::SeedableRng;
use std::collections::HashSet;

fn kind(numbers: &[usize]) -> Genome<2, 1> {
    Genome {
        hidden_nodes: 0,
        connections: numbers
            .iter()
            .map(|&n| Connection {
                in_node: Node(0),
                out_node: Node(3),
                weight: 0,
                enabled: true,
                innovation_number: n,
            })
            .collect(),
    }
}

fn population(members: Vec<Genome<2, 1>>) -> Population<2, 1> {
    let target_size = members.len();
    Population { members, target_size, generation: 0 }
}

fn assert_partition(speciation: &Speciation<2, 1>, size: usize) {
    assert_eq!(speciation.member_map.len(), size);
    let mut ids = HashSet::new();
    let mut seen = HashSet::new();
    let mut total = 0;
    for species in &speciation.species {
        assert!(ids.insert(species.id));
        assert!(!species.members.is_empty());
        for &member in &species.members {
            assert!(member < size);
            assert!(seen.insert(member));
            assert_eq!(speciation.member_map[member], species.id);
        }
        total += species.members.len();
    }
    assert_eq!(total, size);
    assert_eq!(seen.len(), size);
}

#[test]
fn first_generation_gives_every_member_its_own_species() {
    let mut pop = population(vec![kind(&[0]), kind(&[0]), kind(&[5, 6, 7, 8])]);
    let speciation = pop.speciate_with(&vec![10, 20, 30], None, None);
    assert_eq!(pop.generation, 1);
    assert_eq!(speciation.member_map, vec![10, 20, 30]);
    assert_eq!(speciation.species.len(), 3);
    for (k, species) in speciation.species.iter().enumerate() {
        assert_eq!(species.members, vec![k]);
        assert_eq!(species.id, 10 * (k as u64 + 1));
        assert_eq!((species.age, species.max_fitness, species.since_last_improvement), (0, 0, 0));
        assert_eq!(species.representative.connections, pop.members[k].connections);
    }
    assert_partition(&speciation, 3);
}

#[test]
fn colliding_candidates_move_on_to_the_next_free_id() {
    let mut pop = population(vec![kind(&[]), kind(&[]), kind(&[]), kind(&[])]);
    let speciation = pop.speciate_with(&vec![7, 7, 8, u64::MAX], None, None);
    assert_eq!(speciation.member_map, vec![7, 8, 9, u64::MAX]);
    let speciation = pop.speciate_with(&vec![u64::MAX, u64::MAX], None, None);
    assert_eq!(speciation.member_map, vec![u64::MAX, 0, 1, 2]);
    assert_partition(&speciation, 4);
}

#[test]
fn fresh_id_is_the_first_free_id_from_the_candidate_on() {
    assert_eq!(fresh_id(5, &vec![]), 5);
    assert_eq!(fresh_id(5, &vec![4, 6]), 5);
    assert_eq!(fresh_id(5, &vec![7, 5, 6]), 8);
    assert_eq!(fresh_id(u64::MAX, &vec![u64::MAX, 0, 2]), 1);
}

#[test]
fn members_join_the_successor_of_the_first_compatible_species() {
    let mut pop = population(vec![kind(&[0, 1]), kind(&[10, 11, 12, 13]), kind(&[0, 1, 2])]);
    let first = pop.speciate_with(&vec![100, 200, 300], None, None);
    let scores = Evaluation { fitness: vec![5, 9, 7] };
    let second = pop.speciate_with(&vec![1, 2, 3], Some(&first), Some(&scores));
    assert_eq!(pop.generation, 2);
    // member 2 is compatible with the species of member 0, which comes first
    assert_eq!(second.member_map, vec![100, 200, 100]);
    assert_eq!(second.species.len(), 2);
    assert_eq!(second.species[0].id, 100);
    assert_eq!(second.species[0].members, vec![0, 2]);
    assert_eq!(second.species[0].representative.connections, pop.members[0].connections);
    assert_eq!(second.species[0].age, 1);
    assert_eq!(second.species[0].max_fitness, 5);
    assert_eq!(second.species[0].since_last_improvement, 0);
    assert_eq!(second.species[1].id, 200);
    assert_eq!(second.species[1].members, vec![1]);
    assert_eq!(second.species[1].max_fitness, 9);
    assert_partition(&second, 3);
}

#[test]
fn speciation_stability() {
    let mut pop = population(vec![
        kind(&[0, 1]),
        kind(&[10, 11, 12, 13]),
        kind(&[0, 1, 2]),
        kind(&[10, 11, 12]),
        kind(&[20, 21, 22, 23, 24, 25, 26, 27]),
    ]);
    let scores = Evaluation { fitness: vec![5, 9, 7, 1, 3] };
    let mut rng = StdRng::seed_from_u64(1);
    let first = pop.speciate(&mut rng, None, None);
    let second = pop.speciate(&mut rng, Some(&first), Some(&scores));
    let third = pop.speciate(&mut rng, Some(&second), Some(&scores));
    assert_eq!(pop.generation, 3);
    assert_partition(&first, 5);
    assert_partition(&second, 5);
    assert_partition(&third, 5);
    assert_eq!(second.species.len(), 3);
    assert_eq!(third.species.len(), second.species.len());
    for (before, after) in second.species.iter().zip(third.species.iter()) {
        assert_eq!(after.id, before.id);
        assert_eq!(after.age, before.age + 1);
        assert_eq!(after.members, before.members);
    }
    assert_eq!(third.member_map, second.member_map);
}

#[test]
fn an_incompatible_member_founds_a_species_with_an_unused_id() {
    let mut pop = population(vec![kind(&[0, 1])]);
    let first = pop.speciate_with(&vec![100], None, None);
    pop.members.push(kind(&[30, 31, 32, 33, 34]));
    let second = pop.speciate_with(&vec![100, 100], Some(&first), None);
    assert_eq!(second.member_map, vec![100, 101]);
    assert_eq!(second.species[0].age, 1);
    assert_eq!(second.species[1].age, 0);
    assert_eq!(second.species[1].members, vec![1]);
    assert_partition(&second, 2);
}

#[test]
fn records_follow_the_last_evaluation() {
    let mut pop = population(vec![kind(&[0]), kind(&[0])]);
    let start = Speciation {
        species: vec![Species {
            representative: kind(&[0]),
            members: vec![1, 0],
            age: 6,
            id: 42,
            max_fitness: 50,
            since_last_improvement: 3,
        }],
        member_map: vec![42, 42],
    };
    let worse = pop.speciate_with(&vec![], Some(&start), Some(&Evaluation { fitness: vec![50, 20] }));
    assert_eq!(worse.species[0].max_fitness, 50);
    assert_eq!(worse.species[0].since_last_improvement, 4);
    assert_eq!(worse.species[0].age, 7);
    assert_eq!(worse.species[0].members, vec![0, 1]);
    let better = pop.speciate_with(&vec![], Some(&start), Some(&Evaluation { fitness: vec![10, 51] }));
    assert_eq!(better.species[0].max_fitness, 51);
    assert_eq!(better.species[0].since_last_improvement, 0);
    let unscored = pop.speciate_with(&vec![], Some(&start), None);
    assert_eq!(unscored.species[0].max_fitness, 50);
    assert_eq!(unscored.species[0].since_last_improvement, 4);
}

#[test]
fn counters_stop_at_the_largest_number() {
    let mut pop = Population { members: vec![kind(&[0])], target_size: 1, generation: usize::MAX };
    let start = Speciation {
        species: vec![Species {
            representative: kind(&[0]),
            members: vec![0],
            age: usize::MAX,
            id: 42,
            max_fitness: 50,
            since_last_improvement: usize::MAX,
        }],
        member_map: vec![42],
    };
    let next = pop.speciate_with(&vec![], Some(&start), None);
    assert_eq!(pop.generation, usize::MAX);
    assert_eq!(next.species[0].age, usize::MAX);
    assert_eq!(next.species[0].since_last_improvement, usize::MAX);
}

#[test]
fn stagnation_cull() {
    let mut pop = population(vec![kind(&[0]), kind(&[0]), kind(&[10, 11, 12, 13])]);
    let mut rng = StdRng::seed_from_u64(3);
    let scores = Evaluation { fitness: vec![5, 5, 8] };
    let mut speciation = pop.speciate_with(&vec![1, 2, 3], None, None);
    speciation = pop.speciate(&mut rng, Some(&speciation), Some(&scores));
    assert_eq!(speciation.species.len(), 2);
    for species in &speciation.species {
        assert_eq!(species.since_last_improvement, 0);
    }
    for generation in 1..=15 {
        speciation = pop.speciate(&mut rng, Some(&speciation), Some(&scores));
        for species in &speciation.species {
            assert_eq!(species.since_last_improvement, generation);
        }
        let mut culled = speciation.clone();
        pop.kill_stagnant_species(&mut culled);
        assert_eq!(culled.species.len(), if generation < 15 { 2 } else { 0 });
    }
}

#[test]
fn kill_stagnant_species_keeps_the_others_in_order() {
    let make = |id: u64, since: usize| Species {
        representative: kind(&[]),
        members: vec![id as usize],
        age: 20,
        id,
        max_fitness: 1,
        since_last_improvement: since,
    };
    let mut pop = population(vec![kind(&[]); 0]);
    let mut speciation = Speciation {
        species: vec![make(0, 15), make(1, 14), make(2, 0), make(3, 99), make(4, 16), make(5, 3)],
        member_map: vec![0, 1, 2, 3, 4, 5],
    };
    pop.kill_stagnant_species(&mut speciation);
    let ids: Vec<u64> = speciation.species.iter().map(|s| s.id).collect();
    assert_eq!(ids, vec![1, 2, 5]);
    assert_eq!(speciation.member_map, vec![0, 1, 2, 3, 4, 5]);
    pop.kill_stagnant_species(&mut speciation);
    assert_eq!(speciation.species.len(), 3);
}

#[test]
fn first_compatible_index_is_the_number_of_species_without_a_match() {
    let species = vec![
        Species { representative: kind(&[0, 1, 2, 3]), members: vec![0], age: 0, id: 1, max_fitness: 0, since_last_improvement: 0 },
        Species { representative: kind(&[7]), members: vec![1], age: 0, id: 2, max_fitness: 0, since_last_improvement: 0 },
        Species { representative: kind(&[7, 8]), members: vec![2], age: 0, id: 3, max_fitness: 0, since_last_improvement: 0 },
    ];
    assert_eq!(first_compatible_index(&species, &kind(&[7, 8])), 1);
    assert_eq!(first_compatible_index(&species, &kind(&[0, 1, 2])), 0);
    assert_eq!(first_compatible_index(&species, &kind(&[20, 21, 22, 23])), 3);
}

#[test]
fn index_of_id_finds_a_species() {
    let mut pop = population(vec![kind(&[]), kind(&[1, 2, 3, 4])]);
    let speciation = pop.speciate_with(&vec![8, 9], None, None);
    assert_eq!(speciation.index_of_id(9), 1);
    assert_eq!(speciation.index_of_id(8), 0);
    assert_eq!(speciation.index_of_id(7), 2);
}

#[test]
fn the_population_refills_from_the_remaining_species() {
    let mut rng = StdRng::seed_from_u64(6);
    let mut record = InnovationRecord::<2, 1>::new();
    let mut members = Vec::new();
    for k in 0..6 {
        let mut genome = Genome::<2, 1>::new();
        genome.connect(Node(0), Node(3), 1000 + k, &mut record);
        if k >= 3 {
            genome.connect(Node(1), Node(3), 2000 + k, &mut record);
        }
        members.push(genome);
    }
    let mut pop = Population { members, target_size: 6, generation: 20 };
    let tired = Species {
        representative: pop.members[0].clone(),
        members: vec![0, 1, 2],
        age: 19,
        id: 1,
        max_fitness: 90,
        since_last_improvement: 15,
    };
    let lively = Species {
        representative: pop.members[3].clone(),
        members: vec![3, 4, 5],
        age: 19,
        id: 2,
        max_fitness: 50,
        since_last_improvement: 14,
    };
    let mut speciation = Speciation { species: vec![tired, lively], member_map: vec![1, 1, 1, 2, 2, 2] };
    let scores = Evaluation { fitness: vec![90, 80, 70, 30, 50, 40] };
    pop.evolve(&scores, &mut speciation, &mut rng, &mut record, &vec![-3000, 0, 3000]);
    assert_eq!(speciation.species.len(), 1);
    assert_eq!(speciation.species[0].id, 2);
    assert_eq!(speciation.species[0].members, vec![4, 5, 3]);
    assert_eq!(pop.members.len(), 6);
    for member in &pop.members {
        // every new member descends from the species that was kept
        assert!(member.connections.len() >= 2);
        assert_eq!((member.connections[1].in_node.0, member.connections[1].out_node.0), (1, 3));
    }
}

#[test]
fn tables_do_not_change_the_first_compatible_species() {
    let species = vec![
        Species { representative: kind(&[0, 1, 2, 3]), members: vec![0], age: 0, id: 1, max_fitness: 0, since_last_improvement: 0 },
        Species { representative: kind(&[7]), members: vec![1], age: 0, id: 2, max_fitness: 0, since_last_improvement: 0 },
        Species { representative: kind(&[7, 8]), members: vec![2], age: 0, id: 3, max_fitness: 0, since_last_improvement: 0 },
    ];
    assert!(table_representatives(&species, 8).is_none());
    let tables = table_representatives(&species, 9).unwrap();
    assert_eq!(tables.len(), 3);
    for genome in [kind(&[7, 8]), kind(&[0, 1, 2]), kind(&[20, 21, 22, 23]), kind(&[]), kind(&[8])] {
        assert_eq!(
            first_compatible_tabled(&species, &tables, 9, &genome),
            first_compatible_index(&species, &genome)
        );
    }
}
