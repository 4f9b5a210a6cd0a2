use neat::connection::Connection;
use neat::evaluation::Evaluation;
use neat::fixed::ONE;
use neat::genome::Genome;
use neat::node::Node;
use neat::species::Species;

fn group(members: Vec<usize>) -> Species<2, 1> {
    Species {
        representative: Genome::new(),
        members,
        age: 0,
        id: 1,
        max_fitness: 0,
        since_last_improvement: 0,
    }
}

#[test]
fn species_average_is_the_mean_rounded_down() {
    let evaluation = Evaluation { fitness: vec![10, 20, 31, 40, 50] };
    assert_eq!(evaluation.species_average_fitness(&group(vec![0, 1, 2])), 20);
    assert_eq!(evaluation.species_average_fitness(&group(vec![4])), 50);
    assert_eq!(evaluation.species_average_fitness(&group(vec![3, 2])), 35);
}

#[test]
fn average_does_not_overflow() {
    let evaluation = Evaluation { fitness: vec![u64::MAX, u64::MAX, u64::MAX - 3] };
    assert_eq!(evaluation.average_fitness(), u64::MAX - 1);
    assert_eq!(evaluation.species_average_fitness(&group(vec![0, 1])), u64::MAX);
}

#[test]
fn species_max_is_the_highest_score_of_the_members() {
    let evaluation = Evaluation { fitness: vec![10, 90, 31, 40, 50] };
    assert_eq!(evaluation.species_max_fitness(&group(vec![0, 2, 3])), 40);
    assert_eq!(evaluation.species_max_fitness(&group(vec![1])), 90);
    assert_eq!(Evaluation { fitness: vec![0, 0] }.species_max_fitness(&group(vec![0, 1])), 0);
}

#[test]
fn adjusted_fitness_scales_to_the_range_of_all_scores() {
    let evaluation = Evaluation { fitness: vec![ONE, 3 * ONE, 5 * ONE, 9 * ONE] };
    // mean 2.0, lowest 1.0, range 8.0
    assert_eq!(evaluation.species_average_adjusted_fitness(&group(vec![0, 1])), ONE / 8);
    assert_eq!(evaluation.species_average_adjusted_fitness(&group(vec![3])), ONE);
    assert_eq!(evaluation.species_average_adjusted_fitness(&group(vec![0])), 0);
    assert_eq!(evaluation.species_average_adjusted_fitness(&group(vec![2, 3])), 3 * ONE / 4);
}

#[test]
fn adjusted_fitness_divides_by_one_when_the_range_is_small() {
    let evaluation = Evaluation { fitness: vec![ONE, ONE + ONE / 2, ONE + ONE / 4] };
    assert_eq!(evaluation.species_average_adjusted_fitness(&group(vec![1])), ONE / 2);
    assert_eq!(evaluation.species_average_adjusted_fitness(&group(vec![2])), ONE / 4);
    let flat = Evaluation { fitness: vec![7, 7, 7] };
    assert_eq!(flat.species_average_adjusted_fitness(&group(vec![0, 1, 2])), 0);
}

#[test]
fn champion_is_the_last_of_the_best() {
    assert_eq!(Evaluation { fitness: vec![5, 9, 3] }.champion(), (1, 9));
    assert_eq!(Evaluation { fitness: vec![5, 9, 9, 3] }.champion(), (2, 9));
    assert_eq!(Evaluation { fitness: vec![4] }.champion(), (0, 4));
    assert_eq!(Evaluation { fitness: vec![0, 0, 0] }.champion(), (2, 0));
}

#[test]
fn species_champion_is_the_last_of_the_best_members() {
    let evaluation = Evaluation { fitness: vec![5, 9, 9, 3, 9] };
    assert_eq!(evaluation.species_champion(&group(vec![0, 3])), (0, 5));
    assert_eq!(evaluation.species_champion(&group(vec![3, 0])), (0, 5));
    assert_eq!(evaluation.species_champion(&group(vec![1, 2, 3])), (2, 9));
    assert_eq!(evaluation.species_champion(&group(vec![4, 2, 1, 0])), (1, 9));
}

#[test]
fn average_fitness_is_the_mean_of_all_scores() {
    assert_eq!(Evaluation { fitness: vec![1, 2, 3, 4] }.average_fitness(), 2);
    assert_eq!(Evaluation { fitness: vec![10] }.average_fitness(), 10);
}

#[test]
fn evaluation_clone_copies_the_scores() {
    let evaluation = Evaluation { fitness: vec![1, 2, 3] };
    assert_eq!(evaluation.clone().fitness, vec![1, 2, 3]);
}

#[test]
fn sort_by_fitness_orders_by_falling_score_and_keeps_ties_in_order() {
    let evaluation = Evaluation { fitness: vec![5, 9, 9, 3, 7, 9] };
    let mut species = group(vec![0, 1, 2, 3, 4, 5]);
    species.sort_by_fitness(&evaluation);
    assert_eq!(species.members, vec![1, 2, 5, 4, 0, 3]);
    let mut species = group(vec![5, 3, 2, 0]);
    species.sort_by_fitness(&evaluation);
    assert_eq!(species.members, vec![5, 2, 0, 3]);
    let mut species = group(vec![]);
    species.sort_by_fitness(&evaluation);
    assert!(species.members.is_empty());
    assert_eq!((species.id, species.age), (1, 0));
}

#[test]
fn is_compatible_below_a_distance_of_three() {
    let make = |numbers: Vec<usize>| Genome::<2, 1> {
        hidden_nodes: 0,
        connections: numbers
            .into_iter()
            .map(|n| Connection {
                in_node: Node(0),
                out_node: Node(3),
                weight: 0,
                enabled: true,
                innovation_number: n,
            })
            .collect(),
    };
    let species = Species { representative: make(vec![0, 1, 2]), ..group(vec![0]) };
    assert!(species.is_compatible(&make(vec![0, 1, 2])));
    assert!(species.is_compatible(&make(vec![0])));
    assert!(!species.is_compatible(&make(vec![])));
    assert!(!species.is_compatible(&make(vec![3, 4, 5])));
    let heavy = Genome::<2, 1> {
        hidden_nodes: 0,
        connections: vec![Connection {
            in_node: Node(0),
            out_node: Node(3),
            weight: 98303,
            enabled: true,
            innovation_number: 0,
        }],
    };
    let light = Species { representative: make(vec![0]), ..group(vec![0]) };
    // twice 1.49998 is just below 3.0
    assert!(light.is_compatible(&heavy));
    let heavier = Genome::<2, 1> {
        hidden_nodes: 0,
        connections: vec![Connection { weight: 98304, ..heavy.connections[0] }],
    };
    assert!(!light.is_compatible(&heavier));
}

#[test]
fn species_clone_copies_every_field() {
    let species = Species { age: 4, id: 77, max_fitness: 5, since_last_improvement: 2, ..group(vec![3, 1]) };
    let copy = species.clone();
    assert_eq!(copy.members, vec![3, 1]);
    assert_eq!((copy.age, copy.id, copy.max_fitness, copy.since_last_improvement), (4, 77, 5, 2));
}
