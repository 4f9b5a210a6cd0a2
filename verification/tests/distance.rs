use neat::connection::Connection;
use neat::fixed::ONE;
use neat::genome::Genome;
use neat::node::Node;

fn fixed(value: f64) -> i64 {
    (value * 65536.0).round() as i64
}

fn gene<const I: usize, const O: usize>(
    in_node: usize,
    out_node: usize,
    weight: f64,
    enabled: bool,
    innovation_number: usize,
) -> Connection<I, O> {
    Connection {
        in_node: Node(in_node),
        out_node: Node(out_node),
        weight: fixed(weight),
        enabled,
        innovation_number,
    }
}

#[test]
fn test_distance() {
    let a = Genome::<2, 1> {
        hidden_nodes: 1,
        connections: vec![
            gene(0, 3, -0.84480023, false, 0),
            gene(1, 3, 3.6848402, true, 1),
            gene(2, 3, 4.579851, true, 2),
            gene(0, 4, 1.0, true, 10),
            gene(4, 3, -0.84480023, true, 4),
            gene(4, 3, -0.84480023, true, 11),
        ],
    };
    let b = Genome::<2, 1> {
        hidden_nodes: 1,
        connections: vec![
            gene(0, 3, -0.84480023, false, 0),
            gene(1, 3, 3.6848402, true, 1),
            gene(2, 3, 4.579851, true, 2),
            gene(0, 4, 1.0, true, 10),
            gene(4, 3, -0.84480023, true, 4),
        ],
    };
    // Five genes match with equal weights, one gene is found in `a` only.
    assert_eq!(a.distance(&b), ONE as u128);
}

#[test]
fn distance_of_empty_genomes_is_zero() {
    let a = Genome::<2, 1>::new();
    let b = Genome::<2, 1>::new();
    assert_eq!(a.distance(&b), 0);
}

#[test]
fn distance_without_matching_genes_counts_disjoint_genes() {
    let a = Genome::<2, 1> { hidden_nodes: 0, connections: vec![gene(0, 3, 0.5, true, 0)] };
    let b = Genome::<2, 1> {
        hidden_nodes: 0,
        connections: vec![gene(1, 3, 0.5, true, 1), gene(2, 3, 0.5, true, 2)],
    };
    assert_eq!(a.distance(&b), 3 * ONE as u128);
    assert_eq!(a.distance(&Genome::<2, 1>::new()), ONE as u128);
}

#[test]
fn distance_adds_twice_the_mean_weight_difference() {
    let a = Genome::<2, 1> {
        hidden_nodes: 0,
        connections: vec![gene(0, 3, 1.0, true, 0), gene(1, 3, -0.5, true, 1)],
    };
    let b = Genome::<2, 1> {
        hidden_nodes: 0,
        connections: vec![gene(0, 3, 0.5, true, 0), gene(1, 3, 1.0, true, 1)],
    };
    // differences 0.5 and 1.5, mean 1.0, times 2.0
    assert_eq!(a.distance(&b), 2 * ONE as u128);
}

#[test]
fn distance_counts_one_for_a_gene_enabled_in_one_genome_only() {
    let a = Genome::<2, 1> { hidden_nodes: 0, connections: vec![gene(0, 3, 4.0, true, 0)] };
    let b = Genome::<2, 1> { hidden_nodes: 0, connections: vec![gene(0, 3, -4.0, false, 0)] };
    assert_eq!(a.distance(&b), 2 * ONE as u128);
}

#[test]
fn distance_mixes_disjoint_and_matching_genes() {
    let a = Genome::<2, 1> {
        hidden_nodes: 0,
        connections: vec![gene(0, 3, 1.0, true, 0), gene(1, 3, 0.25, true, 5)],
    };
    let b = Genome::<2, 1> {
        hidden_nodes: 0,
        connections: vec![gene(0, 3, 0.25, true, 0), gene(2, 3, 1.0, true, 7)],
    };
    // two disjoint genes, one matching gene with difference 0.75
    assert_eq!(a.distance(&b), 2 * ONE as u128 + 2 * 49152);
}

#[test]
fn distance_is_symmetric_and_zero_to_itself() {
    let a = Genome::<2, 1> {
        hidden_nodes: 1,
        connections: vec![
            gene(0, 3, 0.3, true, 0),
            gene(1, 4, -2.0, false, 3),
            gene(4, 3, 1.7, true, 4),
        ],
    };
    let b = Genome::<2, 1> {
        hidden_nodes: 0,
        connections: vec![gene(0, 3, -1.1, true, 0), gene(2, 3, 0.9, true, 2)],
    };
    assert_eq!(a.distance(&b), b.distance(&a));
    assert_eq!(a.distance(&a), 0);
    assert_eq!(b.distance(&b), 0);
}

#[test]
fn distance_uses_the_first_gene_of_a_number() {
    let a = Genome::<2, 1> {
        hidden_nodes: 0,
        connections: vec![gene(0, 3, 1.0, true, 0), gene(1, 3, 9.0, true, 0)],
    };
    let b = Genome::<2, 1> { hidden_nodes: 0, connections: vec![gene(0, 3, 0.0, true, 0)] };
    assert_eq!(a.distance(&b), 2 * ONE as u128);
}

#[test]
fn find_returns_the_first_gene_with_the_number() {
    let a = Genome::<2, 1> {
        hidden_nodes: 0,
        connections: vec![
            gene(0, 3, 1.0, true, 4),
            gene(1, 3, 2.0, true, 7),
            gene(2, 3, 3.0, true, 7),
        ],
    };
    assert_eq!(a.find(7), Some(gene(1, 3, 2.0, true, 7)));
    assert_eq!(a.find(5), None);
}

#[test]
fn number_table_lists_the_first_gene_of_every_number() {
    let a = Genome::<2, 1> {
        hidden_nodes: 0,
        connections: vec![
            gene(0, 3, 1.0, true, 4),
            gene(1, 3, 2.0, true, 1),
            gene(2, 3, 3.0, true, 4),
        ],
    };
    assert_eq!(a.span(), 5);
    assert_eq!(a.number_table(5), Some(vec![0, 2, 0, 0, 1]));
    assert_eq!(a.number_table(7), Some(vec![0, 2, 0, 0, 1, 0, 0]));
    assert_eq!(a.number_table(4), None);
    assert_eq!(Genome::<2, 1>::new().span(), 0);
    assert_eq!(Genome::<2, 1>::new().number_table(0), Some(vec![]));
}

#[test]
fn distance_from_tables_is_the_distance() {
    let a = Genome::<2, 1> {
        hidden_nodes: 1,
        connections: vec![
            gene(0, 3, 0.3, true, 0),
            gene(1, 4, -2.0, false, 3),
            gene(4, 3, 1.7, true, 4),
        ],
    };
    let b = Genome::<2, 1> {
        hidden_nodes: 0,
        connections: vec![gene(0, 3, -1.1, true, 0), gene(2, 3, 0.9, true, 2), gene(1, 4, 1.0, true, 3)],
    };
    for size in [5usize, 6, 40] {
        let mine = a.number_table(size).unwrap();
        let theirs = b.number_table(size).unwrap();
        assert_eq!(a.distance_tabled(&mine, &b, &theirs), a.distance(&b));
        assert_eq!(b.distance_tabled(&theirs, &a, &mine), a.distance(&b));
        assert_eq!(a.distance_tabled(&mine, &a, &mine), 0);
    }
}
