use neat::genome::Genome;
use neat::innovation::{InnovationDatabase, InnovationRecord};
use neat::node::Node;

#[test]
fn node_kinds_follow_the_layout() {
    let bias = Node::<2, 3>(0);
    assert!(bias.is_bias() && !bias.is_input() && !bias.is_output() && !bias.is_hidden());
    for i in 1..3 {
        let n = Node::<2, 3>(i);
        assert!(!n.is_bias() && n.is_input() && !n.is_output() && !n.is_hidden());
    }
    for i in 3..6 {
        let n = Node::<2, 3>(i);
        assert!(!n.is_bias() && !n.is_input() && n.is_output() && !n.is_hidden());
    }
    for i in [6usize, 7, 1000, usize::MAX] {
        let n = Node::<2, 3>(i);
        assert!(!n.is_bias() && !n.is_input() && !n.is_output() && n.is_hidden());
    }
}

#[test]
fn node_kinds_without_inputs_or_outputs() {
    assert!(Node::<0, 0>(0).is_bias());
    assert!(Node::<0, 0>(1).is_hidden());
    assert!(Node::<0, 1>(1).is_output());
    assert!(Node::<1, 0>(1).is_input());
    assert!(Node::<1, 0>(2).is_hidden());
}

#[test]
fn nodes_compare_by_index() {
    assert_eq!(Node::<2, 1>(3), Node::<2, 1>(3));
    assert_ne!(Node::<2, 1>(3), Node::<2, 1>(4));
}

#[test]
fn database_hands_out_numbers_in_order() {
    let mut db = InnovationDatabase::new();
    assert_eq!(db.get(0, 3), 0);
    assert_eq!(db.get(1, 3), 1);
    assert_eq!(db.get(3, 1), 2);
    assert_eq!(db.get(0, 3), 0);
    assert_eq!(db.get(1, 3), 1);
    assert_eq!(db.get(usize::MAX, usize::MAX), 3);
    assert_eq!(db.get(usize::MAX, 0), 4);
    assert_eq!(db.get(0, usize::MAX), 5);
    assert_eq!(db.get(usize::MAX, usize::MAX), 3);
}

#[test]
fn database_default_is_empty() {
    let mut db = InnovationDatabase::default();
    assert_eq!(db.get(7, 9), 0);
}

#[test]
fn record_returns_the_same_number_for_the_same_pair() {
    let mut record = InnovationRecord::<2, 1>::new();
    let first = record.get(Node(1), Node(3));
    let other = record.get(Node(2), Node(3));
    let again = record.get(Node(1), Node(3));
    assert_eq!(first, 0);
    assert_eq!(other, 1);
    assert_eq!(again, first);
    assert_eq!(record.get(Node(3), Node(1)), 2);
    let mut fresh = InnovationRecord::<2, 1>::default();
    assert_eq!(fresh.get(Node(2), Node(3)), 0);
}

#[test]
fn innovation_sharing() {
    let mut record = InnovationRecord::<2, 1>::new();
    let mut a = Genome::<2, 1> { hidden_nodes: 1, connections: vec![] };
    let mut b = Genome::<2, 1> { hidden_nodes: 1, connections: vec![] };
    a.add_connection(Node(0), Node(3), 7, &mut record);
    a.add_connection(Node(1), Node(4), 11, &mut record);
    b.add_connection(Node(2), Node(3), 13, &mut record);
    b.add_connection(Node(1), Node(4), 17, &mut record);
    let in_a = a.connections[1];
    let in_b = b.connections[1];
    assert_eq!((in_a.in_node.0, in_a.out_node.0), (1, 4));
    assert_eq!((in_b.in_node.0, in_b.out_node.0), (1, 4));
    assert_eq!(in_a.innovation_number, in_b.innovation_number);
    assert_eq!(in_a.innovation_number, 1);
    assert_eq!(b.connections[0].innovation_number, 2);
}

#[test]
fn lookup_reads_without_recording() {
    let mut record = InnovationRecord::<2, 1>::new();
    assert_eq!(record.lookup(Node(1), Node(3)), None);
    assert_eq!(record.get(Node(1), Node(3)), 0);
    assert_eq!(record.lookup(Node(1), Node(3)), Some(0));
    assert_eq!(record.lookup(Node(3), Node(1)), None);
    assert_eq!(record.get(Node(3), Node(1)), 1);
    let mut db = InnovationDatabase::new();
    assert_eq!(db.lookup(4, 5), None);
    assert_eq!(db.get(4, 5), 0);
    assert_eq!(db.lookup(4, 5), Some(0));
    assert_eq!(db.lookup(5, 4), None);
    assert_eq!(db.get(9, 9), 1);
}
