use neat::activation::{weigh, GenomeActivation};
use neat::connection::Connection;
use neat::fixed::ONE_SIGNED;
use neat::genome::Genome;
use neat::innovation::InnovationRecord;
use neat::node::Node;

fn units(value: f64) -> i64 {
    (value * 65536.0).round() as i64
}

fn edge<const I: usize, const O: usize>(
    in_node: usize,
    out_node: usize,
    weight: f64,
    enabled: bool,
    innovation_number: usize,
) -> Connection<I, O> {
    Connection {
        in_node: Node(in_node),
        out_node: Node(out_node),
        weight: units(weight),
        enabled,
        innovation_number,
    }
}

fn linear_pass<const I: usize, const O: usize>(genome: &Genome<I, O>, input: [i64; I], steps: usize) -> [i64; O] {
    let mut activation = GenomeActivation::new(input, genome.hidden_nodes);
    let mut last = GenomeActivation::new(input, genome.hidden_nodes);
    for _ in 0..steps {
        genome.activate_step(&mut activation, &last, &|x| x);
        std::mem::swap(&mut activation, &mut last);
    }
    last.output
}

fn sigmoid(x: i64) -> i64 {
    units(1.0 / (1.0 + (-(x as f64) / 65536.0).exp()))
}

#[test]
fn test_basic() {
    assert_eq!(
        linear_pass(
            &Genome::<1, 1> {
                hidden_nodes: 1,
                connections: vec![edge(1, 3, 0.5, true, 0), edge(3, 2, 0.5, true, 1)],
            },
            [units(12.0)],
            2
        ),
        [units(3.0)]
    );
    assert_eq!(
        linear_pass(
            &Genome::<1, 1> { hidden_nodes: 0, connections: vec![edge(1, 2, 0.5, false, 0)] },
            [units(12.0)],
            2
        ),
        [units(0.0)]
    );
}

#[test]
fn identity_computation_takes_one_step_per_gene() {
    let genome = Genome::<1, 1> {
        hidden_nodes: 1,
        connections: vec![edge(1, 3, 0.5, true, 0), edge(3, 2, 0.5, true, 1)],
    };
    let start = GenomeActivation::new([units(12.0)], 1);
    assert_eq!(genome.net_inputs(&start), vec![0, units(6.0)]);
    assert_eq!(genome.net_input(Node(3), &start), units(6.0));
    assert_eq!(genome.net_input(Node(2), &start), 0);
}

#[test]
fn disabled_gene() {
    let genome = Genome::<1, 1> { hidden_nodes: 0, connections: vec![edge(1, 2, 0.5, false, 0)] };
    let start = GenomeActivation::new([units(12.0)], 0);
    assert_eq!(genome.net_inputs(&start), vec![0]);
    let enabled = Genome::<1, 1> { hidden_nodes: 0, connections: vec![edge(1, 2, 0.5, true, 0)] };
    assert_eq!(enabled.net_inputs(&start), vec![units(6.0)]);
}

#[test]
fn net_input_sums_the_enabled_genes_into_a_node() {
    let genome = Genome::<2, 2> {
        hidden_nodes: 1,
        connections: vec![
            edge(0, 3, 0.25, true, 0),
            edge(1, 3, 2.0, true, 1),
            edge(2, 3, -1.0, true, 2),
            edge(2, 4, 3.0, true, 3),
            edge(5, 3, 4.0, true, 4),
            edge(1, 3, 100.0, false, 5),
        ],
    };
    let mut last = GenomeActivation::new([units(1.5), units(-2.0)], 1);
    last.set(Node(5), units(0.5));
    // bias 0.25 + 2.0 * 1.5 + -1.0 * -2.0 + 4.0 * 0.5
    assert_eq!(genome.net_input(Node(3), &last), units(7.25));
    assert_eq!(genome.net_input(Node(4), &last), units(-6.0));
    assert_eq!(genome.net_input(Node(5), &last), 0);
    assert_eq!(genome.net_inputs(&last), vec![units(7.25), units(-6.0), 0]);
}

#[test]
fn weigh_multiplies_in_fixed_point() {
    assert_eq!(weigh(units(0.5), units(12.0)), units(6.0));
    assert_eq!(weigh(units(-0.5), units(12.0)), units(-6.0));
    assert_eq!(weigh(units(-0.5), units(-12.0)), units(6.0));
    assert_eq!(weigh(0, units(-12.0)), 0);
    assert_eq!(weigh(3, 3), 0);
    assert_eq!(weigh(-3, 3), 0);
    assert_eq!(weigh(1, ONE_SIGNED), 1);
    assert_eq!(weigh(-1, ONE_SIGNED), -1);
    assert_eq!(weigh(3, ONE_SIGNED / 2), 1);
    assert_eq!(weigh(-3, ONE_SIGNED / 2), -1);
}

#[test]
fn weigh_saturates() {
    assert_eq!(weigh(i64::MAX, i64::MAX), i64::MAX);
    assert_eq!(weigh(i64::MIN, i64::MAX), i64::MIN);
    assert_eq!(weigh(i64::MIN, i64::MIN), i64::MAX);
    assert_eq!(weigh(i64::MAX, -ONE_SIGNED), -i64::MAX);
    assert_eq!(weigh(i64::MIN, ONE_SIGNED), i64::MIN);
}

#[test]
fn activation_starts_with_the_inputs_and_zeros() {
    let activation = GenomeActivation::<2, 3>::new([7, -8], 4);
    assert_eq!(activation.input, [7, -8]);
    assert_eq!(activation.output, [0, 0, 0]);
    assert_eq!(activation.hidden, vec![0, 0, 0, 0]);
}

#[test]
fn activation_reads_and_writes_by_node() {
    let mut activation = GenomeActivation::<2, 2>::new([7, -8], 2);
    assert_eq!(activation.get(Node(0)), ONE_SIGNED);
    assert_eq!(activation.get(Node(1)), 7);
    assert_eq!(activation.get(Node(2)), -8);
    activation.set(Node(3), 30);
    activation.set(Node(4), 40);
    activation.set(Node(5), 50);
    activation.set(Node(6), 60);
    activation.set(Node(1), 10);
    assert_eq!(activation.input, [10, -8]);
    assert_eq!(activation.output, [30, 40]);
    assert_eq!(activation.hidden, vec![50, 60]);
    assert_eq!(activation.get(Node(4)), 40);
    assert_eq!(activation.get(Node(6)), 60);
    assert_eq!(activation.get(Node(0)), ONE_SIGNED);
}

#[test]
fn load_fills_outputs_and_hidden_nodes() {
    let mut activation = GenomeActivation::<1, 2>::new([5], 3);
    activation.load(&vec![1, 2, 3, 4, 5]);
    assert_eq!(activation.input, [5]);
    assert_eq!(activation.output, [1, 2]);
    assert_eq!(activation.hidden, vec![3, 4, 5]);
}

#[test]
fn activate_takes_twenty_steps() {
    let chain = Genome::<1, 1> {
        hidden_nodes: 1,
        connections: vec![edge(1, 3, 0.5, true, 0), edge(3, 2, 0.5, true, 1)],
    };
    let counting = chain.activate([units(12.0)], &|x| x + 1);
    // the hidden node settles at 6.0 + 1, the output follows one step behind
    assert_eq!(counting.hidden, vec![units(6.0) + 1]);
    assert_eq!(counting.output, [units(3.0) + 1]);
    assert_eq!(counting.input, [units(12.0)]);
    let looped = Genome::<1, 1> {
        hidden_nodes: 0,
        connections: vec![edge(0, 2, 1.0, true, 0), edge(2, 2, 1.0, true, 1)],
    };
    // the output adds 1.0 to itself with every step
    assert_eq!(looped.activate([0], &|x| x).output, [units(20.0)]);
}

#[test]
fn identity_computation_with_the_sigmoid() {
    let chain = Genome::<1, 1> {
        hidden_nodes: 1,
        connections: vec![edge(1, 3, 0.5, true, 0), edge(3, 2, 0.5, true, 1)],
    };
    let start = GenomeActivation::new([units(12.0)], 1);
    let mut next = GenomeActivation::new([units(12.0)], 1);
    chain.activate_step(&mut next, &start, &sigmoid);
    assert_eq!(next.hidden, vec![units(0.9975273768)]);
    assert_eq!(next.output, [units(0.5)]);
    let settled = chain.activate([units(12.0)], &sigmoid);
    assert_eq!(settled.hidden, vec![units(0.9975273768)]);
    let expected = 1.0 / (1.0 + (-0.5f64 * 0.9975273768).exp());
    assert!((settled.output[0] as f64 / 65536.0 - expected).abs() < 1e-4);
}

#[test]
fn disabled_gene_with_the_sigmoid() {
    let genome = Genome::<1, 1> { hidden_nodes: 0, connections: vec![edge(1, 2, 0.5, false, 0)] };
    assert_eq!(genome.activate([units(12.0)], &sigmoid).output, [units(0.5)]);
}

#[test]
fn activate_step_updates_all_nodes_at_once() {
    let ring = Genome::<1, 1> {
        hidden_nodes: 2,
        connections: vec![
            edge(1, 3, 1.0, true, 0),
            edge(3, 4, 1.0, true, 1),
            edge(4, 2, 1.0, true, 2),
            edge(2, 3, 1.0, false, 3),
        ],
    };
    let mut last = GenomeActivation::new([units(2.0)], 2);
    last.load(&vec![units(5.0), units(7.0), units(11.0)]);
    let mut next = GenomeActivation::new([units(2.0)], 2);
    ring.activate_step(&mut next, &last, &|x| 2 * x);
    assert_eq!(next.input, [units(2.0)]);
    assert_eq!(next.output, [units(22.0)]);
    assert_eq!(next.hidden, vec![units(4.0), units(14.0)]);
}

#[test]
fn a_split_keeps_the_flow_of_a_linear_network_one_step_later() {
    let mut record = InnovationRecord::<1, 1>::new();
    let mut genome = Genome::<1, 1>::new();
    genome.connect(Node(1), Node(2), units(-1.75), &mut record);
    let before = linear_pass(&genome, [units(3.0)], 1);
    assert_eq!(before, [units(-5.25)]);
    genome.split_connection(0, &mut record);
    let start = GenomeActivation::new([units(3.0)], 1);
    assert_eq!(genome.net_input(Node(3), &start), units(3.0));
    assert_eq!(linear_pass(&genome, [units(3.0)], 1), [0]);
    assert_eq!(linear_pass(&genome, [units(3.0)], 2), before);
    // the sigmoid at the new node changes what reaches the output
    let squashed = genome.activate([units(3.0)], &sigmoid);
    let unsplit = Genome::<1, 1> {
        hidden_nodes: 0,
        connections: vec![edge(1, 2, -1.75, true, 0)],
    };
    assert_ne!(squashed.output, unsplit.activate([units(3.0)], &sigmoid).output);
}
