use crate::connection::Connection;
use crate::fixed::{spec_clamp, ONE, ONE_SIGNED};
use crate::genome::Genome;
use crate::mutation::with_split;
use crate::node::{first_hidden, first_output, Node};
use vstd::prelude::*;

verus! {

/// The value of every node at one step of a forward pass, in signed fixed
/// point. The bias node has no place of its own: it always reads `1.0`.
#[derive(Debug)]
pub struct GenomeActivation<const INPUT_SZ: usize, const OUTPUT_SZ: usize> {
    pub input: [i64; INPUT_SZ],
    pub output: [i64; OUTPUT_SZ],
    pub hidden: Vec<i64>,
}

impl<const INPUT_SZ: usize, const OUTPUT_SZ: usize> GenomeActivation<INPUT_SZ, OUTPUT_SZ> {
    /// Whether the activation has a value for `node`.
    pub open spec fn holds(&self, node: Node<INPUT_SZ, OUTPUT_SZ>) -> bool {
        node.0 < first_hidden(INPUT_SZ, OUTPUT_SZ) + self.hidden@.len()
    }

    /// The value of `node`: `1.0` for the bias node, else what the place
    /// of the node holds.
    pub open spec fn value(&self, node: Node<INPUT_SZ, OUTPUT_SZ>) -> i64 {
        if node.is_bias() {
            ONE_SIGNED
        } else if node.is_input() {
            self.input@[node.0 - 1]
        } else if node.is_output() {
            self.output@[node.0 - first_output(INPUT_SZ)]
        } else {
            self.hidden@[node.0 - first_hidden(INPUT_SZ, OUTPUT_SZ)]
        }
    }

    /// The activation before the first step: the inputs as given, every
    /// output and hidden node at zero.
    pub fn new(input: [i64; INPUT_SZ], hidden_nodes: usize) -> (r: Self)
        ensures
            r.input@ == input@,
            r.hidden@.len() == hidden_nodes,
            forall|i: int| 0 <= i < OUTPUT_SZ ==> r.output@[i] == 0,
            forall|i: int| 0 <= i < hidden_nodes ==> r.hidden@[i] == 0,
    {
        let mut hidden: Vec<i64> = Vec::new();
        let mut i: usize = 0;
        while i < hidden_nodes
            invariant
                i <= hidden_nodes,
                hidden@.len() == i,
                forall|j: int| 0 <= j < i ==> hidden@[j] == 0,
            decreases hidden_nodes - i,
        {
            hidden.push(0);
            i += 1;
        }
        GenomeActivation { input, output: [0; OUTPUT_SZ], hidden }
    }

    /// The value of `node`.
    pub fn get(&self, node: Node<INPUT_SZ, OUTPUT_SZ>) -> (r: i64)
        requires
            self.holds(node),
        ensures
            r == self.value(node),
    {
        if node.is_bias() {
            ONE_SIGNED
        } else if node.is_input() {
            self.input[node.0 - 1]
        } else if node.is_output() {
            self.output[node.0 - INPUT_SZ - 1]
        } else {
            self.hidden[node.0 - INPUT_SZ - OUTPUT_SZ - 1]
        }
    }

    /// Gives `node` the value `value`. The bias node cannot be written.
    pub fn set(&mut self, node: Node<INPUT_SZ, OUTPUT_SZ>, value: i64)
        requires
            old(self).holds(node),
            !node.is_bias(),
        ensures
            final(self).hidden@.len() == old(self).hidden@.len(),
            final(self).value(node) == value,
            forall|other: Node<INPUT_SZ, OUTPUT_SZ>|
                old(self).holds(other) && other.0 != node.0 ==> final(self).value(other) == old(
                    self,
                ).value(other),
    {
        if node.is_input() {
            self.input[node.0 - 1] = value;
        } else if node.is_output() {
            self.output[node.0 - INPUT_SZ - 1] = value;
        } else {
            self.hidden[node.0 - INPUT_SZ - OUTPUT_SZ - 1] = value;
        }
    }
}

/// The magnitude of a signed number.
pub open spec fn magnitude(v: i64) -> nat {
    if v < 0 {
        (-v) as nat
    } else {
        v as nat
    }
}

/// The fixed-point product of a weight and a value, rounded towards zero.
pub open spec fn scaled_product(weight: i64, value: i64) -> int {
    let size = magnitude(weight) * magnitude(value) / ONE as nat;
    if (weight < 0) != (value < 0) {
        -(size as int)
    } else {
        size as int
    }
}

/// `v` limited to the range of 64-bit signed numbers.
pub open spec fn saturated(v: int) -> i64 {
    spec_clamp(v, i64::MIN as int, i64::MAX as int) as i64
}

/// What `gene` feeds into `node`: nothing unless it is enabled and ends in
/// `node`, else its weight times the value of its source in `last`.
pub open spec fn contribution<const INPUT_SZ: usize, const OUTPUT_SZ: usize>(
    gene: Connection<INPUT_SZ, OUTPUT_SZ>,
    node: Node<INPUT_SZ, OUTPUT_SZ>,
    last: GenomeActivation<INPUT_SZ, OUTPUT_SZ>,
) -> int {
    if gene.enabled && gene.out_node.0 == node.0 {
        saturated(scaled_product(gene.weight, last.value(gene.in_node))) as int
    } else {
        0
    }
}

/// The sum of what the genes feed into `node`.
pub open spec fn weighted_sum<const INPUT_SZ: usize, const OUTPUT_SZ: usize>(
    genes: Seq<Connection<INPUT_SZ, OUTPUT_SZ>>,
    node: Node<INPUT_SZ, OUTPUT_SZ>,
    last: GenomeActivation<INPUT_SZ, OUTPUT_SZ>,
) -> int
    decreases genes.len(),
{
    if genes.len() == 0 {
        0
    } else {
        weighted_sum(genes.drop_last(), node, last) + contribution(genes.last(), node, last)
    }
}

fn size_of(v: i64) -> (r: u128)
    ensures
        r == magnitude(v),
        r <= 0x8000_0000_0000_0000,
{
    if v < 0 {
        (0 - (v as i128)) as u128
    } else {
        v as u128
    }
}

/// The fixed-point product of a weight and a value, limited to the range
/// of 64-bit signed numbers.
pub fn weigh(weight: i64, value: i64) -> (r: i64)
    ensures
        r == saturated(scaled_product(weight, value)),
{
    let a = size_of(weight);
    let b = size_of(value);
    assert(a * b <= 0x8000_0000_0000_0000 * 0x8000_0000_0000_0000) by (nonlinear_arith)
        requires
            0 <= a <= 0x8000_0000_0000_0000,
            0 <= b <= 0x8000_0000_0000_0000,
    ;
    let size: u128 = a * b / (ONE as u128);
    if (weight < 0) != (value < 0) {
        if size > 0x8000_0000_0000_0000 {
            i64::MIN
        } else {
            (0 - (size as i128)) as i64
        }
    } else if size > i64::MAX as u128 {
        i64::MAX
    } else {
        size as i64
    }
}

impl<const INPUT_SZ: usize, const OUTPUT_SZ: usize> Genome<INPUT_SZ, OUTPUT_SZ> {
    /// What reaches `node` in one step: the sum, over the enabled genes
    /// that end in it, of their weight times the value that their source
    /// had in `last`. The sum is limited to the range of 64-bit signed
    /// numbers. The value of the node after the step is what the squashing
    /// function, the sigmoid, makes of this sum.
    pub fn net_input(
        &self,
        node: Node<INPUT_SZ, OUTPUT_SZ>,
        last: &GenomeActivation<INPUT_SZ, OUTPUT_SZ>,
    ) -> (r: i64)
        requires
            forall|i: int|
                0 <= i < self.connections@.len() ==> last.holds(
                    (#[trigger] self.connections@[i]).in_node,
                ),
        ensures
            r == saturated(weighted_sum(self.connections@, node, *last)),
    {
        let mut sum: i128 = 0;
        let mut i: usize = 0;
        while i < self.connections.len()
            invariant
                i <= self.connections.len(),
                forall|i: int|
                    0 <= i < self.connections@.len() ==> last.holds(
                        (#[trigger] self.connections@[i]).in_node,
                    ),
                sum == weighted_sum(self.connections@.take(i as int), node, *last),
                -(i * 0x8000_0000_0000_0000) <= sum <= i * 0x8000_0000_0000_0000,
            decreases self.connections.len() - i,
        {
            let gene = self.connections[i];
            proof {
                assert(self.connections@.take(i + 1).drop_last() =~= self.connections@.take(
                    i as int,
                ));
                assert(self.connections@.take(i + 1).last() == gene);
                assert(i * 0x8000_0000_0000_0000 <= 0xffff_ffff_ffff_ffff * 0x8000_0000_0000_0000)
                    by (nonlinear_arith)
                    requires
                        i <= 0xffff_ffff_ffff_ffff,
                ;
                assert((i + 1) * 0x8000_0000_0000_0000 == i * 0x8000_0000_0000_0000
                    + 0x8000_0000_0000_0000) by (nonlinear_arith);
            }
            if gene.enabled && gene.out_node.0 == node.0 {
                assert(last.holds(self.connections@[i as int].in_node));
                sum = sum + weigh(gene.weight, last.get(gene.in_node)) as i128;
            }
            i += 1;
        }
        proof {
            assert(self.connections@.take(i as int) =~= self.connections@);
        }
        if sum < i64::MIN as i128 {
            i64::MIN
        } else if sum > i64::MAX as i128 {
            i64::MAX
        } else {
            sum as i64
        }
    }
}

impl<const INPUT_SZ: usize, const OUTPUT_SZ: usize> Genome<INPUT_SZ, OUTPUT_SZ> {
    /// What reaches every output and hidden node in one step, in the order
    /// of the nodes: entry `k` is the net input of the node with index
    /// `1 + INPUT_SZ + k`.
    pub fn net_inputs(&self, last: &GenomeActivation<INPUT_SZ, OUTPUT_SZ>) -> (r: Vec<i64>)
        requires
            self.node_count() <= usize::MAX,
            last.hidden@.len() == self.hidden_nodes,
            forall|i: int|
                0 <= i < self.connections@.len() ==> last.holds(
                    (#[trigger] self.connections@[i]).in_node,
                ),
        ensures
            r@.len() == OUTPUT_SZ + self.hidden_nodes,
            forall|k: int|
                0 <= k < r@.len() ==> #[trigger] r@[k] == saturated(
                    weighted_sum(
                        self.connections@,
                        Node::<INPUT_SZ, OUTPUT_SZ>((first_output(INPUT_SZ) + k) as usize),
                        *last,
                    ),
                ),
    {
        let count = OUTPUT_SZ + self.hidden_nodes;
        let ghost genes = self.connections@;
        let mut totals: Vec<i128> = Vec::new();
        let mut k: usize = 0;
        while k < count
            invariant
                k <= count,
                genes == self.connections@,
                totals@.len() == k,
                forall|j: int|
                    0 <= j < k ==> #[trigger] totals@[j] == weighted_sum(
                        genes.take(0),
                        Node::<INPUT_SZ, OUTPUT_SZ>((first_output(INPUT_SZ) + j) as usize),
                        *last,
                    ),
            decreases count - k,
        {
            proof {
                assert(genes.take(0).len() == 0);
            }
            totals.push(0);
            k += 1;
        }
        let mut i: usize = 0;
        while i < self.connections.len()
            invariant
                i <= self.connections@.len(),
                genes == self.connections@,
                count == OUTPUT_SZ + self.hidden_nodes,
                self.node_count() <= usize::MAX,
                forall|i: int| 0 <= i < genes.len() ==> last.holds((#[trigger] genes[i]).in_node),
                totals@.len() == count,
                forall|j: int|
                    0 <= j < count ==> #[trigger] totals@[j] == weighted_sum(
                        genes.take(i as int),
                        Node::<INPUT_SZ, OUTPUT_SZ>((first_output(INPUT_SZ) + j) as usize),
                        *last,
                    ),
                forall|j: int|
                    0 <= j < count ==> -(i * 0x8000_0000_0000_0000) <= #[trigger] totals@[j] <= i
                        * 0x8000_0000_0000_0000,
            decreases self.connections@.len() - i,
        {
            let gene = self.connections[i];
            let ghost reached = totals@;
            proof {
                assert(genes.take(i + 1).drop_last() =~= genes.take(i as int));
                assert(genes.take(i + 1).last() == gene);
                assert(i * 0x8000_0000_0000_0000 <= 0xffff_ffff_ffff_ffff * 0x8000_0000_0000_0000)
                    by (nonlinear_arith)
                    requires
                        i <= 0xffff_ffff_ffff_ffff,
                ;
                assert((i + 1) * 0x8000_0000_0000_0000 == i * 0x8000_0000_0000_0000
                    + 0x8000_0000_0000_0000) by (nonlinear_arith);
            }
            let target = gene.out_node.0;
            if gene.enabled && target > INPUT_SZ && target - INPUT_SZ - 1 < count {
                let place = gene.out_node.0 - INPUT_SZ - 1;
                assert(last.holds(genes[i as int].in_node));
                let sum = totals[place] + weigh(gene.weight, last.get(gene.in_node)) as i128;
                totals.set(place, sum);
            }
            proof {
                assert forall|j: int| 0 <= j < count implies #[trigger] totals@[j] == weighted_sum(
                    genes.take(i + 1),
                    Node::<INPUT_SZ, OUTPUT_SZ>((first_output(INPUT_SZ) + j) as usize),
                    *last,
                ) && -((i + 1) * 0x8000_0000_0000_0000) <= totals@[j] <= (i + 1)
                    * 0x8000_0000_0000_0000 by {
                    let node = Node::<INPUT_SZ, OUTPUT_SZ>((first_output(INPUT_SZ) + j) as usize);
                    assert(reached[j] == weighted_sum(genes.take(i as int), node, *last));
                    assert(weighted_sum(genes.take(i + 1), node, *last) == weighted_sum(
                        genes.take(i as int),
                        node,
                        *last,
                    ) + contribution(gene, node, *last));
                }
            }
            i += 1;
        }
        proof {
            assert(genes.take(i as int) =~= genes);
        }
        let mut sums: Vec<i64> = Vec::new();
        let mut k: usize = 0;
        while k < count
            invariant
                k <= count,
                totals@.len() == count,
                sums@.len() == k,
                forall|j: int| 0 <= j < k ==> #[trigger] sums@[j] == saturated(totals@[j] as int),
            decreases count - k,
        {
            let total = totals[k];
            let sum: i64 = if total < i64::MIN as i128 {
                i64::MIN
            } else if total > i64::MAX as i128 {
                i64::MAX
            } else {
                total as i64
            };
            sums.push(sum);
            k += 1;
        }
        sums
    }
}

impl<const INPUT_SZ: usize, const OUTPUT_SZ: usize> GenomeActivation<INPUT_SZ, OUTPUT_SZ> {
    /// Gives every output and hidden node its value from `values`, which
    /// holds them in the order of the nodes. The inputs stay.
    pub fn load(&mut self, values: &Vec<i64>)
        requires
            values@.len() == OUTPUT_SZ + old(self).hidden@.len(),
        ensures
            final(self).input@ == old(self).input@,
            final(self).hidden@.len() == old(self).hidden@.len(),
            forall|k: int| 0 <= k < OUTPUT_SZ ==> final(self).output@[k] == values@[k],
            forall|k: int|
                0 <= k < final(self).hidden@.len() ==> final(self).hidden@[k] == values@[OUTPUT_SZ
                    + k],
    {
        let mut k: usize = 0;
        while k < OUTPUT_SZ
            invariant
                k <= OUTPUT_SZ,
                values@.len() == OUTPUT_SZ + self.hidden@.len(),
                self.input@ == old(self).input@,
                self.hidden@ == old(self).hidden@,
                forall|j: int| 0 <= j < k ==> self.output@[j] == values@[j],
            decreases OUTPUT_SZ - k,
        {
            self.output[k] = values[k];
            k += 1;
        }
        let total = values.len();
        let mut k: usize = 0;
        while k < self.hidden.len()
            invariant
                total == values@.len(),
                k <= self.hidden@.len(),
                values@.len() == OUTPUT_SZ + self.hidden@.len(),
                self.input@ == old(self).input@,
                self.hidden@.len() == old(self).hidden@.len(),
                forall|j: int| 0 <= j < OUTPUT_SZ ==> self.output@[j] == values@[j],
                forall|j: int| 0 <= j < k ==> self.hidden@[j] == values@[OUTPUT_SZ + j],
            decreases self.hidden@.len() - k,
        {
            self.hidden[k] = values[OUTPUT_SZ + k];
            k += 1;
        }
    }
}

/// The number of steps of a forward pass.
pub const ACTIVATION_ITERATIONS: usize = 20;

/// Whether `next` is the activation one step after `last`: every output
/// and hidden node has a value that `squash` returns for its net input.
pub open spec fn step_of<const INPUT_SZ: usize, const OUTPUT_SZ: usize, F: Fn(i64) -> i64>(
    genes: Seq<Connection<INPUT_SZ, OUTPUT_SZ>>,
    squash: F,
    last: GenomeActivation<INPUT_SZ, OUTPUT_SZ>,
    next: GenomeActivation<INPUT_SZ, OUTPUT_SZ>,
) -> bool {
    &&& next.hidden@.len() == last.hidden@.len()
    &&& forall|node: Node<INPUT_SZ, OUTPUT_SZ>|
        next.holds(node) && node.0 >= first_output(INPUT_SZ) ==> call_ensures(
            squash,
            (saturated(weighted_sum(genes, node, last)),),
            #[trigger] next.value(node),
        )
}

/// Whether `end` is reached from `start` in `steps` steps, the inputs
/// staying as they are.
pub open spec fn reaches<const INPUT_SZ: usize, const OUTPUT_SZ: usize, F: Fn(i64) -> i64>(
    genes: Seq<Connection<INPUT_SZ, OUTPUT_SZ>>,
    squash: F,
    start: GenomeActivation<INPUT_SZ, OUTPUT_SZ>,
    steps: nat,
    end: GenomeActivation<INPUT_SZ, OUTPUT_SZ>,
) -> bool
    decreases steps,
{
    if steps == 0 {
        &&& end.input@ == start.input@
        &&& end.output@ == start.output@
        &&& end.hidden@ == start.hidden@
    } else {
        exists|middle: GenomeActivation<INPUT_SZ, OUTPUT_SZ>|
            reaches(genes, squash, start, (steps - 1) as nat, middle) && #[trigger] step_of(
                genes,
                squash,
                middle,
                end,
            ) && end.input@ == middle.input@
    }
}

impl<const INPUT_SZ: usize, const OUTPUT_SZ: usize> Genome<INPUT_SZ, OUTPUT_SZ> {
    /// One step of the forward pass: every output and hidden node of
    /// `activation` gets what `squash` makes of its net input from
    /// `last_activation`. All nodes are updated at once, from the values of
    /// the step before.
    pub fn activate_step<F: Fn(i64) -> i64>(
        &self,
        activation: &mut GenomeActivation<INPUT_SZ, OUTPUT_SZ>,
        last_activation: &GenomeActivation<INPUT_SZ, OUTPUT_SZ>,
        squash: &F,
    )
        requires
            self.node_count() <= usize::MAX,
            old(activation).hidden@.len() == self.hidden_nodes,
            last_activation.hidden@.len() == self.hidden_nodes,
            forall|i: int|
                0 <= i < self.connections@.len() ==> last_activation.holds(
                    (#[trigger] self.connections@[i]).in_node,
                ),
            forall|x: i64| call_requires(*squash, (x,)),
        ensures
            final(activation).input@ == old(activation).input@,
            step_of(self.connections@, *squash, *last_activation, *final(activation)),
    {
        let sums = self.net_inputs(last_activation);
        let mut values: Vec<i64> = Vec::new();
        let mut k: usize = 0;
        while k < sums.len()
            invariant
                k <= sums@.len(),
                values@.len() == k,
                forall|x: i64| call_requires(*squash, (x,)),
                forall|j: int|
                    0 <= j < k ==> call_ensures(*squash, (sums@[j],), #[trigger] values@[j]),
            decreases sums@.len() - k,
        {
            let value = squash(sums[k]);
            values.push(value);
            k += 1;
        }
        activation.load(&values);
        proof {
            assert forall|node: Node<INPUT_SZ, OUTPUT_SZ>|
                activation.holds(node) && node.0 >= first_output(INPUT_SZ) implies call_ensures(
                *squash,
                (saturated(weighted_sum(self.connections@, node, *last_activation)),),
                #[trigger] activation.value(node),
            ) by {
                let j = node.0 - first_output(INPUT_SZ);
                assert(sums@[j] == saturated(
                    weighted_sum(
                        self.connections@,
                        Node::<INPUT_SZ, OUTPUT_SZ>((first_output(INPUT_SZ) + j) as usize),
                        *last_activation,
                    ),
                ));
                assert(Node::<INPUT_SZ, OUTPUT_SZ>((first_output(INPUT_SZ) + j) as usize) == node);
                assert(activation.value(node) == values@[j]);
            }
        }
    }

    /// A forward pass: from the inputs as given and every other node at
    /// zero, twenty steps as `activate_step` makes them.
    pub fn activate<F: Fn(i64) -> i64>(&self, input: [i64; INPUT_SZ], squash: &F) -> (r:
        GenomeActivation<INPUT_SZ, OUTPUT_SZ>)
        requires
            self.node_count() <= usize::MAX,
            forall|i: int|
                0 <= i < self.connections@.len() ==> (#[trigger] self.connections@[i]).in_node.0
                    < self.node_count(),
            forall|x: i64| call_requires(*squash, (x,)),
        ensures
            exists|start: GenomeActivation<INPUT_SZ, OUTPUT_SZ>|
                {
                    &&& start.input@ == input@
                    &&& start.hidden@.len() == self.hidden_nodes
                    &&& forall|i: int| 0 <= i < OUTPUT_SZ ==> start.output@[i] == 0
                    &&& forall|i: int| 0 <= i < self.hidden_nodes ==> start.hidden@[i] == 0
                    &&& #[trigger] reaches(
                        self.connections@,
                        *squash,
                        start,
                        ACTIVATION_ITERATIONS as nat,
                        r,
                    )
                },
    {
        let mut activation = GenomeActivation::new(input, self.hidden_nodes);
        let mut other_activation = GenomeActivation::new(input, self.hidden_nodes);
        let ghost start = activation;
        let mut i: usize = 0;
        while i < ACTIVATION_ITERATIONS
            invariant
                i <= ACTIVATION_ITERATIONS,
                self.node_count() <= usize::MAX,
                forall|i: int|
                    0 <= i < self.connections@.len() ==> (
                    #[trigger] self.connections@[i]).in_node.0 < self.node_count(),
                forall|x: i64| call_requires(*squash, (x,)),
                activation.hidden@.len() == self.hidden_nodes,
                other_activation.hidden@.len() == self.hidden_nodes,
                other_activation.input@ == start.input@,
                reaches(self.connections@, *squash, start, i as nat, activation),
            decreases ACTIVATION_ITERATIONS - i,
        {
            proof {
                assert forall|k: int| 0 <= k < self.connections@.len() implies activation.holds(
                    (#[trigger] self.connections@[k]).in_node,
                ) by {}
                assert(activation.input@ == start.input@) by {
                    lemma_reaches_keeps_input(self.connections@, *squash, start, i as nat, activation);
                }
            }
            self.activate_step(&mut other_activation, &activation, squash);
            std::mem::swap(&mut activation, &mut other_activation);
            i += 1;
            proof {
                assert(reaches(self.connections@, *squash, start, (i - 1) as nat, other_activation));
                assert(step_of(self.connections@, *squash, other_activation, activation));
            }
        }
        activation
    }
}

/// The inputs at the end of a pass are those at its start.
pub proof fn lemma_reaches_keeps_input<const INPUT_SZ: usize, const OUTPUT_SZ: usize, F: Fn(i64) -> i64>(
    genes: Seq<Connection<INPUT_SZ, OUTPUT_SZ>>,
    squash: F,
    start: GenomeActivation<INPUT_SZ, OUTPUT_SZ>,
    steps: nat,
    end: GenomeActivation<INPUT_SZ, OUTPUT_SZ>,
)
    requires
        reaches(genes, squash, start, steps, end),
    ensures
        end.input@ == start.input@,
        end.hidden@.len() == start.hidden@.len(),
    decreases steps,
{
    if steps > 0 {
        let middle = choose|middle: GenomeActivation<INPUT_SZ, OUTPUT_SZ>|
            reaches(genes, squash, start, (steps - 1) as nat, middle) && #[trigger] step_of(
                genes,
                squash,
                middle,
                end,
            ) && end.input@ == middle.input@;
        lemma_reaches_keeps_input(genes, squash, start, (steps - 1) as nat, middle);
    }
}

/// Nothing reaches a node in which no gene ends.
pub proof fn lemma_weighted_sum_of_unreached<const INPUT_SZ: usize, const OUTPUT_SZ: usize>(
    genes: Seq<Connection<INPUT_SZ, OUTPUT_SZ>>,
    node: Node<INPUT_SZ, OUTPUT_SZ>,
    last: GenomeActivation<INPUT_SZ, OUTPUT_SZ>,
)
    requires
        forall|k: int|
            0 <= k < genes.len() ==> !(#[trigger] genes[k]).enabled || genes[k].out_node.0
                != node.0,
    ensures
        weighted_sum(genes, node, last) == 0,
    decreases genes.len(),
{
    if genes.len() > 0 {
        assert forall|k: int| 0 <= k < genes.drop_last().len() implies !(
        #[trigger] genes.drop_last()[k]).enabled || genes.drop_last()[k].out_node.0 != node.0 by {
            assert(genes.drop_last()[k] == genes[k]);
        }
        lemma_weighted_sum_of_unreached(genes.drop_last(), node, last);
        assert(!genes[genes.len() - 1].enabled || genes[genes.len() - 1].out_node.0 != node.0);
    }
}

/// A weight of `1.0` passes a value on as it is.
pub proof fn lemma_weigh_by_one(value: i64)
    ensures
        saturated(scaled_product(ONE_SIGNED, value)) == value,
{
    let size = magnitude(value);
    assert(65536 * size / 65536 == size) by (nonlinear_arith);
    assert(magnitude(ONE_SIGNED) * size == 65536 * size) by (nonlinear_arith)
        requires
            magnitude(ONE_SIGNED) == 65536,
    ;
}

/// What a split does to the flow through the network. After the gene at
/// `index` was split by the new node `node`, the net input of the new node
/// is the value of the source of the split gene; and if the new node had
/// that value, it would feed into the target of the split gene what the
/// split gene, enabled, fed into it. A split therefore leaves the network's
/// function as it is only where the new node passes its net input on
/// unchanged, and with a delay of one step.
pub proof fn lemma_split_keeps_path<const INPUT_SZ: usize, const OUTPUT_SZ: usize>(
    genes: Seq<Connection<INPUT_SZ, OUTPUT_SZ>>,
    index: int,
    node: usize,
    number_in: usize,
    number_out: usize,
    last: GenomeActivation<INPUT_SZ, OUTPUT_SZ>,
    next: GenomeActivation<INPUT_SZ, OUTPUT_SZ>,
)
    requires
        0 <= index < genes.len(),
        forall|k: int|
            0 <= k < genes.len() ==> (#[trigger] genes[k]).out_node.0 != node && genes[k].in_node.0
                != node,
        next.value(Node(node)) == last.value(genes[index].in_node),
    ensures
        with_split(genes, index, node, number_in, number_out).len() == genes.len() + 2,
        weighted_sum(
            with_split(genes, index, node, number_in, number_out),
            Node(node),
            last,
        ) == last.value(genes[index].in_node),
        contribution(
            with_split(genes, index, node, number_in, number_out)[genes.len() as int + 1],
            genes[index].out_node,
            next,
        ) == contribution((Connection { enabled: true, ..genes[index] }), genes[index].out_node, last),
{
    let split = genes[index];
    let target: Node<INPUT_SZ, OUTPUT_SZ> = Node(node);
    let after = with_split(genes, index, node, number_in, number_out);
    let disabled = genes.update(index, (Connection { enabled: false, ..split }));
    let inner = after.drop_last();
    assert(inner.drop_last() =~= disabled);
    assert forall|k: int| 0 <= k < disabled.len() implies !(#[trigger] disabled[k]).enabled
        || disabled[k].out_node.0 != target.0 by {
        assert(genes[k].out_node.0 != node);
    }
    lemma_weighted_sum_of_unreached(disabled, target, last);
    lemma_weigh_by_one(last.value(split.in_node));
    assert(weighted_sum(inner, target, last) == weighted_sum(disabled, target, last)
        + contribution(inner.last(), target, last));
    assert(weighted_sum(after, target, last) == weighted_sum(inner, target, last) + contribution(
        after.last(),
        target,
        last,
    ));
    assert(after.last().out_node.0 == split.out_node.0);
    assert(split.out_node.0 != node);
}

} // verus!
