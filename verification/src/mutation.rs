use crate::connection::Connection;
use crate::fixed::ONE_SIGNED;
use crate::genome::{
    distinct_endpoints, hidden_ends, hidden_nodes_of, hidden_range, lemma_hidden_nodes_member,
    lemma_hidden_nodes_same_endpoints, numbered_by, Genome,
};
use crate::innovation::{lookup_map, lookup_next, lookup_value, InnovationRecord};
use crate::innovation::extends;
use crate::node::{first_hidden, first_output, Node};
use crate::random::{draw_index, draw_ratio};
use crate::weights::weights_mutated;
use rand::rngs::StdRng;
use vstd::prelude::*;

verus! {

/// The index of the first gene that joins `pair`, the length of the
/// sequence if there is none.
pub open spec fn first_joining<const INPUT_SZ: usize, const OUTPUT_SZ: usize>(
    genes: Seq<Connection<INPUT_SZ, OUTPUT_SZ>>,
    pair: (usize, usize),
) -> int
    decreases genes.len(),
{
    if genes.len() == 0 {
        0
    } else if genes[0].endpoints() == pair {
        0
    } else {
        1 + first_joining(genes.skip(1), pair)
    }
}

/// `first_joining` is the least index of a gene that joins the pair.
pub proof fn lemma_first_joining<const INPUT_SZ: usize, const OUTPUT_SZ: usize>(
    genes: Seq<Connection<INPUT_SZ, OUTPUT_SZ>>,
    pair: (usize, usize),
)
    ensures
        0 <= first_joining(genes, pair) <= genes.len(),
        first_joining(genes, pair) < genes.len() ==> genes[first_joining(
            genes,
            pair,
        )].endpoints() == pair,
        forall|j: int|
            0 <= j < first_joining(genes, pair) ==> (#[trigger] genes[j]).endpoints() != pair,
    decreases genes.len(),
{
    if genes.len() == 0 {
    } else if genes[0].endpoints() == pair {
    } else {
        lemma_first_joining(genes.skip(1), pair);
        assert forall|j: int| 0 <= j < first_joining(genes, pair) implies (
        #[trigger] genes[j]).endpoints() != pair by {
            if j > 0 {
                assert(genes.skip(1)[j - 1] == genes[j]);
            }
        }
    }
}

/// A pair is a candidate for a new connection unless it leaves an output
/// node or joins a node to itself.
pub open spec fn admissible<const INPUT_SZ: usize, const OUTPUT_SZ: usize>(
    in_node: Node<INPUT_SZ, OUTPUT_SZ>,
    out_node: Node<INPUT_SZ, OUTPUT_SZ>,
) -> bool {
    !in_node.is_output() && in_node.0 != out_node.0
}

/// Whether adding the pair appends a gene, which is when the record is asked
/// for a number.
pub open spec fn appends_gene<const INPUT_SZ: usize, const OUTPUT_SZ: usize>(
    genes: Seq<Connection<INPUT_SZ, OUTPUT_SZ>>,
    in_node: Node<INPUT_SZ, OUTPUT_SZ>,
    out_node: Node<INPUT_SZ, OUTPUT_SZ>,
) -> bool {
    admissible(in_node, out_node) && first_joining(genes, (in_node.0, out_node.0)) == genes.len()
}

/// The genes after a connection from `in_node` to `out_node` was asked for:
/// unchanged if the pair is not admissible; the first gene that joins the
/// pair enabled, if there is one; else a new enabled gene with the given
/// weight and number at the end.
pub open spec fn with_connection<const INPUT_SZ: usize, const OUTPUT_SZ: usize>(
    genes: Seq<Connection<INPUT_SZ, OUTPUT_SZ>>,
    in_node: Node<INPUT_SZ, OUTPUT_SZ>,
    out_node: Node<INPUT_SZ, OUTPUT_SZ>,
    weight: i64,
    number: usize,
) -> Seq<Connection<INPUT_SZ, OUTPUT_SZ>> {
    let k = first_joining(genes, (in_node.0, out_node.0));
    if !admissible(in_node, out_node) {
        genes
    } else if k < genes.len() {
        genes.update(k, (Connection { enabled: true, ..genes[k] }))
    } else {
        genes.push(
            (Connection { in_node, out_node, weight, enabled: true, innovation_number: number }),
        )
    }
}

/// The genes after the gene at `index` was split by a new hidden node
/// `node`: that gene disabled, then a gene into the new node with weight
/// `1.0`, then a gene out of it with the weight of the split one.
pub open spec fn with_split<const INPUT_SZ: usize, const OUTPUT_SZ: usize>(
    genes: Seq<Connection<INPUT_SZ, OUTPUT_SZ>>,
    index: int,
    node: usize,
    number_in: usize,
    number_out: usize,
) -> Seq<Connection<INPUT_SZ, OUTPUT_SZ>> {
    let split = genes[index];
    genes.update(index, (Connection { enabled: false, ..split })).push(
        (Connection {
            in_node: split.in_node,
            out_node: Node(node),
            weight: ONE_SIGNED,
            enabled: true,
            innovation_number: number_in,
        }),
    ).push(
        (Connection {
            in_node: Node(node),
            out_node: split.out_node,
            weight: split.weight,
            enabled: true,
            innovation_number: number_out,
        }),
    )
}

impl<const INPUT_SZ: usize, const OUTPUT_SZ: usize> Genome<INPUT_SZ, OUTPUT_SZ> {
    /// The index of the first gene that joins `in_node` to `out_node`, the
    /// number of genes if there is none.
    pub fn joining_index(
        &self,
        in_node: Node<INPUT_SZ, OUTPUT_SZ>,
        out_node: Node<INPUT_SZ, OUTPUT_SZ>,
    ) -> (k: usize)
        ensures
            k == first_joining(self.connections@, (in_node.0, out_node.0)),
    {
        let ghost pair = (in_node.0, out_node.0);
        proof {
            lemma_first_joining(self.connections@, pair);
        }
        let mut k: usize = 0;
        while k < self.connections.len()
            invariant
                k <= self.connections.len(),
                pair == (in_node.0, out_node.0),
                forall|j: int|
                    0 <= j < k ==> (#[trigger] self.connections@[j]).endpoints() != pair,
                0 <= first_joining(self.connections@, pair) <= self.connections@.len(),
                first_joining(self.connections@, pair) < self.connections@.len()
                    ==> self.connections@[first_joining(self.connections@, pair)].endpoints()
                    == pair,
                forall|j: int|
                    0 <= j < first_joining(self.connections@, pair) ==> (
                    #[trigger] self.connections@[j]).endpoints() != pair,
            decreases self.connections.len() - k,
        {
            let gene = self.connections[k];
            if gene.in_node.0 == in_node.0 && gene.out_node.0 == out_node.0 {
                proof {
                    let f = first_joining(self.connections@, pair);
                    if f < k {
                        assert(self.connections@[f].endpoints() == pair);
                    }
                    if f > k {
                        assert(self.connections@[k as int].endpoints() != pair);
                    }
                }
                return k;
            }
            k += 1;
        }
        proof {
            let f = first_joining(self.connections@, pair);
            if f < self.connections@.len() {
                assert(self.connections@[f].endpoints() == pair);
            }
        }
        k
    }

    /// Adds a connection from `in_node` to `out_node`. A pair that leaves an
    /// output node or joins a node to itself is refused and nothing changes.
    /// If a gene already joins the pair, the first such gene is enabled and
    /// nothing else changes. Otherwise an enabled gene with `weight` and the
    /// record's number for the pair is appended.
    pub fn add_connection(
        &mut self,
        in_node: Node<INPUT_SZ, OUTPUT_SZ>,
        out_node: Node<INPUT_SZ, OUTPUT_SZ>,
        weight: i64,
        innovation_record: &mut InnovationRecord<INPUT_SZ, OUTPUT_SZ>,
    )
        requires
            old(innovation_record).well_formed(),
        ensures
            final(innovation_record).well_formed(),
            final(self).hidden_nodes == old(self).hidden_nodes,
            final(self).connections@ == with_connection(
                old(self).connections@,
                in_node,
                out_node,
                weight,
                lookup_value(
                    old(innovation_record)@,
                    old(innovation_record).next(),
                    (in_node.0, out_node.0),
                ),
            ),
            appends_gene(old(self).connections@, in_node, out_node) ==> final(innovation_record)@
                == lookup_map(
                old(innovation_record)@,
                old(innovation_record).next(),
                (in_node.0, out_node.0),
            ) && final(innovation_record).next() == lookup_next(
                old(innovation_record)@,
                old(innovation_record).next(),
                (in_node.0, out_node.0),
            ),
            !appends_gene(old(self).connections@, in_node, out_node) ==> final(innovation_record)@
                == old(innovation_record)@ && final(innovation_record).next() == old(innovation_record).next(),
            old(self).well_formed() && in_node.0 < old(self).node_count() && first_output(INPUT_SZ)
                <= out_node.0 < old(self).node_count() ==> final(self).well_formed(),
            numbered_by(old(self).connections@, old(innovation_record)@) ==> numbered_by(
                final(self).connections@,
                final(innovation_record)@,
            ),
    {
        if in_node.is_output() || in_node.0 == out_node.0 {
            return ;
        }
        let ghost pair = (in_node.0, out_node.0);
        let ghost before = self.connections@;
        proof {
            lemma_first_joining(before, pair);
        }
        let k = self.joining_index(in_node, out_node);
        if k < self.connections.len() {
            let gene = self.connections[k];
            self.connections.set(k, Connection { enabled: true, ..gene });
            proof {
                let after = self.connections@;
                assert forall|i: int| 0 <= i < before.len() implies (
                #[trigger] before[i]).endpoints() == after[i].endpoints() by {}
                lemma_hidden_nodes_same_endpoints(before, after);
                if distinct_endpoints(before) {
                    assert forall|i: int, j: int| 0 <= i < j < after.len() implies (
                    #[trigger] after[i]).endpoints() != (#[trigger] after[j]).endpoints() by {
                        assert(before[i].endpoints() != before[j].endpoints());
                    }
                }
                if numbered_by(before, old(innovation_record)@) {
                    let record = old(innovation_record)@;
                    assert forall|i: int| 0 <= i < after.len() implies record.contains_key(
                        (#[trigger] after[i]).endpoints(),
                    ) && record[after[i].endpoints()] == after[i].innovation_number by {
                        assert(before[i].endpoints() == after[i].endpoints());
                    }
                }
                if old(self).well_formed() {
                    assert forall|i: int| 0 <= i < after.len() implies (
                    #[trigger] after[i]).well_formed() by {
                        assert(before[i].well_formed());
                    }
                }
            }
            return ;
        }
        let innovation_number = innovation_record.get(in_node, out_node);
        let gene = Connection { in_node, out_node, weight, enabled: true, innovation_number };
        self.connections.push(gene);
        proof {
            let after = self.connections@;
            assert(after.drop_last() =~= before);
            assert(after.last() == gene);
            if numbered_by(before, old(innovation_record)@) {
                let record = innovation_record@;
                assert forall|i: int| 0 <= i < after.len() implies record.contains_key(
                    (#[trigger] after[i]).endpoints(),
                ) && record[after[i].endpoints()] == after[i].innovation_number by {
                    if i < before.len() {
                        assert(after[i] == before[i]);
                        assert(old(innovation_record)@.contains_key(before[i].endpoints()));
                    }
                }
            }
            if old(self).well_formed() && in_node.0 < old(self).node_count() && first_output(
                INPUT_SZ,
            ) <= out_node.0 < old(self).node_count() {
                assert forall|i: int| 0 <= i < after.len() implies (
                #[trigger] after[i]).well_formed() by {
                    if i < before.len() {
                        assert(after[i] == before[i]);
                    }
                }
                assert forall|i: int, j: int| 0 <= i < j < after.len() implies (
                #[trigger] after[i]).endpoints() != (#[trigger] after[j]).endpoints() by {
                    assert(after[i] == before[i]);
                    if j < before.len() {
                        assert(after[j] == before[j]);
                    }
                }
                assert(hidden_nodes_of(after) =~= hidden_range(
                    INPUT_SZ,
                    OUTPUT_SZ,
                    self.hidden_nodes as int,
                ));
            }
        }
    }

    /// Splits the enabled gene at `index` by a new hidden node: the gene is disabled
    /// and two enabled genes are appended, one from its source into the new
    /// node with weight `1.0` and one from the new node to its target with
    /// the weight of the split gene, each with the record's number for its
    /// pair. The new node takes the next free index.
    pub fn split_connection(
        &mut self,
        index: usize,
        innovation_record: &mut InnovationRecord<INPUT_SZ, OUTPUT_SZ>,
    )
        requires
            index < old(self).connections@.len(),
            old(self).connections@[index as int].enabled,
            old(self).node_count() < usize::MAX,
            old(innovation_record).well_formed(),
        ensures
            final(innovation_record).well_formed(),
            final(self).hidden_nodes == old(self).hidden_nodes + 1,
            ({
                let split = old(self).connections@[index as int];
                let node = old(self).node_count() as usize;
                let map0 = old(innovation_record)@;
                let next0 = old(innovation_record).next();
                let pair_in = (split.in_node.0, node);
                let pair_out = (node, split.out_node.0);
                let map1 = lookup_map(map0, next0, pair_in);
                let next1 = lookup_next(map0, next0, pair_in) as usize;
                &&& final(self).connections@ == with_split(
                    old(self).connections@,
                    index as int,
                    node,
                    lookup_value(map0, next0, pair_in),
                    lookup_value(map1, next1, pair_out),
                )
                &&& final(innovation_record)@ == lookup_map(map1, next1, pair_out)
                &&& final(innovation_record).next() == lookup_next(map1, next1, pair_out)
            }),
            old(self).well_formed() ==> final(self).well_formed(),
            numbered_by(old(self).connections@, old(innovation_record)@) ==> numbered_by(
                final(self).connections@,
                final(innovation_record)@,
            ),
    {
        let ghost before = self.connections@;
        let split = self.connections[index];
        let node: Node<INPUT_SZ, OUTPUT_SZ> = Node(self.nodes());
        self.connections.set(index, Connection { enabled: false, ..split });
        let ghost disabled = self.connections@;
        let number_in = innovation_record.get(split.in_node, node);
        let ghost map1 = innovation_record@;
        let into = Connection {
            in_node: split.in_node,
            out_node: node,
            weight: ONE_SIGNED,
            enabled: true,
            innovation_number: number_in,
        };
        self.connections.push(into);
        let number_out = innovation_record.get(node, split.out_node);
        let out_of = Connection {
            in_node: node,
            out_node: split.out_node,
            weight: split.weight,
            enabled: true,
            innovation_number: number_out,
        };
        self.connections.push(out_of);
        self.hidden_nodes = self.hidden_nodes + 1;
        proof {
            let after = self.connections@;
            assert(after == disabled.push(into).push(out_of));
            assert forall|i: int| 0 <= i < before.len() implies (#[trigger] after[i]).endpoints()
                == before[i].endpoints() && after[i].innovation_number
                == before[i].innovation_number by {
                assert(after[i] == disabled[i]);
            }
            if numbered_by(before, old(innovation_record)@) {
                assert forall|i: int| 0 <= i < after.len() implies innovation_record@.contains_key(
                    (#[trigger] after[i]).endpoints(),
                ) && innovation_record@[after[i].endpoints()] == after[i].innovation_number by {
                    if i < before.len() {
                        assert(old(innovation_record)@.contains_key(before[i].endpoints()));
                        assert(map1.contains_key(before[i].endpoints()));
                    } else if i == before.len() {
                        assert(after[i] == into);
                        assert(map1.contains_key(into.endpoints()));
                    } else {
                        assert(after[i] == out_of);
                    }
                }
            }
            if old(self).well_formed() {
                old(self).lemma_hidden_count();
                assert forall|i: int| 0 <= i < before.len() implies (
                #[trigger] disabled[i]).endpoints() == before[i].endpoints() by {}
                assert(disabled.len() == before.len());
                assert forall|i: int| 0 <= i < before.len() implies (
                #[trigger] before[i]).endpoints() == disabled[i].endpoints() by {}
                lemma_hidden_nodes_same_endpoints(before, disabled);
                assert(before[index as int].well_formed());
                assert(before[index as int].in_node.0 < node.0);
                assert(before[index as int].out_node.0 < node.0);
                assert forall|i: int| 0 <= i < after.len() implies (
                #[trigger] after[i]).well_formed() by {
                    if i < before.len() {
                        assert(before[i].well_formed());
                        assert(after[i] == disabled[i]);
                    } else if i == before.len() {
                        assert(after[i] == into);
                    } else {
                        assert(after[i] == out_of);
                    }
                }
                assert forall|i: int, j: int| 0 <= i < j < after.len() implies (
                #[trigger] after[i]).endpoints() != (#[trigger] after[j]).endpoints() by {
                    if j < before.len() {
                        assert(before[i].endpoints() != before[j].endpoints());
                        assert(after[i].endpoints() == before[i].endpoints());
                        assert(after[j].endpoints() == before[j].endpoints());
                    } else if i < before.len() {
                        assert(after[i].endpoints() == before[i].endpoints());
                        assert(before[i].in_node.0 < node.0);
                        assert(before[i].out_node.0 < node.0);
                    }
                }
                let inner = disabled.push(into);
                assert(after.drop_last() =~= inner);
                assert(inner.drop_last() =~= disabled);
                assert(hidden_nodes_of(inner) == hidden_nodes_of(disabled).union(
                    hidden_ends(inner.last()),
                ));
                assert(hidden_nodes_of(after) == hidden_nodes_of(inner).union(
                    hidden_ends(after.last()),
                ));
                assert(hidden_nodes_of(after) =~= hidden_range(
                    INPUT_SZ,
                    OUTPUT_SZ,
                    self.hidden_nodes as int,
                ));
            }
        }
    }
}

/// A genome that is mutated is asked for a new connection with
/// probability `NEW_CONNECTION_NUMERATOR / NEW_CONNECTION_DENOMINATOR`, 0.5.
pub const NEW_CONNECTION_NUMERATOR: u32 = 1;

/// See `NEW_CONNECTION_NUMERATOR`.
pub const NEW_CONNECTION_DENOMINATOR: u32 = 2;

/// A genome that is mutated gets a new node with probability
/// `NEW_NODE_NUMERATOR / NEW_NODE_DENOMINATOR`, 0.2.
pub const NEW_NODE_NUMERATOR: u32 = 1;

/// See `NEW_NODE_NUMERATOR`.
pub const NEW_NODE_DENOMINATOR: u32 = 5;

/// A genome that is mutated has its weights mutated with probability
/// `MUTATE_WEIGHTS_NUMERATOR / MUTATE_WEIGHTS_DENOMINATOR`, 0.9.
pub const MUTATE_WEIGHTS_NUMERATOR: u32 = 9;

/// See `MUTATE_WEIGHTS_NUMERATOR`.
pub const MUTATE_WEIGHTS_DENOMINATOR: u32 = 10;

/// `after` begins with the genes of `before`, each joining the same pair of
/// nodes under the same innovation number as before.
pub open spec fn keeps_structure<const INPUT_SZ: usize, const OUTPUT_SZ: usize>(
    before: Seq<Connection<INPUT_SZ, OUTPUT_SZ>>,
    after: Seq<Connection<INPUT_SZ, OUTPUT_SZ>>,
) -> bool {
    &&& before.len() <= after.len()
    &&& forall|i: int|
        0 <= i < before.len() ==> (#[trigger] after[i]).endpoints() == before[i].endpoints()
            && after[i].innovation_number == before[i].innovation_number
}

/// What a request for a connection from `in_node` to `out_node` does to the
/// genes and to the record.
pub open spec fn adds_connection<const INPUT_SZ: usize, const OUTPUT_SZ: usize>(
    before: Seq<Connection<INPUT_SZ, OUTPUT_SZ>>,
    map0: Map<(usize, usize), usize>,
    next0: usize,
    in_node: Node<INPUT_SZ, OUTPUT_SZ>,
    out_node: Node<INPUT_SZ, OUTPUT_SZ>,
    weight: i64,
    after: Seq<Connection<INPUT_SZ, OUTPUT_SZ>>,
    map1: Map<(usize, usize), usize>,
    next1: usize,
) -> bool {
    let pair = (in_node.0, out_node.0);
    &&& after == with_connection(
        before,
        in_node,
        out_node,
        weight,
        lookup_value(map0, next0, pair),
    )
    &&& appends_gene(before, in_node, out_node) ==> map1 == lookup_map(map0, next0, pair) && next1
        == lookup_next(map0, next0, pair)
    &&& !appends_gene(before, in_node, out_node) ==> map1 == map0 && next1 == next0
}

/// What the split of the gene at `index` by the new hidden node `node` does
/// to the genes and to the record.
pub open spec fn splits_connection<const INPUT_SZ: usize, const OUTPUT_SZ: usize>(
    before: Seq<Connection<INPUT_SZ, OUTPUT_SZ>>,
    map0: Map<(usize, usize), usize>,
    next0: usize,
    index: int,
    node: usize,
    after: Seq<Connection<INPUT_SZ, OUTPUT_SZ>>,
    map2: Map<(usize, usize), usize>,
    next2: usize,
) -> bool {
    let split = before[index];
    let pair_in = (split.in_node.0, node);
    let pair_out = (node, split.out_node.0);
    let map1 = lookup_map(map0, next0, pair_in);
    let next1 = lookup_next(map0, next0, pair_in) as usize;
    &&& after == with_split(
        before,
        index,
        node,
        lookup_value(map0, next0, pair_in),
        lookup_value(map1, next1, pair_out),
    )
    &&& map2 == lookup_map(map1, next1, pair_out)
    &&& next2 == lookup_next(map1, next1, pair_out)
}

/// What the mutation that asks for a connection may do to a genome of
/// `nodes` nodes: what `adds_connection` describes, for some source among
/// all nodes, some target among the output and hidden nodes, and some
/// weight in `[0.0, 1.0)`.
pub open spec fn connection_mutated<const INPUT_SZ: usize, const OUTPUT_SZ: usize>(
    before: Seq<Connection<INPUT_SZ, OUTPUT_SZ>>,
    nodes: int,
    map0: Map<(usize, usize), usize>,
    next0: usize,
    after: Seq<Connection<INPUT_SZ, OUTPUT_SZ>>,
    map1: Map<(usize, usize), usize>,
    next1: usize,
) -> bool {
    exists|i: usize, o: usize, w: i64|
        i < nodes && first_output(INPUT_SZ) <= o < nodes && 0 <= w < ONE_SIGNED
            && #[trigger] adds_connection(
            before,
            map0,
            next0,
            Node::<INPUT_SZ, OUTPUT_SZ>(i),
            Node::<INPUT_SZ, OUTPUT_SZ>(o),
            w,
            after,
            map1,
            next1,
        )
}

/// Whether no gene is enabled.
pub open spec fn none_enabled<const INPUT_SZ: usize, const OUTPUT_SZ: usize>(
    genes: Seq<Connection<INPUT_SZ, OUTPUT_SZ>>,
) -> bool {
    forall|k: int| 0 <= k < genes.len() ==> !(#[trigger] genes[k]).enabled
}

/// What the mutation that adds a node may do to a genome of `nodes` nodes:
/// nothing, if no gene is enabled or no node index is left; else one hidden
/// node more and what `splits_connection` describes for some enabled gene.
pub open spec fn node_mutated<const INPUT_SZ: usize, const OUTPUT_SZ: usize>(
    before: Seq<Connection<INPUT_SZ, OUTPUT_SZ>>,
    hidden0: usize,
    nodes: int,
    map0: Map<(usize, usize), usize>,
    next0: usize,
    after: Seq<Connection<INPUT_SZ, OUTPUT_SZ>>,
    hidden1: usize,
    map1: Map<(usize, usize), usize>,
    next1: usize,
) -> bool {
    if none_enabled(before) || nodes == usize::MAX {
        &&& after == before
        &&& hidden1 == hidden0
        &&& map1 == map0
        &&& next1 == next0
    } else {
        &&& hidden1 == hidden0 + 1
        &&& exists|k: int|
            0 <= k < before.len() && before[k].enabled && #[trigger] splits_connection(
                before,
                map0,
                next0,
                k,
                nodes as usize,
                after,
                map1,
                next1,
            )
    }
}

/// One round of mutation, step by step: the weights are mutated or not,
/// giving the genes `reweighted`; then a connection is asked for or not,
/// giving the genes `connected` and the record `map1`, `next1`; then a node
/// is added or not.
pub open spec fn mutation_round<const INPUT_SZ: usize, const OUTPUT_SZ: usize>(
    before: Seq<Connection<INPUT_SZ, OUTPUT_SZ>>,
    hidden0: usize,
    map0: Map<(usize, usize), usize>,
    next0: usize,
    noise: Seq<i64>,
    reweighted: Seq<Connection<INPUT_SZ, OUTPUT_SZ>>,
    connected: Seq<Connection<INPUT_SZ, OUTPUT_SZ>>,
    map1: Map<(usize, usize), usize>,
    next1: usize,
    after: Seq<Connection<INPUT_SZ, OUTPUT_SZ>>,
    hidden2: usize,
    map2: Map<(usize, usize), usize>,
    next2: usize,
) -> bool {
    let nodes = first_hidden(INPUT_SZ, OUTPUT_SZ) + hidden0;
    &&& reweighted == before || weights_mutated(before, reweighted, noise)
    &&& (connected == reweighted && map1 == map0 && next1 == next0) || connection_mutated(
        reweighted,
        nodes,
        map0,
        next0,
        connected,
        map1,
        next1,
    )
    &&& (after == connected && hidden2 == hidden0 && map2 == map1 && next2 == next1)
        || node_mutated(connected, hidden0, nodes, map1, next1, after, hidden2, map2, next2)
}

impl<const INPUT_SZ: usize, const OUTPUT_SZ: usize> Genome<INPUT_SZ, OUTPUT_SZ> {
    /// Asks for a connection between two nodes picked at random: the source
    /// among all nodes, the target among the output and hidden nodes, the
    /// weight of a new gene in `[0.0, 1.0)`. What the request does is what
    /// `add_connection` does with the nodes and the weight that were drawn.
    pub fn mutate_new_connection(
        &mut self,
        rng: &mut StdRng,
        innovation_record: &mut InnovationRecord<INPUT_SZ, OUTPUT_SZ>,
    )
        requires
            old(self).node_count() <= usize::MAX,
            first_output(INPUT_SZ) < old(self).node_count(),
            old(innovation_record).well_formed(),
        ensures
            final(innovation_record).well_formed(),
            final(self).hidden_nodes == old(self).hidden_nodes,
            connection_mutated(
                old(self).connections@,
                old(self).node_count(),
                old(innovation_record)@,
                old(innovation_record).next(),
                final(self).connections@,
                final(innovation_record)@,
                final(innovation_record).next(),
            ),
            old(self).well_formed() ==> final(self).well_formed(),
            numbered_by(old(self).connections@, old(innovation_record)@) ==> numbered_by(
                final(self).connections@,
                final(innovation_record)@,
            ),
            keeps_structure(old(self).connections@, final(self).connections@),
            final(self).connections@.len() <= old(self).connections@.len() + 1,
            extends(final(innovation_record)@, old(innovation_record)@),
    {
        let nodes = self.nodes();
        let i = draw_index(rng, 0, nodes);
        let o = draw_index(rng, INPUT_SZ + 1, nodes);
        let w = draw_index(rng, 0, 65_536) as i64;
        let ghost before = self.connections@;
        proof {
            lemma_first_joining(before, (i, o));
        }
        self.add_connection(Node(i), Node(o), w, innovation_record);
        assert(adds_connection(
            old(self).connections@,
            old(innovation_record)@,
            old(innovation_record).next(),
            Node::<INPUT_SZ, OUTPUT_SZ>(i),
            Node::<INPUT_SZ, OUTPUT_SZ>(o),
            w,
            self.connections@,
            innovation_record@,
            innovation_record.next(),
        ));
    }

    /// The places of the enabled genes, in rising order.
    pub fn enabled_places(&self) -> (r: Vec<usize>)
        ensures
            forall|j: int|
                0 <= j < r@.len() ==> (#[trigger] r@[j]) < self.connections@.len()
                    && self.connections@[r@[j] as int].enabled,
            forall|i: int, j: int| 0 <= i < j < r@.len() ==> r@[i] < r@[j],
            forall|k: int|
                0 <= k < self.connections@.len() && (#[trigger] self.connections@[k]).enabled
                    ==> r@.contains(k as usize),
    {
        let mut places: Vec<usize> = Vec::new();
        let mut k: usize = 0;
        while k < self.connections.len()
            invariant
                k <= self.connections@.len(),
                forall|j: int|
                    0 <= j < places@.len() ==> (#[trigger] places@[j]) < k
                        && self.connections@[places@[j] as int].enabled,
                forall|i: int, j: int| 0 <= i < j < places@.len() ==> places@[i] < places@[j],
                forall|i: int|
                    0 <= i < k && (#[trigger] self.connections@[i]).enabled ==> places@.contains(
                        i as usize,
                    ),
            decreases self.connections@.len() - k,
        {
            if self.connections[k].enabled {
                let ghost found = places@;
                places.push(k);
                proof {
                    assert forall|i: int|
                        0 <= i < k + 1 && (
                        #[trigger] self.connections@[i]).enabled implies places@.contains(
                        i as usize,
                    ) by {
                        if i < k {
                            assert(found.contains(i as usize));
                            let w = choose|w: int| 0 <= w < found.len() && found[w] == i as usize;
                            assert(places@[w] == i as usize);
                        } else {
                            assert(places@[found.len() as int] == k);
                        }
                    }
                }
            }
            k += 1;
        }
        places
    }

    /// Splits an enabled gene picked at random by a new hidden node, as
    /// `split_connection` does. A genome without an enabled gene, or one
    /// whose node indices are used up, is left as it is.
    pub fn mutate_new_node(
        &mut self,
        rng: &mut StdRng,
        innovation_record: &mut InnovationRecord<INPUT_SZ, OUTPUT_SZ>,
    )
        requires
            old(self).node_count() <= usize::MAX,
            old(innovation_record).well_formed(),
        ensures
            final(innovation_record).well_formed(),
            node_mutated(
                old(self).connections@,
                old(self).hidden_nodes,
                old(self).node_count(),
                old(innovation_record)@,
                old(innovation_record).next(),
                final(self).connections@,
                final(self).hidden_nodes,
                final(innovation_record)@,
                final(innovation_record).next(),
            ),
            old(self).well_formed() ==> final(self).well_formed(),
            numbered_by(old(self).connections@, old(innovation_record)@) ==> numbered_by(
                final(self).connections@,
                final(innovation_record)@,
            ),
            keeps_structure(old(self).connections@, final(self).connections@),
            final(self).connections@.len() <= old(self).connections@.len() + 2,
            extends(final(innovation_record)@, old(innovation_record)@),
    {
        let places = self.enabled_places();
        if places.len() == 0 || self.nodes() == usize::MAX {
            proof {
                if places@.len() == 0 {
                    assert forall|i: int| 0 <= i < self.connections@.len() implies !(
                    #[trigger] self.connections@[i]).enabled by {
                        if self.connections@[i].enabled {
                            assert(places@.contains(i as usize));
                        }
                    }
                }
            }
            return ;
        }
        let k = places[draw_index(rng, 0, places.len())];
        assert(self.connections@[k as int].enabled);
        self.split_connection(k, innovation_record);
        assert(splits_connection(
            old(self).connections@,
            old(innovation_record)@,
            old(innovation_record).next(),
            k as int,
            old(self).node_count() as usize,
            self.connections@,
            innovation_record@,
            innovation_record.next(),
        ));
    }

    /// One round of mutation: with probability 0.9 the weights are mutated,
    /// then with probability 0.5 a connection is asked for, then with
    /// probability 0.2 an enabled gene is split by a new node. Whatever is drawn, the
    /// genes that were there keep their nodes and numbers, at most three
    /// genes and one hidden node are added, and the record only grows.
    pub fn mutate(
        &mut self,
        rng: &mut StdRng,
        innovation_record: &mut InnovationRecord<INPUT_SZ, OUTPUT_SZ>,
        noise: &Vec<i64>,
    )
        requires
            old(self).node_count() <= usize::MAX,
            first_output(INPUT_SZ) < old(self).node_count(),
            old(innovation_record).well_formed(),
            noise@.len() > 0,
        ensures
            final(innovation_record).well_formed(),
            extends(final(innovation_record)@, old(innovation_record)@),
            exists|
                reweighted: Seq<Connection<INPUT_SZ, OUTPUT_SZ>>,
                connected: Seq<Connection<INPUT_SZ, OUTPUT_SZ>>,
                map1: Map<(usize, usize), usize>,
                next1: usize,
            |
                #[trigger] mutation_round(
                    old(self).connections@,
                    old(self).hidden_nodes,
                    old(innovation_record)@,
                    old(innovation_record).next(),
                    noise@,
                    reweighted,
                    connected,
                    map1,
                    next1,
                    final(self).connections@,
                    final(self).hidden_nodes,
                    final(innovation_record)@,
                    final(innovation_record).next(),
                ),
            old(self).hidden_nodes <= final(self).hidden_nodes <= old(self).hidden_nodes + 1,
            final(self).node_count() <= usize::MAX,
            keeps_structure(old(self).connections@, final(self).connections@),
            final(self).connections@.len() <= old(self).connections@.len() + 3,
            old(self).well_formed() ==> final(self).well_formed(),
            numbered_by(old(self).connections@, old(innovation_record)@) ==> numbered_by(
                final(self).connections@,
                final(innovation_record)@,
            ),
    {
        if draw_ratio(rng, MUTATE_WEIGHTS_NUMERATOR, MUTATE_WEIGHTS_DENOMINATOR) {
            self.mutate_weights(rng, noise);
        }
        let ghost reweighted = self.connections@;
        assert(keeps_structure(old(self).connections@, reweighted));
        if draw_ratio(rng, NEW_CONNECTION_NUMERATOR, NEW_CONNECTION_DENOMINATOR) {
            self.mutate_new_connection(rng, innovation_record);
        }
        let ghost connected = self.connections@;
        assert(keeps_structure(old(self).connections@, connected)) by {
            assert forall|i: int| 0 <= i < old(self).connections@.len() implies (
            #[trigger] connected[i]).endpoints() == old(self).connections@[i].endpoints()
                && connected[i].innovation_number == old(
                self,
            ).connections@[i].innovation_number by {
                assert(reweighted[i].endpoints() == old(self).connections@[i].endpoints());
            }
        }
        let ghost record1 = innovation_record@;
        let ghost next1 = innovation_record.next();
        if draw_ratio(rng, NEW_NODE_NUMERATOR, NEW_NODE_DENOMINATOR) {
            self.mutate_new_node(rng, innovation_record);
        }
        proof {
            let after = self.connections@;
            assert(mutation_round(
                old(self).connections@,
                old(self).hidden_nodes,
                old(innovation_record)@,
                old(innovation_record).next(),
                noise@,
                reweighted,
                connected,
                record1,
                next1,
                after,
                self.hidden_nodes,
                innovation_record@,
                innovation_record.next(),
            ));
            assert forall|i: int| 0 <= i < old(self).connections@.len() implies (
            #[trigger] after[i]).endpoints() == old(self).connections@[i].endpoints()
                && after[i].innovation_number == old(self).connections@[i].innovation_number by {
                assert(connected[i].endpoints() == old(self).connections@[i].endpoints());
            }
            assert forall|p: (usize, usize)| #[trigger]
                old(innovation_record)@.contains_key(p) implies innovation_record@.contains_key(p)
                && innovation_record@[p] == old(innovation_record)@[p] by {
                assert(record1.contains_key(p));
            }
        }
    }

    /// A minimal genome: one enabled gene from the bias node and from every
    /// input node to every output node, in that order, each with a weight
    /// drawn uniformly from `[-1.0, 1.0]` and the record's number for its
    /// pair. The gene at place `k` leaves node `k / OUTPUT_SZ` and ends in
    /// output `k % OUTPUT_SZ`.
    pub fn new_random_initial(
        rng: &mut StdRng,
        innovation_record: &mut InnovationRecord<INPUT_SZ, OUTPUT_SZ>,
    ) -> (r: Self)
        requires
            first_hidden(INPUT_SZ, OUTPUT_SZ) <= usize::MAX,
            old(innovation_record).well_formed(),
        ensures
            final(innovation_record).well_formed(),
            extends(final(innovation_record)@, old(innovation_record)@),
            r.hidden_nodes == 0,
            r.connections@.len() == (INPUT_SZ + 1) * OUTPUT_SZ,
            forall|k: int|
                0 <= k < r.connections@.len() ==> {
                    let gene = #[trigger] r.connections@[k];
                    &&& gene.in_node.0 <= INPUT_SZ
                    &&& first_output(INPUT_SZ) <= gene.out_node.0 < first_hidden(
                        INPUT_SZ,
                        OUTPUT_SZ,
                    )
                    &&& gene.in_node.0 * OUTPUT_SZ + (gene.out_node.0 - first_output(INPUT_SZ))
                        == k
                    &&& gene.enabled
                    &&& -ONE_SIGNED <= gene.weight <= ONE_SIGNED
                },
            r.well_formed(),
            numbered_by(r.connections@, final(innovation_record)@),
    {
        let mut res: Genome<INPUT_SZ, OUTPUT_SZ> = Genome::new();
        let mut i: usize = 0;
        while i <= INPUT_SZ
            invariant
                first_hidden(INPUT_SZ, OUTPUT_SZ) <= usize::MAX,
                i <= INPUT_SZ + 1,
                innovation_record.well_formed(),
                extends(innovation_record@, old(innovation_record)@),
                res.hidden_nodes == 0,
                res.connections@.len() == i * OUTPUT_SZ,
                Self::initial_genes(res.connections@),
                numbered_by(res.connections@, innovation_record@),
            decreases INPUT_SZ + 1 - i,
        {
            let mut j: usize = 0;
            while j < OUTPUT_SZ
                invariant
                    first_hidden(INPUT_SZ, OUTPUT_SZ) <= usize::MAX,
                    i <= INPUT_SZ,
                    j <= OUTPUT_SZ,
                    innovation_record.well_formed(),
                    extends(innovation_record@, old(innovation_record)@),
                    res.hidden_nodes == 0,
                    res.connections@.len() == i * OUTPUT_SZ + j,
                    Self::initial_genes(res.connections@),
                    numbered_by(res.connections@, innovation_record@),
                decreases OUTPUT_SZ - j,
            {
                let weight = draw_index(rng, 0, 131_073) as i64 - ONE_SIGNED;
                let ghost before = res.connections@;
                let ghost record0 = innovation_record@;
                res.connect(Node(i), Node(INPUT_SZ + 1 + j), weight, innovation_record);
                proof {
                    let after = res.connections@;
                    assert forall|k: int| 0 <= k < after.len() implies Self::initial_gene(
                        #[trigger] after[k],
                        k,
                    ) by {
                        if k < before.len() {
                            assert(after[k] == before[k]);
                            assert(Self::initial_gene(before[k], k));
                        }
                    }
                    assert forall|k: int| 0 <= k < after.len() implies innovation_record@.contains_key(
                        (#[trigger] after[k]).endpoints(),
                    ) && innovation_record@[after[k].endpoints()]
                        == after[k].innovation_number by {
                        if k < before.len() {
                            assert(after[k] == before[k]);
                            assert(record0.contains_key(before[k].endpoints()));
                        }
                    }
                    assert forall|p: (usize, usize)| #[trigger]
                        old(innovation_record)@.contains_key(p) implies innovation_record@.contains_key(
                        p,
                    ) && innovation_record@[p] == old(innovation_record)@[p] by {
                        assert(record0.contains_key(p));
                    }
                }
                j += 1;
            }
            assert(i * OUTPUT_SZ + OUTPUT_SZ == (i + 1) * OUTPUT_SZ) by (nonlinear_arith);
            i += 1;
        }
        proof {
            let genes = res.connections@;
            assert forall|k: int| 0 <= k < genes.len() implies (#[trigger] genes[k]).well_formed() by {
                assert(Self::initial_gene(genes[k], k));
            }
            assert forall|a: int, b: int| 0 <= a < b < genes.len() implies (
            #[trigger] genes[a]).endpoints() != (#[trigger] genes[b]).endpoints() by {
                assert(Self::initial_gene(genes[a], a));
                assert(Self::initial_gene(genes[b], b));
            }
            assert(hidden_nodes_of(genes) =~= hidden_range(INPUT_SZ, OUTPUT_SZ, 0)) by {
                assert forall|h: usize| !hidden_nodes_of(genes).contains(h) by {
                    lemma_hidden_nodes_member(genes, h);
                    if hidden_nodes_of(genes).contains(h) {
                        let k = choose|k: int|
                            0 <= k < genes.len() && (h == (#[trigger] genes[k]).in_node.0 || h
                                == genes[k].out_node.0);
                        assert(Self::initial_gene(genes[k], k));
                    }
                }
            }
            assert forall|k: int| 0 <= k < genes.len() implies {
                let gene = #[trigger] genes[k];
                &&& gene.in_node.0 <= INPUT_SZ
                &&& first_output(INPUT_SZ) <= gene.out_node.0 < first_hidden(INPUT_SZ, OUTPUT_SZ)
                &&& gene.in_node.0 * OUTPUT_SZ + (gene.out_node.0 - first_output(INPUT_SZ)) == k
                &&& gene.enabled
                &&& -ONE_SIGNED <= gene.weight <= ONE_SIGNED
            } by {
                assert(Self::initial_gene(genes[k], k));
            }
        }
        res
    }

    /// What holds of the gene at place `k` of a minimal genome.
    pub open spec fn initial_gene(gene: Connection<INPUT_SZ, OUTPUT_SZ>, k: int) -> bool {
        &&& gene.in_node.0 <= INPUT_SZ
        &&& first_output(INPUT_SZ) <= gene.out_node.0 < first_hidden(INPUT_SZ, OUTPUT_SZ)
        &&& gene.in_node.0 * OUTPUT_SZ + (gene.out_node.0 - first_output(INPUT_SZ)) == k
        &&& gene.enabled
        &&& -ONE_SIGNED <= gene.weight <= ONE_SIGNED
    }

    /// What holds of the genes of a minimal genome while it is built.
    pub open spec fn initial_genes(genes: Seq<Connection<INPUT_SZ, OUTPUT_SZ>>) -> bool {
        forall|k: int| 0 <= k < genes.len() ==> Self::initial_gene(#[trigger] genes[k], k)
    }
}

} // verus!
