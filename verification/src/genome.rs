use crate::connection::Connection;
use crate::innovation::{
    lookup_map, lookup_next, lookup_value, registry_consistent, InnovationRecord,
};
use crate::node::{first_hidden, Node};
use vstd::prelude::*;

verus! {

/// A network: the number of its hidden nodes and its genes in the order in
/// which they were added.
#[derive(Debug, PartialEq, Eq, Hash)]
pub struct Genome<const INPUT_SZ: usize, const OUTPUT_SZ: usize> {
    pub hidden_nodes: usize,
    pub connections: Vec<Connection<INPUT_SZ, OUTPUT_SZ>>,
}

/// The first gene of `genes` that carries `innovation`, if there is one.
pub open spec fn find_gene<const INPUT_SZ: usize, const OUTPUT_SZ: usize>(
    genes: Seq<Connection<INPUT_SZ, OUTPUT_SZ>>,
    innovation: usize,
) -> Option<Connection<INPUT_SZ, OUTPUT_SZ>>
    decreases genes.len(),
{
    if genes.len() == 0 {
        None
    } else if genes[0].innovation_number == innovation {
        Some(genes[0])
    } else {
        find_gene(genes.skip(1), innovation)
    }
}

/// `find_gene` skips a prefix in which no gene carries `innovation`.
pub proof fn lemma_find_gene_skip<const INPUT_SZ: usize, const OUTPUT_SZ: usize>(
    genes: Seq<Connection<INPUT_SZ, OUTPUT_SZ>>,
    innovation: usize,
    k: int,
)
    requires
        0 <= k <= genes.len(),
        forall|j: int| 0 <= j < k ==> genes[j].innovation_number != innovation,
    ensures
        find_gene(genes, innovation) == find_gene(genes.skip(k), innovation),
    decreases k,
{
    if k == 0 {
        assert(genes.skip(0) =~= genes);
    } else {
        lemma_find_gene_skip(genes.skip(1), innovation, k - 1);
        assert(genes.skip(1).skip(k - 1) =~= genes.skip(k));
    }
}

/// What `find_gene` returns is a gene of the sequence that carries the
/// number, and it returns one whenever the sequence holds such a gene.
pub proof fn lemma_find_gene_some<const INPUT_SZ: usize, const OUTPUT_SZ: usize>(
    genes: Seq<Connection<INPUT_SZ, OUTPUT_SZ>>,
    innovation: usize,
)
    ensures
        find_gene(genes, innovation) matches Some(g) ==> g.innovation_number == innovation
            && genes.contains(g),
        find_gene(genes, innovation) is None ==> forall|j: int|
            0 <= j < genes.len() ==> genes[j].innovation_number != innovation,
    decreases genes.len(),
{
    if genes.len() == 0 {
    } else if genes[0].innovation_number == innovation {
    } else {
        lemma_find_gene_some(genes.skip(1), innovation);
        if find_gene(genes, innovation) is Some {
            let g = find_gene(genes, innovation).unwrap();
            let j = choose|j: int| 0 <= j < genes.skip(1).len() && genes.skip(1)[j] == g;
            assert(genes[j + 1] == g);
        } else {
            assert forall|j: int| 0 <= j < genes.len() implies genes[j].innovation_number
                != innovation by {
                if j > 0 {
                    assert(genes.skip(1)[j - 1] == genes[j]);
                }
            }
        }
    }
}

/// The hidden nodes among the two ends of `gene`.
pub open spec fn hidden_ends<const INPUT_SZ: usize, const OUTPUT_SZ: usize>(
    gene: Connection<INPUT_SZ, OUTPUT_SZ>,
) -> Set<usize> {
    Set::new(
        |h: usize|
            h >= first_hidden(INPUT_SZ, OUTPUT_SZ) && (h == gene.in_node.0 || h
                == gene.out_node.0),
    )
}

/// The hidden nodes that the genes refer to.
pub open spec fn hidden_nodes_of<const INPUT_SZ: usize, const OUTPUT_SZ: usize>(
    genes: Seq<Connection<INPUT_SZ, OUTPUT_SZ>>,
) -> Set<usize>
    decreases genes.len(),
{
    if genes.len() == 0 {
        Set::empty()
    } else {
        hidden_nodes_of(genes.drop_last()).union(hidden_ends(genes.last()))
    }
}

/// The first `count` hidden node indices.
pub open spec fn hidden_range(inputs: usize, outputs: usize, count: int) -> Set<usize> {
    Set::new(|h: usize| first_hidden(inputs, outputs) <= h < first_hidden(inputs, outputs) + count)
}

/// No two genes join the same pair of nodes.
pub open spec fn distinct_endpoints<const INPUT_SZ: usize, const OUTPUT_SZ: usize>(
    genes: Seq<Connection<INPUT_SZ, OUTPUT_SZ>>,
) -> bool {
    forall|i: int, j: int|
        0 <= i < j < genes.len() ==> (#[trigger] genes[i]).endpoints() != (
        #[trigger] genes[j]).endpoints()
}

/// Every gene carries the number that `numbers` records for its pair of nodes.
pub open spec fn numbered_by<const INPUT_SZ: usize, const OUTPUT_SZ: usize>(
    genes: Seq<Connection<INPUT_SZ, OUTPUT_SZ>>,
    numbers: Map<(usize, usize), usize>,
) -> bool {
    forall|i: int|
        0 <= i < genes.len() ==> numbers.contains_key((#[trigger] genes[i]).endpoints())
            && numbers[genes[i].endpoints()] == genes[i].innovation_number
}

/// Genes of `a` and `b` that carry the same innovation number join the same
/// pair of nodes.
pub open spec fn homologous<const INPUT_SZ: usize, const OUTPUT_SZ: usize>(
    a: Seq<Connection<INPUT_SZ, OUTPUT_SZ>>,
    b: Seq<Connection<INPUT_SZ, OUTPUT_SZ>>,
) -> bool {
    forall|i: int, j: int|
        0 <= i < a.len() && 0 <= j < b.len() && (#[trigger] a[i]).innovation_number == (
        #[trigger] b[j]).innovation_number ==> a[i].endpoints() == b[j].endpoints()
}

/// Genomes whose genes are numbered by one consistent record are
/// homologous: the same number always names the same pair of nodes.
pub proof fn lemma_numbered_homologous<const INPUT_SZ: usize, const OUTPUT_SZ: usize>(
    a: Seq<Connection<INPUT_SZ, OUTPUT_SZ>>,
    b: Seq<Connection<INPUT_SZ, OUTPUT_SZ>>,
    numbers: Map<(usize, usize), usize>,
    next: usize,
)
    requires
        numbered_by(a, numbers),
        numbered_by(b, numbers),
        registry_consistent(numbers, next),
    ensures
        homologous(a, b),
{
    assert forall|i: int, j: int|
        0 <= i < a.len() && 0 <= j < b.len() && (#[trigger] a[i]).innovation_number == (
        #[trigger] b[j]).innovation_number implies a[i].endpoints() == b[j].endpoints() by {
        assert(numbers.contains_key(a[i].endpoints()));
        assert(numbers.contains_key(b[j].endpoints()));
    }
}

/// A node belongs to `hidden_nodes_of` exactly if it is hidden and an end of
/// one of the genes.
pub proof fn lemma_hidden_nodes_member<const INPUT_SZ: usize, const OUTPUT_SZ: usize>(
    genes: Seq<Connection<INPUT_SZ, OUTPUT_SZ>>,
    h: usize,
)
    ensures
        hidden_nodes_of(genes).contains(h) <==> (h >= first_hidden(INPUT_SZ, OUTPUT_SZ)
            && exists|i: int|
            0 <= i < genes.len() && (h == (#[trigger] genes[i]).in_node.0 || h
                == genes[i].out_node.0)),
    decreases genes.len(),
{
    if genes.len() == 0 {
    } else {
        let front = genes.drop_last();
        lemma_hidden_nodes_member(front, h);
        if hidden_nodes_of(genes).contains(h) {
            if hidden_ends(genes.last()).contains(h) {
                let i = genes.len() - 1;
                assert(h == genes[i].in_node.0 || h == genes[i].out_node.0);
            } else {
                let i = choose|i: int|
                    0 <= i < front.len() && (h == (#[trigger] front[i]).in_node.0 || h
                        == front[i].out_node.0);
                assert(front[i] == genes[i]);
                assert(h == genes[i].in_node.0 || h == genes[i].out_node.0);
            }
        }
        if h >= first_hidden(INPUT_SZ, OUTPUT_SZ) && exists|i: int|
            0 <= i < genes.len() && (h == (#[trigger] genes[i]).in_node.0 || h
                == genes[i].out_node.0) {
            let i = choose|i: int|
                0 <= i < genes.len() && (h == (#[trigger] genes[i]).in_node.0 || h
                    == genes[i].out_node.0);
            if i == genes.len() - 1 {
                assert(hidden_ends(genes.last()).contains(h));
            } else {
                assert(front[i] == genes[i]);
                assert(h == front[i].in_node.0 || h == front[i].out_node.0);
            }
        }
    }
}

/// Genes refer to finitely many hidden nodes.
pub proof fn lemma_hidden_nodes_finite<const INPUT_SZ: usize, const OUTPUT_SZ: usize>(
    genes: Seq<Connection<INPUT_SZ, OUTPUT_SZ>>,
)
    ensures
        hidden_nodes_of(genes).finite(),
    decreases genes.len(),
{
    if genes.len() > 0 {
        lemma_hidden_nodes_finite(genes.drop_last());
        let gene = genes.last();
        let a: Set<usize> = if gene.in_node.is_hidden() {
            Set::empty().insert(gene.in_node.0)
        } else {
            Set::empty()
        };
        let b: Set<usize> = if gene.out_node.is_hidden() {
            a.insert(gene.out_node.0)
        } else {
            a
        };
        assert(hidden_ends(gene) =~= b);
    }
}

/// Gene sequences that join the same pairs of nodes, position by position,
/// refer to the same hidden nodes.
pub proof fn lemma_hidden_nodes_same_endpoints<const INPUT_SZ: usize, const OUTPUT_SZ: usize>(
    a: Seq<Connection<INPUT_SZ, OUTPUT_SZ>>,
    b: Seq<Connection<INPUT_SZ, OUTPUT_SZ>>,
)
    requires
        a.len() == b.len(),
        forall|i: int| 0 <= i < a.len() ==> (#[trigger] a[i]).endpoints() == b[i].endpoints(),
    ensures
        hidden_nodes_of(a) == hidden_nodes_of(b),
    decreases a.len(),
{
    if a.len() > 0 {
        lemma_hidden_nodes_same_endpoints(a.drop_last(), b.drop_last());
        assert(a.last().endpoints() == b.last().endpoints());
        assert(hidden_ends(a.last()) =~= hidden_ends(b.last()));
    }
}

/// The set of the first `count` hidden node indices has `count` elements.
pub proof fn lemma_hidden_range_len(inputs: usize, outputs: usize, count: int)
    requires
        0 <= count,
        first_hidden(inputs, outputs) + count <= usize::MAX + 1,
    ensures
        hidden_range(inputs, outputs, count).finite(),
        hidden_range(inputs, outputs, count).len() == count,
    decreases count,
{
    if count == 0 {
        assert(hidden_range(inputs, outputs, count) =~= Set::<usize>::empty());
    } else {
        lemma_hidden_range_len(inputs, outputs, count - 1);
        let top = (first_hidden(inputs, outputs) + count - 1) as usize;
        assert(hidden_range(inputs, outputs, count) =~= hidden_range(
            inputs,
            outputs,
            count - 1,
        ).insert(top));
    }
}

impl<const INPUT_SZ: usize, const OUTPUT_SZ: usize> Genome<INPUT_SZ, OUTPUT_SZ> {
    /// The number of nodes of the network: bias, inputs, outputs and hidden nodes.
    pub open spec fn node_count(&self) -> int {
        first_hidden(INPUT_SZ, OUTPUT_SZ) + self.hidden_nodes
    }

    /// The invariant of a genome: its node count fits the machine, every
    /// gene is a well-formed connection, no two genes join the same pair of
    /// nodes, and the hidden nodes that the genes refer to are exactly the
    /// first `hidden_nodes` hidden indices.
    pub open spec fn well_formed(&self) -> bool {
        &&& self.node_count() <= usize::MAX
        &&& forall|i: int|
            0 <= i < self.connections@.len() ==> (#[trigger] self.connections@[i]).well_formed()
        &&& distinct_endpoints(self.connections@)
        &&& hidden_nodes_of(self.connections@) == hidden_range(
            INPUT_SZ,
            OUTPUT_SZ,
            self.hidden_nodes as int,
        )
    }

    /// In a well-formed genome `hidden_nodes` is the number of distinct
    /// hidden nodes that the genes refer to, and every end of a gene is a
    /// node of the network.
    pub proof fn lemma_hidden_count(&self)
        requires
            self.well_formed(),
        ensures
            hidden_nodes_of(self.connections@).finite(),
            hidden_nodes_of(self.connections@).len() == self.hidden_nodes,
            forall|i: int|
                0 <= i < self.connections@.len() ==> (#[trigger] self.connections@[i]).in_node.0
                    < self.node_count() && self.connections@[i].out_node.0 < self.node_count(),
    {
        lemma_hidden_range_len(INPUT_SZ, OUTPUT_SZ, self.hidden_nodes as int);
        assert forall|i: int| 0 <= i < self.connections@.len() implies (
        #[trigger] self.connections@[i]).in_node.0 < self.node_count()
            && self.connections@[i].out_node.0 < self.node_count() by {
            let g = self.connections@[i];
            lemma_hidden_nodes_member(self.connections@, g.in_node.0);
            lemma_hidden_nodes_member(self.connections@, g.out_node.0);
            if g.in_node.0 >= first_hidden(INPUT_SZ, OUTPUT_SZ) {
                assert(hidden_nodes_of(self.connections@).contains(g.in_node.0));
            }
            if g.out_node.0 >= first_hidden(INPUT_SZ, OUTPUT_SZ) {
                assert(hidden_nodes_of(self.connections@).contains(g.out_node.0));
            }
        }
    }

    /// A genome without hidden nodes and without genes.
    pub fn new() -> (r: Self)
        ensures
            r.hidden_nodes == 0,
            r.connections@ == Seq::<Connection<INPUT_SZ, OUTPUT_SZ>>::empty(),
            first_hidden(INPUT_SZ, OUTPUT_SZ) <= usize::MAX ==> r.well_formed(),
    {
        let r = Genome { hidden_nodes: 0, connections: Vec::new() };
        assert(hidden_nodes_of(r.connections@) =~= hidden_range(INPUT_SZ, OUTPUT_SZ, 0));
        r
    }

    /// The number of nodes of the network.
    pub fn nodes(&self) -> (r: usize)
        requires
            self.node_count() <= usize::MAX,
        ensures
            r == self.node_count(),
    {
        INPUT_SZ + OUTPUT_SZ + self.hidden_nodes + 1
    }

    /// Appends an enabled gene from `in_node` to `out_node` with the given
    /// weight and the innovation number that the record holds for the pair.
    pub fn connect(
        &mut self,
        in_node: Node<INPUT_SZ, OUTPUT_SZ>,
        out_node: Node<INPUT_SZ, OUTPUT_SZ>,
        weight: i64,
        innovation_record: &mut InnovationRecord<INPUT_SZ, OUTPUT_SZ>,
    )
        requires
            old(innovation_record).well_formed(),
        ensures
            final(innovation_record).well_formed(),
            final(innovation_record)@ == lookup_map(
                old(innovation_record)@,
                old(innovation_record).next(),
                (in_node.0, out_node.0),
            ),
            final(innovation_record).next() == lookup_next(
                old(innovation_record)@,
                old(innovation_record).next(),
                (in_node.0, out_node.0),
            ),
            final(self).hidden_nodes == old(self).hidden_nodes,
            final(self).connections@ == old(self).connections@.push(
                (Connection {
                    in_node,
                    out_node,
                    weight,
                    enabled: true,
                    innovation_number: lookup_value(
                        old(innovation_record)@,
                        old(innovation_record).next(),
                        (in_node.0, out_node.0),
                    ),
                }),
            ),
    {
        let innovation_number = innovation_record.get(in_node, out_node);
        self.connections.push(
            Connection { in_node, out_node, weight, enabled: true, innovation_number },
        );
    }

    /// The first gene of this genome that carries `innovation`, if any.
    pub fn find(&self, innovation: usize) -> (r: Option<Connection<INPUT_SZ, OUTPUT_SZ>>)
        ensures
            r == find_gene(self.connections@, innovation),
    {
        let mut i: usize = 0;
        while i < self.connections.len()
            invariant
                i <= self.connections.len(),
                forall|j: int| 0 <= j < i ==> self.connections@[j].innovation_number != innovation,
            decreases self.connections.len() - i,
        {
            if self.connections[i].innovation_number == innovation {
                proof {
                    lemma_find_gene_skip(self.connections@, innovation, i as int);
                }
                return Some(self.connections[i]);
            }
            i += 1;
        }
        proof {
            lemma_find_gene_skip(self.connections@, innovation, i as int);
        }
        None
    }
}

impl<const INPUT_SZ: usize, const OUTPUT_SZ: usize> Clone for Genome<INPUT_SZ, OUTPUT_SZ> {
    fn clone(&self) -> (r: Self)
        ensures
            r.hidden_nodes == self.hidden_nodes,
            r.connections@ == self.connections@,
    {
        let mut connections: Vec<Connection<INPUT_SZ, OUTPUT_SZ>> = Vec::new();
        let mut i: usize = 0;
        while i < self.connections.len()
            invariant
                i <= self.connections.len(),
                connections@ == self.connections@.take(i as int),
            decreases self.connections.len() - i,
        {
            connections.push(self.connections[i]);
            proof {
                assert(self.connections@.take(i + 1) =~= self.connections@.take(i as int).push(
                    self.connections@[i as int],
                ));
            }
            i += 1;
        }
        proof {
            assert(self.connections@.take(i as int) =~= self.connections@);
        }
        Genome { hidden_nodes: self.hidden_nodes, connections }
    }
}

} // verus!
