use crate::connection::Connection;
use crate::fixed::{abs_diff, spec_abs_diff, ONE};
use crate::genome::{find_gene, Genome};
use vstd::prelude::*;

verus! {

/// Weight of the disjoint genes in the distance, `1.0`.
pub const DISJOINT_FACTOR: u64 = 1;

/// Weight of the mean difference of the matching genes in the distance, `2.0`.
pub const WEIGHT_DIFFERENCE_FACTOR: u64 = 2;

/// One more than the largest innovation number among `genes`, 0 if there is none.
pub open spec fn innovation_span<const INPUT_SZ: usize, const OUTPUT_SZ: usize>(
    genes: Seq<Connection<INPUT_SZ, OUTPUT_SZ>>,
) -> nat
    decreases genes.len(),
{
    if genes.len() == 0 {
        0
    } else {
        let rest = innovation_span(genes.drop_last());
        let last = (genes.last().innovation_number + 1) as nat;
        if last > rest {
            last
        } else {
            rest
        }
    }
}

/// What two matching genes add to the sum of differences: `1.0` when one is
/// enabled and the other is not, else the distance of their weights.
pub open spec fn gene_difference<const INPUT_SZ: usize, const OUTPUT_SZ: usize>(
    a: Connection<INPUT_SZ, OUTPUT_SZ>,
    b: Connection<INPUT_SZ, OUTPUT_SZ>,
) -> nat {
    if a.enabled != b.enabled {
        ONE as nat
    } else {
        spec_abs_diff(a.weight, b.weight)
    }
}

/// The number of innovation numbers below `n` that both gene sequences carry.
pub open spec fn matching_count<const INPUT_SZ: usize, const OUTPUT_SZ: usize>(
    a: Seq<Connection<INPUT_SZ, OUTPUT_SZ>>,
    b: Seq<Connection<INPUT_SZ, OUTPUT_SZ>>,
    n: nat,
) -> nat
    decreases n,
{
    if n == 0 {
        0
    } else {
        let i = (n - 1) as usize;
        matching_count(a, b, (n - 1) as nat) + if find_gene(a, i) is Some && find_gene(b, i)
            is Some {
            1nat
        } else {
            0nat
        }
    }
}

/// The number of innovation numbers below `n` that exactly one of the two
/// gene sequences carries.
pub open spec fn disjoint_count<const INPUT_SZ: usize, const OUTPUT_SZ: usize>(
    a: Seq<Connection<INPUT_SZ, OUTPUT_SZ>>,
    b: Seq<Connection<INPUT_SZ, OUTPUT_SZ>>,
    n: nat,
) -> nat
    decreases n,
{
    if n == 0 {
        0
    } else {
        let i = (n - 1) as usize;
        disjoint_count(a, b, (n - 1) as nat) + if (find_gene(a, i) is Some) != (find_gene(b, i)
            is Some) {
            1nat
        } else {
            0nat
        }
    }
}

/// The sum of `gene_difference` over the innovation numbers below `n` that
/// both gene sequences carry.
pub open spec fn weight_difference_sum<const INPUT_SZ: usize, const OUTPUT_SZ: usize>(
    a: Seq<Connection<INPUT_SZ, OUTPUT_SZ>>,
    b: Seq<Connection<INPUT_SZ, OUTPUT_SZ>>,
    n: nat,
) -> nat
    decreases n,
{
    if n == 0 {
        0
    } else {
        let i = (n - 1) as usize;
        weight_difference_sum(a, b, (n - 1) as nat) + match (find_gene(a, i), find_gene(b, i)) {
            (Some(x), Some(y)) => gene_difference(x, y),
            _ => 0nat,
        }
    }
}

/// The larger of the two spans: every innovation number that either
/// sequence carries is below it.
pub open spec fn common_span<const INPUT_SZ: usize, const OUTPUT_SZ: usize>(
    a: Seq<Connection<INPUT_SZ, OUTPUT_SZ>>,
    b: Seq<Connection<INPUT_SZ, OUTPUT_SZ>>,
) -> nat {
    let x = innovation_span(a);
    let y = innovation_span(b);
    if x >= y {
        x
    } else {
        y
    }
}

/// The compatibility distance of two gene sequences, in fixed point:
/// `1.0 * disjoint + 2.0 * (sum of differences / matching)`, the second
/// term dropped when no gene matches.
pub open spec fn compatibility_distance<const INPUT_SZ: usize, const OUTPUT_SZ: usize>(
    a: Seq<Connection<INPUT_SZ, OUTPUT_SZ>>,
    b: Seq<Connection<INPUT_SZ, OUTPUT_SZ>>,
) -> nat {
    let n = common_span(a, b);
    let matching = matching_count(a, b, n);
    let disjoint = disjoint_count(a, b, n);
    let sum = weight_difference_sum(a, b, n);
    if matching == 0 {
        DISJOINT_FACTOR as nat * ONE as nat * disjoint
    } else {
        DISJOINT_FACTOR as nat * ONE as nat * disjoint + WEIGHT_DIFFERENCE_FACTOR as nat * (sum
            / matching)
    }
}

proof fn lemma_counts_symmetric<const INPUT_SZ: usize, const OUTPUT_SZ: usize>(
    a: Seq<Connection<INPUT_SZ, OUTPUT_SZ>>,
    b: Seq<Connection<INPUT_SZ, OUTPUT_SZ>>,
    n: nat,
)
    ensures
        matching_count(a, b, n) == matching_count(b, a, n),
        disjoint_count(a, b, n) == disjoint_count(b, a, n),
        weight_difference_sum(a, b, n) == weight_difference_sum(b, a, n),
    decreases n,
{
    if n > 0 {
        lemma_counts_symmetric(a, b, (n - 1) as nat);
    }
}

proof fn lemma_counts_of_self<const INPUT_SZ: usize, const OUTPUT_SZ: usize>(
    a: Seq<Connection<INPUT_SZ, OUTPUT_SZ>>,
    n: nat,
)
    ensures
        disjoint_count(a, a, n) == 0,
        weight_difference_sum(a, a, n) == 0,
    decreases n,
{
    if n > 0 {
        lemma_counts_of_self(a, (n - 1) as nat);
    }
}

/// The distance does not depend on the order of its arguments.
pub proof fn lemma_distance_symmetric<const INPUT_SZ: usize, const OUTPUT_SZ: usize>(
    a: Seq<Connection<INPUT_SZ, OUTPUT_SZ>>,
    b: Seq<Connection<INPUT_SZ, OUTPUT_SZ>>,
)
    ensures
        compatibility_distance(a, b) == compatibility_distance(b, a),
        compatibility_distance(a, b) >= 0,
{
    lemma_counts_symmetric(a, b, common_span(a, b));
}

/// The distance of a gene sequence from itself is zero.
pub proof fn lemma_distance_to_self<const INPUT_SZ: usize, const OUTPUT_SZ: usize>(
    a: Seq<Connection<INPUT_SZ, OUTPUT_SZ>>,
)
    ensures
        compatibility_distance(a, a) == 0,
{
    lemma_counts_of_self(a, common_span(a, a));
    let n = common_span(a, a);
    if matching_count(a, a, n) != 0 {
        assert(0nat / matching_count(a, a, n) == 0) by (nonlinear_arith)
            requires
                matching_count(a, a, n) > 0,
        ;
    }
}

fn span_of<const INPUT_SZ: usize, const OUTPUT_SZ: usize>(
    genes: &Vec<Connection<INPUT_SZ, OUTPUT_SZ>>,
) -> (r: u128)
    ensures
        r == innovation_span(genes@),
        r <= usize::MAX + 1,
{
    let mut span: u128 = 0;
    let mut i: usize = 0;
    while i < genes.len()
        invariant
            i <= genes.len(),
            span == innovation_span(genes@.take(i as int)),
            span <= usize::MAX + 1,
        decreases genes.len() - i,
    {
        let last: u128 = genes[i].innovation_number as u128 + 1;
        proof {
            assert(genes@.take(i + 1).drop_last() =~= genes@.take(i as int));
        }
        if last > span {
            span = last;
        }
        i += 1;
    }
    proof {
        assert(genes@.take(i as int) =~= genes@);
    }
    span
}

/// Up to this span the genes are looked up in a table of their numbers.
pub const TABLE_LIMIT: u128 = 1_048_576;

/// An entry of a table of genes by number: 0 if no gene carries the
/// number, else one more than the place of the first gene that does.
pub open spec fn listed<const INPUT_SZ: usize, const OUTPUT_SZ: usize>(
    genes: Seq<Connection<INPUT_SZ, OUTPUT_SZ>>,
    innovation: usize,
    entry: usize,
) -> bool {
    match find_gene(genes, innovation) {
        None => entry == 0,
        Some(gene) => 0 < entry <= genes.len() && genes[entry - 1] == gene,
    }
}

fn table_of<const INPUT_SZ: usize, const OUTPUT_SZ: usize>(
    genes: &Vec<Connection<INPUT_SZ, OUTPUT_SZ>>,
    span: usize,
) -> (table: Vec<usize>)
    requires
        forall|k: int| 0 <= k < genes@.len() ==> genes@[k].innovation_number < span,
    ensures
        table@.len() == span,
        forall|i: int| 0 <= i < span ==> listed(genes@, i as usize, #[trigger] table@[i]),
{
    let mut table: Vec<usize> = Vec::new();
    let mut i: usize = 0;
    while i < span
        invariant
            i <= span,
            table@.len() == i,
            forall|j: int| 0 <= j < i ==> table@[j] == 0,
        decreases span - i,
    {
        table.push(0);
        i += 1;
    }
    let mut k: usize = genes.len();
    proof {
        assert(genes@.skip(k as int).len() == 0);
    }
    while k > 0
        invariant
            k <= genes@.len(),
            table@.len() == span,
            forall|k: int| 0 <= k < genes@.len() ==> genes@[k].innovation_number < span,
            forall|i: int|
                0 <= i < span ==> match find_gene(genes@.skip(k as int), i as usize) {
                    None => #[trigger] table@[i] == 0,
                    Some(gene) => k < table@[i] <= genes@.len() && genes@[table@[i] - 1] == gene,
                },
        decreases k,
    {
        k -= 1;
        let number = genes[k].innovation_number;
        let ghost before = table@;
        table.set(number, k + 1);
        proof {
            assert(genes@.skip(k as int).skip(1) =~= genes@.skip(k + 1));
            assert(genes@.skip(k as int)[0] == genes@[k as int]);
            assert forall|i: int| 0 <= i < span implies match find_gene(
                genes@.skip(k as int),
                i as usize,
            ) {
                None => #[trigger] table@[i] == 0,
                Some(gene) => k < table@[i] <= genes@.len() && genes@[table@[i] - 1] == gene,
            } by {
                if i != number {
                    assert(table@[i] == before[i]);
                }
            }
        }
    }
    proof {
        assert(genes@.skip(0) =~= genes@);
    }
    table
}

fn listed_gene<const INPUT_SZ: usize, const OUTPUT_SZ: usize>(
    genes: &Vec<Connection<INPUT_SZ, OUTPUT_SZ>>,
    table: &Vec<usize>,
    innovation: usize,
) -> (r: Option<Connection<INPUT_SZ, OUTPUT_SZ>>)
    requires
        innovation < table@.len(),
        listed(genes@, innovation, table@[innovation as int]),
    ensures
        r == find_gene(genes@, innovation),
{
    let entry = table[innovation];
    if entry == 0 {
        None
    } else {
        Some(genes[entry - 1])
    }
}

/// Every number that a gene carries is below the span of the genes.
pub proof fn lemma_innovation_span<const INPUT_SZ: usize, const OUTPUT_SZ: usize>(
    genes: Seq<Connection<INPUT_SZ, OUTPUT_SZ>>,
)
    ensures
        forall|k: int| 0 <= k < genes.len() ==> (#[trigger] genes[k]).innovation_number
            < innovation_span(genes),
    decreases genes.len(),
{
    if genes.len() > 0 {
        lemma_innovation_span(genes.drop_last());
        assert forall|k: int| 0 <= k < genes.len() implies (#[trigger] genes[k]).innovation_number
            < innovation_span(genes) by {
            if k < genes.len() - 1 {
                assert(genes.drop_last()[k] == genes[k]);
            }
        }
    }
}

/// Whether `table` is a table of the genes by number: entry `i` is 0 if no
/// gene carries the number `i`, else one more than the place of the first
/// gene that does.
pub open spec fn tabled<const INPUT_SZ: usize, const OUTPUT_SZ: usize>(
    genes: Seq<Connection<INPUT_SZ, OUTPUT_SZ>>,
    table: Seq<usize>,
) -> bool {
    forall|i: int| 0 <= i < table.len() ==> listed(genes, i as usize, #[trigger] table[i])
}

fn distance_over<const INPUT_SZ: usize, const OUTPUT_SZ: usize>(
    a: &Genome<INPUT_SZ, OUTPUT_SZ>,
    b: &Genome<INPUT_SZ, OUTPUT_SZ>,
    by_table: bool,
    mine_by_number: &Vec<usize>,
    theirs_by_number: &Vec<usize>,
) -> (r: u128)
    requires
        by_table ==> tabled(a.connections@, mine_by_number@) && tabled(
            b.connections@,
            theirs_by_number@,
        ) && common_span(a.connections@, b.connections@) <= mine_by_number@.len() && common_span(
            a.connections@,
            b.connections@,
        ) <= theirs_by_number@.len(),
    ensures
        r == compatibility_distance(a.connections@, b.connections@),
{
    let span_a = span_of(&a.connections);
    let span_b = span_of(&b.connections);
    let n: u128 = if span_a >= span_b {
        span_a
    } else {
        span_b
    };
    let mut i: u128 = 0;
    let mut matching: u128 = 0;
    let mut disjoint: u128 = 0;
    let mut sum: u128 = 0;
    while i < n
        invariant
            i <= n,
            n <= usize::MAX + 1,
            by_table ==> n <= mine_by_number@.len() && n <= theirs_by_number@.len(),
            by_table ==> tabled(a.connections@, mine_by_number@),
            by_table ==> tabled(b.connections@, theirs_by_number@),
            matching == matching_count(a.connections@, b.connections@, i as nat),
            disjoint == disjoint_count(a.connections@, b.connections@, i as nat),
            sum == weight_difference_sum(a.connections@, b.connections@, i as nat),
            matching <= i,
            disjoint <= i,
            sum <= matching * 0xffff_ffff_ffff_ffff,
        decreases n - i,
    {
        let number: usize = i as usize;
        let mine = if by_table {
            assert(listed(a.connections@, number, mine_by_number@[number as int]));
            listed_gene(&a.connections, mine_by_number, number)
        } else {
            a.find(number)
        };
        let theirs = if by_table {
            assert(listed(b.connections@, number, theirs_by_number@[number as int]));
            listed_gene(&b.connections, theirs_by_number, number)
        } else {
            b.find(number)
        };
        match (mine, theirs) {
            (Some(x), Some(y)) => {
                let difference: u64 = if x.enabled != y.enabled {
                    ONE
                } else {
                    abs_diff(x.weight, y.weight)
                };
                sum = sum + difference as u128;
                matching = matching + 1;
            },
            (None, None) => {},
            _ => {
                disjoint = disjoint + 1;
            },
        }
        i = i + 1;
    }
    if matching == 0 {
        (DISJOINT_FACTOR as u128) * (ONE as u128) * disjoint
    } else {
        let mean: u128 = sum / matching;
        assert(mean <= 0xffff_ffff_ffff_ffff) by (nonlinear_arith)
            requires
                mean == sum / matching,
                matching > 0,
                sum <= matching * 0xffff_ffff_ffff_ffff,
        ;
        (DISJOINT_FACTOR as u128) * (ONE as u128) * disjoint + (WEIGHT_DIFFERENCE_FACTOR as u128)
            * mean
    }
}

impl<const INPUT_SZ: usize, const OUTPUT_SZ: usize> Genome<INPUT_SZ, OUTPUT_SZ> {
    /// One more than the largest innovation number that a gene carries, 0
    /// if there is no gene.
    pub fn span(&self) -> (r: u128)
        ensures
            r == innovation_span(self.connections@),
            r <= usize::MAX + 1,
    {
        span_of(&self.connections)
    }

    /// A table of the genes by number with `size` entries, if every number
    /// that a gene carries is below `size`.
    pub fn number_table(&self, size: usize) -> (r: Option<Vec<usize>>)
        ensures
            r is Some <==> innovation_span(self.connections@) <= size,
            r matches Some(table) ==> table@.len() == size && tabled(self.connections@, table@),
    {
        let span = span_of(&self.connections);
        if span > size as u128 {
            return None;
        }
        proof {
            lemma_innovation_span(self.connections@);
        }
        Some(table_of(&self.connections, size))
    }

    /// The compatibility distance between this genome and `other`, from
    /// tables of their genes by number that reach beyond every number that
    /// a gene of either carries.
    pub fn distance_tabled(
        &self,
        mine: &Vec<usize>,
        other: &Genome<INPUT_SZ, OUTPUT_SZ>,
        theirs: &Vec<usize>,
    ) -> (r: u128)
        requires
            tabled(self.connections@, mine@),
            tabled(other.connections@, theirs@),
            innovation_span(self.connections@) <= mine@.len(),
            innovation_span(other.connections@) <= mine@.len(),
            mine@.len() == theirs@.len(),
        ensures
            r == compatibility_distance(self.connections@, other.connections@),
    {
        distance_over(self, other, true, mine, theirs)
    }

    /// The compatibility distance between this genome and `other`, a
    /// fixed-point number: each innovation number that only one of the two
    /// carries counts `1.0`, and the genes that both carry add twice the
    /// mean of their differences.
    pub fn distance(&self, other: &Genome<INPUT_SZ, OUTPUT_SZ>) -> (r: u128)
        ensures
            r == compatibility_distance(self.connections@, other.connections@),
    {
        let span_a = span_of(&self.connections);
        let span_b = span_of(&other.connections);
        let n: u128 = if span_a >= span_b {
            span_a
        } else {
            span_b
        };
        let none: Vec<usize> = Vec::new();
        if n <= TABLE_LIMIT && n <= usize::MAX as u128 {
            proof {
                lemma_innovation_span(self.connections@);
                lemma_innovation_span(other.connections@);
            }
            let mine = table_of(&self.connections, n as usize);
            let theirs = table_of(&other.connections, n as usize);
            distance_over(self, other, true, &mine, &theirs)
        } else {
            distance_over(self, other, false, &none, &none)
        }
    }
}

} // verus!
