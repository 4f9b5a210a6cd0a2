use crate::connection::Connection;
use crate::genome::{
    find_gene, hidden_ends, hidden_nodes_of, homologous, lemma_find_gene_some,
    lemma_hidden_nodes_finite, lemma_hidden_nodes_same_endpoints, lemma_hidden_range_len, Genome,
};
use crate::random::draw_ratio;
use rand::rngs::StdRng;
use std::collections::HashSet;
use vstd::prelude::*;

verus! {

/// A gene that both parents carry comes from the fitter parent with
/// probability `PICK_FITTER_NUMERATOR / PICK_FITTER_DENOMINATOR`, 0.9.
pub const PICK_FITTER_NUMERATOR: u32 = 9;

/// See `PICK_FITTER_NUMERATOR`.
pub const PICK_FITTER_DENOMINATOR: u32 = 10;

/// A gene that one parent has disabled and the other has not is disabled
/// in the child with probability `DISABLE_NUMERATOR / DISABLE_DENOMINATOR`,
/// 0.75.
pub const DISABLE_NUMERATOR: u32 = 3;

/// See `DISABLE_NUMERATOR`.
pub const DISABLE_DENOMINATOR: u32 = 4;

/// The choice made for the gene at place `i`, `true` where none was made.
pub open spec fn choice_at(choices: Seq<bool>, i: int) -> bool {
    if 0 <= i < choices.len() {
        choices[i]
    } else {
        true
    }
}

/// The gene that the child gets in place of the fitter parent's gene `mine`,
/// `theirs` being the other parent's gene with the same innovation number.
/// Without a match the child gets `mine`. With one it gets `mine` if
/// `keep_fitter`, else `theirs`; it is disabled if both genes are, disabled
/// on `disable` if exactly one of them is, and enabled if both are.
pub open spec fn crossed_gene<const INPUT_SZ: usize, const OUTPUT_SZ: usize>(
    mine: Connection<INPUT_SZ, OUTPUT_SZ>,
    theirs: Option<Connection<INPUT_SZ, OUTPUT_SZ>>,
    keep_fitter: bool,
    disable: bool,
) -> Connection<INPUT_SZ, OUTPUT_SZ> {
    match theirs {
        None => mine,
        Some(other) => {
            let base = if keep_fitter {
                mine
            } else {
                other
            };
            let enabled = if mine.enabled && other.enabled {
                true
            } else if !mine.enabled && !other.enabled {
                false
            } else {
                !disable
            };
            Connection { enabled, ..base }
        },
    }
}

/// The genes of the child of `fitter` and `other`: one for each gene of the
/// fitter parent, in its order. Genes that only the other parent carries
/// are left out.
pub open spec fn crossed_genes<const INPUT_SZ: usize, const OUTPUT_SZ: usize>(
    fitter: Seq<Connection<INPUT_SZ, OUTPUT_SZ>>,
    other: Seq<Connection<INPUT_SZ, OUTPUT_SZ>>,
    keep_fitter: Seq<bool>,
    disable: Seq<bool>,
) -> Seq<Connection<INPUT_SZ, OUTPUT_SZ>> {
    Seq::new(
        fitter.len(),
        |i: int|
            crossed_gene(
                fitter[i],
                find_gene(other, fitter[i].innovation_number),
                choice_at(keep_fitter, i),
                choice_at(disable, i),
            ),
    )
}

/// The number of distinct hidden nodes that the genes refer to.
pub fn count_hidden_nodes<const INPUT_SZ: usize, const OUTPUT_SZ: usize>(
    genes: &Vec<Connection<INPUT_SZ, OUTPUT_SZ>>,
) -> (r: usize)
    ensures
        hidden_nodes_of(genes@).finite(),
        r == hidden_nodes_of(genes@).len(),
{
    let mut seen: HashSet<usize> = HashSet::new();
    let mut i: usize = 0;
    while i < genes.len()
        invariant
            i <= genes.len(),
            seen@ == hidden_nodes_of(genes@.take(i as int)),
        decreases genes.len() - i,
    {
        let gene = genes[i];
        let ghost before = seen@;
        if gene.in_node.is_hidden() {
            seen.insert(gene.in_node.0);
        }
        if gene.out_node.is_hidden() {
            seen.insert(gene.out_node.0);
        }
        proof {
            assert(genes@.take(i + 1).drop_last() =~= genes@.take(i as int));
            assert(genes@.take(i + 1).last() == gene);
            assert(seen@ =~= before.union(hidden_ends(gene)));
        }
        i += 1;
    }
    proof {
        assert(genes@.take(i as int) =~= genes@);
        lemma_hidden_nodes_finite(genes@);
    }
    seen.len()
}

impl<const INPUT_SZ: usize, const OUTPUT_SZ: usize> Genome<INPUT_SZ, OUTPUT_SZ> {
    /// The child of `fitter` and `other` for given choices: `keep_fitter[i]`
    /// says whether the gene at place `i` comes from the fitter parent when
    /// both carry it, `disable[i]` whether it is disabled when exactly one
    /// parent has it disabled. The child has as many hidden nodes as its
    /// genes refer to.
    pub fn crossover_with(
        fitter: &Genome<INPUT_SZ, OUTPUT_SZ>,
        other: &Genome<INPUT_SZ, OUTPUT_SZ>,
        keep_fitter: &Vec<bool>,
        disable: &Vec<bool>,
    ) -> (child: Genome<INPUT_SZ, OUTPUT_SZ>)
        ensures
            child.connections@ == crossed_genes(
                fitter.connections@,
                other.connections@,
                keep_fitter@,
                disable@,
            ),
            hidden_nodes_of(child.connections@).finite(),
            child.hidden_nodes == hidden_nodes_of(child.connections@).len(),
            fitter.well_formed() && other.well_formed() && homologous(
                fitter.connections@,
                other.connections@,
            ) ==> child.well_formed() && child.hidden_nodes == fitter.hidden_nodes,
            forall|numbers: Map<(usize, usize), usize>|
                crate::genome::numbered_by(fitter.connections@, numbers)
                    && crate::genome::numbered_by(other.connections@, numbers)
                    ==> crate::genome::numbered_by(child.connections@, numbers),
    {
        let mut connections: Vec<Connection<INPUT_SZ, OUTPUT_SZ>> = Vec::new();
        let ghost target = crossed_genes(
            fitter.connections@,
            other.connections@,
            keep_fitter@,
            disable@,
        );
        let mut i: usize = 0;
        while i < fitter.connections.len()
            invariant
                i <= fitter.connections.len(),
                target == crossed_genes(
                    fitter.connections@,
                    other.connections@,
                    keep_fitter@,
                    disable@,
                ),
                connections@ == target.take(i as int),
            decreases fitter.connections.len() - i,
        {
            let mine = fitter.connections[i];
            let keep = if i < keep_fitter.len() {
                keep_fitter[i]
            } else {
                true
            };
            let off = if i < disable.len() {
                disable[i]
            } else {
                true
            };
            let gene = match other.find(mine.innovation_number) {
                None => mine,
                Some(theirs) => {
                    let base = if keep {
                        mine
                    } else {
                        theirs
                    };
                    let enabled = if mine.enabled && theirs.enabled {
                        true
                    } else if !mine.enabled && !theirs.enabled {
                        false
                    } else {
                        !off
                    };
                    Connection { enabled, ..base }
                },
            };
            connections.push(gene);
            proof {
                assert(target.take(i + 1) =~= target.take(i as int).push(target[i as int]));
            }
            i += 1;
        }
        proof {
            assert(target.take(i as int) =~= target);
        }
        let hidden_nodes = count_hidden_nodes(&connections);
        let child = Genome { hidden_nodes, connections };
        proof {
            let a = fitter.connections@;
            let b = other.connections@;
            let c = child.connections@;
            assert forall|numbers: Map<(usize, usize), usize>|
                crate::genome::numbered_by(a, numbers) && crate::genome::numbered_by(
                    b,
                    numbers,
                ) implies crate::genome::numbered_by(c, numbers) by {
                assert forall|k: int| 0 <= k < c.len() implies numbers.contains_key(
                    (#[trigger] c[k]).endpoints(),
                ) && numbers[c[k].endpoints()] == c[k].innovation_number by {
                    lemma_find_gene_some(b, a[k].innovation_number);
                    assert(numbers.contains_key(a[k].endpoints()));
                    if find_gene(b, a[k].innovation_number) is Some {
                        let g = find_gene(b, a[k].innovation_number).unwrap();
                        let j = choose|j: int| 0 <= j < b.len() && b[j] == g;
                        assert(numbers.contains_key(b[j].endpoints()));
                    }
                }
            }
            if fitter.well_formed() && other.well_formed() && homologous(a, b) {
                assert forall|k: int| 0 <= k < a.len() implies (#[trigger] a[k]).endpoints()
                    == c[k].endpoints() && c[k].well_formed() by {
                    lemma_find_gene_some(b, a[k].innovation_number);
                    assert(a[k].well_formed());
                    if find_gene(b, a[k].innovation_number) is Some {
                        let g = find_gene(b, a[k].innovation_number).unwrap();
                        let j = choose|j: int| 0 <= j < b.len() && b[j] == g;
                        assert(b[j].well_formed());
                        assert(a[k].innovation_number == b[j].innovation_number);
                        assert(a[k].endpoints() == b[j].endpoints());
                    }
                }
                lemma_hidden_nodes_same_endpoints(a, c);
                lemma_hidden_range_len(INPUT_SZ, OUTPUT_SZ, fitter.hidden_nodes as int);
                assert forall|x: int, y: int| 0 <= x < y < c.len() implies (
                #[trigger] c[x]).endpoints() != (#[trigger] c[y]).endpoints() by {
                    assert(a[x].endpoints() != a[y].endpoints());
                    assert(a[x].endpoints() == c[x].endpoints());
                    assert(a[y].endpoints() == c[y].endpoints());
                }
                assert forall|k: int| 0 <= k < c.len() implies (#[trigger] c[k]).well_formed() by {
                    assert(a[k].endpoints() == c[k].endpoints() && c[k].well_formed());
                }
            }
        }
        child
    }

    /// The child of `fitter` and `other`: for each gene of the fitter
    /// parent that the other parent carries too, the fitter's is kept with
    /// probability 0.9, and a gene that exactly one parent has disabled is
    /// disabled with probability 0.75. The child is that of
    /// `crossover_with` for the choices that were drawn.
    pub fn crossover(
        fitter_genome: &Genome<INPUT_SZ, OUTPUT_SZ>,
        other_genome: &Genome<INPUT_SZ, OUTPUT_SZ>,
        rng: &mut StdRng,
    ) -> (child: Genome<INPUT_SZ, OUTPUT_SZ>)
        ensures
            exists|keep_fitter: Seq<bool>, disable: Seq<bool>|
                child.connections@ == #[trigger] crossed_genes(
                    fitter_genome.connections@,
                    other_genome.connections@,
                    keep_fitter,
                    disable,
                ),
            hidden_nodes_of(child.connections@).finite(),
            child.hidden_nodes == hidden_nodes_of(child.connections@).len(),
            fitter_genome.well_formed() && other_genome.well_formed() && homologous(
                fitter_genome.connections@,
                other_genome.connections@,
            ) ==> child.well_formed() && child.hidden_nodes == fitter_genome.hidden_nodes,
            forall|numbers: Map<(usize, usize), usize>|
                crate::genome::numbered_by(fitter_genome.connections@, numbers)
                    && crate::genome::numbered_by(other_genome.connections@, numbers)
                    ==> crate::genome::numbered_by(child.connections@, numbers),
    {
        let mut keep_fitter: Vec<bool> = Vec::new();
        let mut disable: Vec<bool> = Vec::new();
        let mut i: usize = 0;
        while i < fitter_genome.connections.len()
            invariant
                i <= fitter_genome.connections.len(),
            decreases fitter_genome.connections.len() - i,
        {
            keep_fitter.push(draw_ratio(rng, PICK_FITTER_NUMERATOR, PICK_FITTER_DENOMINATOR));
            disable.push(draw_ratio(rng, DISABLE_NUMERATOR, DISABLE_DENOMINATOR));
            i += 1;
        }
        Genome::crossover_with(fitter_genome, other_genome, &keep_fitter, &disable)
    }
}

} // verus!
