use crate::crossover::crossed_genes;
use crate::evaluation::{champion_place, lemma_extremes, scores_of, Evaluation};
use crate::genome::{hidden_nodes_of, lemma_numbered_homologous, numbered_by, Genome};
use crate::innovation::registry_consistent;
use crate::offspring::{offspring, total_size};
use crate::population::Population;
use crate::random::{draw_index, draw_ratio};
use crate::speciate::scored;
use crate::speciation::{ids_distinct, Speciation};
use crate::species::{lemma_sorted_by_fitness, sorted_by_fitness, Species};
use rand::rngs::StdRng;
use vstd::prelude::*;

verus! {

/// The second parent of a child is picked from the whole population with
/// probability `INTERSPECIES_NUMERATOR / INTERSPECIES_DENOMINATOR`, 0.003.
pub const INTERSPECIES_NUMERATOR: u32 = 3;

/// See `INTERSPECIES_NUMERATOR`.
pub const INTERSPECIES_DENOMINATOR: u32 = 1000;

/// The best fifth of a species may breed.
pub const SURVIVAL_DIVISOR: usize = 5;

/// The number of members of a species of the given size that may breed:
/// a fifth of them, rounded up, but two at least, and never more than
/// there are.
pub open spec fn survivor_count(size: nat) -> nat {
    let fifth = (size + 4) / 5;
    let wanted = if fifth < 2 {
        2
    } else {
        fifth
    };
    if wanted > size {
        size
    } else {
        wanted
    }
}

/// `child` is the crossover, for the given choices, of the genomes `first`
/// and `second`, the one with the strictly higher score being the fitter
/// parent, and `second` in case of a tie.
pub open spec fn child_of<const INPUT_SZ: usize, const OUTPUT_SZ: usize>(
    child: Genome<INPUT_SZ, OUTPUT_SZ>,
    genomes: Seq<Genome<INPUT_SZ, OUTPUT_SZ>>,
    fitness: Seq<u64>,
    first: usize,
    second: usize,
    keep_fitter: Seq<bool>,
    disable: Seq<bool>,
) -> bool {
    let fitter = if fitness[first as int] > fitness[second as int] {
        first
    } else {
        second
    };
    let other = if fitness[first as int] > fitness[second as int] {
        second
    } else {
        first
    };
    &&& first < genomes.len()
    &&& second < genomes.len()
    &&& child.connections@ == crossed_genes(
        genomes[fitter as int].connections@,
        genomes[other as int].connections@,
        keep_fitter,
        disable,
    )
    &&& child.hidden_nodes == hidden_nodes_of(child.connections@).len()
}

/// `child` is the crossover of a member of `pool` with some member of the
/// population.
pub open spec fn bred_from<const INPUT_SZ: usize, const OUTPUT_SZ: usize>(
    child: Genome<INPUT_SZ, OUTPUT_SZ>,
    genomes: Seq<Genome<INPUT_SZ, OUTPUT_SZ>>,
    fitness: Seq<u64>,
    pool: Seq<usize>,
) -> bool {
    exists|first: usize, second: usize, keep_fitter: Seq<bool>, disable: Seq<bool>|
        pool.contains(first) && #[trigger] child_of(
            child,
            genomes,
            fitness,
            first,
            second,
            keep_fitter,
            disable,
        )
}

/// Whenever all of `genomes` are well formed and numbered by one
/// consistent record, so is `child`.
pub open spec fn inherits<const INPUT_SZ: usize, const OUTPUT_SZ: usize>(
    child: Genome<INPUT_SZ, OUTPUT_SZ>,
    genomes: Seq<Genome<INPUT_SZ, OUTPUT_SZ>>,
) -> bool {
    forall|numbers: Map<(usize, usize), usize>, next: usize|
        (forall|i: int|
            0 <= i < genomes.len() ==> (#[trigger] genomes[i]).well_formed() && numbered_by(
                genomes[i].connections@,
                numbers,
            )) && #[trigger] registry_consistent(numbers, next) ==> child.well_formed()
            && numbered_by(child.connections@, numbers)
}

/// The offspring of one species: children bred from its best members,
/// and last its champion, unchanged.
pub open spec fn offspring_of<const INPUT_SZ: usize, const OUTPUT_SZ: usize>(
    block: Seq<Genome<INPUT_SZ, OUTPUT_SZ>>,
    genomes: Seq<Genome<INPUT_SZ, OUTPUT_SZ>>,
    fitness: Seq<u64>,
    sorted: Seq<usize>,
) -> bool {
    let champion = sorted[champion_place(scores_of(fitness, sorted))] as int;
    &&& block.len() >= 1
    &&& block.last().connections@ == genomes[champion].connections@
    &&& block.last().hidden_nodes == genomes[champion].hidden_nodes
    &&& forall|i: int|
        0 <= i < block.len() - 1 ==> bred_from(
            #[trigger] block[i],
            genomes,
            fitness,
            sorted.take(survivor_count(sorted.len()) as int),
        )
}

impl<const INPUT_SZ: usize, const OUTPUT_SZ: usize> Population<INPUT_SZ, OUTPUT_SZ> {
    /// A child of two members: the first parent is picked from `selection`,
    /// the second too, or, with probability 0.003, from the whole
    /// population. The one with the higher fitness is the fitter parent of
    /// the crossover.
    pub fn breed(&self, evaluation: &Evaluation, selection: &Vec<usize>, rng: &mut StdRng) -> (child:
        Genome<INPUT_SZ, OUTPUT_SZ>)
        requires
            selection@.len() > 0,
            forall|i: int| 0 <= i < selection@.len() ==> selection@[i] < self.members@.len(),
            evaluation.fitness@.len() == self.members@.len(),
        ensures
            bred_from(child, self.members@, evaluation.fitness@, selection@),
            inherits(child, self.members@),
    {
        let parent_1 = selection[draw_index(rng, 0, selection.len())];
        let parent_2 = if draw_ratio(rng, INTERSPECIES_NUMERATOR, INTERSPECIES_DENOMINATOR) {
            draw_index(rng, 0, self.members.len())
        } else {
            selection[draw_index(rng, 0, selection.len())]
        };
        let first_is_fitter = evaluation.fitness[parent_1] > evaluation.fitness[parent_2];
        let fitter = if first_is_fitter {
            parent_1
        } else {
            parent_2
        };
        let other = if first_is_fitter {
            parent_2
        } else {
            parent_1
        };
        let child = Genome::crossover(&self.members[fitter], &self.members[other], rng);
        proof {
            let genomes = self.members@;
            let (keep_fitter, disable) = choose|keep_fitter: Seq<bool>, disable: Seq<bool>|
                child.connections@ == #[trigger] crossed_genes(
                    genomes[fitter as int].connections@,
                    genomes[other as int].connections@,
                    keep_fitter,
                    disable,
                );
            assert(child_of(
                child,
                genomes,
                evaluation.fitness@,
                parent_1,
                parent_2,
                keep_fitter,
                disable,
            ));
            assert forall|numbers: Map<(usize, usize), usize>, next: usize|
                (forall|i: int|
                    0 <= i < genomes.len() ==> (#[trigger] genomes[i]).well_formed()
                        && numbered_by(genomes[i].connections@, numbers))
                    && #[trigger] registry_consistent(numbers, next) implies child.well_formed()
                && numbered_by(child.connections@, numbers) by {
                assert(genomes[fitter as int].well_formed());
                assert(genomes[other as int].well_formed());
                lemma_numbered_homologous(
                    genomes[fitter as int].connections@,
                    genomes[other as int].connections@,
                    numbers,
                    next,
                );
            }
        }
        child
    }

    /// Appends the offspring of one species, whose members are sorted by
    /// falling fitness, to `out`: `share - 1` children bred from its best
    /// members, then a copy of its champion.
    pub fn reproduce_species(
        &self,
        evaluation: &Evaluation,
        species: &Species<INPUT_SZ, OUTPUT_SZ>,
        share: usize,
        rng: &mut StdRng,
        out: &mut Vec<Genome<INPUT_SZ, OUTPUT_SZ>>,
    )
        requires
            share >= 1,
            scored(species.members@, evaluation.fitness@),
            evaluation.fitness@.len() == self.members@.len(),
        ensures
            final(out)@.len() == old(out)@.len() + share,
            forall|i: int| 0 <= i < old(out)@.len() ==> final(out)@[i] == old(out)@[i],
            offspring_of(
                final(out)@.subrange(old(out)@.len() as int, final(out)@.len() as int),
                self.members@,
                evaluation.fitness@,
                species.members@,
            ),
            forall|i: int|
                old(out)@.len() <= i < final(out)@.len() ==> inherits(
                    #[trigger] final(out)@[i],
                    self.members@,
                ),
    {
        let size = species.members.len();
        let fifth = size / SURVIVAL_DIVISOR + if size % SURVIVAL_DIVISOR > 0 {
            1usize
        } else {
            0usize
        };
        let wanted = if fifth < 2 {
            2
        } else {
            fifth
        };
        let count = if wanted > size {
            size
        } else {
            wanted
        };
        assert(count == survivor_count(size as nat));
        let mut survivors: Vec<usize> = Vec::new();
        let mut i: usize = 0;
        while i < count
            invariant
                i <= count <= species.members@.len(),
                survivors@ == species.members@.take(i as int),
            decreases count - i,
        {
            survivors.push(species.members[i]);
            proof {
                assert(species.members@.take(i + 1) =~= species.members@.take(i as int).push(
                    species.members@[i as int],
                ));
            }
            i += 1;
        }
        let (champion_id, _) = evaluation.species_champion(species);
        proof {
            let scores = scores_of(evaluation.fitness@, species.members@);
            lemma_extremes(scores);
            assert(species.members@[champion_place(scores)] < evaluation.fitness@.len());
        }
        let ghost start = out@.len();
        let mut made: usize = 1;
        while made < share
            invariant
                1 <= made <= share,
                champion_id < self.members@.len(),
                champion_id == species.members@[champion_place(
                    scores_of(evaluation.fitness@, species.members@),
                )],
                start == old(out)@.len(),
                out@.len() == start + made - 1,
                forall|i: int| 0 <= i < start ==> out@[i] == old(out)@[i],
                survivors@ == species.members@.take(count as int),
                count == survivor_count(species.members@.len()),
                survivors@.len() > 0,
                forall|i: int| 0 <= i < survivors@.len() ==> survivors@[i] < self.members@.len(),
                evaluation.fitness@.len() == self.members@.len(),
                forall|i: int|
                    start <= i < out@.len() ==> bred_from(
                        #[trigger] out@[i],
                        self.members@,
                        evaluation.fitness@,
                        survivors@,
                    ) && inherits(out@[i], self.members@),
            decreases share - made,
        {
            let child = self.breed(evaluation, &survivors, rng);
            let ghost before = out@;
            out.push(child);
            proof {
                assert forall|i: int| start <= i < out@.len() implies bred_from(
                    #[trigger] out@[i],
                    self.members@,
                    evaluation.fitness@,
                    survivors@,
                ) && inherits(out@[i], self.members@) by {
                    if i < before.len() {
                        assert(out@[i] == before[i]);
                    }
                }
            }
            made += 1;
        }
        let champion = self.members[champion_id].clone();
        let ghost before = out@;
        out.push(champion);
        proof {
            let block = out@.subrange(start as int, out@.len() as int);
            assert(block.last() == out@[out@.len() - 1]);
            assert forall|i: int| 0 <= i < block.len() - 1 implies bred_from(
                #[trigger] block[i],
                self.members@,
                evaluation.fitness@,
                species.members@.take(survivor_count(species.members@.len()) as int),
            ) by {
                assert(block[i] == out@[start + i]);
                assert(out@[start + i] == before[start + i]);
            }
            assert forall|i: int| start <= i < out@.len() implies inherits(
                #[trigger] out@[i],
                self.members@,
            ) by {
                if i < before.len() {
                    assert(out@[i] == before[i]);
                } else {
                    let copy = out@[i];
                    let source = self.members@[champion_id as int];
                    assert(copy.connections@ == source.connections@);
                    assert(copy.hidden_nodes == source.hidden_nodes);
                    assert forall|numbers: Map<(usize, usize), usize>, next: usize|
                        (forall|i: int|
                            0 <= i < self.members@.len() ==> (
                            #[trigger] self.members@[i]).well_formed() && numbered_by(
                                self.members@[i].connections@,
                                numbers,
                            )) && #[trigger] registry_consistent(
                            numbers,
                            next,
                        ) implies copy.well_formed() && numbered_by(copy.connections@, numbers) by {
                        assert(source.well_formed());
                        assert(numbered_by(source.connections@, numbers));
                    }
                }
            }
            assert forall|i: int| 0 <= i < start implies out@[i] == old(out)@[i] by {
                assert(out@[i] == before[i]);
            }
        }
    }
}

/// Whether `bred` is what the species breed from the members `genomes`:
/// for each species in turn, as many genomes as `shares` allots to it,
/// which are its offspring as `offspring_of` describes them.
pub open spec fn reproduced<const INPUT_SZ: usize, const OUTPUT_SZ: usize>(
    genomes: Seq<Genome<INPUT_SZ, OUTPUT_SZ>>,
    fitness: Seq<u64>,
    species: Seq<Species<INPUT_SZ, OUTPUT_SZ>>,
    shares: Seq<usize>,
    bred: Seq<Genome<INPUT_SZ, OUTPUT_SZ>>,
) -> bool {
    &&& bred.len() == total_size(shares)
    &&& forall|k: int|
        0 <= k < shares.len() ==> offspring_of(
            bred.subrange(total_size(shares.take(k)) as int, total_size(shares.take(k + 1)) as int),
            genomes,
            fitness,
            (#[trigger] species[k]).members@,
        )
}

/// The species with the members of each sorted by falling fitness.
pub open spec fn sorted_species<const INPUT_SZ: usize, const OUTPUT_SZ: usize>(
    before: Seq<Species<INPUT_SZ, OUTPUT_SZ>>,
    after: Seq<Species<INPUT_SZ, OUTPUT_SZ>>,
    fitness: Seq<u64>,
    count: int,
) -> bool {
    &&& after.len() == before.len()
    &&& forall|k: int|
        0 <= k < count ==> {
            &&& (#[trigger] after[k]).members@ == sorted_by_fitness(before[k].members@, fitness)
            &&& after[k].representative == before[k].representative
            &&& after[k].id == before[k].id
            &&& after[k].age == before[k].age
            &&& after[k].max_fitness == before[k].max_fitness
            &&& after[k].since_last_improvement == before[k].since_last_improvement
        }
    &&& forall|k: int| count <= k < before.len() ==> #[trigger] after[k] == before[k]
}

fn sort_species<const INPUT_SZ: usize, const OUTPUT_SZ: usize>(
    species: &mut Vec<Species<INPUT_SZ, OUTPUT_SZ>>,
    k: usize,
    evaluation: &Evaluation,
)
    requires
        k < old(species)@.len(),
        evaluation.covers(old(species)@[k as int].members@),
    ensures
        final(species)@.len() == old(species)@.len(),
        forall|j: int|
            0 <= j < old(species)@.len() && j != k ==> final(species)@[j] == old(species)@[j],
        final(species)@[k as int].members@ == sorted_by_fitness(
            old(species)@[k as int].members@,
            evaluation.fitness@,
        ),
        final(species)@[k as int].representative == old(species)@[k as int].representative,
        final(species)@[k as int].id == old(species)@[k as int].id,
        final(species)@[k as int].age == old(species)@[k as int].age,
        final(species)@[k as int].max_fitness == old(species)@[k as int].max_fitness,
        final(species)@[k as int].since_last_improvement == old(
            species,
        )@[k as int].since_last_improvement,
{
    species[k].sort_by_fitness(evaluation);
}

/// Sorted members have scores if the members had.
pub proof fn lemma_sorted_scored(members: Seq<usize>, fitness: Seq<u64>)
    requires
        scored(members, fitness),
    ensures
        scored(sorted_by_fitness(members, fitness), fitness),
{
    lemma_sorted_by_fitness(members, fitness);
    let sorted = sorted_by_fitness(members, fitness);
    assert forall|m: int| 0 <= m < sorted.len() implies sorted[m] < fitness.len() by {
        assert(members.contains(sorted[m]));
        let w = choose|w: int| 0 <= w < members.len() && members[w] == sorted[m];
        assert(members[w] < fitness.len());
    }
}

/// Species whose members are sorted keep distinct ids and scored members.
pub proof fn lemma_sorted_species_usable<const INPUT_SZ: usize, const OUTPUT_SZ: usize>(
    before: Seq<Species<INPUT_SZ, OUTPUT_SZ>>,
    after: Seq<Species<INPUT_SZ, OUTPUT_SZ>>,
    fitness: Seq<u64>,
)
    requires
        sorted_species(before, after, fitness, before.len() as int),
        ids_distinct(before),
        forall|k: int| 0 <= k < before.len() ==> scored((#[trigger] before[k]).members@, fitness),
    ensures
        ids_distinct(after),
        forall|k: int| 0 <= k < after.len() ==> scored((#[trigger] after[k]).members@, fitness),
{
    assert forall|i: int, j: int| 0 <= i < j < after.len() implies (#[trigger] after[i]).id != (
    #[trigger] after[j]).id by {
        assert(before[i].id != before[j].id);
    }
    assert forall|k: int| 0 <= k < after.len() implies scored(
        (#[trigger] after[k]).members@,
        fitness,
    ) by {
        assert(scored(before[k].members@, fitness));
        lemma_sorted_scored(before[k].members@, fitness);
    }
}

impl<const INPUT_SZ: usize, const OUTPUT_SZ: usize> Population<INPUT_SZ, OUTPUT_SZ> {
    /// Replaces the members by the offspring of the species. Each species
    /// gets the number of offspring that `compute_offspring` allots to it;
    /// its members are sorted by falling fitness, and its offspring are
    /// children bred from the best fifth of them, followed by its champion,
    /// unchanged. The offspring of the species stand in the order of the
    /// species.
    pub fn reproduce(
        &mut self,
        evaluation: &Evaluation,
        speciation: &mut Speciation<INPUT_SZ, OUTPUT_SZ>,
        rng: &mut StdRng,
    )
        requires
            evaluation.fitness@.len() == old(self).members@.len(),
            forall|k: int|
                0 <= k < old(speciation).species@.len() ==> scored(
                    (#[trigger] old(speciation).species@[k]).members@,
                    evaluation.fitness@,
                ),
        ensures
            final(self).target_size == old(self).target_size,
            final(self).generation == old(self).generation,
            final(speciation).member_map == old(speciation).member_map,
            sorted_species(
                old(speciation).species@,
                final(speciation).species@,
                evaluation.fitness@,
                old(speciation).species@.len() as int,
            ),
            reproduced(
                old(self).members@,
                evaluation.fitness@,
                final(speciation).species@,
                offspring(old(speciation).species@, evaluation.fitness@, old(self).target_size),
                final(self).members@,
            ),
            0 < old(speciation).species@.len() <= old(self).target_size ==> final(self).members@.len() == old(self).target_size,
            forall|i: int|
                0 <= i < final(self).members@.len() ==> inherits(
                    #[trigger] final(self).members@[i],
                    old(self).members@,
                ),
    {
        let shares = self.compute_offspring(evaluation, speciation);
        let ghost before = speciation.species@;
        let mut out: Vec<Genome<INPUT_SZ, OUTPUT_SZ>> = Vec::new();
        let mut k: usize = 0;
        assert(shares@.take(0) =~= Seq::<usize>::empty());
        while k < speciation.species.len()
            invariant
                *self == *old(self),
                speciation.member_map == old(speciation).member_map,
                before == old(speciation).species@,
                evaluation.fitness@.len() == self.members@.len(),
                forall|j: int|
                    0 <= j < before.len() ==> scored(
                        (#[trigger] before[j]).members@,
                        evaluation.fitness@,
                    ),
                shares@ == offspring(before, evaluation.fitness@, self.target_size),
                forall|j: int| 0 <= j < shares@.len() ==> shares@[j] >= 1,
                shares@.len() == before.len(),
                k <= before.len(),
                sorted_species(before, speciation.species@, evaluation.fitness@, k as int),
                out@.len() == total_size(shares@.take(k as int)),
                forall|j: int|
                    0 <= j < k ==> offspring_of(
                        out@.subrange(
                            total_size(shares@.take(j)) as int,
                            total_size(shares@.take(j + 1)) as int,
                        ),
                        self.members@,
                        evaluation.fitness@,
                        (#[trigger] speciation.species@[j]).members@,
                    ),
                forall|j: int| 0 <= j <= k ==> total_size(#[trigger] shares@.take(j)) <= out@.len(),
                forall|i: int| 0 <= i < out@.len() ==> inherits(#[trigger] out@[i], self.members@),
            decreases before.len() - k,
        {
            let ghost unsorted = speciation.species@;
            let ghost made = out@;
            proof {
                assert(unsorted[k as int] == before[k as int]);
                assert(scored(before[k as int].members@, evaluation.fitness@));
                lemma_sorted_scored(before[k as int].members@, evaluation.fitness@);
                assert(shares@.take(k + 1).drop_last() =~= shares@.take(k as int));
                assert(shares@.take(k + 1).last() == shares@[k as int]);
            }
            sort_species(&mut speciation.species, k, evaluation);
            self.reproduce_species(evaluation, &speciation.species[k], shares[k], rng, &mut out);
            proof {
                let after = speciation.species@;
                assert forall|j: int| 0 <= j < k + 1 implies offspring_of(
                    out@.subrange(
                        total_size(shares@.take(j)) as int,
                        total_size(shares@.take(j + 1)) as int,
                    ),
                    self.members@,
                    evaluation.fitness@,
                    (#[trigger] after[j]).members@,
                ) by {
                    if j < k {
                        assert(after[j] == unsorted[j]);
                        assert(shares@.take(j + 1).drop_last() =~= shares@.take(j));
                        assert(total_size(shares@.take(j + 1)) <= made.len());
                        assert(out@.subrange(
                            total_size(shares@.take(j)) as int,
                            total_size(shares@.take(j + 1)) as int,
                        ) =~= made.subrange(
                            total_size(shares@.take(j)) as int,
                            total_size(shares@.take(j + 1)) as int,
                        ));
                    }
                }
                assert forall|i: int| 0 <= i < out@.len() implies inherits(
                    #[trigger] out@[i],
                    self.members@,
                ) by {
                    if i < made.len() {
                        assert(out@[i] == made[i]);
                    }
                }
                assert forall|j: int| 0 <= j <= k + 1 implies total_size(
                    #[trigger] shares@.take(j),
                ) <= out@.len() by {
                    if j <= k {
                        assert(total_size(shares@.take(j)) <= made.len());
                    }
                }
                assert forall|j: int| 0 <= j < k + 1 implies {
                    &&& (#[trigger] after[j]).members@ == sorted_by_fitness(
                        before[j].members@,
                        evaluation.fitness@,
                    )
                    &&& after[j].representative == before[j].representative
                    &&& after[j].id == before[j].id
                    &&& after[j].age == before[j].age
                    &&& after[j].max_fitness == before[j].max_fitness
                    &&& after[j].since_last_improvement == before[j].since_last_improvement
                } by {
                    if j < k {
                        assert(after[j] == unsorted[j]);
                    }
                }
                assert forall|j: int| k + 1 <= j < before.len() implies #[trigger] after[j]
                    == before[j] by {
                    assert(after[j] == unsorted[j]);
                }
            }
            k += 1;
        }
        proof {
            assert(shares@.take(k as int) =~= shares@);
        }
        self.members = out;
    }
}

} // verus!
