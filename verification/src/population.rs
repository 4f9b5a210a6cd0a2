use crate::connection::Connection;
use crate::environment::{asked_in_turn, scored_by, ConfigError, Environment};
use crate::evaluation::Evaluation;
use crate::genome::{numbered_by, Genome};
use crate::innovation::{extends, InnovationRecord};
use crate::mutation::{keeps_structure, mutation_round};
use crate::node::{first_hidden, first_output};
use crate::offspring::{lemma_offspring_sum, offspring, total_size};
use crate::random::draw_ratio;
use crate::reproduce::{lemma_sorted_species_usable, reproduced, sorted_species};
use crate::speciate::{scored, usable_history};
use crate::speciation::{ids_distinct, Speciation};
use crate::species::{Species, STAGNANT_THRESHOLD};
use rand::rngs::StdRng;
use vstd::prelude::*;

verus! {

/// The members of one generation, with the size that every generation
/// aims at and the number of generations so far.
#[derive(Debug)]
pub struct Population<const INPUT_SZ: usize, const OUTPUT_SZ: usize> {
    pub members: Vec<Genome<INPUT_SZ, OUTPUT_SZ>>,
    pub target_size: usize,
    pub generation: usize,
}

/// Whether a species has gone too long without improvement.
pub open spec fn stagnant<const INPUT_SZ: usize, const OUTPUT_SZ: usize>(
    species: Species<INPUT_SZ, OUTPUT_SZ>,
) -> bool {
    species.since_last_improvement >= STAGNANT_THRESHOLD
}

/// The species that are not stagnant, in their order.
pub open spec fn surviving<const INPUT_SZ: usize, const OUTPUT_SZ: usize>(
    species: Seq<Species<INPUT_SZ, OUTPUT_SZ>>,
) -> Seq<Species<INPUT_SZ, OUTPUT_SZ>>
    decreases species.len(),
{
    if species.len() == 0 {
        Seq::empty()
    } else if stagnant(species.last()) {
        surviving(species.drop_last())
    } else {
        surviving(species.drop_last()).push(species.last())
    }
}

/// Every surviving species is one of the species, none of them stagnant,
/// and they stand in the order in which they stood.
pub proof fn lemma_surviving<const INPUT_SZ: usize, const OUTPUT_SZ: usize>(
    species: Seq<Species<INPUT_SZ, OUTPUT_SZ>>,
) -> (origin: Seq<int>)
    ensures
        origin.len() == surviving(species).len(),
        surviving(species).len() <= species.len(),
        forall|k: int|
            0 <= k < origin.len() ==> 0 <= #[trigger] origin[k] < species.len() && surviving(
                species,
            )[k] == species[origin[k]] && !stagnant(species[origin[k]]),
        forall|k: int, l: int| 0 <= k < l < origin.len() ==> origin[k] < origin[l],
        forall|j: int|
            0 <= j < species.len() && !stagnant(#[trigger] species[j]) ==> exists|k: int|
                0 <= k < origin.len() && origin[k] == j,
    decreases species.len(),
{
    if species.len() == 0 {
        Seq::empty()
    } else {
        let front = species.drop_last();
        let inner = lemma_surviving(front);
        let last = species.len() - 1;
        let origin = if stagnant(species.last()) {
            inner
        } else {
            inner.push(last)
        };
        assert forall|k: int| 0 <= k < origin.len() implies 0 <= #[trigger] origin[k]
            < species.len() && surviving(species)[k] == species[origin[k]] && !stagnant(
            species[origin[k]],
        ) by {
            if k < inner.len() {
                assert(origin[k] == inner[k]);
                assert(front[inner[k]] == species[inner[k]]);
            }
        }
        assert forall|j: int|
            0 <= j < species.len() && !stagnant(#[trigger] species[j]) implies exists|k: int|
            0 <= k < origin.len() && origin[k] == j by {
            if j < last {
                assert(front[j] == species[j]);
                let k = choose|k: int| 0 <= k < inner.len() && inner[k] == j;
                assert(origin[k] == j);
            } else {
                assert(origin[inner.len() as int] == j);
            }
        }
        origin
    }
}

/// Among surviving species ids stay distinct and members stay scored.
pub proof fn lemma_surviving_keeps<const INPUT_SZ: usize, const OUTPUT_SZ: usize>(
    species: Seq<Species<INPUT_SZ, OUTPUT_SZ>>,
    fitness: Seq<u64>,
)
    ensures
        ids_distinct(species) ==> ids_distinct(surviving(species)),
        (forall|j: int| 0 <= j < species.len() ==> scored((#[trigger] species[j]).members@, fitness))
            ==> (forall|k: int|
            0 <= k < surviving(species).len() ==> scored(
                (#[trigger] surviving(species)[k]).members@,
                fitness,
            )),
{
    let origin = lemma_surviving(species);
    let kept = surviving(species);
    if ids_distinct(species) {
        assert forall|k: int, l: int| 0 <= k < l < kept.len() implies (#[trigger] kept[k]).id != (
        #[trigger] kept[l]).id by {
            assert(origin[k] < origin[l]);
            assert(species[origin[k]].id != species[origin[l]].id);
        }
    }
    if forall|j: int| 0 <= j < species.len() ==> scored((#[trigger] species[j]).members@, fitness) {
        assert forall|k: int| 0 <= k < kept.len() implies scored(
            (#[trigger] kept[k]).members@,
            fitness,
        ) by {
            assert(kept[k] == species[origin[k]]);
        }
    }
}

impl<const INPUT_SZ: usize, const OUTPUT_SZ: usize> Population<INPUT_SZ, OUTPUT_SZ> {
    /// Every member is a well-formed genome whose genes carry the numbers
    /// that `numbers` records for their pairs of nodes.
    pub open spec fn follows(&self, numbers: Map<(usize, usize), usize>) -> bool {
        forall|i: int|
            0 <= i < self.members@.len() ==> (#[trigger] self.members@[i]).well_formed()
                && numbered_by(self.members@[i].connections@, numbers)
    }

    /// Drops every species that has not improved for 15 generations or
    /// more. The map from clients to species is left as it is.
    pub fn kill_stagnant_species(&mut self, speciation: &mut Speciation<INPUT_SZ, OUTPUT_SZ>)
        ensures
            *final(self) == *old(self),
            final(speciation).member_map == old(speciation).member_map,
            final(speciation).species@ == surviving(old(speciation).species@),
    {
        let ghost all = speciation.species@;
        let ghost mut seen: int = 0;
        let mut i: usize = 0;
        assert(all.take(0) =~= Seq::<Species<INPUT_SZ, OUTPUT_SZ>>::empty());
        assert(speciation.species@.skip(0) =~= all.skip(0));
        while i < speciation.species.len()
            invariant
                all == old(speciation).species@,
                speciation.member_map == old(speciation).member_map,
                0 <= seen <= all.len(),
                i <= speciation.species@.len(),
                speciation.species@.take(i as int) == surviving(all.take(seen)),
                speciation.species@.skip(i as int) == all.skip(seen),
            decreases speciation.species@.len() - i,
        {
            let ghost current = speciation.species@;
            proof {
                assert(current.skip(i as int).len() == all.skip(seen).len());
                assert(seen < all.len());
                assert(current.skip(i as int)[0] == current[i as int]);
                assert(all.skip(seen)[0] == all[seen]);
                assert(all.take(seen + 1).drop_last() =~= all.take(seen));
                assert(all.take(seen + 1).last() == all[seen]);
            }
            if speciation.species[i].since_last_improvement >= STAGNANT_THRESHOLD {
                speciation.species.remove(i);
                proof {
                    assert(speciation.species@.take(i as int) =~= current.take(i as int));
                    assert(speciation.species@.skip(i as int) =~= current.skip(i as int).skip(1));
                    assert(all.skip(seen).skip(1) =~= all.skip(seen + 1));
                    seen = seen + 1;
                }
            } else {
                proof {
                    assert(current.take(i + 1) =~= current.take(i as int).push(current[i as int]));
                    assert(current.skip(i as int).skip(1) =~= current.skip(i + 1));
                    assert(all.skip(seen).skip(1) =~= all.skip(seen + 1));
                    seen = seen + 1;
                }
                i += 1;
            }
        }
        proof {
            assert(speciation.species@.take(i as int) =~= speciation.species@);
            assert(all.skip(seen).len() == 0);
            assert(all.take(seen) =~= all);
        }
    }
}

/// A member is mutated in a generation with probability
/// `MUTATION_NUMERATOR / MUTATION_DENOMINATOR`, 0.2.
pub const MUTATION_NUMERATOR: u32 = 1;

/// See `MUTATION_NUMERATOR`.
pub const MUTATION_DENOMINATOR: u32 = 5;

/// Genes that carry the numbers of a record carry those of every record
/// that extends it.
pub proof fn lemma_numbered_by_extension<const INPUT_SZ: usize, const OUTPUT_SZ: usize>(
    genes: Seq<Connection<INPUT_SZ, OUTPUT_SZ>>,
    earlier: Map<(usize, usize), usize>,
    later: Map<(usize, usize), usize>,
)
    requires
        numbered_by(genes, earlier),
        extends(later, earlier),
    ensures
        numbered_by(genes, later),
{
    assert forall|i: int| 0 <= i < genes.len() implies later.contains_key(
        (#[trigger] genes[i]).endpoints(),
    ) && later[genes[i].endpoints()] == genes[i].innovation_number by {
        assert(earlier.contains_key(genes[i].endpoints()));
    }
}

/// Whether `after` and the record `map2`, `next2` come from `before` and the
/// record `map0`, `next0` by one round of mutation, as `Genome::mutate`
/// makes it.
pub open spec fn genome_mutated<const INPUT_SZ: usize, const OUTPUT_SZ: usize>(
    before: Genome<INPUT_SZ, OUTPUT_SZ>,
    map0: Map<(usize, usize), usize>,
    next0: usize,
    noise: Seq<i64>,
    after: Genome<INPUT_SZ, OUTPUT_SZ>,
    map2: Map<(usize, usize), usize>,
    next2: usize,
) -> bool {
    exists|
        reweighted: Seq<Connection<INPUT_SZ, OUTPUT_SZ>>,
        connected: Seq<Connection<INPUT_SZ, OUTPUT_SZ>>,
        map1: Map<(usize, usize), usize>,
        next1: usize,
    |
        #[trigger] mutation_round(
            before.connections@,
            before.hidden_nodes,
            map0,
            next0,
            noise,
            reweighted,
            connected,
            map1,
            next1,
            after.connections@,
            after.hidden_nodes,
            map2,
            next2,
        )
}

/// Whether the member was left as it was, with the record, or mutated.
pub open spec fn member_mutated<const INPUT_SZ: usize, const OUTPUT_SZ: usize>(
    before: Genome<INPUT_SZ, OUTPUT_SZ>,
    map0: Map<(usize, usize), usize>,
    next0: usize,
    noise: Seq<i64>,
    after: Genome<INPUT_SZ, OUTPUT_SZ>,
    map2: Map<(usize, usize), usize>,
    next2: usize,
) -> bool {
    (after == before && map2 == map0 && next2 == next0) || genome_mutated(
        before,
        map0,
        next0,
        noise,
        after,
        map2,
        next2,
    )
}

/// Whether the members `after` come from the members `before` by mutating
/// some of them in turn, the record passing through the states `maps` and
/// `nexts` on the way: state `i` is the record before member `i` has its
/// turn.
pub open spec fn members_mutated<const INPUT_SZ: usize, const OUTPUT_SZ: usize>(
    before: Seq<Genome<INPUT_SZ, OUTPUT_SZ>>,
    after: Seq<Genome<INPUT_SZ, OUTPUT_SZ>>,
    noise: Seq<i64>,
    maps: Seq<Map<(usize, usize), usize>>,
    nexts: Seq<usize>,
    count: int,
) -> bool {
    &&& maps.len() == count + 1
    &&& nexts.len() == count + 1
    &&& forall|i: int|
        0 <= i < count ==> member_mutated(
            before[i],
            maps[i],
            nexts[i],
            noise,
            #[trigger] after[i],
            maps[i + 1],
            nexts[i + 1],
        )
}

/// Whether the members `after` and the record `map2`, `next2` come from
/// the members `before` and the record `map0`, `next0` by one generation's
/// change: the species `sorted`, which are those that are not stagnant
/// with their members sorted, breed the genomes `bred`, as many as
/// `shares` allots to each, and these are then mutated in turn.
pub open spec fn evolved<const INPUT_SZ: usize, const OUTPUT_SZ: usize>(
    before: Seq<Genome<INPUT_SZ, OUTPUT_SZ>>,
    fitness: Seq<u64>,
    sorted: Seq<Species<INPUT_SZ, OUTPUT_SZ>>,
    shares: Seq<usize>,
    noise: Seq<i64>,
    map0: Map<(usize, usize), usize>,
    next0: usize,
    after: Seq<Genome<INPUT_SZ, OUTPUT_SZ>>,
    map2: Map<(usize, usize), usize>,
    next2: usize,
) -> bool {
    exists|
        bred: Seq<Genome<INPUT_SZ, OUTPUT_SZ>>,
        maps: Seq<Map<(usize, usize), usize>>,
        nexts: Seq<usize>,
    |
        {
            &&& reproduced(before, fitness, sorted, shares, bred)
            &&& #[trigger] members_mutated(bred, after, noise, maps, nexts, bred.len() as int)
            &&& maps[0] == map0
            &&& nexts[0] == next0
            &&& maps[bred.len() as int] == map2
            &&& nexts[bred.len() as int] == next2
        }
}

fn mutate_member<const INPUT_SZ: usize, const OUTPUT_SZ: usize>(
    members: &mut Vec<Genome<INPUT_SZ, OUTPUT_SZ>>,
    i: usize,
    rng: &mut StdRng,
    innovation_record: &mut InnovationRecord<INPUT_SZ, OUTPUT_SZ>,
    noise: &Vec<i64>,
)
    requires
        i < old(members)@.len(),
        old(members)@[i as int].node_count() <= usize::MAX,
        first_output(INPUT_SZ) < old(members)@[i as int].node_count(),
        old(innovation_record).well_formed(),
        noise@.len() > 0,
    ensures
        final(members)@.len() == old(members)@.len(),
        forall|j: int|
            0 <= j < old(members)@.len() && j != i ==> final(members)@[j] == old(members)@[j],
        final(innovation_record).well_formed(),
        extends(final(innovation_record)@, old(innovation_record)@),
        keeps_structure(old(members)@[i as int].connections@, final(members)@[i as int].connections@),
        genome_mutated(
            old(members)@[i as int],
            old(innovation_record)@,
            old(innovation_record).next(),
            noise@,
            final(members)@[i as int],
            final(innovation_record)@,
            final(innovation_record).next(),
        ),
        old(members)@[i as int].well_formed() ==> final(members)@[i as int].well_formed(),
        numbered_by(old(members)@[i as int].connections@, old(innovation_record)@) ==> numbered_by(
            final(members)@[i as int].connections@,
            final(innovation_record)@,
        ),
{
    members[i].mutate(rng, innovation_record, noise);
}

impl<const INPUT_SZ: usize, const OUTPUT_SZ: usize> Population<INPUT_SZ, OUTPUT_SZ> {
    /// A population of `target_size` minimal genomes with random weights,
    /// in generation 0. A target size of zero is refused, and so is a node
    /// layout whose bias, input and output nodes exceed the machine's
    /// numbers.
    pub fn new(
        rng: &mut StdRng,
        innovation_record: &mut InnovationRecord<INPUT_SZ, OUTPUT_SZ>,
        target_size: usize,
    ) -> (r: Result<Self, ConfigError>)
        requires
            old(innovation_record).well_formed(),
        ensures
            final(innovation_record).well_formed(),
            extends(final(innovation_record)@, old(innovation_record)@),
            r is Err <==> target_size == 0 || first_hidden(INPUT_SZ, OUTPUT_SZ) > usize::MAX,
            r matches Err(e) ==> e == (if target_size == 0 {
                ConfigError::ZeroTargetSize
            } else {
                ConfigError::TooManyNodes
            }) && final(innovation_record)@ == old(innovation_record)@
                && final(innovation_record).next() == old(innovation_record).next(),
            r matches Ok(population) ==> {
                &&& population.generation == 0
                &&& population.target_size == target_size
                &&& population.members@.len() == target_size
                &&& population.follows(final(innovation_record)@)
                &&& forall|i: int|
                    0 <= i < population.members@.len() ==> (
                    #[trigger] population.members@[i]).hidden_nodes == 0
                        && Genome::<INPUT_SZ, OUTPUT_SZ>::initial_genes(
                        population.members@[i].connections@,
                    ) && population.members@[i].connections@.len() == (INPUT_SZ + 1) * OUTPUT_SZ
            },
    {
        if target_size == 0 {
            return Err(ConfigError::ZeroTargetSize);
        }
        if INPUT_SZ >= usize::MAX - OUTPUT_SZ {
            return Err(ConfigError::TooManyNodes);
        }
        let mut members: Vec<Genome<INPUT_SZ, OUTPUT_SZ>> = Vec::new();
        let mut i: usize = 0;
        while i < target_size
            invariant
                i <= target_size,
                first_hidden(INPUT_SZ, OUTPUT_SZ) <= usize::MAX,
                innovation_record.well_formed(),
                extends(innovation_record@, old(innovation_record)@),
                members@.len() == i,
                forall|j: int|
                    0 <= j < i ==> {
                        let genome = #[trigger] members@[j];
                        &&& genome.well_formed()
                        &&& numbered_by(genome.connections@, innovation_record@)
                        &&& genome.hidden_nodes == 0
                        &&& Genome::<INPUT_SZ, OUTPUT_SZ>::initial_genes(genome.connections@)
                        &&& genome.connections@.len() == (INPUT_SZ + 1) * OUTPUT_SZ
                    },
            decreases target_size - i,
        {
            let ghost record0 = innovation_record@;
            let ghost made = members@;
            let genome = Genome::new_random_initial(rng, innovation_record);
            members.push(genome);
            proof {
                assert forall|j: int| 0 <= j < i + 1 implies {
                    let genome = #[trigger] members@[j];
                    &&& genome.well_formed()
                    &&& numbered_by(genome.connections@, innovation_record@)
                    &&& genome.hidden_nodes == 0
                    &&& Genome::<INPUT_SZ, OUTPUT_SZ>::initial_genes(genome.connections@)
                    &&& genome.connections@.len() == (INPUT_SZ + 1) * OUTPUT_SZ
                } by {
                    if j < i {
                        assert(members@[j] == made[j]);
                        lemma_numbered_by_extension(
                            made[j].connections@,
                            record0,
                            innovation_record@,
                        );
                    }
                }
                assert forall|p: (usize, usize)| #[trigger]
                    old(innovation_record)@.contains_key(p) implies innovation_record@.contains_key(
                    p,
                ) && innovation_record@[p] == old(innovation_record)@[p] by {
                    assert(record0.contains_key(p));
                }
            }
            i += 1;
        }
        Ok(Population { members, target_size, generation: 0 })
    }

    /// Scores every member, in the order of the client ids: the score of
    /// member `i` is what the environment answers when it is asked for it,
    /// after it was asked for the members before.
    pub fn evaluate<E: Environment<INPUT_SZ, OUTPUT_SZ>>(&self, env: &mut E) -> (r: Evaluation)
        ensures
            r.fitness@.len() == self.members@.len(),
            scored_by(*old(env), self.members@, r.fitness@, *final(env)),
    {
        let mut fitness: Vec<u64> = Vec::new();
        let ghost mut states: Seq<E> = seq![*env];
        let mut i: usize = 0;
        while i < self.members.len()
            invariant
                i <= self.members.len(),
                fitness@.len() == i,
                states.len() == i + 1,
                states[0] == *old(env),
                states[i as int] == *env,
                forall|j: int|
                    0 <= j < i ==> (#[trigger] states[j]).answers(self.members@[j], fitness@[j]),
            decreases self.members.len() - i,
        {
            let ghost reached = states;
            let ghost scores = fitness@;
            let score = env.evaluate(&self.members[i]);
            fitness.push(score);
            proof {
                states = states.push(*env);
                assert forall|j: int| 0 <= j < i + 1 implies (#[trigger] states[j]).answers(
                    self.members@[j],
                    fitness@[j],
                ) by {
                    assert(states[j] == reached[j]);
                    if j < i {
                        assert(fitness@[j] == scores[j]);
                    }
                }
            }
            i += 1;
        }
        proof {
            assert(asked_in_turn(states, self.members@, fitness@));
        }
        Evaluation { fitness }
    }

    /// Mutates each member with probability 0.2, as `Genome::mutate` does.
    pub fn mutate(
        &mut self,
        rng: &mut StdRng,
        innovation_record: &mut InnovationRecord<INPUT_SZ, OUTPUT_SZ>,
        noise: &Vec<i64>,
    )
        requires
            OUTPUT_SZ > 0,
            old(self).follows(old(innovation_record)@),
            old(innovation_record).well_formed(),
            noise@.len() > 0,
        ensures
            final(self).target_size == old(self).target_size,
            final(self).generation == old(self).generation,
            final(self).members@.len() == old(self).members@.len(),
            exists|maps: Seq<Map<(usize, usize), usize>>, nexts: Seq<usize>|
                {
                    &&& #[trigger] members_mutated(
                        old(self).members@,
                        final(self).members@,
                        noise@,
                        maps,
                        nexts,
                        old(self).members@.len() as int,
                    )
                    &&& maps[0] == old(innovation_record)@
                    &&& nexts[0] == old(innovation_record).next()
                    &&& maps[old(self).members@.len() as int] == final(innovation_record)@
                    &&& nexts[old(self).members@.len() as int] == final(innovation_record).next()
                },
            forall|i: int|
                0 <= i < old(self).members@.len() ==> keeps_structure(
                    old(self).members@[i].connections@,
                    (#[trigger] final(self).members@[i]).connections@,
                ),
            final(innovation_record).well_formed(),
            extends(final(innovation_record)@, old(innovation_record)@),
            final(self).follows(final(innovation_record)@),
    {
        let mut i: usize = 0;
        let ghost mut maps: Seq<Map<(usize, usize), usize>> = seq![innovation_record@];
        let ghost mut nexts: Seq<usize> = seq![innovation_record.next()];
        while i < self.members.len()
            invariant
                members_mutated(old(self).members@, self.members@, noise@, maps, nexts, i as int),
                maps[0] == old(innovation_record)@,
                nexts[0] == old(innovation_record).next(),
                maps[i as int] == innovation_record@,
                nexts[i as int] == innovation_record.next(),
                forall|j: int|
                    i <= j < self.members@.len() ==> self.members@[j] == old(self).members@[j],
                OUTPUT_SZ > 0,
                noise@.len() > 0,
                self.target_size == old(self).target_size,
                self.generation == old(self).generation,
                self.members@.len() == old(self).members@.len(),
                i <= self.members@.len(),
                innovation_record.well_formed(),
                extends(innovation_record@, old(innovation_record)@),
                self.follows(innovation_record@),
                forall|j: int|
                    0 <= j < old(self).members@.len() ==> keeps_structure(
                        old(self).members@[j].connections@,
                        (#[trigger] self.members@[j]).connections@,
                    ),
            decreases self.members@.len() - i,
        {
            let ghost reached = self.members@;
            let ghost old_maps = maps;
            let ghost old_nexts = nexts;
            if draw_ratio(rng, MUTATION_NUMERATOR, MUTATION_DENOMINATOR) {
                let ghost before = self.members@;
                let ghost record0 = innovation_record@;
                assert(before[i as int].well_formed());
                mutate_member(&mut self.members, i, rng, innovation_record, noise);
                proof {
                    let after = self.members@;
                    assert forall|j: int| 0 <= j < after.len() implies (
                    #[trigger] after[j]).well_formed() && numbered_by(
                        after[j].connections@,
                        innovation_record@,
                    ) by {
                        assert(before[j].well_formed());
                        if j != i {
                            assert(after[j] == before[j]);
                            lemma_numbered_by_extension(
                                before[j].connections@,
                                record0,
                                innovation_record@,
                            );
                        }
                    }
                    assert forall|j: int| 0 <= j < old(self).members@.len() implies keeps_structure(
                        old(self).members@[j].connections@,
                        (#[trigger] after[j]).connections@,
                    ) by {
                        let first = old(self).members@[j].connections@;
                        let middle = before[j].connections@;
                        assert(keeps_structure(first, middle));
                        if j == i {
                            let last = after[j].connections@;
                            assert forall|x: int| 0 <= x < first.len() implies (
                            #[trigger] last[x]).endpoints() == first[x].endpoints()
                                && last[x].innovation_number == first[x].innovation_number by {
                                assert(middle[x].endpoints() == first[x].endpoints());
                            }
                        } else {
                            assert(after[j] == before[j]);
                        }
                    }
                    assert forall|p: (usize, usize)| #[trigger]
                        old(innovation_record)@.contains_key(
                            p,
                        ) implies innovation_record@.contains_key(p) && innovation_record@[p]
                        == old(innovation_record)@[p] by {
                        assert(record0.contains_key(p));
                    }
                }
            }
            proof {
                maps = maps.push(innovation_record@);
                nexts = nexts.push(innovation_record.next());
                let after = self.members@;
                assert forall|j: int| 0 <= j < i + 1 implies member_mutated(
                    old(self).members@[j],
                    maps[j],
                    nexts[j],
                    noise@,
                    #[trigger] after[j],
                    maps[j + 1],
                    nexts[j + 1],
                ) by {
                    if j < i {
                        assert(after[j] == reached[j]);
                        assert(maps[j] == old_maps[j] && maps[j + 1] == old_maps[j + 1]);
                        assert(nexts[j] == old_nexts[j] && nexts[j + 1] == old_nexts[j + 1]);
                        assert(member_mutated(
                            old(self).members@[j],
                            old_maps[j],
                            old_nexts[j],
                            noise@,
                            reached[j],
                            old_maps[j + 1],
                            old_nexts[j + 1],
                        ));
                    } else {
                        assert(reached[j] == old(self).members@[j]);
                        assert(maps[j] == old_maps[j]);
                        assert(nexts[j] == old_nexts[j]);
                    }
                }
                assert forall|j: int| i + 1 <= j < after.len() implies after[j] == old(
                    self,
                ).members@[j] by {
                    assert(after[j] == reached[j]);
                }
            }
            i += 1;
        }
    }

    /// One generation's change of the population: the stagnant species
    /// are dropped, the members are replaced by the offspring of the
    /// others, and the new members are mutated. Where a species is left,
    /// and not more of them than the target size, the population has the
    /// target size afterwards.
    pub fn evolve(
        &mut self,
        evaluation: &Evaluation,
        speciation: &mut Speciation<INPUT_SZ, OUTPUT_SZ>,
        rng: &mut StdRng,
        innovation_record: &mut InnovationRecord<INPUT_SZ, OUTPUT_SZ>,
        noise: &Vec<i64>,
    )
        requires
            OUTPUT_SZ > 0,
            old(self).follows(old(innovation_record)@),
            old(innovation_record).well_formed(),
            noise@.len() > 0,
            evaluation.fitness@.len() == old(self).members@.len(),
            forall|k: int|
                0 <= k < old(speciation).species@.len() ==> scored(
                    (#[trigger] old(speciation).species@[k]).members@,
                    evaluation.fitness@,
                ),
        ensures
            final(self).target_size == old(self).target_size,
            final(self).generation == old(self).generation,
            final(self).members@.len() == total_size(
                offspring(
                    surviving(old(speciation).species@),
                    evaluation.fitness@,
                    old(self).target_size,
                ),
            ),
            0 < surviving(old(speciation).species@).len() <= old(self).target_size ==> final(self).members@.len() == old(self).target_size,
            final(speciation).member_map == old(speciation).member_map,
            sorted_species(
                surviving(old(speciation).species@),
                final(speciation).species@,
                evaluation.fitness@,
                surviving(old(speciation).species@).len() as int,
            ),
            evolved(
                old(self).members@,
                evaluation.fitness@,
                final(speciation).species@,
                offspring(
                    surviving(old(speciation).species@),
                    evaluation.fitness@,
                    old(self).target_size,
                ),
                noise@,
                old(innovation_record)@,
                old(innovation_record).next(),
                final(self).members@,
                final(innovation_record)@,
                final(innovation_record).next(),
            ),
            ids_distinct(old(speciation).species@) ==> usable_history(
                final(speciation).species@,
                Some(evaluation.fitness@),
            ),
            final(innovation_record).well_formed(),
            extends(final(innovation_record)@, old(innovation_record)@),
            final(self).follows(final(innovation_record)@),
    {
        proof {
            lemma_surviving_keeps(old(speciation).species@, evaluation.fitness@);
            innovation_record.lemma_consistent();
            lemma_offspring_sum(
                surviving(old(speciation).species@),
                evaluation.fitness@,
                self.target_size,
            );
        }
        self.kill_stagnant_species(speciation);
        self.reproduce(evaluation, speciation, rng);
        proof {
            if ids_distinct(old(speciation).species@) {
                lemma_sorted_species_usable(
                    surviving(old(speciation).species@),
                    speciation.species@,
                    evaluation.fitness@,
                );
            }
        }
        let ghost bred = self.members@;
        proof {
            assert forall|i: int| 0 <= i < self.members@.len() implies (
            #[trigger] self.members@[i]).well_formed() && numbered_by(
                self.members@[i].connections@,
                innovation_record@,
            ) by {
                assert(crate::reproduce::inherits(self.members@[i], old(self).members@));
                assert(crate::innovation::registry_consistent(
                    innovation_record@,
                    innovation_record.next(),
                ));
            }
        }
        self.mutate(rng, innovation_record, noise);
    }
}

impl<const INPUT_SZ: usize, const OUTPUT_SZ: usize> Clone for Population<INPUT_SZ, OUTPUT_SZ> {
    fn clone(&self) -> (r: Self)
        ensures
            r.target_size == self.target_size,
            r.generation == self.generation,
            r.members@.len() == self.members@.len(),
            forall|i: int|
                0 <= i < self.members@.len() ==> (#[trigger] r.members@[i]).connections@
                    == self.members@[i].connections@ && r.members@[i].hidden_nodes
                    == self.members@[i].hidden_nodes,
    {
        let mut members: Vec<Genome<INPUT_SZ, OUTPUT_SZ>> = Vec::new();
        let mut i: usize = 0;
        while i < self.members.len()
            invariant
                i <= self.members.len(),
                members@.len() == i,
                forall|k: int|
                    0 <= k < i ==> (#[trigger] members@[k]).connections@
                        == self.members@[k].connections@ && members@[k].hidden_nodes
                        == self.members@[k].hidden_nodes,
            decreases self.members.len() - i,
        {
            let copy = self.members[i].clone();
            let ghost made = members@;
            members.push(copy);
            proof {
                assert forall|k: int| 0 <= k < i + 1 implies (#[trigger] members@[k]).connections@
                    == self.members@[k].connections@ && members@[k].hidden_nodes
                    == self.members@[k].hidden_nodes by {
                    if k < i {
                        assert(members@[k] == made[k]);
                    }
                }
            }
            i += 1;
        }
        Population { members, target_size: self.target_size, generation: self.generation }
    }
}

} // verus!
