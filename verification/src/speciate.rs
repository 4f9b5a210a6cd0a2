use crate::connection::Connection;
use crate::distance::{compatibility_distance, innovation_span, tabled, TABLE_LIMIT};
use crate::evaluation::{highest, scores_of, Evaluation};
use crate::genome::Genome;
use crate::population::Population;
use crate::random::draw_u64;
use crate::speciation::{
    fresh_id, has_id, ids_distinct, lemma_place_of_id, offset_id, partitions, place_among,
    place_of_id, rising, total_members, Speciation,
};
use crate::species::{Species, COMPATIBILITY_THRESHOLD};
use rand::rngs::StdRng;
use vstd::prelude::*;

verus! {

/// Whether genes are close enough to the representative of `species` to join it.
pub open spec fn compatible<const INPUT_SZ: usize, const OUTPUT_SZ: usize>(
    species: Species<INPUT_SZ, OUTPUT_SZ>,
    genes: Seq<Connection<INPUT_SZ, OUTPUT_SZ>>,
) -> bool {
    compatibility_distance(species.representative.connections@, genes) < COMPATIBILITY_THRESHOLD
}

/// The place of the first species that the genes are compatible with, the
/// number of species if there is none.
pub open spec fn first_compatible<const INPUT_SZ: usize, const OUTPUT_SZ: usize>(
    species: Seq<Species<INPUT_SZ, OUTPUT_SZ>>,
    genes: Seq<Connection<INPUT_SZ, OUTPUT_SZ>>,
) -> int
    decreases species.len(),
{
    if species.len() == 0 {
        0
    } else if compatible(species[0], genes) {
        0
    } else {
        1 + first_compatible(species.skip(1), genes)
    }
}

/// `first_compatible` is the least place of a compatible species.
pub proof fn lemma_first_compatible<const INPUT_SZ: usize, const OUTPUT_SZ: usize>(
    species: Seq<Species<INPUT_SZ, OUTPUT_SZ>>,
    genes: Seq<Connection<INPUT_SZ, OUTPUT_SZ>>,
)
    ensures
        0 <= first_compatible(species, genes) <= species.len(),
        first_compatible(species, genes) < species.len() ==> compatible(
            species[first_compatible(species, genes)],
            genes,
        ),
        forall|j: int|
            0 <= j < first_compatible(species, genes) ==> !compatible(#[trigger] species[j], genes),
    decreases species.len(),
{
    if species.len() == 0 {
    } else if compatible(species[0], genes) {
    } else {
        lemma_first_compatible(species.skip(1), genes);
        assert forall|j: int| 0 <= j < first_compatible(species, genes) implies !compatible(
            #[trigger] species[j],
            genes,
        ) by {
            if j > 0 {
                assert(species.skip(1)[j - 1] == species[j]);
            }
        }
    }
}

/// One more than `x`, unless `x` is the largest number of its type.
pub open spec fn next_count(x: usize) -> usize {
    if x < usize::MAX {
        (x + 1) as usize
    } else {
        x
    }
}

/// The best fitness that the members of `previous` reached in the last
/// evaluation; without an evaluation, the best that the species has on
/// record.
pub open spec fn observed_fitness<const INPUT_SZ: usize, const OUTPUT_SZ: usize>(
    previous: Species<INPUT_SZ, OUTPUT_SZ>,
    last_fitness: Option<Seq<u64>>,
) -> u64 {
    match last_fitness {
        Some(fitness) => highest(scores_of(fitness, previous.members@)),
        None => previous.max_fitness,
    }
}

/// `species` carries `previous` on into the next generation: same id, one
/// generation older, its record raised to `observed` if that is higher, and
/// its count of generations without improvement reset if so, else one more.
pub open spec fn succeeds<const INPUT_SZ: usize, const OUTPUT_SZ: usize>(
    species: Species<INPUT_SZ, OUTPUT_SZ>,
    previous: Species<INPUT_SZ, OUTPUT_SZ>,
    observed: u64,
) -> bool {
    &&& species.id == previous.id
    &&& species.age == next_count(previous.age)
    &&& species.max_fitness == if observed > previous.max_fitness {
        observed
    } else {
        previous.max_fitness
    }
    &&& species.since_last_improvement == if observed > previous.max_fitness {
        0
    } else {
        next_count(previous.since_last_improvement)
    }
}

/// `species` is new in this generation.
pub open spec fn founded<const INPUT_SZ: usize, const OUTPUT_SZ: usize>(
    species: Species<INPUT_SZ, OUTPUT_SZ>,
) -> bool {
    &&& species.age == 0
    &&& species.max_fitness == 0
    &&& species.since_last_improvement == 0
    &&& species.members@.len() == 1
}

/// The representative of `species` is the genome of its first member.
pub open spec fn represents<const INPUT_SZ: usize, const OUTPUT_SZ: usize>(
    species: Species<INPUT_SZ, OUTPUT_SZ>,
    genomes: Seq<Genome<INPUT_SZ, OUTPUT_SZ>>,
) -> bool {
    &&& species.members@.len() > 0
    &&& species.members@[0] < genomes.len()
    &&& species.representative.connections@ == genomes[species.members@[0] as int].connections@
    &&& species.representative.hidden_nodes == genomes[species.members@[0] as int].hidden_nodes
}

/// Whether `species` and `member_map` are the speciation of the first
/// `count` of `genomes` against the species `last` of the generation
/// before.
///
/// They partition the clients below `count`. A client whose genome is
/// compatible with a species of `last` is in the successor of the first
/// such species, under its id; any other client is the only member of a
/// species of its own, whose id no species of `last` has. A species is
/// represented by the genome of its first member, and the species stand in
/// the order of their first members.
pub open spec fn speciated<const INPUT_SZ: usize, const OUTPUT_SZ: usize>(
    genomes: Seq<Genome<INPUT_SZ, OUTPUT_SZ>>,
    last: Seq<Species<INPUT_SZ, OUTPUT_SZ>>,
    last_fitness: Option<Seq<u64>>,
    species: Seq<Species<INPUT_SZ, OUTPUT_SZ>>,
    member_map: Seq<u64>,
    count: int,
) -> bool {
    &&& partitions(species, member_map, count)
    &&& forall|c: int|
        0 <= c < count ==> {
            let j = first_compatible(last, (#[trigger] genomes[c]).connections@);
            &&& j < last.len() ==> member_map[c] == last[j].id
            &&& j == last.len() ==> !has_id(last, member_map[c])
        }
    &&& forall|k: int|
        0 <= k < species.len() ==> {
            let s = #[trigger] species[k];
            &&& represents(s, genomes)
            &&& has_id(last, s.id) ==> succeeds(
                s,
                last[place_of_id(last, s.id)],
                observed_fitness(last[place_of_id(last, s.id)], last_fitness),
            )
            &&& !has_id(last, s.id) ==> founded(s)
        }
    &&& forall|k: int, l: int|
        0 <= k < l < species.len() ==> (#[trigger] species[k]).members@[0] < (
        #[trigger] species[l]).members@[0]
}

/// What `speciate` asks of the speciation of the generation before: its
/// species have different ids, and each has members that the evaluation of
/// that generation, if there is one, has scored.
pub open spec fn usable_history<const INPUT_SZ: usize, const OUTPUT_SZ: usize>(
    last: Seq<Species<INPUT_SZ, OUTPUT_SZ>>,
    last_fitness: Option<Seq<u64>>,
) -> bool {
    &&& ids_distinct(last)
    &&& last_fitness matches Some(fitness) ==> forall|j: int|
        0 <= j < last.len() ==> scored((#[trigger] last[j]).members@, fitness)
}

/// There are members, and each has a score.
pub open spec fn scored(members: Seq<usize>, fitness: Seq<u64>) -> bool {
    &&& members.len() > 0
    &&& forall|m: int| 0 <= m < members.len() ==> members[m] < fitness.len()
}

/// The species of a partition of `population` clients have members, and
/// scores for `population` clients score them all.
pub proof fn lemma_partition_scored<const INPUT_SZ: usize, const OUTPUT_SZ: usize>(
    species: Seq<Species<INPUT_SZ, OUTPUT_SZ>>,
    member_map: Seq<u64>,
    population: int,
    fitness: Seq<u64>,
)
    requires
        partitions(species, member_map, population),
        fitness.len() == population,
    ensures
        forall|k: int| 0 <= k < species.len() ==> scored((#[trigger] species[k]).members@, fitness),
        usable_history(species, Some(fitness)),
        usable_history(species, None),
{
    assert forall|k: int| 0 <= k < species.len() implies scored(
        (#[trigger] species[k]).members@,
        fitness,
    ) by {
        let members = species[k].members@;
        assert(members.len() > 0);
        assert forall|m: int| 0 <= m < members.len() implies members[m] < fitness.len() by {
            assert(species[k].members@[m] < population);
        }
    }
}

/// Whether `tables` holds, for each of the species, a table by number of
/// the genes of its representative, with `size` entries and reaching beyond
/// every number that those genes carry.
pub open spec fn representatives_tabled<const INPUT_SZ: usize, const OUTPUT_SZ: usize>(
    species: Seq<Species<INPUT_SZ, OUTPUT_SZ>>,
    tables: Seq<Vec<usize>>,
    size: usize,
) -> bool {
    &&& tables.len() == species.len()
    &&& forall|j: int|
        0 <= j < species.len() ==> {
            &&& (#[trigger] tables[j])@.len() == size
            &&& tabled(species[j].representative.connections@, tables[j]@)
            &&& innovation_span(species[j].representative.connections@) <= size
        }
}

/// Tables of `size` entries for the representatives of the species, if
/// every number that a gene of theirs carries is below `size`.
pub fn table_representatives<const INPUT_SZ: usize, const OUTPUT_SZ: usize>(
    species: &Vec<Species<INPUT_SZ, OUTPUT_SZ>>,
    size: usize,
) -> (r: Option<Vec<Vec<usize>>>)
    ensures
        r matches Some(tables) ==> representatives_tabled(species@, tables@, size),
{
    let mut tables: Vec<Vec<usize>> = Vec::new();
    let mut j: usize = 0;
    while j < species.len()
        invariant
            j <= species@.len(),
            tables@.len() == j,
            forall|k: int|
                0 <= k < j ==> {
                    &&& (#[trigger] tables@[k])@.len() == size
                    &&& tabled(species@[k].representative.connections@, tables@[k]@)
                    &&& innovation_span(species@[k].representative.connections@) <= size
                },
        decreases species@.len() - j,
    {
        match species[j].representative.number_table(size) {
            None => {
                return None;
            },
            Some(table) => {
                let ghost made = tables@;
                tables.push(table);
                proof {
                    assert forall|k: int| 0 <= k < j + 1 implies {
                        &&& (#[trigger] tables@[k])@.len() == size
                        &&& tabled(species@[k].representative.connections@, tables@[k]@)
                        &&& innovation_span(species@[k].representative.connections@) <= size
                    } by {
                        if k < j {
                            assert(tables@[k] == made[k]);
                        }
                    }
                }
            },
        }
        j += 1;
    }
    Some(tables)
}

/// The place of the first of `species` that `genome` is compatible with,
/// found with the help of tables for the representatives.
pub fn first_compatible_tabled<const INPUT_SZ: usize, const OUTPUT_SZ: usize>(
    species: &Vec<Species<INPUT_SZ, OUTPUT_SZ>>,
    tables: &Vec<Vec<usize>>,
    size: usize,
    genome: &Genome<INPUT_SZ, OUTPUT_SZ>,
) -> (r: usize)
    requires
        representatives_tabled(species@, tables@, size),
    ensures
        r == first_compatible(species@, genome.connections@),
        r <= species@.len(),
{
    match genome.number_table(size) {
        None => first_compatible_index(species, genome),
        Some(theirs) => {
            let mut i: usize = 0;
            proof {
                assert(species@.skip(0) =~= species@);
            }
            while i < species.len()
                invariant
                    i <= species.len(),
                    representatives_tabled(species@, tables@, size),
                    theirs@.len() == size,
                    tabled(genome.connections@, theirs@),
                    innovation_span(genome.connections@) <= size,
                    first_compatible(species@, genome.connections@) == i + first_compatible(
                        species@.skip(i as int),
                        genome.connections@,
                    ),
                decreases species.len() - i,
            {
                proof {
                    assert(species@.skip(i as int).skip(1) =~= species@.skip(i + 1));
                    assert(species@.skip(i as int)[0] == species@[i as int]);
                    assert(tables@[i as int]@.len() == size);
                }
                let distance = species[i].representative.distance_tabled(
                    &tables[i],
                    genome,
                    &theirs,
                );
                if distance < COMPATIBILITY_THRESHOLD as u128 {
                    return i;
                }
                i += 1;
            }
            i
        },
    }
}

fn table_size<const INPUT_SZ: usize, const OUTPUT_SZ: usize>(
    species: &Vec<Species<INPUT_SZ, OUTPUT_SZ>>,
    genomes: &Vec<Genome<INPUT_SZ, OUTPUT_SZ>>,
) -> (r: usize)
    ensures
        r <= TABLE_LIMIT,
{
    let mut size: u128 = 0;
    let mut j: usize = 0;
    while j < species.len()
        invariant
            j <= species@.len(),
            size <= TABLE_LIMIT,
        decreases species@.len() - j,
    {
        let span = species[j].representative.span();
        if span > size && span <= TABLE_LIMIT {
            size = span;
        }
        j += 1;
    }
    let mut i: usize = 0;
    while i < genomes.len()
        invariant
            i <= genomes@.len(),
            size <= TABLE_LIMIT,
        decreases genomes@.len() - i,
    {
        let span = genomes[i].span();
        if span > size && span <= TABLE_LIMIT {
            size = span;
        }
        i += 1;
    }
    size as usize
}

/// The place of the first of `species` that `genome` is compatible with.
pub fn first_compatible_index<const INPUT_SZ: usize, const OUTPUT_SZ: usize>(
    species: &Vec<Species<INPUT_SZ, OUTPUT_SZ>>,
    genome: &Genome<INPUT_SZ, OUTPUT_SZ>,
) -> (r: usize)
    ensures
        r == first_compatible(species@, genome.connections@),
        r <= species@.len(),
{
    let mut i: usize = 0;
    proof {
        assert(species@.skip(0) =~= species@);
    }
    while i < species.len()
        invariant
            i <= species.len(),
            first_compatible(species@, genome.connections@) == i + first_compatible(
                species@.skip(i as int),
                genome.connections@,
            ),
        decreases species.len() - i,
    {
        proof {
            assert(species@.skip(i as int).skip(1) =~= species@.skip(i + 1));
            assert(species@.skip(i as int)[0] == species@[i as int]);
        }
        if species[i].is_compatible(genome) {
            return i;
        }
        i += 1;
    }
    i
}

fn enlist<const INPUT_SZ: usize, const OUTPUT_SZ: usize>(
    species: &mut Vec<Species<INPUT_SZ, OUTPUT_SZ>>,
    k: usize,
    member: usize,
)
    requires
        k < old(species)@.len(),
    ensures
        final(species)@.len() == old(species)@.len(),
        forall|j: int|
            0 <= j < old(species)@.len() && j != k ==> final(species)@[j] == old(species)@[j],
        final(species)@[k as int].members@ == old(species)@[k as int].members@.push(member),
        final(species)@[k as int].id == old(species)@[k as int].id,
        final(species)@[k as int].age == old(species)@[k as int].age,
        final(species)@[k as int].max_fitness == old(species)@[k as int].max_fitness,
        final(species)@[k as int].since_last_improvement == old(
            species,
        )@[k as int].since_last_improvement,
        final(species)@[k as int].representative == old(species)@[k as int].representative,
{
    species[k].members.push(member);
}

/// Adding a member to one species adds one to the number of all members.
pub proof fn lemma_total_members_enlist<const INPUT_SZ: usize, const OUTPUT_SZ: usize>(
    before: Seq<Species<INPUT_SZ, OUTPUT_SZ>>,
    after: Seq<Species<INPUT_SZ, OUTPUT_SZ>>,
    k: int,
)
    requires
        0 <= k < before.len(),
        after.len() == before.len(),
        forall|j: int| 0 <= j < before.len() && j != k ==> after[j] == before[j],
        after[k].members@.len() == before[k].members@.len() + 1,
    ensures
        total_members(after) == total_members(before) + 1,
    decreases before.len(),
{
    if k == before.len() - 1 {
        assert(after.drop_last() =~= before.drop_last());
    } else {
        lemma_total_members_enlist(before.drop_last(), after.drop_last(), k);
    }
}

/// Adding a species does not move the first species with an id that
/// another species had already.
pub proof fn lemma_place_of_id_push<const INPUT_SZ: usize, const OUTPUT_SZ: usize>(
    species: Seq<Species<INPUT_SZ, OUTPUT_SZ>>,
    added: Species<INPUT_SZ, OUTPUT_SZ>,
    id: u64,
)
    ensures
        has_id(species, id) ==> place_of_id(species.push(added), id) == place_of_id(species, id),
        !has_id(species, id) && added.id == id ==> place_of_id(species.push(added), id)
            == species.len(),
        !has_id(species, id) && added.id != id ==> !has_id(species.push(added), id),
    decreases species.len(),
{
    let longer = species.push(added);
    if species.len() == 0 {
        assert(longer.skip(1).len() == 0);
        assert(place_of_id(longer.skip(1), id) == 0);
        assert(longer[0] == added);
    } else if species[0].id == id {
        assert(longer[0] == species[0]);
    } else {
        lemma_place_of_id_push(species.skip(1), added, id);
        assert(longer.skip(1) =~= species.skip(1).push(added));
        assert(longer[0] == species[0]);
    }
}

/// A change to the members of species does not move the place of any id.
pub proof fn lemma_place_of_id_same_ids<const INPUT_SZ: usize, const OUTPUT_SZ: usize>(
    before: Seq<Species<INPUT_SZ, OUTPUT_SZ>>,
    after: Seq<Species<INPUT_SZ, OUTPUT_SZ>>,
    id: u64,
)
    requires
        after.len() == before.len(),
        forall|j: int| 0 <= j < before.len() ==> (#[trigger] after[j]).id == before[j].id,
    ensures
        place_of_id(after, id) == place_of_id(before, id),
    decreases before.len(),
{
    if before.len() > 0 {
        assert(after[0].id == before[0].id);
        if before[0].id != id {
            assert forall|j: int| 0 <= j < before.skip(1).len() implies (
            #[trigger] after.skip(1)[j]).id == before.skip(1)[j].id by {
                assert(after[j + 1].id == before[j + 1].id);
            }
            lemma_place_of_id_same_ids(before.skip(1), after.skip(1), id);
        }
    }
}

/// The speciation of `count` genomes remains one when the next genome joins
/// the species at place `k`, the successor of the first species of `last`
/// that it is compatible with.
pub proof fn lemma_speciated_join<const INPUT_SZ: usize, const OUTPUT_SZ: usize>(
    genomes: Seq<Genome<INPUT_SZ, OUTPUT_SZ>>,
    last: Seq<Species<INPUT_SZ, OUTPUT_SZ>>,
    last_fitness: Option<Seq<u64>>,
    before: Seq<Species<INPUT_SZ, OUTPUT_SZ>>,
    member_map: Seq<u64>,
    count: int,
    k: int,
    after: Seq<Species<INPUT_SZ, OUTPUT_SZ>>,
)
    requires
        speciated(genomes, last, last_fitness, before, member_map, count),
        0 <= count < genomes.len(),
        count < usize::MAX,
        first_compatible(last, genomes[count].connections@) < last.len(),
        k == place_of_id(before, last[first_compatible(last, genomes[count].connections@)].id),
        0 <= k < before.len(),
        after.len() == before.len(),
        forall|j: int| 0 <= j < before.len() && j != k ==> after[j] == before[j],
        after[k].members@ == before[k].members@.push(count as usize),
        after[k].id == before[k].id,
        after[k].age == before[k].age,
        after[k].max_fitness == before[k].max_fitness,
        after[k].since_last_improvement == before[k].since_last_improvement,
        after[k].representative == before[k].representative,
    ensures
        speciated(
            genomes,
            last,
            last_fitness,
            after,
            member_map.push(last[first_compatible(last, genomes[count].connections@)].id),
            count + 1,
        ),
{
    lemma_first_compatible(last, genomes[count].connections@);
    let id = last[first_compatible(last, genomes[count].connections@)].id;
    let map = member_map.push(id);
    lemma_place_of_id(before, id);
    assert forall|j: int| 0 <= j < before.len() implies (#[trigger] after[j]).id
        == before[j].id by {}
    assert(ids_distinct(after)) by {
        assert forall|i: int, j: int| 0 <= i < j < after.len() implies (#[trigger] after[i]).id != (
        #[trigger] after[j]).id by {
            assert(before[i].id != before[j].id);
        }
    }
    assert forall|p: int, m: int| 0 <= p < after.len() && 0 <= m < after[p].members@.len() implies (
    #[trigger] after[p].members@[m]) < count + 1 && map[after[p].members@[m] as int]
        == after[p].id by {
        if p != k || m < before[k].members@.len() {
            assert(after[p].members@[m] == before[p].members@[m]);
            assert(before[p].members@[m] < count);
        }
    }
    assert forall|c: int| 0 <= c < count + 1 implies has_id(after, #[trigger] map[c])
        && after[place_of_id(after, map[c])].members@.contains(c as usize) by {
        lemma_place_of_id_same_ids(before, after, map[c]);
        lemma_place_of_id(before, map[c]);
        if c < count {
            assert(map[c] == member_map[c]);
            let p = place_of_id(before, member_map[c]);
            assert(before[p].members@.contains(c as usize));
            let w = choose|w: int| 0 <= w < before[p].members@.len() && before[p].members@[w] == c;
            assert(after[p].members@[w] == c);
        } else {
            assert(after[k].members@[before[k].members@.len() as int] == c);
        }
    }
    assert forall|p: int| 0 <= p < after.len() implies (#[trigger] after[p]).members@.len() > 0
        && rising(after[p].members@) by {
        assert(before[p].members@.len() > 0 && rising(before[p].members@));
        if p == k {
            assert forall|i: int, j: int| 0 <= i < j < after[p].members@.len() implies after[p].members@[i]
                < after[p].members@[j] by {
                assert(after[p].members@[i] == before[p].members@[i]);
                assert(before[p].members@[i] < count);
                if j < before[p].members@.len() {
                    assert(after[p].members@[j] == before[p].members@[j]);
                }
            }
        }
    }
    lemma_total_members_enlist(before, after, k);
    assert(partitions(after, map, count + 1));
    assert forall|c: int| 0 <= c < count + 1 implies {
        let j = first_compatible(last, (#[trigger] genomes[c]).connections@);
        &&& j < last.len() ==> map[c] == last[j].id
        &&& j == last.len() ==> !has_id(last, map[c])
    } by {
        if c < count {
            assert(map[c] == member_map[c]);
        }
    }
    assert forall|p: int| 0 <= p < after.len() implies {
        let s = #[trigger] after[p];
        &&& represents(s, genomes)
        &&& has_id(last, s.id) ==> succeeds(
            s,
            last[place_of_id(last, s.id)],
            observed_fitness(last[place_of_id(last, s.id)], last_fitness),
        )
        &&& !has_id(last, s.id) ==> founded(s)
    } by {
        let b = before[p];
        assert(represents(b, genomes));
        if p == k {
            assert(after[p].members@[0] == b.members@[0]);
            assert(has_id(last, b.id)) by {
                lemma_place_of_id(last, b.id);
                let j = first_compatible(last, genomes[count].connections@);
                if place_of_id(last, b.id) > j {
                    assert(last[j].id != b.id);
                }
            }
        }
    }
    assert forall|p: int, l: int| 0 <= p < l < after.len() implies (
    #[trigger] after[p]).members@[0] < (#[trigger] after[l]).members@[0] by {
        assert(before[p].members@[0] < before[l].members@[0]);
        assert(before[p].members@.len() > 0);
        assert(before[l].members@.len() > 0);
        assert(after[p].members@[0] == before[p].members@[0]);
        assert(after[l].members@[0] == before[l].members@[0]);
    }
}

/// The speciation of `count` genomes remains one when the next genome
/// becomes the first member of a species `added` that is either the
/// successor of the first species of `last` that it is compatible with, or,
/// if there is none, a new species under an id that no species has.
pub proof fn lemma_speciated_found<const INPUT_SZ: usize, const OUTPUT_SZ: usize>(
    genomes: Seq<Genome<INPUT_SZ, OUTPUT_SZ>>,
    last: Seq<Species<INPUT_SZ, OUTPUT_SZ>>,
    last_fitness: Option<Seq<u64>>,
    before: Seq<Species<INPUT_SZ, OUTPUT_SZ>>,
    member_map: Seq<u64>,
    count: int,
    added: Species<INPUT_SZ, OUTPUT_SZ>,
)
    requires
        speciated(genomes, last, last_fitness, before, member_map, count),
        ids_distinct(last),
        0 <= count < genomes.len(),
        count < usize::MAX,
        !has_id(before, added.id),
        added.members@ == seq![count as usize],
        added.representative.connections@ == genomes[count].connections@,
        added.representative.hidden_nodes == genomes[count].hidden_nodes,
        ({
            let j = first_compatible(last, genomes[count].connections@);
            &&& j < last.len() ==> added.id == last[j].id && succeeds(
                added,
                last[j],
                observed_fitness(last[j], last_fitness),
            )
            &&& j == last.len() ==> !has_id(last, added.id) && founded(added)
        }),
    ensures
        speciated(
            genomes,
            last,
            last_fitness,
            before.push(added),
            member_map.push(added.id),
            count + 1,
        ),
{
    let after = before.push(added);
    let map = member_map.push(added.id);
    let j = first_compatible(last, genomes[count].connections@);
    lemma_first_compatible(last, genomes[count].connections@);
    lemma_place_of_id(before, added.id);
    lemma_place_of_id(last, added.id);
    assert(ids_distinct(after)) by {
        assert forall|x: int, y: int| 0 <= x < y < after.len() implies (#[trigger] after[x]).id != (
        #[trigger] after[y]).id by {
            assert(after[x] == before[x]);
            if y < before.len() {
                assert(after[y] == before[y]);
            }
        }
    }
    assert forall|p: int, m: int| 0 <= p < after.len() && 0 <= m < after[p].members@.len() implies (
    #[trigger] after[p].members@[m]) < count + 1 && map[after[p].members@[m] as int]
        == after[p].id by {
        if p < before.len() {
            assert(after[p] == before[p]);
            assert(before[p].members@[m] < count);
        }
    }
    assert forall|c: int| 0 <= c < count + 1 implies has_id(after, #[trigger] map[c])
        && after[place_of_id(after, map[c])].members@.contains(c as usize) by {
        lemma_place_of_id_push(before, added, map[c]);
        lemma_place_of_id(before, map[c]);
        if c < count {
            assert(map[c] == member_map[c]);
            assert(has_id(before, member_map[c]));
            assert(after[place_of_id(before, member_map[c])] == before[place_of_id(
                before,
                member_map[c],
            )]);
        } else {
            assert(after[before.len() as int] == added);
            assert(added.members@[0] == c);
        }
    }
    assert forall|p: int| 0 <= p < after.len() implies (#[trigger] after[p]).members@.len() > 0
        && rising(after[p].members@) by {
        if p < before.len() {
            assert(after[p] == before[p]);
        }
    }
    assert(after.drop_last() =~= before);
    assert(partitions(after, map, count + 1));
    assert forall|c: int| 0 <= c < count + 1 implies {
        let j = first_compatible(last, (#[trigger] genomes[c]).connections@);
        &&& j < last.len() ==> map[c] == last[j].id
        &&& j == last.len() ==> !has_id(last, map[c])
    } by {
        if c < count {
            assert(map[c] == member_map[c]);
        }
    }
    assert forall|p: int| 0 <= p < after.len() implies {
        let s = #[trigger] after[p];
        &&& represents(s, genomes)
        &&& has_id(last, s.id) ==> succeeds(
            s,
            last[place_of_id(last, s.id)],
            observed_fitness(last[place_of_id(last, s.id)], last_fitness),
        )
        &&& !has_id(last, s.id) ==> founded(s)
    } by {
        if p < before.len() {
            assert(after[p] == before[p]);
        } else {
            assert(after[p] == added);
            if j < last.len() {
                if place_of_id(last, added.id) < j {
                    assert(last[place_of_id(last, added.id)].id != last[j].id);
                }
                if place_of_id(last, added.id) > j {
                    assert(last[j].id != added.id);
                }
            }
        }
    }
    assert forall|p: int, l: int| 0 <= p < l < after.len() implies (
    #[trigger] after[p]).members@[0] < (#[trigger] after[l]).members@[0] by {
        assert(after[p] == before[p]);
        assert(before[p].members@.len() > 0);
        assert(before[p].members@[0] < count);
        if l < before.len() {
            assert(after[l] == before[l]);
        }
    }
}

/// The ids of the species, in their order.
pub open spec fn id_seq<const INPUT_SZ: usize, const OUTPUT_SZ: usize>(
    species: Seq<Species<INPUT_SZ, OUTPUT_SZ>>,
) -> Seq<u64> {
    Seq::new(species.len(), |k: int| species[k].id)
}

/// The candidate id for the species that client `client` founds, 0 if
/// `candidates` has none for it.
pub open spec fn candidate_for(candidates: Seq<u64>, client: usize) -> u64 {
    if client < candidates.len() {
        candidates[client as int]
    } else {
        0
    }
}

/// Whether `id` is the id that the species at place `place` gets when it is
/// founded: the first of the candidate of its first member, that candidate
/// plus one, and so on, that neither a species of `last` nor a species
/// before it in `species` has.
pub open spec fn founding_id<const INPUT_SZ: usize, const OUTPUT_SZ: usize>(
    candidates: Seq<u64>,
    last: Seq<Species<INPUT_SZ, OUTPUT_SZ>>,
    species: Seq<Species<INPUT_SZ, OUTPUT_SZ>>,
    place: int,
    step: int,
) -> bool {
    let candidate = candidate_for(candidates, species[place].members@[0]);
    &&& 0 <= step
    &&& species[place].id == offset_id(candidate, step)
    &&& forall|j: int|
        0 <= j < step ==> has_id(last, #[trigger] offset_id(candidate, j)) || id_seq(species).take(
            place,
        ).contains(offset_id(candidate, j))
}

/// Every species that does not succeed a species of `last` has the id
/// that `founding_id` describes.
pub open spec fn founders_named<const INPUT_SZ: usize, const OUTPUT_SZ: usize>(
    candidates: Seq<u64>,
    last: Seq<Species<INPUT_SZ, OUTPUT_SZ>>,
    species: Seq<Species<INPUT_SZ, OUTPUT_SZ>>,
) -> bool {
    forall|p: int|
        0 <= p < species.len() && !has_id(last, (#[trigger] species[p]).id) ==> exists|step: int|
            founding_id(candidates, last, species, p, step)
}

/// Species that are added, or that get more members, leave the founders
/// named as they were.
pub proof fn lemma_founders_named_kept<const INPUT_SZ: usize, const OUTPUT_SZ: usize>(
    candidates: Seq<u64>,
    last: Seq<Species<INPUT_SZ, OUTPUT_SZ>>,
    before: Seq<Species<INPUT_SZ, OUTPUT_SZ>>,
    after: Seq<Species<INPUT_SZ, OUTPUT_SZ>>,
)
    requires
        founders_named(candidates, last, before),
        before.len() <= after.len(),
        forall|p: int|
            0 <= p < before.len() ==> (#[trigger] after[p]).id == before[p].id
                && before[p].members@.len() > 0 && after[p].members@.len() > 0
                && after[p].members@[0] == before[p].members@[0],
        forall|p: int|
            before.len() <= p < after.len() && !has_id(last, (#[trigger] after[p]).id)
                ==> exists|step: int| founding_id(candidates, last, after, p, step),
    ensures
        founders_named(candidates, last, after),
{
    assert forall|p: int|
        0 <= p < after.len() && !has_id(last, (#[trigger] after[p]).id) implies exists|step: int|
        founding_id(candidates, last, after, p, step) by {
        if p < before.len() {
            assert(before[p].id == after[p].id);
            let step = choose|step: int| founding_id(candidates, last, before, p, step);
            assert(id_seq(after).take(p) =~= id_seq(before).take(p)) by {
                assert forall|q: int| 0 <= q < p implies id_seq(after).take(p)[q] == id_seq(
                    before,
                ).take(p)[q] by {
                    assert(after[q].id == before[q].id);
                }
            }
            assert(founding_id(candidates, last, after, p, step));
        }
    }
}

/// The species of the generation before, none if there was no generation before.
pub open spec fn history<const INPUT_SZ: usize, const OUTPUT_SZ: usize>(
    last_speciation: Option<&Speciation<INPUT_SZ, OUTPUT_SZ>>,
) -> Seq<Species<INPUT_SZ, OUTPUT_SZ>> {
    match last_speciation {
        Some(speciation) => speciation.species@,
        None => Seq::empty(),
    }
}

/// The scores of the generation before, if it was evaluated.
pub open spec fn history_fitness(last_evaluation: Option<&Evaluation>) -> Option<Seq<u64>> {
    match last_evaluation {
        Some(evaluation) => Some(evaluation.fitness@),
        None => None,
    }
}

fn successor_of<const INPUT_SZ: usize, const OUTPUT_SZ: usize>(
    previous: &Species<INPUT_SZ, OUTPUT_SZ>,
    last_evaluation: Option<&Evaluation>,
    genome: &Genome<INPUT_SZ, OUTPUT_SZ>,
    member: usize,
) -> (r: Species<INPUT_SZ, OUTPUT_SZ>)
    requires
        last_evaluation matches Some(evaluation) ==> previous.members@.len() > 0
            && evaluation.covers(previous.members@),
    ensures
        succeeds(r, *previous, observed_fitness(*previous, history_fitness(last_evaluation))),
        r.members@ == seq![member],
        r.representative.connections@ == genome.connections@,
        r.representative.hidden_nodes == genome.hidden_nodes,
{
    let observed = match last_evaluation {
        Some(evaluation) => evaluation.species_max_fitness(previous),
        None => previous.max_fitness,
    };
    let improved = observed > previous.max_fitness;
    let age = if previous.age < usize::MAX {
        previous.age + 1
    } else {
        previous.age
    };
    let waited = if previous.since_last_improvement < usize::MAX {
        previous.since_last_improvement + 1
    } else {
        previous.since_last_improvement
    };
    let mut members: Vec<usize> = Vec::new();
    members.push(member);
    let r = Species {
        representative: genome.clone(),
        members,
        age,
        id: previous.id,
        max_fitness: if improved {
            observed
        } else {
            previous.max_fitness
        },
        since_last_improvement: if improved {
            0
        } else {
            waited
        },
    };
    assert(r.members@ =~= seq![member]);
    r
}

fn founder<const INPUT_SZ: usize, const OUTPUT_SZ: usize>(
    id: u64,
    genome: &Genome<INPUT_SZ, OUTPUT_SZ>,
    member: usize,
) -> (r: Species<INPUT_SZ, OUTPUT_SZ>)
    ensures
        founded(r),
        r.id == id,
        r.members@ == seq![member],
        r.representative.connections@ == genome.connections@,
        r.representative.hidden_nodes == genome.hidden_nodes,
{
    let mut members: Vec<usize> = Vec::new();
    members.push(member);
    let r = Species {
        representative: genome.clone(),
        members,
        age: 0,
        id,
        max_fitness: 0,
        since_last_improvement: 0,
    };
    assert(r.members@ =~= seq![member]);
    r
}

fn ids_of<const INPUT_SZ: usize, const OUTPUT_SZ: usize>(
    species: &Vec<Species<INPUT_SZ, OUTPUT_SZ>>,
) -> (r: Vec<u64>)
    ensures
        r@.len() == species@.len(),
        forall|j: int| 0 <= j < species@.len() ==> r@[j] == (#[trigger] species@[j]).id,
{
    let mut ids: Vec<u64> = Vec::new();
    let mut i: usize = 0;
    while i < species.len()
        invariant
            i <= species.len(),
            ids@.len() == i,
            forall|j: int| 0 <= j < i ==> ids@[j] == (#[trigger] species@[j]).id,
        decreases species.len() - i,
    {
        ids.push(species[i].id);
        i += 1;
    }
    ids
}

impl<const INPUT_SZ: usize, const OUTPUT_SZ: usize> Population<INPUT_SZ, OUTPUT_SZ> {
    /// Sorts the members into species, against the species of the
    /// generation before, and counts the generation. The members are taken
    /// in order. A member joins the successor of the first species of the
    /// generation before whose representative it is compatible with; the
    /// successor has the id of that species, is one generation older, and its
    /// record and count of stagnant generations follow the last evaluation. A
    /// member that is compatible with none founds a species of its own. Its
    /// id is the first of `candidates[c]`, `candidates[c] + 1`, ... that no
    /// species of this or the last generation has, `c` being its client id,
    /// and 0 standing in for a missing candidate.
    pub fn speciate_with(
        &mut self,
        candidates: &Vec<u64>,
        last_speciation: Option<&Speciation<INPUT_SZ, OUTPUT_SZ>>,
        last_evaluation: Option<&Evaluation>,
    ) -> (r: Speciation<INPUT_SZ, OUTPUT_SZ>)
        requires
            usable_history(history(last_speciation), history_fitness(last_evaluation)),
        ensures
            final(self).members == old(self).members,
            final(self).target_size == old(self).target_size,
            final(self).generation == next_count(old(self).generation),
            speciated(
                old(self).members@,
                history(last_speciation),
                history_fitness(last_evaluation),
                r.species@,
                r.member_map@,
                old(self).members@.len() as int,
            ),
            r.well_formed(old(self).members@.len() as int),
            founders_named(candidates@, history(last_speciation), r.species@),
    {
        let none: Vec<Species<INPUT_SZ, OUTPUT_SZ>> = Vec::new();
        let last: &Vec<Species<INPUT_SZ, OUTPUT_SZ>> = match last_speciation {
            Some(speciation) => &speciation.species,
            None => &none,
        };
        assert(last@ =~= history(last_speciation));
        let ghost last_fitness = history_fitness(last_evaluation);
        let ghost genomes = self.members@;
        let size = table_size(last, &self.members);
        let tables = table_representatives(last, size);
        let mut taken = ids_of(last);
        let mut species: Vec<Species<INPUT_SZ, OUTPUT_SZ>> = Vec::new();
        let mut member_map: Vec<u64> = Vec::new();
        let mut i: usize = 0;
        assert(total_members(species@) == 0);
        proof {
            assert forall|x: u64| taken@.contains(x) implies has_id(last@, x) by {
                let w = choose|w: int| 0 <= w < taken@.len() && taken@[w] == x;
                lemma_place_of_id(last@, x);
                if place_of_id(last@, x) > w {
                    assert(last@[w].id != x);
                }
            }
        }
        while i < self.members.len()
            invariant
                i <= self.members.len(),
                *self == *old(self),
                genomes == self.members@,
                last_fitness == history_fitness(last_evaluation),
                usable_history(last@, last_fitness),
                speciated(genomes, last@, last_fitness, species@, member_map@, i as int),
                forall|j: int| 0 <= j < last@.len() ==> taken@.contains((#[trigger] last@[j]).id),
                forall|k: int|
                    0 <= k < species@.len() ==> taken@.contains((#[trigger] species@[k]).id),
                forall|x: u64|
                    taken@.contains(x) ==> has_id(last@, x) || id_seq(species@).contains(x),
                founders_named(candidates@, last@, species@),
                tables matches Some(by_number) ==> representatives_tabled(
                    last@,
                    by_number@,
                    size,
                ),
            decreases self.members.len() - i,
        {
            let ghost before = species@;
            let ghost map = member_map@;
            let ghost held = taken@;
            let j = match &tables {
                Some(by_number) => first_compatible_tabled(last, by_number, size, &self.members[i]),
                None => first_compatible_index(last, &self.members[i]),
            };
            proof {
                lemma_first_compatible(last@, genomes[i as int].connections@);
            }
            if j < last.len() {
                let id = last[j].id;
                let k = place_among(&species, id);
                if k < species.len() {
                    enlist(&mut species, k, i);
                    proof {
                        lemma_speciated_join(
                            genomes,
                            last@,
                            last_fitness,
                            before,
                            map,
                            i as int,
                            k as int,
                            species@,
                        );
                        assert forall|p: int| 0 <= p < species@.len() implies taken@.contains(
                            (#[trigger] species@[p]).id,
                        ) by {
                            assert(species@[p].id == before[p].id);
                        }
                        assert(id_seq(species@) =~= id_seq(before)) by {
                            assert forall|q: int| 0 <= q < before.len() implies id_seq(species@)[q]
                                == id_seq(before)[q] by {
                                assert(species@[q].id == before[q].id);
                            }
                        }
                        assert forall|p: int| 0 <= p < before.len() implies (
                        #[trigger] species@[p]).id == before[p].id && before[p].members@.len() > 0
                            && species@[p].members@.len() > 0 && species@[p].members@[0]
                            == before[p].members@[0] by {
                            assert(before[p].members@.len() > 0);
                        }
                        lemma_founders_named_kept(candidates@, last@, before, species@);
                    }
                } else {
                    assert(last_fitness matches Some(fitness) ==> scored(
                        last@[j as int].members@,
                        fitness,
                    ));
                    let added = successor_of(&last[j], last_evaluation, &self.members[i], i);
                    proof {
                        lemma_speciated_found(
                            genomes,
                            last@,
                            last_fitness,
                            before,
                            map,
                            i as int,
                            added,
                        );
                    }
                    species.push(added);
                    proof {
                        assert forall|p: int| 0 <= p < species@.len() implies taken@.contains(
                            (#[trigger] species@[p]).id,
                        ) by {
                            if p < before.len() {
                                assert(species@[p] == before[p]);
                            } else {
                                assert(species@[p].id == last@[j as int].id);
                            }
                        }
                        assert forall|x: u64| taken@.contains(x) implies has_id(last@, x) || id_seq(
                            species@,
                        ).contains(x) by {
                            if id_seq(before).contains(x) {
                                let q = choose|q: int|
                                    0 <= q < id_seq(before).len() && id_seq(before)[q] == x;
                                assert(species@[q] == before[q]);
                                assert(id_seq(species@)[q] == x);
                            }
                        }
                        assert forall|p: int| 0 <= p < before.len() implies (
                        #[trigger] species@[p]).id == before[p].id && before[p].members@.len() > 0
                            && species@[p].members@.len() > 0 && species@[p].members@[0]
                            == before[p].members@[0] by {
                            assert(species@[p] == before[p]);
                            assert(before[p].members@.len() > 0);
                        }
                        assert forall|p: int|
                            before.len() <= p < species@.len() && !has_id(
                                last@,
                                (#[trigger] species@[p]).id,
                            ) implies exists|step: int|
                            founding_id(candidates@, last@, species@, p, step) by {
                            lemma_place_of_id(last@, last@[j as int].id);
                            if place_of_id(last@, last@[j as int].id) > j {
                                assert(last@[j as int].id != last@[j as int].id);
                            }
                        }
                        lemma_founders_named_kept(candidates@, last@, before, species@);
                    }
                }
                member_map.push(id);
            } else {
                let candidate = if i < candidates.len() {
                    candidates[i]
                } else {
                    0
                };
                let id = fresh_id(candidate, &taken);
                let added = founder(id, &self.members[i], i);
                proof {
                    lemma_place_of_id(before, id);
                    lemma_place_of_id(last@, id);
                    if has_id(before, id) {
                        assert(taken@.contains(before[place_of_id(before, id)].id));
                    }
                    if has_id(last@, id) {
                        assert(taken@.contains(last@[place_of_id(last@, id)].id));
                    }
                    lemma_speciated_found(
                        genomes,
                        last@,
                        last_fitness,
                        before,
                        map,
                        i as int,
                        added,
                    );
                }
                let ghost step = choose|k: int|
                    0 <= k <= held.len() && id == #[trigger] offset_id(candidate, k) && forall|
                        j: int,
                    |
                        0 <= j < k ==> held.contains(#[trigger] offset_id(candidate, j));
                taken.push(id);
                species.push(added);
                member_map.push(id);
                proof {
                    assert forall|x: u64| taken@.contains(x) implies has_id(last@, x) || id_seq(
                        species@,
                    ).contains(x) by {
                        let w = choose|w: int| 0 <= w < taken@.len() && taken@[w] == x;
                        if w < held.len() {
                            assert(held[w] == x);
                            assert(held.contains(x));
                            if id_seq(before).contains(x) {
                                let q = choose|q: int|
                                    0 <= q < id_seq(before).len() && id_seq(before)[q] == x;
                                assert(species@[q] == before[q]);
                                assert(id_seq(species@)[q] == x);
                            }
                        } else {
                            assert(id_seq(species@)[before.len() as int] == x);
                        }
                    }
                    assert forall|p: int| 0 <= p < before.len() implies (
                    #[trigger] species@[p]).id == before[p].id && before[p].members@.len() > 0
                        && species@[p].members@.len() > 0 && species@[p].members@[0]
                        == before[p].members@[0] by {
                        assert(species@[p] == before[p]);
                        assert(before[p].members@.len() > 0);
                    }
                    assert(founding_id(
                        candidates@,
                        last@,
                        species@,
                        before.len() as int,
                        step,
                    )) by {
                        assert(species@[before.len() as int] == added);
                        assert(added.members@[0] == i);
                        assert(id_seq(species@).take(before.len() as int) =~= id_seq(before));
                        assert forall|j: int| 0 <= j < step implies has_id(
                            last@,
                            #[trigger] offset_id(candidate, j),
                        ) || id_seq(before).contains(offset_id(candidate, j)) by {
                            assert(held.contains(offset_id(candidate, j)));
                        }
                    }
                    lemma_founders_named_kept(candidates@, last@, before, species@);
                    assert forall|p: int| 0 <= p < last@.len() implies taken@.contains(
                        (#[trigger] last@[p]).id,
                    ) by {
                        assert(held.contains(last@[p].id));
                        let w = choose|w: int| 0 <= w < held.len() && held[w] == last@[p].id;
                        assert(taken@[w] == last@[p].id);
                    }
                    assert forall|p: int| 0 <= p < species@.len() implies taken@.contains(
                        (#[trigger] species@[p]).id,
                    ) by {
                        if p < before.len() {
                            assert(species@[p] == before[p]);
                            assert(held.contains(before[p].id));
                            let w = choose|w: int| 0 <= w < held.len() && held[w] == before[p].id;
                            assert(taken@[w] == before[p].id);
                        } else {
                            assert(taken@[held.len() as int] == id);
                        }
                    }
                }
            }
            i += 1;
        }
        if self.generation < usize::MAX {
            self.generation = self.generation + 1;
        }
        Speciation { species, member_map }
    }

    /// Sorts the members into species as `speciate_with` does, with ids
    /// for new species drawn at random.
    pub fn speciate(
        &mut self,
        rng: &mut StdRng,
        last_speciation: Option<&Speciation<INPUT_SZ, OUTPUT_SZ>>,
        last_evaluation: Option<&Evaluation>,
    ) -> (r: Speciation<INPUT_SZ, OUTPUT_SZ>)
        requires
            usable_history(history(last_speciation), history_fitness(last_evaluation)),
        ensures
            final(self).members == old(self).members,
            final(self).target_size == old(self).target_size,
            final(self).generation == next_count(old(self).generation),
            speciated(
                old(self).members@,
                history(last_speciation),
                history_fitness(last_evaluation),
                r.species@,
                r.member_map@,
                old(self).members@.len() as int,
            ),
            r.well_formed(old(self).members@.len() as int),
            exists|candidates: Seq<u64>|
                #[trigger] founders_named(candidates, history(last_speciation), r.species@),
    {
        let mut candidates: Vec<u64> = Vec::new();
        let mut i: usize = 0;
        while i < self.members.len()
            invariant
                i <= self.members.len(),
                *self == *old(self),
            decreases self.members.len() - i,
        {
            candidates.push(draw_u64(rng));
            i += 1;
        }
        let speciation = self.speciate_with(&candidates, last_speciation, last_evaluation);
        assert(founders_named(candidates@, history(last_speciation), speciation.species@));
        speciation
    }
}

} // verus!
