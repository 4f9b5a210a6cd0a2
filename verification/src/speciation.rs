use crate::species::Species;
use vstd::prelude::*;

verus! {

/// The partition of one generation into species: the species in the order
/// in which they were first met, and for each client id the id of its
/// species.
#[derive(Debug)]
pub struct Speciation<const INPUT_SZ: usize, const OUTPUT_SZ: usize> {
    pub species: Vec<Species<INPUT_SZ, OUTPUT_SZ>>,
    pub member_map: Vec<u64>,
}

/// No two species share an id.
pub open spec fn ids_distinct<const INPUT_SZ: usize, const OUTPUT_SZ: usize>(
    species: Seq<Species<INPUT_SZ, OUTPUT_SZ>>,
) -> bool {
    forall|i: int, j: int|
        0 <= i < j < species.len() ==> (#[trigger] species[i]).id != (#[trigger] species[j]).id
}

/// The place of the first species with the given id, the number of species
/// if there is none.
pub open spec fn place_of_id<const INPUT_SZ: usize, const OUTPUT_SZ: usize>(
    species: Seq<Species<INPUT_SZ, OUTPUT_SZ>>,
    id: u64,
) -> int
    decreases species.len(),
{
    if species.len() == 0 {
        0
    } else if species[0].id == id {
        0
    } else {
        1 + place_of_id(species.skip(1), id)
    }
}

/// Whether some species has the given id.
pub open spec fn has_id<const INPUT_SZ: usize, const OUTPUT_SZ: usize>(
    species: Seq<Species<INPUT_SZ, OUTPUT_SZ>>,
    id: u64,
) -> bool {
    place_of_id(species, id) < species.len()
}

/// `place_of_id` is the least place of a species with the id.
pub proof fn lemma_place_of_id<const INPUT_SZ: usize, const OUTPUT_SZ: usize>(
    species: Seq<Species<INPUT_SZ, OUTPUT_SZ>>,
    id: u64,
)
    ensures
        0 <= place_of_id(species, id) <= species.len(),
        has_id(species, id) ==> species[place_of_id(species, id)].id == id,
        forall|j: int| 0 <= j < place_of_id(species, id) ==> (#[trigger] species[j]).id != id,
    decreases species.len(),
{
    if species.len() == 0 {
    } else if species[0].id == id {
    } else {
        lemma_place_of_id(species.skip(1), id);
        assert forall|j: int| 0 <= j < place_of_id(species, id) implies (
        #[trigger] species[j]).id != id by {
            if j > 0 {
                assert(species.skip(1)[j - 1] == species[j]);
            }
        }
    }
}

/// The number of members of all species together.
pub open spec fn total_members<const INPUT_SZ: usize, const OUTPUT_SZ: usize>(
    species: Seq<Species<INPUT_SZ, OUTPUT_SZ>>,
) -> nat
    decreases species.len(),
{
    if species.len() == 0 {
        0
    } else {
        total_members(species.drop_last()) + species.last().members@.len()
    }
}

/// The client ids rise from one place of the list to the next.
pub open spec fn rising(members: Seq<usize>) -> bool {
    forall|i: int, j: int| 0 <= i < j < members.len() ==> members[i] < members[j]
}

/// Whether the species and the map describe one partition of the client
/// ids below `population`: the ids of the species differ; every member of a
/// species is a client that the map sends to that species; every client
/// is a member of the species that the map names; no species is empty or
/// lists a client twice; and the species have `population` members in all.
pub open spec fn partitions<const INPUT_SZ: usize, const OUTPUT_SZ: usize>(
    species: Seq<Species<INPUT_SZ, OUTPUT_SZ>>,
    member_map: Seq<u64>,
    population: int,
) -> bool {
    &&& member_map.len() == population
    &&& ids_distinct(species)
    &&& forall|k: int, m: int|
        0 <= k < species.len() && 0 <= m < species[k].members@.len() ==> (
        #[trigger] species[k].members@[m]) < population && member_map[species[k].members@[m] as int]
            == species[k].id
    &&& forall|c: int|
        0 <= c < population ==> has_id(species, #[trigger] member_map[c]) && species[place_of_id(
            species,
            member_map[c],
        )].members@.contains(c as usize)
    &&& forall|k: int|
        0 <= k < species.len() ==> (#[trigger] species[k]).members@.len() > 0 && rising(
            species[k].members@,
        )
    &&& total_members(species) == population
}

/// In a partition every client is a member of exactly one species, the
/// one that the map names, and stands in its list exactly once.
pub proof fn lemma_every_client_once<const INPUT_SZ: usize, const OUTPUT_SZ: usize>(
    species: Seq<Species<INPUT_SZ, OUTPUT_SZ>>,
    member_map: Seq<u64>,
    population: int,
    client: int,
)
    requires
        partitions(species, member_map, population),
        0 <= client < population,
        client <= usize::MAX,
    ensures
        exists|k: int, m: int|
            0 <= k < species.len() && 0 <= m < species[k].members@.len()
                && #[trigger] species[k].members@[m] == client,
        forall|k: int, m: int, l: int, n: int|
            0 <= k < species.len() && 0 <= m < species[k].members@.len() && 0 <= l < species.len()
                && 0 <= n < species[l].members@.len() && #[trigger] species[k].members@[m]
                == client && #[trigger] species[l].members@[n] == client ==> k == l && m == n
                && species[k].id == member_map[client],
{
    lemma_place_of_id(species, member_map[client]);
    let k = place_of_id(species, member_map[client]);
    assert(species[k].members@.contains(client as usize));
    let m = choose|m: int| 0 <= m < species[k].members@.len() && species[k].members@[m] == client;
    assert(species[k].members@[m] == client);
    assert forall|k: int, m: int, l: int, n: int|
        0 <= k < species.len() && 0 <= m < species[k].members@.len() && 0 <= l < species.len()
            && 0 <= n < species[l].members@.len() && #[trigger] species[k].members@[m] == client
            && #[trigger] species[l].members@[n] == client implies k == l && m == n
        && species[k].id == member_map[client] by {
        assert(species[k].id == member_map[client]);
        assert(species[l].id == member_map[client]);
        if k < l {
            assert(species[k].id != species[l].id);
        }
        if l < k {
            assert(species[l].id != species[k].id);
        }
        assert(rising(species[k].members@));
        if m < n {
            assert(species[k].members@[m] < species[k].members@[n]);
        }
        if n < m {
            assert(species[k].members@[n] < species[k].members@[m]);
        }
    }
}

impl<const INPUT_SZ: usize, const OUTPUT_SZ: usize> Speciation<INPUT_SZ, OUTPUT_SZ> {
    /// The invariant of the speciation of a generation of `population`
    /// members.
    pub open spec fn well_formed(&self, population: int) -> bool {
        partitions(self.species@, self.member_map@, population)
    }

    /// The place of the first species with the given id, the number of
    /// species if there is none.
    pub fn index_of_id(&self, id: u64) -> (r: usize)
        ensures
            r == place_of_id(self.species@, id),
            r <= self.species@.len(),
    {
        place_among(&self.species, id)
    }
}

/// The place of the first of `species` with the given id, their number if
/// there is none.
pub fn place_among<const INPUT_SZ: usize, const OUTPUT_SZ: usize>(
    species: &Vec<Species<INPUT_SZ, OUTPUT_SZ>>,
    id: u64,
) -> (r: usize)
    ensures
        r == place_of_id(species@, id),
        r <= species@.len(),
{
    let mut i: usize = 0;
    proof {
        assert(species@.skip(0) =~= species@);
    }
    while i < species.len()
        invariant
            i <= species.len(),
            place_of_id(species@, id) == i + place_of_id(species@.skip(i as int), id),
        decreases species.len() - i,
    {
        proof {
            assert(species@.skip(i as int).skip(1) =~= species@.skip(i + 1));
            assert(species@.skip(i as int)[0] == species@[i as int]);
        }
        if species[i].id == id {
            return i;
        }
        i += 1;
    }
    i
}

/// The id `candidate + offset`, wrapping round at the end of the 64-bit range.
pub open spec fn offset_id(candidate: u64, offset: int) -> u64 {
    ((candidate + offset) % 0x1_0000_0000_0000_0000) as u64
}

/// Among the ids `candidate`, `candidate + 1`, ... there is one within
/// `taken.len()` steps that `taken` does not hold.
pub proof fn lemma_free_id_exists(taken: Seq<u64>, candidate: u64)
    requires
        taken.len() < 0x1_0000_0000_0000_0000,
    ensures
        exists|k: int| 0 <= k <= taken.len() && !taken.contains(#[trigger] offset_id(candidate, k)),
    decreases taken.len(),
{
    if !taken.contains(candidate) {
        assert(offset_id(candidate, 0) == candidate);
    } else {
        let j = choose|j: int| 0 <= j < taken.len() && taken[j] == candidate;
        let rest = taken.remove(j);
        let next = offset_id(candidate, 1);
        lemma_free_id_exists(rest, next);
        let k = choose|k: int| 0 <= k <= rest.len() && !rest.contains(#[trigger] offset_id(next, k));
        let id = offset_id(next, k);
        assert(id == offset_id(candidate, k + 1));
        assert(id != candidate);
        assert(!taken.contains(id)) by {
            if taken.contains(id) {
                let w = choose|w: int| 0 <= w < taken.len() && taken[w] == id;
                if w < j {
                    assert(rest[w] == id);
                } else {
                    assert(rest[w - 1] == id);
                }
            }
        }
    }
}

fn holds(taken: &Vec<u64>, id: u64) -> (r: bool)
    ensures
        r == taken@.contains(id),
{
    let mut i: usize = 0;
    while i < taken.len()
        invariant
            i <= taken.len(),
            forall|j: int| 0 <= j < i ==> taken@[j] != id,
        decreases taken.len() - i,
    {
        if taken[i] == id {
            return true;
        }
        i += 1;
    }
    false
}

/// The first of the ids `candidate`, `candidate + 1`, ... that `taken`
/// does not hold.
pub fn fresh_id(candidate: u64, taken: &Vec<u64>) -> (r: u64)
    ensures
        !taken@.contains(r),
        exists|k: int|
            0 <= k <= taken@.len() && r == #[trigger] offset_id(candidate, k) && forall|j: int|
                0 <= j < k ==> taken@.contains(#[trigger] offset_id(candidate, j)),
{
    let mut id = candidate;
    let mut k: usize = 0;
    let count = taken.len();
    proof {
        lemma_free_id_exists(taken@, candidate);
    }
    loop
        invariant
            count == taken@.len(),
            k <= taken@.len(),
            id == offset_id(candidate, k as int),
            forall|j: int| 0 <= j < k ==> taken@.contains(#[trigger] offset_id(candidate, j)),
            exists|w: int|
                0 <= w <= taken@.len() && !taken@.contains(#[trigger] offset_id(candidate, w)),
        decreases taken@.len() - k,
    {
        if !holds(taken, id) {
            return id;
        }
        proof {
            let w = choose|w: int|
                0 <= w <= taken@.len() && !taken@.contains(#[trigger] offset_id(candidate, w));
            assert(w != k);
            if w < k {
                assert(taken@.contains(offset_id(candidate, w)));
            }
        }
        id = if id == u64::MAX {
            0
        } else {
            id + 1
        };
        k += 1;
    }
}

/// Whether `copy` has the fields of `species`.
pub open spec fn same_species<const INPUT_SZ: usize, const OUTPUT_SZ: usize>(
    species: Species<INPUT_SZ, OUTPUT_SZ>,
    copy: Species<INPUT_SZ, OUTPUT_SZ>,
) -> bool {
    &&& copy.representative.hidden_nodes == species.representative.hidden_nodes
    &&& copy.representative.connections@ == species.representative.connections@
    &&& copy.members@ == species.members@
    &&& copy.age == species.age
    &&& copy.id == species.id
    &&& copy.max_fitness == species.max_fitness
    &&& copy.since_last_improvement == species.since_last_improvement
}

impl<const INPUT_SZ: usize, const OUTPUT_SZ: usize> Clone for Speciation<INPUT_SZ, OUTPUT_SZ> {
    fn clone(&self) -> (r: Self)
        ensures
            r.member_map@ == self.member_map@,
            r.species@.len() == self.species@.len(),
            forall|k: int|
                0 <= k < self.species@.len() ==> same_species(
                    self.species@[k],
                    #[trigger] r.species@[k],
                ),
    {
        let mut species: Vec<Species<INPUT_SZ, OUTPUT_SZ>> = Vec::new();
        let mut i: usize = 0;
        while i < self.species.len()
            invariant
                i <= self.species.len(),
                species@.len() == i,
                forall|k: int|
                    0 <= k < i ==> same_species(self.species@[k], #[trigger] species@[k]),
            decreases self.species.len() - i,
        {
            let copy = self.species[i].clone();
            let ghost made = species@;
            species.push(copy);
            proof {
                assert forall|k: int| 0 <= k < i + 1 implies same_species(
                    self.species@[k],
                    #[trigger] species@[k],
                ) by {
                    if k < i {
                        assert(species@[k] == made[k]);
                    }
                }
            }
            i += 1;
        }
        Speciation { species, member_map: self.member_map.clone() }
    }
}

} // verus!
