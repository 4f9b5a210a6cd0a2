use crate::distance::compatibility_distance;
use crate::evaluation::Evaluation;
use crate::genome::Genome;
use vstd::prelude::*;

verus! {

/// A genome joins a species if its distance to the representative is below
/// `3.0`.
pub const COMPATIBILITY_THRESHOLD: u64 = 3 * 65_536;

/// A species that has not improved for this many generations is dropped.
pub const STAGNANT_THRESHOLD: usize = 15;

/// A group of members that are close to one representative genome. The id
/// stays with the group from one generation to the next; the members are
/// client ids of the current generation.
#[derive(Debug)]
pub struct Species<const INPUT_SZ: usize, const OUTPUT_SZ: usize> {
    pub representative: Genome<INPUT_SZ, OUTPUT_SZ>,
    pub members: Vec<usize>,
    pub age: usize,
    pub id: u64,
    pub max_fitness: u64,
    pub since_last_improvement: usize,
}

/// The number of leading entries of `sorted` whose score is at least
/// `score`: the place at which a member with that score is put.
pub open spec fn insert_place(sorted: Seq<usize>, fitness: Seq<u64>, score: u64) -> int
    decreases sorted.len(),
{
    if sorted.len() == 0 {
        0
    } else if fitness[sorted[0] as int] < score {
        0
    } else {
        1 + insert_place(sorted.skip(1), fitness, score)
    }
}

/// The members ordered by falling fitness, members of equal fitness in the
/// order in which they stand in `members`.
pub open spec fn sorted_by_fitness(members: Seq<usize>, fitness: Seq<u64>) -> Seq<usize>
    decreases members.len(),
{
    if members.len() == 0 {
        Seq::empty()
    } else {
        let front = sorted_by_fitness(members.drop_last(), fitness);
        let member = members.last();
        front.insert(insert_place(front, fitness, fitness[member as int]), member)
    }
}

/// Whether the scores of `members` never rise from one place to the next.
pub open spec fn falling(members: Seq<usize>, fitness: Seq<u64>) -> bool {
    forall|i: int, j: int|
        0 <= i < j < members.len() ==> fitness[#[trigger] members[i] as int]
            >= fitness[#[trigger] members[j] as int]
}

/// The place of insertion lies in the list, with no smaller score before
/// it; in a falling list every score from it on is smaller.
pub proof fn lemma_insert_place(sorted: Seq<usize>, fitness: Seq<u64>, score: u64)
    ensures
        0 <= insert_place(sorted, fitness, score) <= sorted.len(),
        forall|i: int|
            0 <= i < insert_place(sorted, fitness, score) ==> fitness[#[trigger] sorted[i] as int]
                >= score,
        falling(sorted, fitness) ==> forall|i: int|
            insert_place(sorted, fitness, score) <= i < sorted.len() ==> fitness[
            #[trigger] sorted[i] as int] < score,
    decreases sorted.len(),
{
    if sorted.len() == 0 {
    } else if fitness[sorted[0] as int] < score {
        if falling(sorted, fitness) {
            assert forall|i: int| 0 <= i < sorted.len() implies fitness[
            #[trigger] sorted[i] as int] < score by {
                if i > 0 {
                    assert(fitness[sorted[0] as int] >= fitness[sorted[i] as int]);
                }
            }
        }
    } else {
        let rest = sorted.skip(1);
        lemma_insert_place(rest, fitness, score);
        assert forall|i: int| 0 <= i < insert_place(sorted, fitness, score) implies fitness[
        #[trigger] sorted[i] as int] >= score by {
            if i > 0 {
                assert(rest[i - 1] == sorted[i]);
            }
        }
        if falling(sorted, fitness) {
            assert(falling(rest, fitness)) by {
                assert forall|i: int, j: int| 0 <= i < j < rest.len() implies fitness[
                #[trigger] rest[i] as int] >= fitness[#[trigger] rest[j] as int] by {
                    assert(rest[i] == sorted[i + 1]);
                    assert(rest[j] == sorted[j + 1]);
                }
            }
            assert forall|i: int|
                insert_place(sorted, fitness, score) <= i < sorted.len() implies fitness[
            #[trigger] sorted[i] as int] < score by {
                assert(rest[i - 1] == sorted[i]);
            }
        }
    }
}

/// Sorting keeps the members, each as often as before, and leaves them in
/// falling order of fitness.
pub proof fn lemma_sorted_by_fitness(members: Seq<usize>, fitness: Seq<u64>)
    ensures
        sorted_by_fitness(members, fitness).len() == members.len(),
        sorted_by_fitness(members, fitness).to_multiset() == members.to_multiset(),
        falling(sorted_by_fitness(members, fitness), fitness),
        forall|i: int|
            0 <= i < members.len() ==> members.contains(
                #[trigger] sorted_by_fitness(members, fitness)[i],
            ),
    decreases members.len(),
{
    broadcast use vstd::seq_lib::group_to_multiset_ensures;

    let sorted = sorted_by_fitness(members, fitness);
    if members.len() == 0 {
        assert(members =~= Seq::<usize>::empty());
    } else {
        let front_members = members.drop_last();
        let front = sorted_by_fitness(front_members, fitness);
        let member = members.last();
        let place = insert_place(front, fitness, fitness[member as int]);
        lemma_sorted_by_fitness(front_members, fitness);
        lemma_insert_place(front, fitness, fitness[member as int]);
        assert(sorted == front.insert(place, member));
        assert(sorted.remove(place) =~= front);
        assert(sorted[place] == member);
        assert(members =~= front_members.push(member));
        assert(sorted.to_multiset() =~= front.to_multiset().insert(member)) by {
            assert(sorted.remove(place).to_multiset() == sorted.to_multiset().remove(member));
            assert(sorted.contains(member));
        }
        assert forall|i: int, j: int| 0 <= i < j < sorted.len() implies fitness[
        #[trigger] sorted[i] as int] >= fitness[#[trigger] sorted[j] as int] by {
            if j < place {
                assert(sorted[i] == front[i] && sorted[j] == front[j]);
            } else if j == place {
                assert(sorted[i] == front[i]);
            } else if i < place {
                assert(sorted[i] == front[i] && sorted[j] == front[j - 1]);
            } else if i == place {
                assert(sorted[j] == front[j - 1]);
            } else {
                assert(sorted[i] == front[i - 1] && sorted[j] == front[j - 1]);
            }
        }
        assert forall|i: int| 0 <= i < members.len() implies members.contains(
            #[trigger] sorted[i],
        ) by {
            if i == place {
                assert(members[members.len() - 1] == member);
            } else {
                let k = if i < place {
                    i
                } else {
                    i - 1
                };
                assert(sorted[i] == front[k]);
                assert(front_members.contains(front[k]));
                let w = choose|w: int| 0 <= w < front_members.len() && front_members[w] == front[k];
                assert(members[w] == front[k]);
            }
        }
    }
}

fn place_for(sorted: &Vec<usize>, fitness: &Vec<u64>, score: u64) -> (r: usize)
    requires
        forall|i: int| 0 <= i < sorted@.len() ==> sorted@[i] < fitness@.len(),
    ensures
        r == insert_place(sorted@, fitness@, score),
        r <= sorted@.len(),
{
    let mut i: usize = 0;
    proof {
        assert(sorted@.skip(0) =~= sorted@);
    }
    while i < sorted.len()
        invariant
            i <= sorted.len(),
            forall|i: int| 0 <= i < sorted@.len() ==> sorted@[i] < fitness@.len(),
            insert_place(sorted@, fitness@, score) == i + insert_place(
                sorted@.skip(i as int),
                fitness@,
                score,
            ),
        decreases sorted.len() - i,
    {
        proof {
            assert(sorted@.skip(i as int).skip(1) =~= sorted@.skip(i + 1));
            assert(sorted@.skip(i as int)[0] == sorted@[i as int]);
        }
        if fitness[sorted[i]] < score {
            return i;
        }
        i += 1;
    }
    i
}

impl<const INPUT_SZ: usize, const OUTPUT_SZ: usize> Species<INPUT_SZ, OUTPUT_SZ> {
    /// Whether `genome` is close enough to the representative to join.
    pub fn is_compatible(&self, genome: &Genome<INPUT_SZ, OUTPUT_SZ>) -> (r: bool)
        ensures
            r == (compatibility_distance(self.representative.connections@, genome.connections@)
                < COMPATIBILITY_THRESHOLD),
    {
        self.representative.distance(genome) < COMPATIBILITY_THRESHOLD as u128
    }

    /// Orders the members by falling fitness. Members of equal fitness keep
    /// their order.
    pub fn sort_by_fitness(&mut self, evaluation: &Evaluation)
        requires
            evaluation.covers(old(self).members@),
        ensures
            final(self).members@ == sorted_by_fitness(old(self).members@, evaluation.fitness@),
            final(self).representative == old(self).representative,
            final(self).age == old(self).age,
            final(self).id == old(self).id,
            final(self).max_fitness == old(self).max_fitness,
            final(self).since_last_improvement == old(self).since_last_improvement,
    {
        let mut sorted: Vec<usize> = Vec::new();
        let mut i: usize = 0;
        while i < self.members.len()
            invariant
                i <= self.members.len(),
                evaluation.covers(self.members@),
                sorted@ == sorted_by_fitness(self.members@.take(i as int), evaluation.fitness@),
                *self == *old(self),
            decreases self.members.len() - i,
        {
            let member = self.members[i];
            proof {
                let front = self.members@.take(i as int);
                lemma_sorted_by_fitness(front, evaluation.fitness@);
                assert(self.members@.take(i + 1).drop_last() =~= front);
                assert forall|k: int| 0 <= k < sorted@.len() implies sorted@[k]
                    < evaluation.fitness@.len() by {
                    assert(front.contains(sorted@[k]));
                    let w = choose|w: int| 0 <= w < front.len() && front[w] == sorted@[k];
                    assert(self.members@[w] == sorted@[k]);
                }
            }
            let place = place_for(&sorted, &evaluation.fitness, evaluation.fitness[member]);
            sorted.insert(place, member);
            i += 1;
        }
        proof {
            assert(self.members@.take(i as int) =~= self.members@);
        }
        self.members = sorted;
    }
}

impl<const INPUT_SZ: usize, const OUTPUT_SZ: usize> Clone for Species<INPUT_SZ, OUTPUT_SZ> {
    fn clone(&self) -> (r: Self)
        ensures
            r.representative.hidden_nodes == self.representative.hidden_nodes,
            r.representative.connections@ == self.representative.connections@,
            r.members@ == self.members@,
            r.age == self.age,
            r.id == self.id,
            r.max_fitness == self.max_fitness,
            r.since_last_improvement == self.since_last_improvement,
    {
        Species {
            representative: self.representative.clone(),
            members: self.members.clone(),
            age: self.age,
            id: self.id,
            max_fitness: self.max_fitness,
            since_last_improvement: self.since_last_improvement,
        }
    }
}

} // verus!
