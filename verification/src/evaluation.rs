use crate::fixed::ONE;
use crate::species::Species;
use vstd::prelude::*;

verus! {

/// The fitness of every member of one generation: `fitness[c]` is the score
/// of the member with client id `c`, an unsigned fixed-point number.
#[derive(Debug)]
pub struct Evaluation {
    pub fitness: Vec<u64>,
}

/// The scores of `members`, in their order.
pub open spec fn scores_of(fitness: Seq<u64>, members: Seq<usize>) -> Seq<u64> {
    Seq::new(members.len(), |i: int| fitness[members[i] as int])
}

/// The sum of the scores.
pub open spec fn total(scores: Seq<u64>) -> nat
    decreases scores.len(),
{
    if scores.len() == 0 {
        0
    } else {
        total(scores.drop_last()) + scores.last() as nat
    }
}

/// The largest score, 0 if there is none.
pub open spec fn highest(scores: Seq<u64>) -> u64
    decreases scores.len(),
{
    if scores.len() == 0 {
        0
    } else if scores.last() >= highest(scores.drop_last()) {
        scores.last()
    } else {
        highest(scores.drop_last())
    }
}

/// The smallest score, 0 if there is none.
pub open spec fn lowest(scores: Seq<u64>) -> u64
    decreases scores.len(),
{
    if scores.len() == 0 {
        0
    } else if scores.len() == 1 || scores.last() < lowest(scores.drop_last()) {
        scores.last()
    } else {
        lowest(scores.drop_last())
    }
}

/// The place of the largest score; of several equal ones, the last.
pub open spec fn champion_place(scores: Seq<u64>) -> int
    decreases scores.len(),
{
    if scores.len() <= 1 {
        0
    } else if scores.last() >= scores[champion_place(scores.drop_last())] {
        scores.len() - 1
    } else {
        champion_place(scores.drop_last())
    }
}

/// The mean of the scores, rounded down.
pub open spec fn mean(scores: Seq<u64>) -> nat {
    total(scores) / scores.len()
}

/// A mean score adjusted to the range of the whole evaluation:
/// `(mean - lowest) / max(1.0, highest - lowest)`, rounded down.
pub open spec fn adjusted(mean: nat, lowest: u64, highest: u64) -> nat {
    let range = if highest - lowest > ONE {
        (highest - lowest) as nat
    } else {
        ONE as nat
    };
    ((mean - lowest) * ONE / range as int) as nat
}

/// The highest score bounds every score and is one of them; so for the
/// lowest; and the champion's place holds the highest score, no later place
/// holds it too.
pub proof fn lemma_extremes(scores: Seq<u64>)
    requires
        scores.len() > 0,
    ensures
        forall|i: int|
            0 <= i < scores.len() ==> lowest(scores) <= #[trigger] scores[i] && scores[i]
                <= highest(scores),
        exists|i: int| 0 <= i < scores.len() && #[trigger] scores[i] == highest(scores),
        exists|i: int| 0 <= i < scores.len() && #[trigger] scores[i] == lowest(scores),
        0 <= champion_place(scores) < scores.len(),
        scores[champion_place(scores)] == highest(scores),
        forall|i: int|
            champion_place(scores) < i < scores.len() ==> #[trigger] scores[i] < highest(scores),
    decreases scores.len(),
{
    if scores.len() == 1 {
        assert(scores.drop_last().len() == 0);
        assert(highest(scores.drop_last()) == 0);
        assert(scores[0] == highest(scores));
        assert(scores[0] == lowest(scores));
    } else {
        let front = scores.drop_last();
        lemma_extremes(front);
        let h = choose|i: int| 0 <= i < front.len() && #[trigger] front[i] == highest(front);
        let l = choose|i: int| 0 <= i < front.len() && #[trigger] front[i] == lowest(front);
        assert(scores[h] == front[h]);
        assert(scores[l] == front[l]);
        let last = scores.len() - 1;
        if scores.last() >= highest(front) {
            assert(scores[last] == highest(scores));
        } else {
            assert(scores[h] == highest(scores));
        }
        if scores.last() < lowest(front) {
            assert(scores[last] == lowest(scores));
        } else {
            assert(scores[l] == lowest(scores));
        }
        assert forall|i: int| 0 <= i < scores.len() implies lowest(scores) <= #[trigger] scores[i]
            && scores[i] <= highest(scores) by {
            if i < front.len() {
                assert(scores[i] == front[i]);
            }
        }
        assert(scores[champion_place(front)] == front[champion_place(front)]);
        assert forall|i: int| champion_place(scores) < i < scores.len() implies #[trigger] scores[i]
            < highest(scores) by {
            if i < front.len() {
                assert(scores[i] == front[i]);
            }
        }
    }
}

/// The sum of the scores is at most their number times the highest score,
/// and at least their number times the lowest.
pub proof fn lemma_total_bounds(scores: Seq<u64>)
    ensures
        scores.len() * lowest(scores) <= total(scores) <= scores.len() * highest(scores),
        total(scores) <= scores.len() * u64::MAX,
    decreases scores.len(),
{
    if scores.len() == 0 {
    } else if scores.len() == 1 {
        assert(scores.drop_last().len() == 0);
        assert(total(scores.drop_last()) == 0);
    } else {
        let front = scores.drop_last();
        lemma_total_bounds(front);
        let n = front.len() as int;
        let lo = lowest(scores) as int;
        let hi = highest(scores) as int;
        let flo = lowest(front) as int;
        let fhi = highest(front) as int;
        assert(n * lo <= n * flo) by (nonlinear_arith)
            requires
                lo <= flo,
                n >= 0,
        ;
        assert(n * fhi <= n * hi) by (nonlinear_arith)
            requires
                fhi <= hi,
                n >= 0,
        ;
        assert((n + 1) * lo == n * lo + lo) by (nonlinear_arith);
        assert((n + 1) * hi == n * hi + hi) by (nonlinear_arith);
        assert((n + 1) * u64::MAX == n * u64::MAX + u64::MAX) by (nonlinear_arith);
    }
}

/// The mean lies between the lowest and the highest score.
pub proof fn lemma_mean_bounds(scores: Seq<u64>)
    requires
        scores.len() > 0,
    ensures
        lowest(scores) <= mean(scores) <= highest(scores),
{
    lemma_total_bounds(scores);
    let n = scores.len() as int;
    let t = total(scores) as int;
    let lo = lowest(scores) as int;
    let hi = highest(scores) as int;
    assert(lo <= t / n <= hi) by (nonlinear_arith)
        requires
            n > 0,
            n * lo <= t <= n * hi,
    ;
}

fn collect_scores(fitness: &Vec<u64>, members: &Vec<usize>) -> (r: Vec<u64>)
    requires
        forall|i: int| 0 <= i < members@.len() ==> members@[i] < fitness@.len(),
    ensures
        r@ == scores_of(fitness@, members@),
{
    let mut scores: Vec<u64> = Vec::new();
    let mut i: usize = 0;
    while i < members.len()
        invariant
            i <= members.len(),
            forall|i: int| 0 <= i < members@.len() ==> members@[i] < fitness@.len(),
            scores@ == scores_of(fitness@, members@).take(i as int),
        decreases members.len() - i,
    {
        scores.push(fitness[members[i]]);
        proof {
            let all = scores_of(fitness@, members@);
            assert(all.take(i + 1) =~= all.take(i as int).push(all[i as int]));
        }
        i += 1;
    }
    proof {
        let all = scores_of(fitness@, members@);
        assert(all.take(i as int) =~= all);
    }
    scores
}

pub(crate) fn sum_of(scores: &Vec<u64>) -> (r: u128)
    ensures
        r == total(scores@),
{
    let mut sum: u128 = 0;
    let mut i: usize = 0;
    while i < scores.len()
        invariant
            i <= scores.len(),
            sum == total(scores@.take(i as int)),
            sum <= i * u64::MAX,
        decreases scores.len() - i,
    {
        proof {
            assert(scores@.take(i + 1).drop_last() =~= scores@.take(i as int));
            assert((i + 1) * u64::MAX == i * u64::MAX + u64::MAX) by (nonlinear_arith);
            assert(i * u64::MAX <= usize::MAX * u64::MAX) by (nonlinear_arith)
                requires
                    i <= usize::MAX,
            ;
        }
        sum = sum + scores[i] as u128;
        i += 1;
    }
    proof {
        assert(scores@.take(i as int) =~= scores@);
    }
    sum
}

fn mean_of(scores: &Vec<u64>) -> (r: u64)
    requires
        scores@.len() > 0,
    ensures
        r == mean(scores@),
{
    let sum = sum_of(scores);
    proof {
        lemma_mean_bounds(scores@);
    }
    (sum / (scores.len() as u128)) as u64
}

fn highest_of(scores: &Vec<u64>) -> (r: u64)
    ensures
        r == highest(scores@),
{
    let mut best: u64 = 0;
    let mut i: usize = 0;
    while i < scores.len()
        invariant
            i <= scores.len(),
            best == highest(scores@.take(i as int)),
        decreases scores.len() - i,
    {
        proof {
            assert(scores@.take(i + 1).drop_last() =~= scores@.take(i as int));
        }
        if scores[i] >= best {
            best = scores[i];
        }
        i += 1;
    }
    proof {
        assert(scores@.take(i as int) =~= scores@);
    }
    best
}

fn lowest_of(scores: &Vec<u64>) -> (r: u64)
    ensures
        r == lowest(scores@),
{
    let mut least: u64 = 0;
    let mut i: usize = 0;
    while i < scores.len()
        invariant
            i <= scores.len(),
            least == lowest(scores@.take(i as int)),
        decreases scores.len() - i,
    {
        proof {
            assert(scores@.take(i + 1).drop_last() =~= scores@.take(i as int));
        }
        if i == 0 || scores[i] < least {
            least = scores[i];
        }
        i += 1;
    }
    proof {
        assert(scores@.take(i as int) =~= scores@);
    }
    least
}

fn champion_place_of(scores: &Vec<u64>) -> (r: usize)
    requires
        scores@.len() > 0,
    ensures
        r == champion_place(scores@),
        r < scores@.len(),
{
    let mut place: usize = 0;
    let mut i: usize = 1;
    while i < scores.len()
        invariant
            1 <= i <= scores.len(),
            place == champion_place(scores@.take(i as int)),
            place < i,
        decreases scores.len() - i,
    {
        proof {
            assert(scores@.take(i + 1).drop_last() =~= scores@.take(i as int));
        }
        if scores[i] >= scores[place] {
            place = i;
        }
        i += 1;
    }
    proof {
        assert(scores@.take(i as int) =~= scores@);
    }
    place
}

/// The scores of some members lie between the lowest and the highest score
/// of the whole evaluation.
pub proof fn lemma_scores_within(fitness: Seq<u64>, members: Seq<usize>)
    requires
        members.len() > 0,
        forall|i: int| 0 <= i < members.len() ==> members[i] < fitness.len(),
    ensures
        lowest(fitness) <= lowest(scores_of(fitness, members)),
        highest(scores_of(fitness, members)) <= highest(fitness),
{
    let scores = scores_of(fitness, members);
    lemma_extremes(scores);
    lemma_extremes(fitness);
    let h = choose|i: int| 0 <= i < scores.len() && #[trigger] scores[i] == highest(scores);
    let l = choose|i: int| 0 <= i < scores.len() && #[trigger] scores[i] == lowest(scores);
    assert(scores[h] == fitness[members[h] as int]);
    assert(scores[l] == fitness[members[l] as int]);
}

impl Evaluation {
    /// Whether every one of `members` has a score.
    pub open spec fn covers(&self, members: Seq<usize>) -> bool {
        forall|i: int| 0 <= i < members.len() ==> members[i] < self.fitness@.len()
    }

    /// The mean fitness of the members of `species`, rounded down.
    pub fn species_average_fitness<const INPUT_SZ: usize, const OUTPUT_SZ: usize>(
        &self,
        species: &Species<INPUT_SZ, OUTPUT_SZ>,
    ) -> (r: u64)
        requires
            species.members@.len() > 0,
            self.covers(species.members@),
        ensures
            r == mean(scores_of(self.fitness@, species.members@)),
    {
        let scores = collect_scores(&self.fitness, &species.members);
        mean_of(&scores)
    }

    /// The highest fitness among the members of `species`.
    pub fn species_max_fitness<const INPUT_SZ: usize, const OUTPUT_SZ: usize>(
        &self,
        species: &Species<INPUT_SZ, OUTPUT_SZ>,
    ) -> (r: u64)
        requires
            species.members@.len() > 0,
            self.covers(species.members@),
        ensures
            r == highest(scores_of(self.fitness@, species.members@)),
    {
        let scores = collect_scores(&self.fitness, &species.members);
        highest_of(&scores)
    }

    /// The mean fitness of `species` adjusted to the range of the whole
    /// evaluation: `(mean - lowest) / max(1.0, highest - lowest)`, a number
    /// between `0.0` and `1.0`.
    pub fn species_average_adjusted_fitness<const INPUT_SZ: usize, const OUTPUT_SZ: usize>(
        &self,
        species: &Species<INPUT_SZ, OUTPUT_SZ>,
    ) -> (r: u64)
        requires
            species.members@.len() > 0,
            self.covers(species.members@),
        ensures
            r == adjusted(
                mean(scores_of(self.fitness@, species.members@)),
                lowest(self.fitness@),
                highest(self.fitness@),
            ),
            r <= ONE,
    {
        let least = lowest_of(&self.fitness);
        let most = highest_of(&self.fitness);
        let average = self.species_average_fitness(species);
        proof {
            lemma_scores_within(self.fitness@, species.members@);
            lemma_mean_bounds(scores_of(self.fitness@, species.members@));
        }
        let range: u64 = if most - least > ONE {
            most - least
        } else {
            ONE
        };
        let above: u64 = average - least;
        assert(above * ONE / range as int <= ONE) by (nonlinear_arith)
            requires
                0 <= above <= range,
                range > 0,
        ;
        assert(above * ONE <= u64::MAX * ONE) by (nonlinear_arith)
            requires
                0 <= above <= u64::MAX,
        ;
        (((above as u128) * (ONE as u128)) / (range as u128)) as u64
    }

    /// The member with the highest fitness and that fitness; of several
    /// with the highest fitness, the one with the largest client id.
    pub fn champion(&self) -> (r: (usize, u64))
        requires
            self.fitness@.len() > 0,
        ensures
            r.0 == champion_place(self.fitness@),
            r.1 == self.fitness@[r.0 as int],
            r.1 == highest(self.fitness@),
    {
        let place = champion_place_of(&self.fitness);
        proof {
            lemma_extremes(self.fitness@);
        }
        (place, self.fitness[place])
    }

    /// The mean fitness of all members, rounded down.
    pub fn average_fitness(&self) -> (r: u64)
        requires
            self.fitness@.len() > 0,
        ensures
            r == mean(self.fitness@),
    {
        mean_of(&self.fitness)
    }

    /// The member of `species` with the highest fitness and that fitness;
    /// of several with the highest fitness, the last in the species's list.
    pub fn species_champion<const INPUT_SZ: usize, const OUTPUT_SZ: usize>(
        &self,
        species: &Species<INPUT_SZ, OUTPUT_SZ>,
    ) -> (r: (usize, u64))
        requires
            species.members@.len() > 0,
            self.covers(species.members@),
        ensures
            r.0 == species.members@[champion_place(
                scores_of(self.fitness@, species.members@),
            )],
            r.1 == self.fitness@[r.0 as int],
            r.1 == highest(scores_of(self.fitness@, species.members@)),
    {
        let scores = collect_scores(&self.fitness, &species.members);
        let place = champion_place_of(&scores);
        proof {
            lemma_extremes(scores@);
        }
        let id = species.members[place];
        (id, self.fitness[id])
    }
}

impl Clone for Evaluation {
    fn clone(&self) -> (r: Self)
        ensures
            r.fitness@ == self.fitness@,
    {
        Evaluation { fitness: self.fitness.clone() }
    }
}

} // verus!
