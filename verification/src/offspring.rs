use crate::evaluation::{adjusted, highest, lowest, mean, scores_of, sum_of, total, Evaluation};
use crate::fixed::ONE;
use crate::population::Population;
use crate::speciate::scored;
use crate::speciation::Speciation;
use crate::species::Species;
use vstd::prelude::*;

verus! {

/// The size that a species with the given adjusted fitness is meant to
/// have, in fixed point: its share of the sum of all adjusted fitness times
/// the target size, or `1.0` if that sum is zero.
pub open spec fn intended_size(adjusted: nat, sum: nat, target: nat) -> nat {
    if sum > 0 {
        adjusted * target * ONE as nat / sum
    } else {
        ONE as nat
    }
}

/// The number of members by which a species moves towards its intended
/// size: half the difference to its present size, rounded to the nearest
/// whole number, a tie away from zero.
pub open spec fn half_step(previous: nat, intended: nat) -> nat {
    let difference = if intended >= previous * ONE {
        intended - previous * ONE
    } else {
        previous * ONE - intended
    };
    ((difference + ONE) / (2 * ONE as int)) as nat
}

/// The size of a species after one step towards its intended size: moved
/// by `half_step` if that is not zero, else by one member in the direction
/// of the intended size, and not at all if it is there. The size stays
/// between 0 and the largest machine number.
pub open spec fn stepped_size(previous: nat, intended: nat) -> nat {
    let step = half_step(previous, intended);
    let wanted: int = if intended > previous * ONE {
        if step > 0 {
            (previous + step) as int
        } else {
            (previous + 1) as int
        }
    } else if intended < previous * ONE {
        if step > 0 {
            previous - step
        } else {
            previous - 1
        }
    } else {
        previous as int
    };
    if wanted < 0 {
        0
    } else if wanted > usize::MAX {
        usize::MAX as nat
    } else {
        wanted as nat
    }
}

/// The sum of the sizes.
pub open spec fn total_size(sizes: Seq<usize>) -> nat
    decreases sizes.len(),
{
    if sizes.len() == 0 {
        0
    } else {
        total_size(sizes.drop_last()) + sizes.last() as nat
    }
}

/// The adjusted fitness of each species.
pub open spec fn adjusted_scores<const INPUT_SZ: usize, const OUTPUT_SZ: usize>(
    species: Seq<Species<INPUT_SZ, OUTPUT_SZ>>,
    fitness: Seq<u64>,
) -> Seq<u64> {
    Seq::new(
        species.len(),
        |k: int|
            adjusted(
                mean(scores_of(fitness, species[k].members@)),
                lowest(fitness),
                highest(fitness),
            ) as u64,
    )
}

/// The size of each species after its step towards its intended size.
pub open spec fn stepped_sizes<const INPUT_SZ: usize, const OUTPUT_SZ: usize>(
    species: Seq<Species<INPUT_SZ, OUTPUT_SZ>>,
    fitness: Seq<u64>,
    target: usize,
) -> Seq<usize> {
    let scores = adjusted_scores(species, fitness);
    Seq::new(
        species.len(),
        |k: int|
            stepped_size(
                species[k].members@.len(),
                intended_size(scores[k] as nat, total(scores), target as nat),
            ) as usize,
    )
}

/// The weights by which the members beyond one for each species are
/// shared out: the sizes, unless they sum to zero or to more than 64 bits
/// hold; then every species weighs 1.
pub open spec fn share_weights(sizes: Seq<usize>) -> Seq<usize> {
    if 0 < total_size(sizes) <= u64::MAX {
        sizes
    } else {
        Seq::new(sizes.len(), |k: int| 1usize)
    }
}

/// The part of `spare` that goes to the first `count` of the weights
/// together, rounded down.
pub open spec fn part(weights: Seq<usize>, spare: nat, count: int) -> nat {
    total_size(weights.take(count)) * spare / total_size(weights)
}

/// The share of the species at place `k`: 1 if there are more species than
/// `target`; else one member, and of the `target - weights.len()` members
/// that are then left what the first `k + 1` species get together less what
/// the first `k` get.
pub open spec fn share(weights: Seq<usize>, target: nat, k: int) -> nat {
    if weights.len() > target {
        1
    } else {
        let spare = (target - weights.len()) as nat;
        (1 + part(weights, spare, k + 1) - part(weights, spare, k)) as nat
    }
}

/// The shares of `target` that go to species of the given sizes: in
/// proportion to the sizes, at least 1 each, and `target` in all unless
/// there are more species than that.
pub open spec fn shares(sizes: Seq<usize>, target: usize) -> Seq<usize> {
    Seq::new(sizes.len(), |k: int| share(share_weights(sizes), target as nat, k) as usize)
}

/// The number of offspring of each species: the shares of `target` that go
/// to the sizes of the species after their steps.
pub open spec fn offspring<const INPUT_SZ: usize, const OUTPUT_SZ: usize>(
    species: Seq<Species<INPUT_SZ, OUTPUT_SZ>>,
    fitness: Seq<u64>,
    target: usize,
) -> Seq<usize> {
    shares(stepped_sizes(species, fitness, target), target)
}

/// As many weights of 1 as there are sum to their number.
pub proof fn lemma_total_of_ones(sizes: Seq<usize>)
    requires
        forall|k: int| 0 <= k < sizes.len() ==> sizes[k] == 1,
    ensures
        total_size(sizes) == sizes.len(),
    decreases sizes.len(),
{
    if sizes.len() > 0 {
        assert forall|k: int| 0 <= k < sizes.drop_last().len() implies sizes.drop_last()[k]
            == 1 by {
            assert(sizes.drop_last()[k] == sizes[k]);
        }
        lemma_total_of_ones(sizes.drop_last());
    }
}

/// The first `count` sizes sum to no more than all of them, and the next
/// size adds to their sum.
pub proof fn lemma_prefix_total(sizes: Seq<usize>, count: int)
    requires
        0 <= count <= sizes.len(),
    ensures
        total_size(sizes.take(count)) <= total_size(sizes),
        count < sizes.len() ==> total_size(sizes.take(count + 1)) == total_size(sizes.take(count))
            + sizes[count],
    decreases sizes.len() - count,
{
    if count == sizes.len() {
        assert(sizes.take(count) =~= sizes);
    } else {
        assert(sizes.take(count + 1).drop_last() =~= sizes.take(count));
        assert(sizes.take(count + 1).last() == sizes[count]);
        lemma_prefix_total(sizes, count + 1);
    }
}

/// The weights sum to more than zero where there is a species.
pub proof fn lemma_share_weights(sizes: Seq<usize>)
    ensures
        share_weights(sizes).len() == sizes.len(),
        sizes.len() > 0 ==> 0 < total_size(share_weights(sizes)),
        total_size(share_weights(sizes)) <= u64::MAX || total_size(share_weights(sizes))
            == sizes.len(),
{
    if !(0 < total_size(sizes) <= u64::MAX) {
        lemma_total_of_ones(share_weights(sizes));
    }
}

/// The parts grow with the number of species that they are for, from
/// nothing to all of `spare`.
pub proof fn lemma_part_grows(weights: Seq<usize>, spare: nat, count: int)
    requires
        0 <= count <= weights.len(),
        total_size(weights) > 0,
    ensures
        part(weights, spare, 0) == 0,
        part(weights, spare, weights.len() as int) == spare,
        part(weights, spare, count) <= spare,
        count < weights.len() ==> part(weights, spare, count) <= part(weights, spare, count + 1),
{
    let total = total_size(weights) as int;
    let amount = spare as int;
    lemma_prefix_total(weights, count);
    lemma_prefix_total(weights, 0);
    assert(weights.take(0).len() == 0);
    assert(weights.take(weights.len() as int) =~= weights);
    let here = total_size(weights.take(count)) as int;
    assert(0 * amount / total == 0) by (nonlinear_arith)
        requires
            total > 0,
    ;
    assert(total * amount / total == amount) by (nonlinear_arith)
        requires
            total > 0,
    ;
    assert(here * amount / total <= amount) by (nonlinear_arith)
        requires
            0 <= here <= total,
            total > 0,
            amount >= 0,
    ;
    if count < weights.len() {
        lemma_prefix_total(weights, count + 1);
        let next = total_size(weights.take(count + 1)) as int;
        assert(here * amount / total <= next * amount / total) by (nonlinear_arith)
            requires
                0 <= here <= next,
                total > 0,
                amount >= 0,
        ;
    }
}

proof fn lemma_shares_add_up(sizes: Seq<usize>, target: usize, count: int)
    requires
        0 < sizes.len() <= target,
        0 <= count <= sizes.len(),
    ensures
        total_size(shares(sizes, target).take(count)) == count + part(
            share_weights(sizes),
            (target - sizes.len()) as nat,
            count,
        ),
    decreases count,
{
    let weights = share_weights(sizes);
    let spare = (target - sizes.len()) as nat;
    lemma_share_weights(sizes);
    lemma_part_grows(weights, spare, count);
    if count == 0 {
        assert(shares(sizes, target).take(0).len() == 0);
    } else {
        lemma_shares_add_up(sizes, target, count - 1);
        lemma_part_grows(weights, spare, count - 1);
        let all = shares(sizes, target);
        assert(all.take(count).drop_last() =~= all.take(count - 1));
        assert(all.take(count).last() == all[count - 1]);
        assert(part(weights, spare, count) <= spare);
        assert(all[count - 1] == share(weights, target as nat, count - 1));
    }
}

/// Every species gets at least one member, and where there are species,
/// and not more of them than `target`, the shares sum to `target`.
pub proof fn lemma_shares_sum(sizes: Seq<usize>, target: usize)
    ensures
        shares(sizes, target).len() == sizes.len(),
        forall|k: int| 0 <= k < sizes.len() ==> #[trigger] shares(sizes, target)[k] >= 1,
        0 < sizes.len() <= target ==> total_size(shares(sizes, target)) == target,
{
    let weights = share_weights(sizes);
    lemma_share_weights(sizes);
    assert forall|k: int| 0 <= k < sizes.len() implies #[trigger] shares(sizes, target)[k]
        >= 1 by {
        if sizes.len() <= target {
            let spare = (target - sizes.len()) as nat;
            lemma_part_grows(weights, spare, k);
            lemma_part_grows(weights, spare, k + 1);
        }
    }
    if 0 < sizes.len() <= target {
        let spare = (target - sizes.len()) as nat;
        lemma_shares_add_up(sizes, target, sizes.len() as int);
        lemma_part_grows(weights, spare, 0);
        assert(shares(sizes, target).take(sizes.len() as int) =~= shares(sizes, target));
    }
}

/// Every species gets at least one offspring, and where there are species,
/// and not more of them than the target size, the offspring of all species
/// are as many as the target size.
pub proof fn lemma_offspring_sum<const INPUT_SZ: usize, const OUTPUT_SZ: usize>(
    species: Seq<Species<INPUT_SZ, OUTPUT_SZ>>,
    fitness: Seq<u64>,
    target: usize,
)
    ensures
        offspring(species, fitness, target).len() == species.len(),
        forall|k: int|
            0 <= k < species.len() ==> #[trigger] offspring(species, fitness, target)[k] >= 1,
        0 < species.len() <= target ==> total_size(offspring(species, fitness, target))
            == target,
{
    lemma_shares_sum(stepped_sizes(species, fitness, target), target);
}

/// The size of a species after its step towards its intended size. The
/// species has `previous` members and the adjusted fitness `score`; `sum` is
/// the adjusted fitness of all species together, `target` the target size
/// of the population.
pub fn step_size(previous: usize, score: u64, sum: u128, target: usize) -> (r: usize)
    requires
        score <= ONE,
    ensures
        r == stepped_size(
            previous as nat,
            intended_size(score as nat, sum as nat, target as nat),
        ),
{
    assert(score * target * ONE <= 65_536 * 0xffff_ffff_ffff_ffff * 65_536 && score * target
        <= 65_536 * 0xffff_ffff_ffff_ffff) by (nonlinear_arith)
        requires
            0 <= score <= 65_536,
            0 <= target <= 0xffff_ffff_ffff_ffff,
            ONE == 65_536,
    ;
    let intended: u128 = if sum > 0 {
        let numerator: u128 = (score as u128) * (target as u128) * (ONE as u128);
        assert(numerator / sum <= numerator) by (nonlinear_arith)
            requires
                sum > 0,
                numerator >= 0,
        ;
        numerator / sum
    } else {
        ONE as u128
    };
    assert(intended == intended_size(score as nat, sum as nat, target as nat));
    assert(previous * ONE <= 0xffff_ffff_ffff_ffff * 65_536) by (nonlinear_arith)
        requires
            0 <= previous <= 0xffff_ffff_ffff_ffff,
            ONE == 65_536,
    ;
    let present: u128 = (previous as u128) * (ONE as u128);
    let difference: u128 = if intended >= present {
        intended - present
    } else {
        present - intended
    };
    let step: u128 = (difference + ONE as u128) / (2 * ONE as u128);
    assert(step == half_step(previous as nat, intended as nat));
    if intended > present {
        let grown: u128 = if step > 0 {
            previous as u128 + step
        } else {
            previous as u128 + 1
        };
        if grown > usize::MAX as u128 {
            usize::MAX
        } else {
            grown as usize
        }
    } else if intended < present {
        let shrink: u128 = if step > 0 {
            step
        } else {
            1
        };
        if shrink > previous as u128 {
            0
        } else {
            (previous as u128 - shrink) as usize
        }
    } else {
        previous
    }
}

fn sum_sizes(sizes: &Vec<usize>) -> (r: u128)
    ensures
        r == total_size(sizes@),
{
    let mut sum: u128 = 0;
    let mut i: usize = 0;
    while i < sizes.len()
        invariant
            i <= sizes.len(),
            sum == total_size(sizes@.take(i as int)),
            sum <= i * 0xffff_ffff_ffff_ffff,
        decreases sizes.len() - i,
    {
        proof {
            assert(sizes@.take(i + 1).drop_last() =~= sizes@.take(i as int));
            assert((i + 1) * 0xffff_ffff_ffff_ffff == i * 0xffff_ffff_ffff_ffff
                + 0xffff_ffff_ffff_ffff) by (nonlinear_arith);
            assert(i * 0xffff_ffff_ffff_ffff <= 0xffff_ffff_ffff_ffff * 0xffff_ffff_ffff_ffff)
                by (nonlinear_arith)
                requires
                    i <= 0xffff_ffff_ffff_ffff,
            ;
        }
        sum = sum + sizes[i] as u128;
        i += 1;
    }
    proof {
        assert(sizes@.take(i as int) =~= sizes@);
    }
    sum
}

/// The shares of `target` that go to species of the given sizes. Each
/// species gets one member. The members that are then left go to the
/// species in proportion to their sizes: the first `k` species together get
/// their part of them rounded down, so that nothing is left over at the
/// end. With more species than `target` every species gets just the one.
pub fn share_out(sizes: &Vec<usize>, target: usize) -> (r: Vec<usize>)
    ensures
        r@ == shares(sizes@, target),
        forall|k: int| 0 <= k < r@.len() ==> r@[k] >= 1,
        0 < sizes@.len() <= target ==> total_size(r@) == target,
{
    let count = sizes.len();
    let ghost weights = share_weights(sizes@);
    let ghost model = shares(sizes@, target);
    proof {
        lemma_shares_sum(sizes@, target);
        lemma_share_weights(sizes@);
    }
    let mut out: Vec<usize> = Vec::new();
    if count > target {
        let mut k: usize = 0;
        while k < count
            invariant
                k <= count,
                count == sizes@.len(),
                count > target,
                model == shares(sizes@, target),
                out@.len() == k,
                forall|j: int| 0 <= j < k ==> out@[j] == model[j],
            decreases count - k,
        {
            out.push(1);
            k += 1;
        }
        assert(out@ =~= model);
        return out;
    }
    if count == 0 {
        assert(out@ =~= model);
        return out;
    }
    let spare: usize = target - count;
    let sum = sum_sizes(sizes);
    let by_size = 0 < sum && sum <= u64::MAX as u128;
    let total: u128 = if by_size {
        sum
    } else {
        count as u128
    };
    let mut before: u128 = 0;
    let mut given: u128 = 0;
    let mut k: usize = 0;
    proof {
        if !by_size {
            lemma_total_of_ones(weights);
        }
        lemma_part_grows(weights, spare as nat, 0);
        assert(weights.take(0).len() == 0);
    }
    while k < count
        invariant
            k <= count,
            0 < count <= target,
            count == sizes@.len(),
            spare == target - count,
            weights == share_weights(sizes@),
            weights.len() == count,
            model == shares(sizes@, target),
            by_size == (0 < total_size(sizes@) <= u64::MAX),
            total == total_size(weights),
            0 < total <= u64::MAX,
            before == total_size(weights.take(k as int)),
            before <= total,
            given == part(weights, spare as nat, k as int),
            given <= spare,
            out@.len() == k,
            forall|j: int| 0 <= j < k ==> out@[j] == model[j],
        decreases count - k,
    {
        let weight: usize = if by_size {
            sizes[k]
        } else {
            1
        };
        proof {
            assert(weights[k as int] == weight);
            lemma_prefix_total(weights, k as int);
            lemma_prefix_total(weights, k + 1);
            lemma_part_grows(weights, spare as nat, k as int);
            lemma_part_grows(weights, spare as nat, k + 1);
        }
        let reached: u128 = before + weight as u128;
        assert(reached * spare <= 0xffff_ffff_ffff_ffff * 0xffff_ffff_ffff_ffff) by (nonlinear_arith)
            requires
                0 <= reached <= 0xffff_ffff_ffff_ffff,
                0 <= spare <= 0xffff_ffff_ffff_ffff,
        ;
        let next: u128 = reached * (spare as u128) / total;
        assert(next == part(weights, spare as nat, k + 1));
        let one: usize = 1 + (next - given) as usize;
        assert(one == model[k as int]);
        out.push(one);
        before = reached;
        given = next;
        k += 1;
    }
    assert(out@ =~= model);
    out
}

impl<const INPUT_SZ: usize, const OUTPUT_SZ: usize> Population<INPUT_SZ, OUTPUT_SZ> {
    /// The number of offspring that each species gets, in the order of the
    /// species. A species is meant to have its share of the adjusted
    /// fitness times the target size; it moves half way from its present
    /// size towards that, and the target size is then shared out in
    /// proportion to these sizes, as `share_out` does. Every species gets at
    /// least one, and where there are species, and not more of them than
    /// the target size, all get the target size together.
    pub fn compute_offspring(
        &self,
        evaluation: &Evaluation,
        speciation: &Speciation<INPUT_SZ, OUTPUT_SZ>,
    ) -> (r: Vec<usize>)
        requires
            forall|k: int|
                0 <= k < speciation.species@.len() ==> scored(
                    (#[trigger] speciation.species@[k]).members@,
                    evaluation.fitness@,
                ),
        ensures
            r@ == offspring(speciation.species@, evaluation.fitness@, self.target_size),
            forall|k: int| 0 <= k < r@.len() ==> r@[k] >= 1,
            0 < speciation.species@.len() <= self.target_size ==> total_size(r@)
                == self.target_size,
    {
        let ghost species = speciation.species@;
        let ghost fitness = evaluation.fitness@;
        let ghost scores_model = adjusted_scores(species, fitness);
        let mut scores: Vec<u64> = Vec::new();
        let mut i: usize = 0;
        while i < speciation.species.len()
            invariant
                i <= speciation.species.len(),
                species == speciation.species@,
                fitness == evaluation.fitness@,
                scores_model == adjusted_scores(species, fitness),
                forall|k: int|
                    0 <= k < species.len() ==> scored((#[trigger] species[k]).members@, fitness),
                scores@.len() == i,
                forall|k: int| 0 <= k < i ==> scores@[k] == scores_model[k] && scores@[k] <= ONE,
            decreases speciation.species.len() - i,
        {
            assert(scored(species[i as int].members@, fitness));
            let score = evaluation.species_average_adjusted_fitness(&speciation.species[i]);
            let ghost collected = scores@;
            assert(scores_model[i as int] == score);
            scores.push(score);
            assert forall|k: int| 0 <= k < i + 1 implies scores@[k] == scores_model[k] && scores@[k]
                <= ONE by {
                if k < i {
                    assert(scores@[k] == collected[k]);
                }
            }
            i += 1;
        }
        assert(scores@ =~= scores_model);
        let sum = sum_of(&scores);
        let ghost sizes_model = stepped_sizes(species, fitness, self.target_size);
        let mut sizes: Vec<usize> = Vec::new();
        let mut i: usize = 0;
        while i < speciation.species.len()
            invariant
                i <= speciation.species.len(),
                species == speciation.species@,
                scores@ == adjusted_scores(species, fitness),
                forall|k: int| 0 <= k < scores@.len() ==> scores@[k] <= ONE,
                sum == total(scores@),
                sizes_model == stepped_sizes(species, fitness, self.target_size),
                sizes@.len() == i,
                forall|k: int| 0 <= k < i ==> sizes@[k] == sizes_model[k],
            decreases speciation.species.len() - i,
        {
            let size = step_size(
                speciation.species[i].members.len(),
                scores[i],
                sum,
                self.target_size,
            );
            sizes.push(size);
            i += 1;
        }
        assert(sizes@ =~= sizes_model);
        share_out(&sizes, self.target_size)
    }
}

} // verus!
