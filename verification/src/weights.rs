use crate::connection::Connection;
use crate::fixed::spec_clamp;
use crate::genome::{lemma_hidden_nodes_same_endpoints, numbered_by, Genome};
use crate::random::{draw_index, draw_ratio};
use rand::rngs::StdRng;
use vstd::prelude::*;

verus! {

/// A weight that is mutated is perturbed with probability
/// `PERTURB_NUMERATOR / PERTURB_DENOMINATOR`, 0.9, and replaced otherwise.
pub const PERTURB_NUMERATOR: u32 = 9;

/// See `PERTURB_NUMERATOR`.
pub const PERTURB_DENOMINATOR: u32 = 10;

/// A replaced weight lies between `-30.0` and `30.0`.
pub const REPLACE_LIMIT: i64 = 30 * 65_536;

/// Half of a sample, rounded towards zero: a standard-normal sample scaled
/// to the standard deviation `0.5` of a perturbation.
pub open spec fn spec_half(sample: i64) -> int {
    if sample >= 0 {
        sample / 2
    } else {
        -((-sample) / 2)
    }
}

/// The weight that a mutation with the given standard-normal `sample`
/// leaves in place of `weight`: perturbed by half the sample, or replaced by
/// the sample limited to `[-30.0, 30.0]`. A perturbed weight saturates at
/// the ends of the 64-bit range.
pub open spec fn spec_mutated_weight(weight: i64, perturb: bool, sample: i64) -> i64 {
    if perturb {
        spec_clamp(weight + spec_half(sample), i64::MIN as int, i64::MAX as int) as i64
    } else {
        spec_clamp(sample as int, -REPLACE_LIMIT as int, REPLACE_LIMIT as int) as i64
    }
}

/// The weight after one mutation, as `spec_mutated_weight` defines it.
pub fn mutated_weight(weight: i64, perturb: bool, sample: i64) -> (r: i64)
    ensures
        r == spec_mutated_weight(weight, perturb, sample),
{
    if perturb {
        let half: i128 = if sample >= 0 {
            (sample / 2) as i128
        } else {
            let magnitude: u64 = ((0 - (sample as i128)) as u64) / 2;
            0 - (magnitude as i128)
        };
        let sum: i128 = weight as i128 + half;
        if sum < i64::MIN as i128 {
            i64::MIN
        } else if sum > i64::MAX as i128 {
            i64::MAX
        } else {
            sum as i64
        }
    } else if sample < -REPLACE_LIMIT {
        -REPLACE_LIMIT
    } else if sample > REPLACE_LIMIT {
        REPLACE_LIMIT
    } else {
        sample
    }
}

/// `after` is `before` with nothing but weights changed, each weight by one
/// mutation whose sample is an entry of `noise`.
pub open spec fn weights_mutated<const INPUT_SZ: usize, const OUTPUT_SZ: usize>(
    before: Seq<Connection<INPUT_SZ, OUTPUT_SZ>>,
    after: Seq<Connection<INPUT_SZ, OUTPUT_SZ>>,
    noise: Seq<i64>,
) -> bool {
    &&& after.len() == before.len()
    &&& forall|i: int|
        0 <= i < before.len() ==> (#[trigger] after[i]) == (Connection {
            weight: after[i].weight,
            ..before[i]
        }) && exists|perturb: bool, k: int|
            0 <= k < noise.len() && after[i].weight == #[trigger] spec_mutated_weight(
                before[i].weight,
                perturb,
                noise[k],
            )
}

impl<const INPUT_SZ: usize, const OUTPUT_SZ: usize> Genome<INPUT_SZ, OUTPUT_SZ> {
    /// Mutates the weight of every gene: with probability 0.9 the weight is
    /// perturbed by half a sample, else it is replaced by a sample limited to
    /// `[-30.0, 30.0]`. Each sample is an entry of `noise`, a table of
    /// standard-normal samples in fixed point, picked uniformly.
    pub fn mutate_weights(&mut self, rng: &mut StdRng, noise: &Vec<i64>)
        requires
            noise@.len() > 0,
        ensures
            final(self).hidden_nodes == old(self).hidden_nodes,
            weights_mutated(old(self).connections@, final(self).connections@, noise@),
            old(self).well_formed() ==> final(self).well_formed(),
            forall|numbers: Map<(usize, usize), usize>|
                numbered_by(old(self).connections@, numbers) ==> numbered_by(
                    final(self).connections@,
                    numbers,
                ),
    {
        let ghost before = self.connections@;
        let mut i: usize = 0;
        while i < self.connections.len()
            invariant
                noise@.len() > 0,
                self.hidden_nodes == old(self).hidden_nodes,
                before == old(self).connections@,
                self.connections@.len() == before.len(),
                i <= before.len(),
                forall|j: int| i <= j < before.len() ==> self.connections@[j] == before[j],
                forall|j: int|
                    0 <= j < i ==> (#[trigger] self.connections@[j]) == (Connection {
                        weight: self.connections@[j].weight,
                        ..before[j]
                    }) && exists|perturb: bool, k: int|
                        0 <= k < noise@.len() && self.connections@[j].weight
                            == #[trigger] spec_mutated_weight(before[j].weight, perturb, noise@[k]),
            decreases before.len() - i,
        {
            let gene = self.connections[i];
            let perturb = draw_ratio(rng, PERTURB_NUMERATOR, PERTURB_DENOMINATOR);
            let k = draw_index(rng, 0, noise.len());
            let weight = mutated_weight(gene.weight, perturb, noise[k]);
            self.connections.set(i, Connection { weight, ..gene });
            proof {
                assert(weight == spec_mutated_weight(before[i as int].weight, perturb, noise@[k as int]));
            }
            i += 1;
        }
        proof {
            let after = self.connections@;
            assert forall|j: int| 0 <= j < before.len() implies (#[trigger] before[j]).endpoints()
                == after[j].endpoints() by {
                assert(after[j] == (Connection { weight: after[j].weight, ..before[j] }));
            }
            lemma_hidden_nodes_same_endpoints(before, after);
            if old(self).well_formed() {
                assert forall|j: int| 0 <= j < after.len() implies (
                #[trigger] after[j]).well_formed() by {
                    assert(before[j].well_formed());
                    assert(before[j].endpoints() == after[j].endpoints());
                }
                assert forall|a: int, b: int| 0 <= a < b < after.len() implies (
                #[trigger] after[a]).endpoints() != (#[trigger] after[b]).endpoints() by {
                    assert(before[a].endpoints() != before[b].endpoints());
                    assert(before[a].endpoints() == after[a].endpoints());
                    assert(before[b].endpoints() == after[b].endpoints());
                }
            }
            assert forall|numbers: Map<(usize, usize), usize>|
                numbered_by(before, numbers) implies numbered_by(after, numbers) by {
                assert forall|j: int| 0 <= j < after.len() implies numbers.contains_key(
                    (#[trigger] after[j]).endpoints(),
                ) && numbers[after[j].endpoints()] == after[j].innovation_number by {
                    assert(before[j].endpoints() == after[j].endpoints());
                    assert(after[j] == (Connection { weight: after[j].weight, ..before[j] }));
                }
            }
        }
    }
}

} // verus!
