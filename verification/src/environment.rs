use crate::genome::Genome;
use vstd::prelude::*;

verus! {

/// What scores a genome. The score is a fixed-point number that is not
/// negative. An environment may keep state, and it need not score the same
/// genome twice alike: `answers` says which scores it may give in the state
/// that it is in.
pub trait Environment<const INPUT_SZ: usize, const OUTPUT_SZ: usize>: Sized {
    /// Whether `score` is a score that the environment, as it is, may give
    /// to `genome`. An environment that does not say otherwise may give any
    /// score.
    open spec fn answers(&self, genome: Genome<INPUT_SZ, OUTPUT_SZ>, score: u64) -> bool {
        true
    }

    /// Scores `genome`. The score is one of those that the environment, as
    /// it was before the call, may give to the genome.
    fn evaluate(&mut self, genome: &Genome<INPUT_SZ, OUTPUT_SZ>) -> (score: u64)
        ensures
            old(self).answers(*genome, score),
    ;
}

/// Whether the scores are answers of an environment that was asked for each
/// of the genomes in turn: `states[i]` is the environment as it was when it
/// was asked for genome `i`, and the score at place `i` is one that it might
/// then give.
pub open spec fn asked_in_turn<
    const INPUT_SZ: usize,
    const OUTPUT_SZ: usize,
    E: Environment<INPUT_SZ, OUTPUT_SZ>,
>(states: Seq<E>, genomes: Seq<Genome<INPUT_SZ, OUTPUT_SZ>>, scores: Seq<u64>) -> bool {
    &&& states.len() == genomes.len() + 1
    &&& scores.len() == genomes.len()
    &&& forall|i: int|
        0 <= i < genomes.len() ==> (#[trigger] states[i]).answers(genomes[i], scores[i])
}

/// Whether the scores are what an environment answered when it was asked
/// for each of the genomes in turn, being `before` at first and `after` at
/// last.
pub open spec fn scored_by<
    const INPUT_SZ: usize,
    const OUTPUT_SZ: usize,
    E: Environment<INPUT_SZ, OUTPUT_SZ>,
>(before: E, genomes: Seq<Genome<INPUT_SZ, OUTPUT_SZ>>, scores: Seq<u64>, after: E) -> bool {
    exists|states: Seq<E>|
        #[trigger] asked_in_turn(states, genomes, scores) && states[0] == before
            && states[genomes.len() as int] == after
}

/// Why an engine cannot be set up.
#[derive(Clone, Copy, Debug, PartialEq, Eq)]
pub enum ConfigError {
    /// The target size of the population is zero.
    ZeroTargetSize,
    /// The table of noise samples is empty.
    EmptyNoise,
    /// The network has no output node.
    NoOutputs,
    /// The bias, input and output nodes alone exceed the machine's numbers.
    TooManyNodes,
}

} // verus!
