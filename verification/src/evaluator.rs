use crate::environment::{scored_by, ConfigError, Environment};
use crate::evaluation::Evaluation;
use crate::innovation::InnovationRecord;
use crate::offspring::offspring;
use crate::population::{evolved, lemma_surviving_keeps, surviving, Population};
use crate::reproduce::sorted_species;
use crate::speciate::{lemma_partition_scored, next_count, speciated};
use crate::speciation::Speciation;
use crate::species::Species;
use rand::rngs::StdRng;
use vstd::prelude::*;

verus! {

/// An evolutionary run: the environment that scores the genomes, the
/// record of innovation numbers, the population, the source of random
/// numbers, a table of standard-normal samples in fixed point for the
/// mutation of weights, and the speciation and evaluation of the current
/// generation once there is one.
///
/// The parts can be read, not written: that keeps them consistent with
/// one another, as `well_formed` says.
pub struct Evaluator<
    const INPUT_SZ: usize,
    const OUTPUT_SZ: usize,
    E: Environment<INPUT_SZ, OUTPUT_SZ>,
> {
    env: E,
    innovation_record: InnovationRecord<INPUT_SZ, OUTPUT_SZ>,
    population: Population<INPUT_SZ, OUTPUT_SZ>,
    rng: StdRng,
    noise: Vec<i64>,
    last_speciation: Option<Speciation<INPUT_SZ, OUTPUT_SZ>>,
    last_evaluation: Option<Evaluation>,
}

/// The error, if any, for which a run with these settings is refused: the
/// first that applies of a target size of zero, an empty table of noise, a
/// network without outputs, and a node layout beyond the machine's numbers.
pub open spec fn config_error(
    inputs: usize,
    outputs: usize,
    target_size: usize,
    noise: Seq<i64>,
) -> Option<ConfigError> {
    if target_size == 0 {
        Some(ConfigError::ZeroTargetSize)
    } else if noise.len() == 0 {
        Some(ConfigError::EmptyNoise)
    } else if outputs == 0 {
        Some(ConfigError::NoOutputs)
    } else if 1 + inputs + outputs > usize::MAX {
        Some(ConfigError::TooManyNodes)
    } else {
        None
    }
}

impl<
    const INPUT_SZ: usize,
    const OUTPUT_SZ: usize,
    E: Environment<INPUT_SZ, OUTPUT_SZ>,
> Evaluator<INPUT_SZ, OUTPUT_SZ, E> {
    /// The population.
    pub closed spec fn spec_population(&self) -> &Population<INPUT_SZ, OUTPUT_SZ> {
        &self.population
    }

    /// The record of innovation numbers.
    pub closed spec fn spec_innovation_record(&self) -> &InnovationRecord<INPUT_SZ, OUTPUT_SZ> {
        &self.innovation_record
    }

    /// The table of noise samples.
    pub closed spec fn spec_noise(&self) -> &Vec<i64> {
        &self.noise
    }

    /// The speciation of the present members, once there is one.
    pub closed spec fn spec_last_speciation(&self) -> Option<&Speciation<INPUT_SZ, OUTPUT_SZ>> {
        match self.last_speciation {
            Some(speciation) => Some(&speciation),
            None => None,
        }
    }

    /// The evaluation of the present members, once there is one.
    pub closed spec fn spec_last_evaluation(&self) -> Option<&Evaluation> {
        match self.last_evaluation {
            Some(evaluation) => Some(&evaluation),
            None => None,
        }
    }

    /// The environment.
    pub closed spec fn spec_env(&self) -> &E {
        &self.env
    }

    /// The population.
    #[verifier::when_used_as_spec(spec_population)]
    pub fn population(&self) -> (r: &Population<INPUT_SZ, OUTPUT_SZ>)
        ensures
            r == self.spec_population(),
    {
        &self.population
    }

    /// The record of innovation numbers.
    #[verifier::when_used_as_spec(spec_innovation_record)]
    pub fn innovation_record(&self) -> (r: &InnovationRecord<INPUT_SZ, OUTPUT_SZ>)
        ensures
            r == self.spec_innovation_record(),
    {
        &self.innovation_record
    }

    /// The table of noise samples.
    #[verifier::when_used_as_spec(spec_noise)]
    pub fn noise(&self) -> (r: &Vec<i64>)
        ensures
            r == self.spec_noise(),
    {
        &self.noise
    }

    /// The speciation of the present members, once there is one.
    #[verifier::when_used_as_spec(spec_last_speciation)]
    pub fn last_speciation(&self) -> (r: Option<&Speciation<INPUT_SZ, OUTPUT_SZ>>)
        ensures
            r == self.spec_last_speciation(),
    {
        self.last_speciation.as_ref()
    }

    /// The evaluation of the present members, once there is one.
    #[verifier::when_used_as_spec(spec_last_evaluation)]
    pub fn last_evaluation(&self) -> (r: Option<&Evaluation>)
        ensures
            r == self.spec_last_evaluation(),
    {
        self.last_evaluation.as_ref()
    }

    /// The environment.
    #[verifier::when_used_as_spec(spec_env)]
    pub fn env(&self) -> (r: &E)
        ensures
            r == self.spec_env(),
    {
        &self.env
    }

    /// The invariant of a run, which `new` establishes and
    /// `evaluate_and_evolve` keeps: the network has an output, the record is
    /// consistent and numbers the genes of every member, every member is a
    /// well-formed genome, there is noise, and the speciation and the
    /// evaluation, where there are any, are those of the present members.
    pub open spec fn well_formed(&self) -> bool {
        &&& OUTPUT_SZ > 0
        &&& self.innovation_record().well_formed()
        &&& self.population().follows(self.innovation_record()@)
        &&& self.noise()@.len() > 0
        &&& self.last_speciation() is Some <==> self.last_evaluation() is Some
        &&& self.last_speciation() matches Some(speciation) ==> speciation.well_formed(
            self.population().members@.len() as int,
        )
        &&& self.last_evaluation() matches Some(evaluation) ==> evaluation.fitness@.len()
            == self.population().members@.len()
    }

    /// A run in its initial state: a population of `target_size` minimal
    /// genomes, and neither speciation nor evaluation. Settings that
    /// `config_error` names are refused.
    pub fn new(env: E, target_size: usize, rng: StdRng, noise: Vec<i64>) -> (r: Result<
        Self,
        ConfigError,
    >)
        ensures
            match config_error(INPUT_SZ, OUTPUT_SZ, target_size, noise@) {
                Some(e) => r == Err::<Self, ConfigError>(e),
                None => r matches Ok(evaluator) && {
                    &&& evaluator.well_formed()
                    &&& evaluator.last_speciation() is None
                    &&& evaluator.last_evaluation() is None
                    &&& evaluator.population().generation == 0
                    &&& evaluator.population().target_size == target_size
                    &&& evaluator.population().members@.len() == target_size
                    &&& evaluator.noise()@ == noise@
                    &&& evaluator.env() == env
                },
            },
    {
        if target_size == 0 {
            return Err(ConfigError::ZeroTargetSize);
        }
        if noise.len() == 0 {
            return Err(ConfigError::EmptyNoise);
        }
        if OUTPUT_SZ == 0 {
            return Err(ConfigError::NoOutputs);
        }
        if INPUT_SZ >= usize::MAX - OUTPUT_SZ {
            return Err(ConfigError::TooManyNodes);
        }
        let mut rng = rng;
        let mut innovation_record = InnovationRecord::new();
        match Population::new(&mut rng, &mut innovation_record, target_size) {
            Err(e) => Err(e),
            Ok(population) => Ok(
                Evaluator {
                    env,
                    innovation_record,
                    population,
                    rng,
                    noise,
                    last_speciation: None,
                    last_evaluation: None,
                },
            ),
        }
    }

    /// One generation. If the run has a speciation and an evaluation, the
    /// population first evolves from them, which brings it to its target
    /// size where a species is left to breed. Then the members are sorted
    /// into species against the speciation of before, and scored by the
    /// environment. After the call the run has the speciation and the
    /// evaluation of its members.
    pub fn evaluate_and_evolve(&mut self)
        requires
            old(self).well_formed(),
        ensures
            final(self).well_formed(),
            final(self).last_speciation() is Some,
            final(self).last_evaluation() is Some,
            final(self).population().generation == next_count(old(self).population().generation),
            final(self).population().target_size == old(self).population().target_size,
            final(self).noise()@ == old(self).noise()@,
            scored_by(
                *old(self).env(),
                final(self).population().members@,
                final(self).last_evaluation()->0.fitness@,
                *final(self).env(),
            ),
            old(self).last_speciation() is Some && 0 < surviving(
                old(self).last_speciation()->0.species@,
            ).len() <= old(self).population().target_size ==> {
                final(self).population().members@.len() == old(self).population().target_size
            },
            old(self).last_speciation() is None ==> {
                &&& final(self).population().members == old(self).population().members
                &&& final(self).innovation_record() == old(self).innovation_record()
                &&& speciated(
                    final(self).population().members@,
                    Seq::empty(),
                    None,
                    final(self).last_speciation()->0.species@,
                    final(self).last_speciation()->0.member_map@,
                    final(self).population().members@.len() as int,
                )
            },
            old(self).last_speciation() is Some ==> ({
                let speciation = old(self).last_speciation()->0;
                let evaluation = old(self).last_evaluation()->0;
                exists|sorted: Seq<Species<INPUT_SZ, OUTPUT_SZ>>|
                    {
                        &&& sorted_species(
                            surviving(speciation.species@),
                            sorted,
                            evaluation.fitness@,
                            sorted.len() as int,
                        )
                        &&& #[trigger] evolved(
                            old(self).population().members@,
                            evaluation.fitness@,
                            sorted,
                            offspring(
                                surviving(speciation.species@),
                                evaluation.fitness@,
                                old(self).population().target_size,
                            ),
                            old(self).noise()@,
                            old(self).innovation_record()@,
                            old(self).innovation_record().next(),
                            final(self).population().members@,
                            final(self).innovation_record()@,
                            final(self).innovation_record().next(),
                        )
                        &&& speciated(
                            final(self).population().members@,
                            sorted,
                            Some(evaluation.fitness@),
                            final(self).last_speciation()->0.species@,
                            final(self).last_speciation()->0.member_map@,
                            final(self).population().members@.len() as int,
                        )
                    }
            }),
    {
        let mut last_speciation = self.last_speciation.take();
        let last_evaluation = self.last_evaluation.take();
        match (&mut last_speciation, &last_evaluation) {
            (Some(speciation), Some(evaluation)) => {
                proof {
                    lemma_partition_scored(
                        speciation.species@,
                        speciation.member_map@,
                        self.population.members@.len() as int,
                        evaluation.fitness@,
                    );
                    lemma_surviving_keeps(speciation.species@, evaluation.fitness@);
                }
                self.population.evolve(
                    evaluation,
                    speciation,
                    &mut self.rng,
                    &mut self.innovation_record,
                    &self.noise,
                );
            },
            _ => {},
        }
        let speciation = self.population.speciate(
            &mut self.rng,
            last_speciation.as_ref(),
            last_evaluation.as_ref(),
        );
        let evaluation = self.population.evaluate(&mut self.env);
        self.last_speciation = Some(speciation);
        self.last_evaluation = Some(evaluation);
    }
}

} // verus!
