use crate::crossover::crossed_genes;
use crate::genome::{hidden_nodes_of, Genome};
use rand::rngs::StdRng;
use vstd::prelude::*;

verus! {

/// A genome with its fitness.
#[derive(Debug)]
pub struct Organism<const INPUT_SZ: usize, const OUTPUT_SZ: usize> {
    pub fitness: u64,
    pub genome: Genome<INPUT_SZ, OUTPUT_SZ>,
}

impl<const INPUT_SZ: usize, const OUTPUT_SZ: usize> Organism<INPUT_SZ, OUTPUT_SZ> {
    /// An organism that has not been scored: its fitness is zero.
    pub fn new(genome: Genome<INPUT_SZ, OUTPUT_SZ>) -> (r: Self)
        ensures
            r.fitness == 0,
            r.genome == genome,
    {
        Organism { fitness: 0, genome }
    }

    /// The child of two organisms, not yet scored. The organism with the
    /// strictly higher fitness is the fitter parent of the crossover; if
    /// the two are equally fit, the second is.
    pub fn crossover(
        organism_1: &Organism<INPUT_SZ, OUTPUT_SZ>,
        organism_2: &Organism<INPUT_SZ, OUTPUT_SZ>,
        rng: &mut StdRng,
    ) -> (child: Organism<INPUT_SZ, OUTPUT_SZ>)
        ensures
            child.fitness == 0,
            organism_1.fitness > organism_2.fitness ==> exists|
                keep_fitter: Seq<bool>,
                disable: Seq<bool>,
            |
                child.genome.connections@ == #[trigger] crossed_genes(
                    organism_1.genome.connections@,
                    organism_2.genome.connections@,
                    keep_fitter,
                    disable,
                ),
            organism_1.fitness <= organism_2.fitness ==> exists|
                keep_fitter: Seq<bool>,
                disable: Seq<bool>,
            |
                child.genome.connections@ == #[trigger] crossed_genes(
                    organism_2.genome.connections@,
                    organism_1.genome.connections@,
                    keep_fitter,
                    disable,
                ),
            child.genome.hidden_nodes == hidden_nodes_of(child.genome.connections@).len(),
    {
        let genome = if organism_1.fitness > organism_2.fitness {
            Genome::crossover(&organism_1.genome, &organism_2.genome, rng)
        } else {
            Genome::crossover(&organism_2.genome, &organism_1.genome, rng)
        };
        Organism::new(genome)
    }
}

} // verus!
