use neat::activation::GenomeActivation;
use neat::environment::Environment;
use neat::evaluator::Evaluator;
use neat::genome::Genome;
use rand::rngs::StdRng;
use rand::Rng;
use rand::SeedableRng;

const PATTERNS: [([f64; 2], f64); 4] =
    [([0.0, 0.0], 0.0), ([1.0, 0.0], 1.0), ([0.0, 1.0], 1.0), ([1.0, 1.0], 0.0)];

fn as_fixed(value: f64) -> i64 {
    (value * 65536.0).round() as i64
}

fn as_float(value: i64) -> f64 {
    value as f64 / 65536.0
}

fn sigmoid(x: f64) -> f64 {
    1.0 / (1.0 + (-x).exp())
}

fn output_of(genome: &Genome<2, 1>, input: [f64; 2]) -> f64 {
    let activation: GenomeActivation<2, 1> =
        genome.activate([as_fixed(input[0]), as_fixed(input[1])], &|x| as_fixed(sigmoid(as_float(x))));
    as_float(activation.output[0])
}

struct Xor;

impl Environment<2, 1> for Xor {
    fn evaluate(&mut self, genome: &Genome<2, 1>) -> u64 {
        let mut fitness = 4.0;
        for (input, target) in PATTERNS {
            let diff = output_of(genome, input) - target;
            fitness -= diff * diff;
        }
        as_fixed(fitness).max(0) as u64
    }
}

fn bell(rng: &mut StdRng) -> i64 {
    let mut sum = 0.0;
    for _ in 0..12 {
        sum += rng.gen_range(0.0..1.0);
    }
    as_fixed(sum - 6.0)
}

fn benchmark(seed: u64) -> f64 {
    let mut rng = StdRng::seed_from_u64(seed);
    let noise: Vec<i64> = (0..4096).map(|_| bell(&mut rng)).collect();
    let mut run = Evaluator::<2, 1, _>::new(Xor, 150, rng, noise).unwrap();
    let mut best: f64 = 0.0;
    for generation in 1..=300 {
        run.evaluate_and_evolve();
        let evaluation = run.last_evaluation().unwrap();
        let speciation = run.last_speciation().unwrap();
        let size = run.population().members.len();
        assert_eq!(run.population().generation, generation);
        assert_eq!(size, 150);
        assert_eq!(evaluation.fitness.len(), size);
        assert_eq!(speciation.member_map.len(), size);
        assert_eq!(speciation.species.iter().map(|s| s.members.len()).sum::<usize>(), size);
        let (champion, fitness) = evaluation.champion();
        assert_eq!(evaluation.fitness[champion], fitness);
        assert!(evaluation.fitness.iter().all(|&f| f <= fitness));
        assert!(fitness <= 4 * 65536);
        best = best.max(as_float(fitness as i64));
        if best > 3.9 {
            break;
        }
    }
    best
}

#[test]
fn xor_benchmark_first_seed() {
    // a network that always answers 0.5 scores 3.0
    assert!(benchmark(100) > 3.0);
}

#[test]
fn xor_benchmark_second_seed() {
    assert!(benchmark(101) > 3.0);
}

#[test]
fn xor_benchmark_third_seed() {
    assert!(benchmark(103) > 3.0);
}

#[test]
fn xor_scores_a_network_that_answers_one_half_with_three() {
    let blank = Genome::<2, 1>::new();
    assert_eq!(Xor.evaluate(&blank), 3 * 65536);
    assert!((output_of(&blank, [1.0, 0.0]) - 0.5).abs() < 1e-4);
}
