//! A NEAT engine: neural networks whose weights and wiring evolve together.
//!
//! A population of genomes is scored by an environment, sorted into species
//! by a distance between genomes, and bred species by species; mutation adds
//! connections and nodes, and a shared record of innovation numbers lets the
//! genes of different lineages be lined up.
//!
//! Real quantities (weights, node values, fitness, distances) are
//! fixed-point numbers with 16 fractional bits, held in integers; see
//! `fixed`. The sigmoid of a forward pass and the normal samples for the
//! mutation of weights are handed in by the caller, as a function and as a
//! table.

pub mod activation;
pub mod connection;
pub mod crossover;
pub mod distance;
pub mod environment;
pub mod evaluation;
pub mod evaluator;
pub mod fixed;
pub mod genome;
pub mod innovation;
pub mod mutation;
pub mod node;
pub mod offspring;
pub mod organism;
pub mod population;
pub mod random;
pub mod reproduce;
pub mod speciate;
pub mod speciation;
pub mod species;
pub mod weights;
