//! A NEAT (NeuroEvolution of Augmenting Topologies) engine: genomes encode
//! networks of neuron and link genes, mutation and crossover evolve them,
//! historical markings keep structural innovations comparable across genomes,
//! and a population controller runs speciated generations.
//!
//! All weights, activation values, fitness scores and rates are fixed-point
//! numbers: an `i64` value `w` stands for the real number `w / 1000`.

use vstd::prelude::*;

pub mod fixed;
pub mod genome;
pub mod innovation;
pub mod network;
pub mod parameters;
pub mod population;
pub mod random;
pub mod species;

verus! {

/// Scale of the fixed-point numbers used throughout the library: a weight,
/// activation value, fitness or rate of `w` fixed-point units stands for the
/// real number `w / 1000`.
pub const FP_SCALE: i64 = 1000;

/// One half in fixed-point units.
pub const FP_HALF: i64 = 500;

/// Largest magnitude a link weight may have (8.0 in real terms).
pub const WEIGHT_CAP: i64 = 8000;

/// Largest magnitude a neuron activation value may have (1000.0 in real
/// terms); weighted sums are clamped to this band before activation.
pub const VALUE_CAP: i64 = 1000000;

/// Largest number of link genes a well-formed genome may hold; keeps every
/// weighted sum inside `i64`.
pub const MAX_LINKS: usize = 100000;

/// Largest number of neuron genes a well-formed genome may hold.
pub const MAX_NEURONS: usize = 100000;

/// Neuron identifiers of well-formed genomes stay below this bound so that a
/// link's `(from, to)` pair packs into one `u64` ordering key.
pub const MAX_NEURON_ID: u64 = 0x1_0000_0000;

/// Largest fitness value the population controller accepts (one million in
/// real terms); keeps species fitness totals inside `i64`.
pub const FITNESS_CAP: i64 = 1000000000000;

/// Largest population size the controller accepts.
pub const MAX_POPULATION: usize = 100000;

/// Largest magnitude a compatibility coefficient may have (100.0 in real
/// terms).
pub const COEFF_CAP: i64 = 100000;

/// Everything that can go wrong inside the evolutionary core.
///
/// Failures of single genomes or single mutation attempts are reported and
/// isolated; only population-wide failures abort a generation step.
#[derive(Clone, Copy, Debug, PartialEq, Eq, Structural)]
pub enum NeatError {
    /// A genome breaks its own invariant: a link endpoint names a missing
    /// neuron, a duplicate neuron id or link pair, or an out-of-band weight.
    MalformedGenome,
    /// No legal mutation site was found within the attempt budget; the
    /// genome is left unchanged.
    MutationExhausted,
    /// No species survived a generation step.
    SpeciationExtinction,
    /// The enabled-link graph is cyclic while recurrent networks are
    /// disabled; the genome cannot be expressed as a feed-forward network.
    BuildCycleUnsupported,
}

} // verus!
