//! Evolution parameters: rates, compatibility coefficients, speciation
//! thresholds and structural limits, all rates and coefficients in
//! fixed-point units.

use vstd::prelude::*;

use crate::genome::ActivationFunction;
use crate::{COEFF_CAP, FP_SCALE, MAX_POPULATION, WEIGHT_CAP};

verus! {

/// Largest value the adaptive compatibility threshold may reach.
pub const THRESHOLD_CAP: i64 = 1000000000000;

/// Configuration of an evolutionary run; immutable for the run's lifetime.
#[derive(Clone, Debug, PartialEq)]
pub struct Parameters {
    /// Number of genomes every generation holds.
    pub population_size: usize,
    /// Probability that a reproduced genome has its link weights mutated.
    pub mutation_rate: i64,
    /// Probability that a child is bred by crossover rather than copied.
    pub crossover_rate: i64,
    /// Probability of attempting an add-link mutation on a child.
    pub add_link_rate: i64,
    /// Probability of attempting an add-neuron (split-link) mutation.
    pub add_neuron_rate: i64,
    /// Probability of toggling one link's enabled flag.
    pub toggle_rate: i64,
    /// Per-link probability, within a weight mutation, of perturbing that
    /// link's weight.
    pub weight_perturb_rate: i64,
    /// Largest magnitude of a weight perturbation.
    pub weight_perturb_magnitude: i64,
    /// Per-link probability that a perturbation replaces the weight
    /// outright instead of nudging it.
    pub weight_replace_rate: i64,
    /// Probability that a disabled link inherited by crossover is
    /// re-enabled in the child.
    pub reenable_rate: i64,
    /// On a fitness tie, probability of inheriting each of the less-fit
    /// parent's unmatched links.
    pub tie_disjoint_rate: i64,
    /// Compatibility coefficient on the disjoint-link count.
    pub disjoint_coeff: i64,
    /// Compatibility coefficient on the excess-link count.
    pub excess_coeff: i64,
    /// Compatibility coefficient on the mean matched-weight difference.
    pub weight_coeff: i64,
    /// Starting compatibility threshold.
    pub compat_threshold: i64,
    /// Floor the adaptive threshold never drops below.
    pub compat_threshold_floor: i64,
    /// Step by which the threshold is nudged toward the species target.
    pub compat_threshold_step: i64,
    /// Species count the threshold adaptation steers toward.
    pub target_species_count: usize,
    /// Generations a species may go without improvement before removal.
    pub stagnation_limit: u64,
    /// Number of unmutated elite genomes each species carries over.
    pub elitism_count: usize,
    /// Whether cyclic (recurrent) networks are permitted.
    pub allow_recurrent: bool,
    /// Relaxation passes used to evaluate a recurrent network.
    pub relaxation_passes: usize,
    /// Attempt budget of the add-link mutation.
    pub add_link_attempts: usize,
    /// Activation function given to neurons inserted by split-link
    /// mutations.
    pub hidden_activation: ActivationFunction,
}

impl Parameters {
    /// The bands every parameter set must respect: probabilities inside the
    /// fixed-point unit interval, coefficients and thresholds inside the
    /// ranges the arithmetic proofs cover, and positive structural counts.
    pub open spec fn wf(self) -> bool {
        &&& 1 <= self.population_size <= MAX_POPULATION
        &&& 0 <= self.mutation_rate <= FP_SCALE
        &&& 0 <= self.crossover_rate <= FP_SCALE
        &&& 0 <= self.add_link_rate <= FP_SCALE
        &&& 0 <= self.add_neuron_rate <= FP_SCALE
        &&& 0 <= self.toggle_rate <= FP_SCALE
        &&& 0 <= self.weight_perturb_rate <= FP_SCALE
        &&& 0 <= self.weight_perturb_magnitude <= WEIGHT_CAP
        &&& 0 <= self.weight_replace_rate <= FP_SCALE
        &&& 0 <= self.reenable_rate <= FP_SCALE
        &&& 0 <= self.tie_disjoint_rate <= FP_SCALE
        &&& 0 <= self.disjoint_coeff <= COEFF_CAP
        &&& 0 <= self.excess_coeff <= COEFF_CAP
        &&& 0 <= self.weight_coeff <= COEFF_CAP
        &&& 0 <= self.compat_threshold_floor <= self.compat_threshold <= THRESHOLD_CAP
        &&& 0 <= self.compat_threshold_step <= FP_SCALE
        &&& 1 <= self.target_species_count
        &&& 1 <= self.stagnation_limit
        &&& 1 <= self.relaxation_passes <= 64
        &&& 1 <= self.add_link_attempts <= 1000
    }

    /// A conventional default configuration.
    pub fn new() -> (r: Parameters)
        ensures
            r.wf(),
            r.population_size == 150,
            r.allow_recurrent == false,
    {
        Parameters {
            population_size: 150,
            mutation_rate: 800,
            crossover_rate: 750,
            add_link_rate: 50,
            add_neuron_rate: 30,
            toggle_rate: 10,
            weight_perturb_rate: 900,
            weight_perturb_magnitude: 500,
            weight_replace_rate: 100,
            reenable_rate: 250,
            tie_disjoint_rate: 500,
            disjoint_coeff: 1000,
            excess_coeff: 1000,
            weight_coeff: 400,
            compat_threshold: 3000,
            compat_threshold_floor: 300,
            compat_threshold_step: 300,
            target_species_count: 10,
            stagnation_limit: 15,
            elitism_count: 1,
            allow_recurrent: false,
            relaxation_passes: 4,
            add_link_attempts: 20,
            hidden_activation: ActivationFunction::Sigmoid,
        }
    }
}

} // verus!
