//! The population controller: one generation step of speciation, fitness
//! sharing, offspring allocation, selection, reproduction and stagnation
//! handling.

use vstd::arithmetic::div_mod::{
    lemma_div_is_ordered, lemma_div_multiples_vanish, lemma_div_nonincreasing,
    lemma_fundamental_div_mod,
};
use vstd::prelude::*;

use crate::genome::{io_pair_present, seed_neuron_count, Genome, GenomeInitStruct, GenomeSeedType};
use crate::innovation::InnovationTracker;
use crate::parameters::{Parameters, THRESHOLD_CAP};
use crate::random::Random;
use crate::species::{distance, Species};
use crate::{NeatError, FITNESS_CAP, MAX_NEURON_ID, MAX_POPULATION};

verus! {

/// Sum of a sequence of counts.
pub open spec fn sum_usize(s: Seq<usize>) -> int
    decreases s.len(),
{
    if s.len() == 0 {
        0
    } else {
        sum_usize(s.drop_last()) + s.last()
    }
}

/// Sum of a sequence of fixed-point totals.
pub open spec fn sum_i64(s: Seq<i64>) -> int
    decreases s.len(),
{
    if s.len() == 0 {
        0
    } else {
        sum_i64(s.drop_last()) + s.last()
    }
}

proof fn lemma_sum_i64_extend(s: Seq<i64>, q: int)
    requires
        0 <= q < s.len(),
    ensures
        sum_i64(s.subrange(0, q + 1)) == sum_i64(s.subrange(0, q)) + s[q],
{
    let cur = s.subrange(0, q + 1);
    assert(cur.drop_last() =~= s.subrange(0, q));
    assert(cur.last() == s[q]);
}

proof fn lemma_sum_usize_extend(s: Seq<usize>, q: int)
    requires
        0 <= q < s.len(),
    ensures
        sum_usize(s.subrange(0, q + 1)) == sum_usize(s.subrange(0, q)) + s[q],
{
    let cur = s.subrange(0, q + 1);
    assert(cur.drop_last() =~= s.subrange(0, q));
    assert(cur.last() == s[q]);
}

proof fn lemma_sum_i64_nonneg(s: Seq<i64>)
    requires
        forall|q: int| 0 <= q < s.len() ==> 0 <= #[trigger] s[q],
    ensures
        0 <= sum_i64(s),
    decreases s.len(),
{
    if s.len() > 0 {
        assert forall|q: int| 0 <= q < s.drop_last().len() implies 0 <= #[trigger] s.drop_last()[q] by {
            assert(s.drop_last()[q] == s[q]);
        }
        lemma_sum_i64_nonneg(s.drop_last());
    }
}

/// Prefix sums of a nonnegative sequence never exceed the full sum.
proof fn lemma_sum_i64_prefix_le(s: Seq<i64>, q: int)
    requires
        forall|p: int| 0 <= p < s.len() ==> 0 <= #[trigger] s[p],
        0 <= q <= s.len(),
    ensures
        sum_i64(s.subrange(0, q)) <= sum_i64(s),
    decreases s.len() - q,
{
    if q == s.len() {
        assert(s.subrange(0, q) =~= s);
    } else {
        lemma_sum_i64_extend(s, q);
        lemma_sum_i64_prefix_le(s, q + 1);
    }
}

/// Distribute `population_size` offspring over the species in proportion
/// to their fitness totals, conserving the population size exactly: the
/// running quota `cum * population_size / total` is rounded down at every
/// species, and the final quota is the whole population. With a zero
/// total the population is split evenly, the remainder going to the
/// front.
pub fn allocate_offspring(totals: &Vec<i64>, population_size: usize) -> (r: Vec<usize>)
    requires
        1 <= totals@.len() <= MAX_POPULATION,
        population_size <= MAX_POPULATION,
        forall|q: int| 0 <= q < totals@.len() ==> 0 <= #[trigger] totals@[q],
    ensures
        r@.len() == totals@.len(),
        sum_usize(r@) == population_size,
        sum_i64(totals@) == 0 ==> forall|q: int|
            0 <= q < r@.len() ==> (#[trigger] r@[q]) as int == population_size as int / (totals@.len()
                as int) + (if q < population_size as int % (totals@.len() as int) {
                1int
            } else {
                0int
            }),
        sum_i64(totals@) > 0 ==> forall|q: int|
            0 <= q < r@.len() ==> (#[trigger] r@[q]) as int == (sum_i64(totals@.subrange(0, q + 1))
                * population_size as int) / sum_i64(totals@) - (sum_i64(totals@.subrange(0, q))
                * population_size as int) / sum_i64(totals@),
{
    let n = totals.len();
    let mut total: u128 = 0;
    let mut q: usize = 0;
    while q < n
        invariant
            n == totals@.len(),
            n <= MAX_POPULATION,
            0 <= q <= n,
            forall|p: int| 0 <= p < totals@.len() ==> 0 <= #[trigger] totals@[p],
            total as int == sum_i64(totals@.subrange(0, q as int)),
            total as int <= (q as int) * 0x7fff_ffff_ffff_ffff,
        decreases n - q,
    {
        proof {
            lemma_sum_i64_extend(totals@, q as int);
        }
        total = total + (totals[q] as u128);
        proof {
            assert(totals@.subrange(0, q as int).len() == q);
            lemma_sum_bound(totals@, q + 1 as int);
        }
        q += 1;
    }
    proof {
        assert(totals@.subrange(0, n as int) =~= totals@);
        assert((n as int) * 0x7fff_ffff_ffff_ffff <= 100000int * 0x7fff_ffff_ffff_ffff)
            by (nonlinear_arith)
            requires
                n <= 100000,
        ;
    }
    let mut r: Vec<usize> = Vec::new();
    if total == 0 {
        let base = population_size / n;
        let rem = population_size % n;
        let mut q: usize = 0;
        while q < n
            invariant
                n >= 1,
                0 <= q <= n,
                base == population_size as int / n as int,
                base <= population_size,
                rem == population_size as int % n as int,
                rem < n,
                population_size <= MAX_POPULATION,
                r@.len() == q,
                sum_usize(r@) == q * base + (if q <= rem {
                    q as int
                } else {
                    rem as int
                }),
                forall|p: int|
                    0 <= p < q ==> (#[trigger] r@[p]) as int == base + (if p < rem {
                        1int
                    } else {
                        0int
                    }),
            decreases n - q,
        {
            let give: usize = if q < rem {
                base + 1
            } else {
                base
            };
            let ghost pre = r@;
            r.push(give);
            proof {
                assert(r@.drop_last() =~= pre);
                assert(r@.last() == give);
                assert(sum_usize(r@) == sum_usize(pre) + give);
                assert((q + 1) * base == q * base + base) by (nonlinear_arith);
                assert forall|p: int|
                    0 <= p < q + 1 implies (#[trigger] r@[p]) as int == base + (if p < rem {
                    1int
                } else {
                    0int
                }) by {
                    if p < q {
                        assert(r@[p] == pre[p]);
                    }
                }
            }
            q += 1;
        }
        proof {
            lemma_fundamental_div_mod(population_size as int, n as int);
            assert(n * base == base * n) by (nonlinear_arith);
        }
        r
    } else {
        let mut cum: u128 = 0;
        let mut handed: u128 = 0;
        let mut q: usize = 0;
        while q < n
            invariant
                n == totals@.len(),
                n >= 1,
                0 <= q <= n,
                forall|p: int| 0 <= p < totals@.len() ==> 0 <= #[trigger] totals@[p],
                total as int == sum_i64(totals@),
                total > 0,
                total as int <= (n as int) * 0x7fff_ffff_ffff_ffff,
                n <= MAX_POPULATION,
                population_size <= MAX_POPULATION,
                cum as int == sum_i64(totals@.subrange(0, q as int)),
                cum <= total,
                handed as int == (cum as int * population_size as int) / (total as int),
                handed <= population_size,
                r@.len() == q,
                sum_usize(r@) == handed as int,
                forall|p: int|
                    0 <= p < q ==> (#[trigger] r@[p]) as int == (sum_i64(totals@.subrange(0, p + 1))
                        * population_size as int) / (total as int) - (sum_i64(totals@.subrange(0, p))
                        * population_size as int) / (total as int),
            decreases n - q,
        {
            proof {
                lemma_sum_i64_extend(totals@, q as int);
                lemma_sum_i64_prefix_le(totals@, q + 1 as int);
            }
            let cum2: u128 = cum + (totals[q] as u128);
            proof {
                assert((n as int) * 0x7fff_ffff_ffff_ffff <= 100000int * 0x7fff_ffff_ffff_ffff)
                    by (nonlinear_arith)
                    requires
                        n <= 100000,
                ;
                assert(cum2 as int * population_size as int
                    <= 0xffff_ffff_ffff_ffff_ffff_ffff_ffff as int) by (nonlinear_arith)
                    requires
                        0 <= cum2 as int <= 100000int * 0x7fff_ffff_ffff_ffff,
                        0 <= population_size <= 100000,
                ;
                assert(cum2 as int * population_size as int <= total as int * population_size
                    as int) by (nonlinear_arith)
                    requires
                        cum2 <= total,
                        population_size >= 0,
                ;
                assert(cum as int * population_size as int <= cum2 as int * population_size
                    as int) by (nonlinear_arith)
                    requires
                        cum <= cum2,
                        population_size >= 0,
                ;
                lemma_div_is_ordered(
                    cum as int * population_size as int,
                    cum2 as int * population_size as int,
                    total as int,
                );
                lemma_div_is_ordered(
                    cum2 as int * population_size as int,
                    total as int * population_size as int,
                    total as int,
                );
                assert(total as int * population_size as int == population_size as int * total
                    as int) by (nonlinear_arith);
                lemma_div_multiples_vanish(population_size as int, total as int);
            }
            let target: u128 = (cum2 * (population_size as u128)) / total;
            proof {
                lemma_div_nonincreasing((cum2 * (population_size as u128)) as int, total as int);
            }
            let give: u128 = target - handed;
            let ghost pre = r@;
            r.push(give as usize);
            proof {
                assert(r@.drop_last() =~= pre);
                assert(r@.last() == give as usize);
                assert(sum_usize(r@) == sum_usize(pre) + give);
                assert(cum2 as int == sum_i64(totals@.subrange(0, q + 1)));
                assert forall|p: int|
                    0 <= p < q + 1 implies (#[trigger] r@[p]) as int == (sum_i64(
                    totals@.subrange(0, p + 1),
                ) * population_size as int) / (total as int) - (sum_i64(totals@.subrange(0, p))
                    * population_size as int) / (total as int) by {
                    if p < q {
                        assert(r@[p] == pre[p]);
                    }
                }
            }
            cum = cum2;
            handed = target;
            q += 1;
        }
        proof {
            assert(totals@.subrange(0, n as int) =~= totals@);
            assert(total as int * population_size as int == population_size as int * total
                as int) by (nonlinear_arith);
            lemma_div_multiples_vanish(population_size as int, total as int);
        }
        r
    }
}

/// Sums of capped fixed-point totals stay small.
proof fn lemma_sum_bound(s: Seq<i64>, q: int)
    requires
        0 <= q <= s.len(),
        s.len() <= MAX_POPULATION,
    ensures
        sum_i64(s.subrange(0, q)) <= q * 0x7fff_ffff_ffff_ffff,
    decreases q,
{
    if q > 0 {
        lemma_sum_bound(s, q - 1);
        lemma_sum_i64_extend(s, q - 1);
        assert(q * 0x7fff_ffff_ffff_ffff == (q - 1) * 0x7fff_ffff_ffff_ffff
            + 0x7fff_ffff_ffff_ffff) by (nonlinear_arith);
    }
}


/// The genome is exactly a fresh seed of the given shape at arena
/// position `q`: identity, dimensions, zeroed scores, the seed's neuron
/// count, and — for a perceptron seed — full input-to-output
/// connectivity.
pub open spec fn seeded_from(g: Genome, q: int, init: GenomeInitStruct) -> bool {
    &&& g.id == q
    &&& g.num_inputs == init.num_inputs
    &&& g.num_outputs == init.num_outputs
    &&& g.fitness == 0 && g.adjusted_fitness == 0 && !g.evaluated
    &&& g.neuron_genes@.len() == seed_neuron_count(init)
    &&& g.initial_num_neurons == g.neuron_genes@.len()
    &&& g.initial_num_links == g.link_genes@.len()
    &&& (init.seed_type == GenomeSeedType::Perceptron && !init.fs_neat ==> g.link_genes@.len()
        == init.num_inputs * init.num_outputs)
    &&& (init.seed_type == GenomeSeedType::Perceptron && !init.fs_neat ==> forall|a: int, b: int|
        0 <= a < init.num_inputs && 0 <= b < init.num_outputs ==> #[trigger] io_pair_present(
            g.link_genes@,
            init.num_inputs as int,
            a,
            b,
        ))
}

/// All genomes of the arena are well formed, with fitness inside the
/// accepted band.
pub open spec fn genomes_ok(gs: Seq<Genome>) -> bool {
    forall|q: int|
        0 <= q < gs.len() ==> ((#[trigger] gs[q]).wf() && 0 <= gs[q].fitness <= FITNESS_CAP)
}

/// The population: an arena of genomes, its species, the run's innovation
/// ledger and the adaptive speciation threshold.
pub struct Population {
    pub genomes: Vec<Genome>,
    pub species: Vec<Species>,
    /// Generations completed so far.
    pub generation: u64,
    pub parameters: Parameters,
    /// The run-wide innovation ledger.
    pub innovation: InnovationTracker,
    /// Next unused genome id.
    pub next_genome_id: u64,
    /// Next unused species id.
    pub next_species_id: u64,
    /// Current adaptive compatibility threshold.
    pub compat_threshold: i64,
    /// Best raw fitness ever observed, fixed-point.
    pub best_fitness_ever: i64,
}

impl Population {
    /// The population invariant: a well-formed parameter set, a full
    /// arena of well-formed genomes, a well-formed ledger and a threshold
    /// inside its band.
    pub open spec fn wf(self) -> bool {
        &&& self.parameters.wf()
        &&& self.genomes@.len() == self.parameters.population_size
        &&& genomes_ok(self.genomes@)
        &&& self.innovation.wf()
        &&& self.parameters.compat_threshold_floor <= self.compat_threshold <= THRESHOLD_CAP
    }

    /// Seed a population: `population_size` genomes of the given shape,
    /// no species yet, a fresh ledger whose neuron ids start above every
    /// seed id.
    pub fn new(parameters: Parameters, init: &GenomeInitStruct) -> (r: Population)
        requires
            parameters.wf(),
            1 <= init.num_inputs,
            1 <= init.num_outputs,
            init.num_inputs * init.num_outputs <= crate::MAX_LINKS,
            init.num_inputs + init.num_outputs + init.num_hidden <= crate::MAX_NEURONS,
            2 * init.num_hidden + 2 <= crate::MAX_LINKS,
            init.fs_neat_links <= crate::MAX_LINKS,
            1 <= init.num_layers <= 64,
        ensures
            r.wf(),
            r.generation == 0,
            r.genomes@.len() == parameters.population_size,
            r.species@.len() == 0,
            forall|q: int| 0 <= q < r.genomes@.len() ==> seeded_from(#[trigger] r.genomes@[q], q, *init),
            forall|q: int| 0 <= q < r.genomes@.len() ==> !(#[trigger] r.genomes@[q]).evaluated,
    {
        let count = parameters.population_size;
        let mut genomes: Vec<Genome> = Vec::new();
        let mut q: usize = 0;
        while q < count
            invariant
                1 <= init.num_inputs,
                1 <= init.num_outputs,
                init.num_inputs * init.num_outputs <= crate::MAX_LINKS,
                init.num_inputs + init.num_outputs + init.num_hidden <= crate::MAX_NEURONS,
                2 * init.num_hidden + 2 <= crate::MAX_LINKS,
                init.fs_neat_links <= crate::MAX_LINKS,
                1 <= init.num_layers <= 64,
                count <= MAX_POPULATION,
                0 <= q <= count,
                genomes@.len() == q,
                genomes_ok(genomes@),
                forall|p: int|
                    0 <= p < genomes@.len() ==> seeded_from(#[trigger] genomes@[p], p, *init),
                forall|p: int| 0 <= p < genomes@.len() ==> !(#[trigger] genomes@[p]).evaluated,
            decreases count - q,
        {
            let g = Genome::new(q as u64, init);
            let ghost preg = genomes@;
            genomes.push(g);
            proof {
                assert forall|p: int|
                    0 <= p < genomes@.len() implies seeded_from(
                    #[trigger] genomes@[p],
                    p,
                    *init,
                ) by {
                    if p < preg.len() {
                        assert(genomes@[p] == preg[p]);
                    } else {
                        assert(genomes@[p] == g);
                    }
                }
            }
            q += 1;
        }
        let threshold = parameters.compat_threshold;
        let pop_size = parameters.population_size;
        Population {
            genomes,
            species: Vec::new(),
            generation: 0,
            parameters,
            innovation: InnovationTracker::new(MAX_NEURON_ID / 16),
            next_genome_id: pop_size as u64,
            next_species_id: 0,
            compat_threshold: threshold,
            best_fitness_ever: 0,
        }
    }

    /// Write the caller-assigned fitness of one genome, clamped into the
    /// accepted band, and mark it evaluated.
    pub fn set_fitness(&mut self, index: usize, fitness: i64)
        requires
            old(self).wf(),
            index < old(self).genomes@.len(),
        ensures
            final(self).wf(),
            final(self).genomes@.len() == old(self).genomes@.len(),
            final(self).genomes@[index as int].fitness == (if fitness < 0 {
                0int
            } else if fitness > FITNESS_CAP {
                FITNESS_CAP as int
            } else {
                fitness as int
            }),
            final(self).genomes@[index as int].evaluated,
            forall|q: int|
                0 <= q < old(self).genomes@.len() && q != index ==> final(self).genomes@[q] == old(self).genomes@[q],
            ({
                let g0 = old(self).genomes@[index as int];
                let g1 = final(self).genomes@[index as int];
                &&& g1.id == g0.id
                &&& g1.num_inputs == g0.num_inputs
                &&& g1.num_outputs == g0.num_outputs
                &&& g1.adjusted_fitness == g0.adjusted_fitness
                &&& g1.depth == g0.depth
                &&& g1.offspring_amount == g0.offspring_amount
                &&& g1.neuron_genes@ == g0.neuron_genes@
                &&& g1.link_genes@ == g0.link_genes@
                &&& g1.genome_gene == g0.genome_gene
                &&& g1.initial_num_neurons == g0.initial_num_neurons
                &&& g1.initial_num_links == g0.initial_num_links
                &&& g1.phenotype_behavior == g0.phenotype_behavior
            }),
            final(self).species@ == old(self).species@,
            final(self).generation == old(self).generation,
            final(self).parameters == old(self).parameters,
            final(self).innovation == old(self).innovation,
            final(self).next_genome_id == old(self).next_genome_id,
            final(self).next_species_id == old(self).next_species_id,
            final(self).compat_threshold == old(self).compat_threshold,
            final(self).best_fitness_ever == old(self).best_fitness_ever,
    {
        let clamped: i64 = if fitness < 0 {
            0
        } else if fitness > FITNESS_CAP {
            FITNESS_CAP
        } else {
            fitness
        };
        let ghost pre = *self;
        let mut g = self.genomes[index].copy();
        g.fitness = clamped;
        g.evaluated = true;
        self.genomes[index] = g;
        proof {
            assert(self.genomes@[index as int].wf() == pre.genomes@[index as int].wf());
            assert forall|q: int|
                0 <= q < self.genomes@.len() implies ((#[trigger] self.genomes@[q]).wf() && 0
                <= self.genomes@[q].fitness <= FITNESS_CAP) by {
                if q != index {
                    assert(self.genomes@[q] == pre.genomes@[q]);
                }
            }
        }
    }

    /// Partition the genomes into species: each goes to the first species
    /// whose representative lies within the compatibility threshold,
    /// founding a new species when none does. Every genome lands in
    /// exactly one species, and the members of all species together are
    /// exactly the arena positions.
    pub fn speciate(&mut self)
        requires
            old(self).wf(),
        ensures
            final(self).wf(),
            final(self).genomes@ == old(self).genomes@,
            final(self).generation == old(self).generation,
            final(self).parameters == old(self).parameters,
            final(self).innovation == old(self).innovation,
            final(self).next_genome_id == old(self).next_genome_id,
            final(self).compat_threshold == old(self).compat_threshold,
            final(self).best_fitness_ever == old(self).best_fitness_ever,
            speciation_partition(final(self).species@, final(self).genomes@.len() as int),
            final(self).species@.len() <= final(self).genomes@.len(),
            final(self).genomes@.len() >= 1 ==> final(self).species@.len() >= 1,
            old(self).species@.len() == 0 ==> forall|s: int|
                0 <= s < final(self).species@.len() ==> (#[trigger] final(self).species@[s]).generations_since_improvement == 0,
            members_within(
                final(self).species@,
                final(self).genomes@,
                old(self).parameters.disjoint_coeff as int,
                old(self).parameters.excess_coeff as int,
                old(self).parameters.weight_coeff as int,
                old(self).compat_threshold as int,
            ),
    {
        let ghost pre = *self;
        let mut kept: Vec<Species> = Vec::new();
        let sn = self.species.len();
        let mut s: usize = 0;
        while s < sn
            invariant
                *self == pre,
                pre.wf(),
                sn == self.species@.len(),
                0 <= s <= sn,
                kept@.len() <= s,
                forall|p: int|
                    0 <= p < kept@.len() ==> ((#[trigger] kept@[p]).members@.len() == 0
                        && kept@[p].representative.wf()),
            decreases sn - s,
        {
            let old_sp = &self.species[s];
            if old_sp.representative.check_valid() {
                let rep = old_sp.representative.copy();
                let sp = Species {
                    id: old_sp.id,
                    members: Vec::new(),
                    age: old_sp.age,
                    best_fitness: old_sp.best_fitness,
                    generations_since_improvement: old_sp.generations_since_improvement,
                    representative: rep,
                };
                kept.push(sp);
            }
            s += 1;
        }
        let mut species = kept;
        let gn = self.genomes.len();
        proof {
            lemma_count_nonempty_all_empty(species@);
            assert forall|s2: int, k: int|
                0 <= s2 < species@.len() && 0 <= k < species@[s2].members@.len() implies ((
            #[trigger] species@[s2].members@[k]) as int) < 0 by {
                assert(species@[s2].members@.len() == 0);
            }
            assert forall|s1: int, k1: int, s2: int, k2: int|
                #![trigger species@[s1].members@[k1], species@[s2].members@[k2]]
                0 <= s1 < species@.len() && 0 <= k1 < species@[s1].members@.len() && 0 <= s2
                    < species@.len() && 0 <= k2 < species@[s2].members@.len() && (s1 != s2 || k1
                    != k2) implies species@[s1].members@[k1] != species@[s2].members@[k2] by {
                assert(species@[s1].members@.len() == 0);
            }
        }
        let mut next_sid = self.next_species_id;
        let mut g: usize = 0;
        while g < gn
            invariant
                *self == pre,
                pre.wf(),
                gn == self.genomes@.len(),
                0 <= g <= gn,
                forall|p: int| 0 <= p < species@.len() ==> (#[trigger] species@[p]).representative.wf(),
                members_bounded(species@, g as int),
                members_cover(species@, g as int),
                members_unique(species@),
                count_nonempty(species@) <= g,
                members_within(
                    species@,
                    self.genomes@,
                    self.parameters.disjoint_coeff as int,
                    self.parameters.excess_coeff as int,
                    self.parameters.weight_coeff as int,
                    self.compat_threshold as int,
                ),
                old(self).species@.len() == 0 ==> forall|p: int|
                    0 <= p < species@.len() ==> (#[trigger] species@[p]).generations_since_improvement
                        == 0,
            decreases gn - g,
        {
            let mut assigned = false;
            let sn2 = species.len();
            let mut s: usize = 0;
            while s < sn2 && !assigned
                invariant
                    *self == pre,
                    pre.wf(),
                    gn == self.genomes@.len(),
                    g < gn,
                    sn2 == species@.len(),
                    0 <= s <= sn2,
                    forall|p: int|
                        0 <= p < species@.len() ==> (#[trigger] species@[p]).representative.wf(),
                    !assigned ==> members_bounded(species@, g as int) && members_cover(
                        species@,
                        g as int,
                    ),
                    members_unique(species@),
                    assigned ==> members_bounded(species@, g + 1 as int) && members_cover(
                        species@,
                        g + 1 as int,
                    ),
                    !assigned ==> count_nonempty(species@) <= g,
                    assigned ==> count_nonempty(species@) <= g + 1,
                    members_within(
                        species@,
                        self.genomes@,
                        self.parameters.disjoint_coeff as int,
                        self.parameters.excess_coeff as int,
                        self.parameters.weight_coeff as int,
                        self.compat_threshold as int,
                    ),
                    old(self).species@.len() == 0 ==> forall|p: int|
                        0 <= p < species@.len() ==> (#[trigger] species@[p]).generations_since_improvement
                            == 0,
                decreases sn2 - s,
            {
                let d = distance(&self.genomes[g], &species[s].representative, &self.parameters);
                if d < self.compat_threshold {
                    let ghost pre_sp = species@;
                    let mut sp = species.remove(s);
                    let ghost pre_m = sp.members@;
                    sp.members.push(g);
                    let ghost sp2 = sp;
                    species.insert(s, sp);
                    assigned = true;
                    proof {
                        assert(species@ =~= pre_sp.update(s as int, sp2));
                        assert(sp2.members@ == pre_sp[s as int].members@.push(g));
                        assert(sp2.representative == pre_sp[s as int].representative);
                        assert(sp2.generations_since_improvement == pre_sp[s
                            as int].generations_since_improvement);
                        assert forall|p: int|
                            0 <= p < species@.len() implies (
                        #[trigger] species@[p]).representative.wf() by {
                            if p != s as int {
                                assert(species@[p] == pre_sp[p]);
                            }
                        }
                        lemma_count_nonempty_update(pre_sp, s as int, sp2);
                        assert forall|s3: int, k3: int|
                            #![trigger species@[s3].members@[k3]]
                            0 <= s3 < species@.len() && 0 <= k3 < species@[s3].members@.len()
                            implies {
                            let m = species@[s3].members@[k3] as int;
                            &&& m < self.genomes@.len()
                            &&& {
                                ||| crate::species::spec_distance(
                                    self.genomes@[m].link_genes@,
                                    species@[s3].representative.link_genes@,
                                    self.parameters.disjoint_coeff as int,
                                    self.parameters.excess_coeff as int,
                                    self.parameters.weight_coeff as int,
                                ) < self.compat_threshold as int
                                ||| species@[s3].representative.link_genes@
                                    == self.genomes@[m].link_genes@
                            }
                        } by {
                            if s3 != s as int {
                                assert(species@[s3] == pre_sp[s3]);
                                assert(pre_sp[s3].members@[k3] == pre_sp[s3].members@[k3]);
                            } else {
                                if k3 < pre_sp[s as int].members@.len() {
                                    assert(species@[s3].members@[k3] == pre_sp[s3].members@[k3]);
                                } else {
                                    assert(species@[s3].members@[k3] == g);
                                }
                            }
                        }
                        assert forall|p: int|
                            0 <= p < species@.len() implies (
                        #[trigger] species@[p]).generations_since_improvement == 0 || !(old(self).species@.len() == 0) by {
                            if p != s as int {
                                assert(species@[p] == pre_sp[p]);
                            }
                        }
                        lemma_members_after_add(pre_sp, species@, s as int, g as int);
                    }
                }
                s += 1;
            }
            if !assigned {
                let ghost pre_sp = species@;
                let rep = self.genomes[g].copy();
                let sid = next_sid;
                let sp = Species::new(sid, g, rep);
                species.push(sp);
                if next_sid < u64::MAX {
                    next_sid = next_sid + 1;
                }
                proof {
                    assert forall|p: int|
                        0 <= p < species@.len() implies (
                    #[trigger] species@[p]).representative.wf() by {
                        if p < pre_sp.len() {
                            assert(species@[p] == pre_sp[p]);
                        }
                    }
                    assert(species@.drop_last() =~= pre_sp);
                    assert forall|p: int|
                        0 <= p < species@.len() implies (
                    #[trigger] species@[p]).generations_since_improvement == 0 || !(old(self).species@.len() == 0) by {
                        if p < pre_sp.len() {
                            assert(species@[p] == pre_sp[p]);
                        }
                    }
                    assert(species@[pre_sp.len() as int].representative.link_genes@
                        == self.genomes@[g as int].link_genes@);
                    assert forall|s3: int, k3: int|
                        #![trigger species@[s3].members@[k3]]
                        0 <= s3 < species@.len() && 0 <= k3 < species@[s3].members@.len() implies {
                        let m = species@[s3].members@[k3] as int;
                        &&& m < self.genomes@.len()
                        &&& {
                            ||| crate::species::spec_distance(
                                self.genomes@[m].link_genes@,
                                species@[s3].representative.link_genes@,
                                self.parameters.disjoint_coeff as int,
                                self.parameters.excess_coeff as int,
                                self.parameters.weight_coeff as int,
                            ) < self.compat_threshold as int
                            ||| species@[s3].representative.link_genes@
                                == self.genomes@[m].link_genes@
                        }
                    } by {
                        if s3 < pre_sp.len() {
                            assert(species@[s3] == pre_sp[s3]);
                            assert(pre_sp[s3].members@[k3] == pre_sp[s3].members@[k3]);
                        } else {
                            assert(species@[s3].members@[k3] == g);
                        }
                    }
                    lemma_members_after_new(pre_sp, species@, g as int);
                }
            }
            g += 1;
        }
        let mut final_species: Vec<Species> = Vec::new();
        let sn3 = species.len();
        let mut s: usize = 0;
        while s < sn3
            invariant
                *self == pre,
                pre.wf(),
                gn == self.genomes@.len(),
                sn3 == species@.len(),
                0 <= s <= sn3,
                count_nonempty(species@) <= gn,
                members_bounded(species@, gn as int),
                members_cover_split(species@, final_species@, s as int, gn as int),
                members_bounded(final_species@, gn as int),
                members_unique_two(species@, final_species@, s as int),
                forall|p: int|
                    0 <= p < final_species@.len() ==> (#[trigger] final_species@[p]).members@.len()
                        > 0,
                final_species@.len() == count_nonempty(species@.subrange(0, s as int)),
                members_within(
                    species@,
                    self.genomes@,
                    self.parameters.disjoint_coeff as int,
                    self.parameters.excess_coeff as int,
                    self.parameters.weight_coeff as int,
                    self.compat_threshold as int,
                ),
                members_within(
                    final_species@,
                    self.genomes@,
                    self.parameters.disjoint_coeff as int,
                    self.parameters.excess_coeff as int,
                    self.parameters.weight_coeff as int,
                    self.compat_threshold as int,
                ),
                old(self).species@.len() == 0 ==> forall|p: int|
                    0 <= p < species@.len() ==> (#[trigger] species@[p]).generations_since_improvement
                        == 0,
                old(self).species@.len() == 0 ==> forall|p: int|
                    0 <= p < final_species@.len() ==> (
                    #[trigger] final_species@[p]).generations_since_improvement == 0,
            decreases sn3 - s,
        {
            let keep = species[s].members.len() > 0;
            let ghost pre_f = final_species@;
            if keep {
                let sp = take_species(&species, s);
                final_species.push(sp);
            }
            proof {
                let cpre = species@.subrange(0, s as int);
                let ccur = species@.subrange(0, s + 1 as int);
                assert(ccur.drop_last() =~= cpre);
                assert(ccur.last() == species@[s as int]);
                if keep {
                    assert(final_species@.drop_last() =~= pre_f);
                    assert(final_species@.last().generations_since_improvement == species@[s
                        as int].generations_since_improvement);
                    assert(final_species@.last().members@ == species@[s as int].members@);
                    assert(final_species@.last().representative.link_genes@ == species@[s
                        as int].representative.link_genes@);
                    assert forall|s3: int, k3: int|
                        #![trigger final_species@[s3].members@[k3]]
                        0 <= s3 < final_species@.len() && 0 <= k3 < final_species@[s3].members@.len()
                        implies {
                        let m = final_species@[s3].members@[k3] as int;
                        &&& m < self.genomes@.len()
                        &&& {
                            ||| crate::species::spec_distance(
                                self.genomes@[m].link_genes@,
                                final_species@[s3].representative.link_genes@,
                                self.parameters.disjoint_coeff as int,
                                self.parameters.excess_coeff as int,
                                self.parameters.weight_coeff as int,
                            ) < self.compat_threshold as int
                            ||| final_species@[s3].representative.link_genes@
                                == self.genomes@[m].link_genes@
                        }
                    } by {
                        if s3 < pre_f.len() {
                            assert(final_species@[s3] == pre_f[s3]);
                            assert(pre_f[s3].members@[k3] == pre_f[s3].members@[k3]);
                        } else {
                            assert(final_species@[s3].members@[k3] == species@[s
                                as int].members@[k3]);
                            assert(species@[s as int].members@[k3] == species@[s
                                as int].members@[k3]);
                        }
                    }
                    assert forall|p: int|
                        0 <= p < final_species@.len() implies (
                    #[trigger] final_species@[p]).generations_since_improvement == 0 || !(old(self).species@.len() == 0) by {
                        if p < pre_f.len() {
                            assert(final_species@[p] == pre_f[p]);
                        }
                    }
                }
                lemma_members_split_step(species@, pre_f, final_species@, s as int, gn as int);
            }
            s += 1;
        }
        proof {
            assert(species@.subrange(0, sn3 as int) =~= species@);
            assert(final_species@.len() <= gn);
            assert forall|g2: int|
                0 <= g2 < gn implies #[trigger] member_of_from(final_species@, 0, g2) by {
                assert(member_of_from(species@, sn3 as int, g2) || member_of_from(
                    final_species@,
                    0,
                    g2,
                ));
                if member_of_from(species@, sn3 as int, g2) {
                    let (s2, k) = choose|s2: int, k: int|
                        sn3 as int <= s2 < species@.len() && 0 <= k < species@[s2].members@.len()
                            && ((species@[s2].members@[k]) as int) == g2;
                    assert(false);
                }
            }
            if gn >= 1 {
                assert(member_of_from(final_species@, 0, 0));
                let (s2, k) = choose|s2: int, k: int|
                    0 <= s2 < final_species@.len() && 0 <= k < final_species@[s2].members@.len()
                        && ((final_species@[s2].members@[k]) as int) == 0;
                assert(final_species@.len() >= 1);
            }
        }
        self.next_species_id = next_sid;
        self.species = final_species;
    }
}

/// Every member stands within the compatibility threshold of its
/// species' representative, or founded the species (so the
/// representative is that genome itself).
pub open spec fn members_within(
    sp: Seq<Species>,
    gs: Seq<Genome>,
    cd: int,
    ce: int,
    cw: int,
    th: int,
) -> bool {
    forall|s: int, k: int|
        #![trigger sp[s].members@[k]]
        0 <= s < sp.len() && 0 <= k < sp[s].members@.len() ==> {
            let m = sp[s].members@[k] as int;
            &&& m < gs.len()
            &&& {
                ||| crate::species::spec_distance(
                    gs[m].link_genes@,
                    sp[s].representative.link_genes@,
                    cd,
                    ce,
                    cw,
                ) < th
                ||| sp[s].representative.link_genes@ == gs[m].link_genes@
            }
        }
}

/// Number of species with at least one member.
pub open spec fn count_nonempty(sp: Seq<Species>) -> int
    decreases sp.len(),
{
    if sp.len() == 0 {
        0
    } else {
        count_nonempty(sp.drop_last()) + (if sp.last().members@.len() > 0 {
            1int
        } else {
            0int
        })
    }
}

proof fn lemma_count_nonempty_nonneg(sp: Seq<Species>)
    ensures
        0 <= count_nonempty(sp) <= sp.len(),
    decreases sp.len(),
{
    if sp.len() > 0 {
        lemma_count_nonempty_nonneg(sp.drop_last());
    }
}

/// Replacing one species changes the nonempty count by at most one.
proof fn lemma_count_nonempty_update(sp: Seq<Species>, s: int, x: Species)
    requires
        0 <= s < sp.len(),
    ensures
        count_nonempty(sp.update(s, x)) <= count_nonempty(sp) + 1,
    decreases sp.len(),
{
    let t = sp.update(s, x);
    if s == sp.len() - 1 {
        assert(t.drop_last() =~= sp.drop_last());
    } else {
        assert(t.drop_last() =~= sp.drop_last().update(s, x));
        lemma_count_nonempty_update(sp.drop_last(), s, x);
        assert(t.last() == sp.last());
    }
}

/// Every member of every species is an arena position below `n`.
pub open spec fn members_bounded(sp: Seq<Species>, n: int) -> bool {
    forall|s: int, k: int|
        0 <= s < sp.len() && 0 <= k < sp[s].members@.len() ==> ((#[trigger] sp[s].members@[k])
            as int) < n
}

/// Does the position `g` appear among the members of the species from
/// position `s0` on?
pub open spec fn member_of_from(sp: Seq<Species>, s0: int, g: int) -> bool {
    exists|s: int, k: int|
        s0 <= s < sp.len() && 0 <= k < sp[s].members@.len() && ((#[trigger] sp[s].members@[k])
            as int) == g
}

/// Every arena position below `n` appears in some species.
pub open spec fn members_cover(sp: Seq<Species>, n: int) -> bool {
    forall|g: int| 0 <= g < n ==> #[trigger] member_of_from(sp, 0, g)
}

/// No arena position appears twice across the members of all species.
pub open spec fn members_unique(sp: Seq<Species>) -> bool {
    forall|s1: int, k1: int, s2: int, k2: int|
        #![trigger sp[s1].members@[k1], sp[s2].members@[k2]]
        0 <= s1 < sp.len() && 0 <= k1 < sp[s1].members@.len() && 0 <= s2 < sp.len() && 0 <= k2
            < sp[s2].members@.len() && (s1 != s2 || k1 != k2) ==> sp[s1].members@[k1]
            != sp[s2].members@[k2]
}

/// The species partition the arena: bounded, covering, without repeats,
/// and with no empty species.
pub open spec fn speciation_partition(sp: Seq<Species>, n: int) -> bool {
    &&& members_bounded(sp, n)
    &&& members_cover(sp, n)
    &&& members_unique(sp)
    &&& forall|s: int| 0 <= s < sp.len() ==> (#[trigger] sp[s].members@).len() > 0
}

/// Arena positions below `n` are covered by `sp` from `s` on or by
/// `out`.
pub open spec fn members_cover_split(sp: Seq<Species>, out: Seq<Species>, s: int, n: int) -> bool {
    forall|g: int|
        0 <= g < n ==> (#[trigger] member_of_from(sp, s, g) || member_of_from(out, 0, g))
}

/// Uniqueness across the remaining species of `sp` and all of `out`.
pub open spec fn members_unique_two(sp: Seq<Species>, out: Seq<Species>, s: int) -> bool {
    &&& members_unique(out)
    &&& forall|s1: int, k1: int, s2: int, k2: int|
        #![trigger sp[s1].members@[k1], out[s2].members@[k2]]
        s <= s1 < sp.len() && 0 <= k1 < sp[s1].members@.len() && 0 <= s2 < out.len() && 0 <= k2
            < out[s2].members@.len() ==> sp[s1].members@[k1] != out[s2].members@[k2]
    &&& forall|s1: int, k1: int, s2: int, k2: int|
        #![trigger sp[s1].members@[k1], sp[s2].members@[k2]]
        s <= s1 < sp.len() && 0 <= k1 < sp[s1].members@.len() && s <= s2 < sp.len() && 0 <= k2
            < sp[s2].members@.len() && (s1 != s2 || k1 != k2) ==> sp[s1].members@[k1]
            != sp[s2].members@[k2]
}

/// A copy of the species at a position, member list and representative
/// duplicated element by element.
fn take_species(species: &Vec<Species>, s: usize) -> (r: Species)
    requires
        (s as int) < species@.len(),
    ensures
        r.id == species@[s as int].id,
        r.members@ == species@[s as int].members@,
        r.age == species@[s as int].age,
        r.best_fitness == species@[s as int].best_fitness,
        r.generations_since_improvement == species@[s as int].generations_since_improvement,
        r.representative.eqv(species@[s as int].representative),
        r.representative.wf() == species@[s as int].representative.wf(),
{
    let src = &species[s];
    let mut members: Vec<usize> = Vec::new();
    let mut k: usize = 0;
    while k < src.members.len()
        invariant
            (s as int) < species@.len(),
            src == &species@[s as int],
            0 <= k <= src.members@.len(),
            members@ == src.members@.subrange(0, k as int),
        decreases src.members@.len() - k,
    {
        members.push(src.members[k]);
        proof {
            assert(members@ =~= src.members@.subrange(0, k + 1 as int));
        }
        k += 1;
    }
    proof {
        assert(members@ =~= src.members@);
    }
    Species {
        id: src.id,
        members,
        age: src.age,
        best_fitness: src.best_fitness,
        generations_since_improvement: src.generations_since_improvement,
        representative: src.representative.copy(),
    }
}

/// A list of member-less species has a zero nonempty count.
proof fn lemma_count_nonempty_all_empty(sp: Seq<Species>)
    requires
        forall|p: int| 0 <= p < sp.len() ==> (#[trigger] sp[p]).members@.len() == 0,
    ensures
        count_nonempty(sp) == 0,
    decreases sp.len(),
{
    if sp.len() > 0 {
        assert forall|p: int|
            0 <= p < sp.drop_last().len() implies (#[trigger] sp.drop_last()[p]).members@.len()
            == 0 by {
            assert(sp.drop_last()[p] == sp[p]);
        }
        lemma_count_nonempty_all_empty(sp.drop_last());
    }
}

/// Appending the current genome to one species keeps the partition
/// invariants, extended by one position.
proof fn lemma_members_after_add(pre: Seq<Species>, cur: Seq<Species>, s: int, g: int)
    requires
        0 <= s < pre.len(),
        cur.len() == pre.len(),
        forall|p: int| 0 <= p < pre.len() && p != s ==> cur[p] == pre[p],
        cur[s].members@ == pre[s].members@.push(g as usize),
        0 <= g < 0x8000_0000,
        members_bounded(pre, g),
        members_cover(pre, g),
        members_unique(pre),
    ensures
        members_bounded(cur, g + 1),
        members_cover(cur, g + 1),
        members_unique(cur),
{
    assert forall|s1: int, k: int|
        0 <= s1 < cur.len() && 0 <= k < cur[s1].members@.len() implies ((
    #[trigger] cur[s1].members@[k]) as int) < g + 1 by {
        if s1 != s || k < pre[s].members@.len() {
            assert(cur[s1].members@[k] == pre[s1].members@[k]);
        }
    }
    assert forall|g2: int| 0 <= g2 < g + 1 implies #[trigger] member_of_from(cur, 0, g2) by {
        if g2 < g {
            assert(member_of_from(pre, 0, g2));
            assert(exists|s2: int, k: int|
                0 <= s2 < pre.len() && 0 <= k < pre[s2].members@.len() && ((pre[s2].members@[k])
                    as int) == g2);
            let (s2, k) = choose|s2: int, k: int|
                0 <= s2 < pre.len() && 0 <= k < pre[s2].members@.len() && ((pre[s2].members@[k])
                    as int) == g2;
            assert(0 <= s2 < pre.len() && 0 <= k < pre[s2].members@.len() && ((
            pre[s2].members@[k]) as int) == g2);
            if s2 != s {
                assert(cur[s2] == pre[s2]);
            }
            assert((cur[s2].members@[k] as int) == g2);
        } else {
            assert((cur[s].members@[pre[s].members@.len() as int] as int) == g);
        }
    }
    assert forall|s1: int, k1: int, s2: int, k2: int|
        #![trigger cur[s1].members@[k1], cur[s2].members@[k2]]
        0 <= s1 < cur.len() && 0 <= k1 < cur[s1].members@.len() && 0 <= s2 < cur.len() && 0 <= k2
            < cur[s2].members@.len() && (s1 != s2 || k1 != k2) implies cur[s1].members@[k1]
        != cur[s2].members@[k2] by {
        let n1 = if s1 == s && k1 == pre[s].members@.len() {
            true
        } else {
            false
        };
        let n2 = if s2 == s && k2 == pre[s].members@.len() {
            true
        } else {
            false
        };
        if !n1 {
            assert(cur[s1].members@[k1] == pre[s1].members@[k1]);
            assert((pre[s1].members@[k1] as int) < g);
        }
        if !n2 {
            assert(cur[s2].members@[k2] == pre[s2].members@[k2]);
            assert((pre[s2].members@[k2] as int) < g);
        }
    }
}

/// Founding a new species around the current genome keeps the partition
/// invariants, extended by one position.
proof fn lemma_members_after_new(pre: Seq<Species>, cur: Seq<Species>, g: int)
    requires
        cur.len() == pre.len() + 1,
        forall|p: int| 0 <= p < pre.len() ==> cur[p] == pre[p],
        cur[pre.len() as int].members@ == seq![g as usize],
        0 <= g < 0x8000_0000,
        members_bounded(pre, g),
        members_cover(pre, g),
        members_unique(pre),
    ensures
        members_bounded(cur, g + 1),
        members_cover(cur, g + 1),
        members_unique(cur),
{
    assert forall|s1: int, k: int|
        0 <= s1 < cur.len() && 0 <= k < cur[s1].members@.len() implies ((
    #[trigger] cur[s1].members@[k]) as int) < g + 1 by {
        if s1 < pre.len() {
            assert(cur[s1].members@[k] == pre[s1].members@[k]);
        }
    }
    assert forall|g2: int| 0 <= g2 < g + 1 implies #[trigger] member_of_from(cur, 0, g2) by {
        if g2 < g {
            assert(member_of_from(pre, 0, g2));
            assert(exists|s2: int, k: int|
                0 <= s2 < pre.len() && 0 <= k < pre[s2].members@.len() && ((pre[s2].members@[k])
                    as int) == g2);
            let (s2, k) = choose|s2: int, k: int|
                0 <= s2 < pre.len() && 0 <= k < pre[s2].members@.len() && ((pre[s2].members@[k])
                    as int) == g2;
            assert(0 <= s2 < pre.len() && 0 <= k < pre[s2].members@.len() && ((
            pre[s2].members@[k]) as int) == g2);
            assert(cur[s2] == pre[s2]);
            assert((cur[s2].members@[k] as int) == g2);
        } else {
            assert((cur[pre.len() as int].members@[0] as int) == g);
        }
    }
    assert forall|s1: int, k1: int, s2: int, k2: int|
        #![trigger cur[s1].members@[k1], cur[s2].members@[k2]]
        0 <= s1 < cur.len() && 0 <= k1 < cur[s1].members@.len() && 0 <= s2 < cur.len() && 0 <= k2
            < cur[s2].members@.len() && (s1 != s2 || k1 != k2) implies cur[s1].members@[k1]
        != cur[s2].members@[k2] by {
        if s1 < pre.len() {
            assert(cur[s1].members@[k1] == pre[s1].members@[k1]);
            assert((pre[s1].members@[k1] as int) < g);
        }
        if s2 < pre.len() {
            assert(cur[s2].members@[k2] == pre[s2].members@[k2]);
            assert((pre[s2].members@[k2] as int) < g);
        }
    }
}

/// One step of filtering out empty species keeps coverage and
/// uniqueness.
proof fn lemma_members_split_step(
    sp: Seq<Species>,
    pre_out: Seq<Species>,
    out: Seq<Species>,
    s: int,
    n: int,
)
    requires
        0 <= s < sp.len(),
        members_bounded(sp, n),
        members_bounded(pre_out, n),
        members_cover_split(sp, pre_out, s, n),
        members_unique_two(sp, pre_out, s),
        out == pre_out || (out == pre_out.push(sp[s]) || (out.len() == pre_out.len() + 1 && forall|
            p: int,
        |
            0 <= p < pre_out.len() ==> out[p] == pre_out[p])),
        out == pre_out ==> sp[s].members@.len() == 0,
        out != pre_out ==> (out.len() == pre_out.len() + 1 && (forall|p: int|
            0 <= p < pre_out.len() ==> out[p] == pre_out[p]) && out[pre_out.len() as int].members@
            == sp[s].members@),
    ensures
        members_bounded(out, n),
        members_cover_split(sp, out, s + 1, n),
        members_unique_two(sp, out, s + 1),
{
    assert forall|s1: int, k: int|
        0 <= s1 < out.len() && 0 <= k < out[s1].members@.len() implies ((
    #[trigger] out[s1].members@[k]) as int) < n by {
        if s1 < pre_out.len() {
            assert(out[s1] == pre_out[s1]);
        } else {
            assert(out[s1].members@ == sp[s].members@);
        }
    }
    assert forall|g2: int|
        0 <= g2 < n implies (#[trigger] member_of_from(sp, s + 1, g2) || member_of_from(
        out,
        0,
        g2,
    )) by {
        assert(member_of_from(sp, s, g2) || member_of_from(pre_out, 0, g2));
        if member_of_from(sp, s, g2) {
            let (s2, k) = choose|s2: int, k: int|
                s <= s2 < sp.len() && 0 <= k < sp[s2].members@.len() && ((
                #[trigger] sp[s2].members@[k]) as int) == g2;
            if s2 == s {
                assert(sp[s].members@.len() > 0);
                assert((out[pre_out.len() as int].members@[k] as int) == g2);
                assert(member_of_from(out, 0, g2));
            } else {
                assert(member_of_from(sp, s + 1, g2));
            }
        } else {
            let (s2, k) = choose|s2: int, k: int|
                0 <= s2 < pre_out.len() && 0 <= k < pre_out[s2].members@.len() && ((
                #[trigger] pre_out[s2].members@[k]) as int) == g2;
            assert((out[s2].members@[k] as int) == g2);
            assert(member_of_from(out, 0, g2));
        }
    }
}



/// The best raw fitness among the given members.
fn best_member_of(genomes: &Vec<Genome>, members: &Vec<usize>) -> (r: (usize, i64))
    requires
        members@.len() >= 1,
        forall|k: int| 0 <= k < members@.len() ==> ((#[trigger] members@[k]) as int) < genomes@.len(),
    ensures
        (r.0 as int) < genomes@.len(),
        r.1 == genomes@[r.0 as int].fitness,
{
    let mut best = members[0];
    let mut best_fit = genomes[best].fitness;
    let mut k: usize = 1;
    while k < members.len()
        invariant
            members@.len() >= 1,
            forall|q: int|
                0 <= q < members@.len() ==> ((#[trigger] members@[q]) as int) < genomes@.len(),
            1 <= k <= members@.len(),
            (best as int) < genomes@.len(),
            best_fit == genomes@[best as int].fitness,
        decreases members@.len() - k,
    {
        let m = members[k];
        if genomes[m].fitness > best_fit {
            best = m;
            best_fit = genomes[m].fitness;
        }
        k += 1;
    }
    (best, best_fit)
}

/// Pick a parent by a two-way tournament over the members: two uniform
/// draws, the fitter one wins.
fn tournament(genomes: &Vec<Genome>, members: &Vec<usize>) -> (r: usize)
    requires
        members@.len() >= 1,
        forall|k: int| 0 <= k < members@.len() ==> ((#[trigger] members@[k]) as int) < genomes@.len(),
    ensures
        (r as int) < genomes@.len(),
{
    let a = members[Random::rand_int(members.len() as u64) as usize];
    let b = members[Random::rand_int(members.len() as u64) as usize];
    if genomes[a].fitness >= genomes[b].fitness {
        a
    } else {
        b
    }
}

/// Do all neuron ids of the genome lie below the tracker's next id?
fn ids_below(g: &Genome, bound: u64) -> (r: bool)
    ensures
        r == (forall|q: int|
            0 <= q < g.neuron_genes@.len() ==> ((#[trigger] g.neuron_genes@[q]).id < bound)),
{
    let mut q: usize = 0;
    while q < g.neuron_genes.len()
        invariant
            0 <= q <= g.neuron_genes@.len(),
            forall|p: int| 0 <= p < q ==> ((#[trigger] g.neuron_genes@[p]).id < bound),
        decreases g.neuron_genes@.len() - q,
    {
        if g.neuron_genes[q].id >= bound {
            return false;
        }
        q += 1;
    }
    true
}

impl Population {
    /// One full generation: speciate, age and prune stagnant species
    /// (the one holding the population's best fitness is always spared),
    /// share fitness within species, allocate offspring in proportion to
    /// the shared totals — conserving the population size exactly —
    /// breed the next arena by elitism, tournament selection, crossover
    /// and mutation, nudge the compatibility threshold toward the target
    /// species count, and advance the generation counter. Total
    /// extinction is reported, never silently repaired.
    #[verifier::rlimit(100)]
    pub fn epoch(&mut self) -> (r: Result<(), NeatError>)
        requires
            old(self).wf(),
            old(self).generation < u64::MAX,
        ensures
            final(self).wf(),
            match r {
                Ok(()) => {
                    &&& final(self).generation == old(self).generation + 1
                    &&& final(self).genomes@.len() == final(self).parameters.population_size
                    &&& forall|q: int|
                        0 <= q < final(self).genomes@.len() ==> (!(#[trigger] final(self).genomes@[q]).evaluated && final(self).genomes@[q].fitness == 0)
                },
                Err(e) => {
                    &&& e == NeatError::SpeciationExtinction
                    &&& final(self).generation == old(self).generation
                    &&& final(self).species@.len() == 0
                },
            },
            old(self).species@.len() == 0 ==> r is Ok,
            r is Ok && old(self).parameters.population_size == 1 && old(
                self,
            ).parameters.elitism_count >= 1 ==> (final(self).genomes@[0].neuron_genes@ == old(
                self,
            ).genomes@[0].neuron_genes@ && final(self).genomes@[0].link_genes@ == old(
                self,
            ).genomes@[0].link_genes@),
    {
        self.speciate();
        let gn = self.genomes.len();
        let pop_best = if gn > 0 {
            let mut best: i64 = self.genomes[0].fitness;
            let mut q: usize = 1;
            while q < gn
                invariant
                    gn == self.genomes@.len(),
                    1 <= q <= gn,
                decreases gn - q,
            {
                if self.genomes[q].fitness > best {
                    best = self.genomes[q].fitness;
                }
                q += 1;
            }
            best
        } else {
            0
        };
        if pop_best > self.best_fitness_ever {
            self.best_fitness_ever = pop_best;
        }
        let ghost sp0 = self.species@;
        let ghost g0 = *self;
        let mut kept: Vec<Species> = Vec::new();
        let sn = self.species.len();
        let mut s: usize = 0;
        while s < sn
            invariant
                *self == g0,
                g0.wf(),
                sn == self.species@.len(),
                sn <= MAX_POPULATION,
                sn >= 1,
                self.species@ == sp0,
                members_bounded(sp0, self.genomes@.len() as int),
                forall|p: int| 0 <= p < sp0.len() ==> (#[trigger] sp0[p].members@).len() > 0,
                old(self).species@.len() == 0 ==> forall|p: int|
                    0 <= p < sp0.len() ==> (#[trigger] sp0[p]).generations_since_improvement == 0,
                old(self).species@.len() == 0 ==> kept@.len() == s,
                0 <= s <= sn,
                kept@.len() <= s,
                forall|p: int|
                    0 <= p < kept@.len() ==> ((#[trigger] kept@[p]).members@.len() > 0 && forall|
                        k: int,
                    |
                        0 <= k < kept@[p].members@.len() ==> ((#[trigger] kept@[p].members@[k])
                            as int) < self.genomes@.len()),
            decreases sn - s,
        {
            proof {
                assert(sp0[s as int].members@.len() > 0);
            }
            let pair = best_member_of(&self.genomes, &self.species[s].members);
            let best_here = pair.1;
            let src = take_species(&self.species, s);
            let improved = best_here > src.best_fitness;
            let new_best = if improved {
                best_here
            } else {
                src.best_fitness
            };
            let counter: u64 = if improved {
                0
            } else if src.generations_since_improvement < u64::MAX {
                src.generations_since_improvement + 1
            } else {
                src.generations_since_improvement
            };
            let age: u64 = if src.age < u64::MAX {
                src.age + 1
            } else {
                src.age
            };
            proof {
                if old(self).species@.len() == 0 {
                    assert(sp0[s as int].generations_since_improvement == 0);
                    assert(src.generations_since_improvement == 0);
                    assert(counter <= 1);
                    assert(self.parameters.stagnation_limit >= 1);
                }
            }
            let keep = counter <= self.parameters.stagnation_limit || best_here >= pop_best;
            if keep {
                let sp = Species {
                    id: src.id,
                    members: src.members,
                    age,
                    best_fitness: new_best,
                    generations_since_improvement: counter,
                    representative: src.representative,
                };
                kept.push(sp);
            }
            s += 1;
        }
        proof {
            assert(kept@.len() <= MAX_POPULATION);
            if old(self).species@.len() == 0 {
                assert(kept@.len() == sn);
            }
        }
        if kept.len() == 0 {
            self.species = Vec::new();
            return Err(NeatError::SpeciationExtinction);
        }
        let species = kept;
        let kn = species.len();
        let mut totals: Vec<i64> = Vec::new();
        let mut s: usize = 0;
        while s < kn
            invariant
                self.wf(),
                *self == g0,
                g0.generation == old(self).generation,
                kn == species@.len(),
                1 <= kn <= MAX_POPULATION,
                forall|p: int|
                    0 <= p < species@.len() ==> ((#[trigger] species@[p]).members@.len() > 0
                        && forall|k: int|
                        0 <= k < species@[p].members@.len() ==> ((
                        #[trigger] species@[p].members@[k]) as int) < self.genomes@.len()),
                0 <= s <= kn,
                totals@.len() == s,
                forall|p: int| 0 <= p < totals@.len() ==> 0 <= #[trigger] totals@[p],
            decreases kn - s,
        {
            proof {
                assert(species@[s as int].members@.len() > 0);
            }
            let msize = species[s].members.len();
            let mut total: u128 = 0;
            let mut k: usize = 0;
            while k < msize
                invariant
                    self.wf(),
                    *self == g0,
                    (s as int) < species@.len(),
                    msize == species@[s as int].members@.len(),
                    forall|k2: int|
                        0 <= k2 < species@[s as int].members@.len() ==> ((
                        #[trigger] species@[s as int].members@[k2]) as int) < self.genomes@.len(),
                    0 <= k <= msize,
                    total as int <= (k as int) * (FITNESS_CAP as int),
                decreases msize - k,
            {
                let m = species[s].members[k];
                proof {
                    assert(self.genomes@[m as int].wf() && 0 <= self.genomes@[m as int].fitness
                        <= FITNESS_CAP);
                }
                let adj: u64 = (self.genomes[m].fitness as u64) / (msize as u64);
                proof {
                    lemma_div_nonincreasing(self.genomes@[m as int].fitness as int, msize as int);
                    assert((k + 1) as int * (FITNESS_CAP as int) == (k as int) * (FITNESS_CAP
                        as int) + FITNESS_CAP as int) by (nonlinear_arith);
                    assert((k as int) * (FITNESS_CAP as int) <= 0xffff_ffff_ffff_ffff_int
                        * (FITNESS_CAP as int)) by (nonlinear_arith)
                        requires
                            0 <= k as int <= 0xffff_ffff_ffff_ffff_int,
                    ;
                }
                total = total + (adj as u128);
                k += 1;
            }
            let t64: i64 = if total > (FITNESS_CAP as u128) {
                FITNESS_CAP
            } else {
                total as i64
            };
            totals.push(t64);
            s += 1;
        }
        let pop_size = self.parameters.population_size;
        let alloc = allocate_offspring(&totals, pop_size);
        let mut new_genomes: Vec<Genome> = Vec::new();
        let mut next_gid = self.next_genome_id;
        let mut s: usize = 0;
        while s < kn
            invariant
                self.wf(),
                self.parameters == g0.parameters,
                g0.parameters == old(self).parameters,
                self.genomes@ == g0.genomes@,
                g0.genomes@ == old(self).genomes@,
                self.generation == g0.generation,
                g0.generation == old(self).generation,
                kn == species@.len(),
                alloc@.len() == kn,
                pop_size == self.parameters.population_size,
                old(self).parameters.population_size == 1 && old(
                    self,
                ).parameters.elitism_count >= 1 ==> forall|q: int|
                    0 <= q < new_genomes@.len() ==> ((#[trigger] new_genomes@[q]).neuron_genes@
                        == old(self).genomes@[0].neuron_genes@ && new_genomes@[q].link_genes@
                        == old(self).genomes@[0].link_genes@),
                forall|p: int|
                    0 <= p < species@.len() ==> ((#[trigger] species@[p]).members@.len() > 0
                        && forall|k: int|
                        0 <= k < species@[p].members@.len() ==> ((
                        #[trigger] species@[p].members@[k]) as int) < self.genomes@.len()),
                0 <= s <= kn,
                new_genomes@.len() == sum_usize(alloc@.subrange(0, s as int)),
                sum_usize(alloc@) == pop_size,
                genomes_ok(new_genomes@),
                forall|q: int|
                    0 <= q < new_genomes@.len() ==> (!(#[trigger] new_genomes@[q]).evaluated && (
                    new_genomes@[q]).fitness == 0),
            decreases kn - s,
        {
            proof {
                assert(species@[s as int].members@.len() > 0);
                lemma_sum_usize_extend(alloc@, s as int);
                lemma_sum_usize_prefix_le(alloc@, s + 1 as int);
            }
            let quota = alloc[s];
            let pair = best_member_of(&self.genomes, &species[s].members);
            let best_idx = pair.0;
            let mut c: usize = 0;
            while c < quota
                invariant
                    self.wf(),
                    self.parameters == g0.parameters,
                    g0.parameters == old(self).parameters,
                    self.genomes@ == g0.genomes@,
                    g0.genomes@ == old(self).genomes@,
                    self.generation == g0.generation,
                    g0.generation == old(self).generation,
                    kn == species@.len(),
                    (s as int) < kn,
                    pop_size == self.parameters.population_size,
                    alloc@.len() == kn,
                    quota == alloc@[s as int],
                    sum_usize(alloc@) == pop_size,
                    old(self).parameters.population_size == 1 && old(
                        self,
                    ).parameters.elitism_count >= 1 ==> forall|q: int|
                        0 <= q < new_genomes@.len() ==> ((#[trigger] new_genomes@[q]).neuron_genes@
                            == old(self).genomes@[0].neuron_genes@ && new_genomes@[q].link_genes@
                            == old(self).genomes@[0].link_genes@),
                    forall|p: int|
                        0 <= p < species@.len() ==> ((#[trigger] species@[p]).members@.len() > 0
                            && forall|k: int|
                            0 <= k < species@[p].members@.len() ==> ((
                            #[trigger] species@[p].members@[k]) as int) < self.genomes@.len()),
                    (best_idx as int) < self.genomes@.len(),
                    0 <= c <= quota,
                    new_genomes@.len() == sum_usize(alloc@.subrange(0, s as int)) + c,
                    genomes_ok(new_genomes@),
                    forall|q: int|
                        0 <= q < new_genomes@.len() ==> (!(#[trigger] new_genomes@[q]).evaluated
                            && (new_genomes@[q]).fitness == 0),
                decreases quota - c,
            {
                proof {
                    assert(species@[s as int].members@.len() > 0);
                }
                let mut child: Genome;
                if c < self.parameters.elitism_count {
                    child = self.genomes[best_idx].copy();
                    proof {
                        if old(self).parameters.population_size == 1 {
                            assert(self.genomes@.len() == 1);
                            assert(best_idx as int == 0);
                            assert(child.neuron_genes@ == old(self).genomes@[0].neuron_genes@);
                            assert(child.link_genes@ == old(self).genomes@[0].link_genes@);
                        }
                    }
                } else {
                    proof {
                        if old(self).parameters.population_size == 1 && old(
                            self,
                        ).parameters.elitism_count >= 1 {
                            lemma_sum_usize_elem_le(alloc@, s as int);
                            assert(quota <= 1);
                            assert(false);
                        }
                    }
                    let p1 = tournament(&self.genomes, &species[s].members);
                    let do_cross = Random::rand_unit() < self.parameters.crossover_rate
                        && species[s].members.len() >= 2;
                    if do_cross {
                        let p2 = tournament(&self.genomes, &species[s].members);
                        let ga = &self.genomes[p1];
                        let gb = &self.genomes[p2];
                        if ga.link_genes.len() + gb.link_genes.len() <= crate::MAX_LINKS
                            && ga.neuron_genes.len() + gb.neuron_genes.len()
                            <= crate::MAX_NEURONS {
                            child = Genome::crossover(ga, gb, next_gid, &self.parameters);
                        } else {
                            child = self.genomes[p1].copy();
                        }
                    } else {
                        child = self.genomes[p1].copy();
                    }
                    if Random::rand_unit() < self.parameters.add_link_rate
                        && self.innovation.next_innovation < u64::MAX
                        && child.neuron_genes.len() >= 1 {
                        let _ = child.mutate_add_link(&mut self.innovation, &self.parameters);
                    }
                    if Random::rand_unit() < self.parameters.add_neuron_rate
                        && self.innovation.next_neuron_id <= MAX_NEURON_ID - 2 && ids_below(
                        &child,
                        self.innovation.next_neuron_id,
                    ) {
                        let _ = child.mutate_add_neuron(&mut self.innovation, &self.parameters);
                    }
                    if Random::rand_unit() < self.parameters.mutation_rate {
                        child.mutate_weights(&self.parameters);
                    }
                    child.mutate_toggle(&self.parameters);
                }
                child.id = next_gid;
                if next_gid < u64::MAX {
                    next_gid = next_gid + 1;
                }
                child.fitness = 0;
                child.adjusted_fitness = 0;
                child.evaluated = false;
                let ghost preng = new_genomes@;
                new_genomes.push(child);
                proof {
                    assert forall|q: int|
                        0 <= q < new_genomes@.len() implies ((#[trigger] new_genomes@[q]).wf() && 0
                        <= new_genomes@[q].fitness <= FITNESS_CAP && !new_genomes@[q].evaluated
                        && new_genomes@[q].fitness == 0) by {
                        if q < preng.len() {
                            assert(new_genomes@[q] == preng[q]);
                        }
                    }
                    if old(self).parameters.population_size == 1 && old(
                        self,
                    ).parameters.elitism_count >= 1 {
                        assert forall|q: int|
                            0 <= q < new_genomes@.len() implies ((
                        #[trigger] new_genomes@[q]).neuron_genes@ == old(
                            self,
                        ).genomes@[0].neuron_genes@ && new_genomes@[q].link_genes@ == old(
                            self,
                        ).genomes@[0].link_genes@) by {
                            if q < preng.len() {
                                assert(new_genomes@[q] == preng[q]);
                            } else {
                                assert(new_genomes@[q] == child);
                            }
                        }
                    }
                }
                c += 1;
            }
            s += 1;
        }
        proof {
            assert(alloc@.subrange(0, kn as int) =~= alloc@);
        }
        self.genomes = new_genomes;
        self.species = species;
        self.next_genome_id = next_gid;
        let count = self.species.len();
        let target = self.parameters.target_species_count;
        if count > target {
            let stepped = self.compat_threshold + self.parameters.compat_threshold_step;
            self.compat_threshold = if stepped > THRESHOLD_CAP {
                THRESHOLD_CAP
            } else {
                stepped
            };
        } else if count < target {
            let stepped = self.compat_threshold - self.parameters.compat_threshold_step;
            self.compat_threshold = if stepped < self.parameters.compat_threshold_floor {
                self.parameters.compat_threshold_floor
            } else {
                stepped
            };
        }
        self.generation = self.generation + 1;
        Ok(())
    }
}

/// No single count exceeds the full sum.
proof fn lemma_sum_usize_elem_le(s: Seq<usize>, q: int)
    requires
        0 <= q < s.len(),
    ensures
        s[q] as int <= sum_usize(s),
    decreases s.len(),
{
    lemma_sum_usize_nonneg(s.drop_last());
    if q < s.len() - 1 {
        lemma_sum_usize_elem_le(s.drop_last(), q);
    }
}

proof fn lemma_sum_usize_nonneg(s: Seq<usize>)
    ensures
        0 <= sum_usize(s),
    decreases s.len(),
{
    if s.len() > 0 {
        lemma_sum_usize_nonneg(s.drop_last());
    }
}

/// Prefix sums of counts never exceed the full sum.
proof fn lemma_sum_usize_prefix_le(s: Seq<usize>, q: int)
    requires
        0 <= q <= s.len(),
    ensures
        sum_usize(s.subrange(0, q)) <= sum_usize(s),
    decreases s.len() - q,
{
    if q == s.len() {
        assert(s.subrange(0, q) =~= s);
    } else {
        lemma_sum_usize_extend(s, q);
        lemma_sum_usize_prefix_le(s, q + 1);
    }
}


} // verus!
