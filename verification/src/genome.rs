//! Genomes and their genes: neurons, links, well-formedness, seeding,
//! mutation operators and crossover.

use vstd::prelude::*;

use crate::innovation::InnovationTracker;
use crate::parameters::Parameters;
use crate::random::Random;
use crate::{FP_SCALE, MAX_LINKS, MAX_NEURONS, MAX_NEURON_ID, NeatError, WEIGHT_CAP};

verus! {

/// Shape of a freshly seeded genome.
#[derive(Clone, Copy, Debug, PartialEq, Eq, Structural)]
pub enum GenomeSeedType {
    /// Inputs wired directly to outputs, no hidden neurons.
    Perceptron,
    /// Hidden neurons arranged in fully connected layers.
    Layered,
}

/// Per-neuron activation function tag.
#[derive(Clone, Copy, Debug, PartialEq, Eq, Structural)]
pub enum ActivationFunction {
    Sigmoid,
    Tanh,
    Relu,
    Linear,
}

/// Role of a neuron inside the network.
#[derive(Clone, Copy, Debug, PartialEq, Eq, Structural)]
pub enum NeuronType {
    Input,
    Hidden,
    Output,
    Bias,
}

/// Everything a genome seed needs to know.
#[derive(Clone, Debug, PartialEq)]
pub struct GenomeInitStruct {
    pub num_inputs: usize,
    /// Number of hidden neurons; only the layered seed reads it.
    pub num_hidden: usize,
    pub num_outputs: usize,
    /// Seed with a sparse random topology instead of full connectivity.
    pub fs_neat: bool,
    pub output_act_type: ActivationFunction,
    pub hidden_act_type: ActivationFunction,
    pub seed_type: GenomeSeedType,
    /// Number of hidden layers of the layered seed.
    pub num_layers: usize,
    /// Number of random links of a sparse seed.
    pub fs_neat_links: usize,
}

/// Genome-level trait payload: an extension point that carries no data.
#[derive(Clone, Copy, Debug, PartialEq, Eq, Structural)]
pub struct Gene;

/// Behavior descriptor attached for novelty-style selection: an extension
/// point that carries no data.
#[derive(Clone, Copy, Debug, PartialEq, Eq, Structural)]
pub struct PhenotypeBehavior;

/// A neuron gene: identity, role and activation tag, all immutable after
/// creation.
#[derive(Clone, Copy, Debug, PartialEq, Eq, Structural)]
pub struct NeuronGene {
    pub id: u64,
    pub neuron_type: NeuronType,
    pub activation: ActivationFunction,
}

/// A link gene: a weighted directed connection between two neuron ids,
/// identified by its `(from, to)` pair. Disabled links are retained for
/// crossover homology but excluded from the phenotype.
#[derive(Clone, Copy, Debug, PartialEq, Eq, Structural)]
pub struct LinkGene {
    pub from: u64,
    pub to: u64,
    /// Fixed-point weight.
    pub weight: i64,
    pub enabled: bool,
}

/// The evolvable encoding of a network.
#[derive(Clone, Debug, PartialEq)]
#[verifier::ext_equal]
pub struct Genome {
    pub id: u64,
    pub num_inputs: usize,
    pub num_outputs: usize,
    /// Raw fitness, fixed-point, caller-assigned.
    pub fitness: i64,
    /// Fitness after sharing within the genome's species, fixed-point.
    pub adjusted_fitness: i64,
    /// Cached longest-path length of the enabled-link graph.
    pub depth: usize,
    /// Real-valued spawn quota, fixed-point, fractional across generations.
    pub offspring_amount: i64,
    pub neuron_genes: Vec<NeuronGene>,
    pub link_genes: Vec<LinkGene>,
    /// Optional genome-level trait payload.
    pub genome_gene: Option<Gene>,
    /// Whether the genome was already evaluated this generation.
    pub evaluated: bool,
    /// Neuron count at birth, for complexity tie-breaks.
    pub initial_num_neurons: usize,
    /// Link count at birth, for complexity tie-breaks.
    pub initial_num_links: usize,
    /// Optional behavior descriptor for novelty-style selection.
    pub phenotype_behavior: Option<PhenotypeBehavior>,
}

/// Does some neuron of `ns` carry the id `id`?
pub open spec fn has_neuron_id(ns: Seq<NeuronGene>, id: u64) -> bool {
    exists|j: int| 0 <= j < ns.len() && ns[j].id == id
}

/// All neuron ids of `ns` are distinct.
pub open spec fn neuron_ids_unique(ns: Seq<NeuronGene>) -> bool {
    forall|i: int, j: int| 0 <= i < j < ns.len() ==> ns[i].id != ns[j].id
}

/// Does some link of `ls` connect `from` to `to`?
pub open spec fn has_pair(ls: Seq<LinkGene>, from: u64, to: u64) -> bool {
    exists|j: int| 0 <= j < ls.len() && ls[j].from == from && ls[j].to == to
}

/// All `(from, to)` pairs of `ls` are distinct.
pub open spec fn link_pairs_unique(ls: Seq<LinkGene>) -> bool {
    forall|i: int, j: int|
        0 <= i < j < ls.len() ==> !(ls[i].from == ls[j].from && ls[i].to == ls[j].to)
}

/// The weight of the link of `ls` connecting `from` to `to`; meaningful
/// only where such a link exists and pairs are unique.
pub open spec fn weight_at(ls: Seq<LinkGene>, from: u64, to: u64) -> i64 {
    let j = choose|j: int| 0 <= j < ls.len() && ls[j].from == from && ls[j].to == to;
    ls[j].weight
}

/// A single link is well formed against a neuron list: both endpoints
/// exist and the weight lies inside the band.
pub open spec fn link_ok(ns: Seq<NeuronGene>, l: LinkGene) -> bool {
    &&& has_neuron_id(ns, l.from)
    &&& has_neuron_id(ns, l.to)
    &&& -WEIGHT_CAP <= l.weight <= WEIGHT_CAP
}

impl Genome {
    /// The genome invariant: distinct bounded neuron ids, distinct link
    /// pairs, every link endpoint resolved, weights in band, sizes capped.
    pub open spec fn wf(self) -> bool {
        &&& neuron_ids_unique(self.neuron_genes@)
        &&& forall|i: int|
            0 <= i < self.neuron_genes@.len() ==> (#[trigger] self.neuron_genes@[i]).id
                < MAX_NEURON_ID
        &&& link_pairs_unique(self.link_genes@)
        &&& forall|i: int|
            0 <= i < self.link_genes@.len() ==> link_ok(
                self.neuron_genes@,
                #[trigger] self.link_genes@[i],
            )
        &&& self.neuron_genes@.len() <= MAX_NEURONS
        &&& self.link_genes@.len() <= MAX_LINKS
    }

    /// Runtime check of the genome invariant, used to reject malformed
    /// genomes instead of building on them.
    pub fn check_valid(&self) -> (r: bool)
        ensures
            r == self.wf(),
    {
        if self.neuron_genes.len() > MAX_NEURONS || self.link_genes.len() > MAX_LINKS {
            return false;
        }
        let n = self.neuron_genes.len();
        let mut i: usize = 0;
        while i < n
            invariant
                n == self.neuron_genes@.len(),
                0 <= i <= n,
                forall|p: int, q: int|
                    0 <= p < q < i ==> self.neuron_genes@[p].id != self.neuron_genes@[q].id,
                forall|p: int|
                    0 <= p < i ==> (#[trigger] self.neuron_genes@[p]).id < MAX_NEURON_ID,
            decreases n - i,
        {
            if self.neuron_genes[i].id >= MAX_NEURON_ID {
                return false;
            }
            let mut j: usize = 0;
            while j < i
                invariant
                    n == self.neuron_genes@.len(),
                    0 <= j <= i < n,
                    forall|p: int|
                        0 <= p < j ==> self.neuron_genes@[p].id != self.neuron_genes@[i as int].id,
                decreases i - j,
            {
                if self.neuron_genes[j].id == self.neuron_genes[i].id {
                    return false;
                }
                j += 1;
            }
            i += 1;
        }
        let m = self.link_genes.len();
        let mut i: usize = 0;
        while i < m
            invariant
                m == self.link_genes@.len(),
                0 <= i <= m,
                neuron_ids_unique(self.neuron_genes@),
                forall|p: int, q: int|
                    0 <= p < q < i ==> !(self.link_genes@[p].from == self.link_genes@[q].from
                        && self.link_genes@[p].to == self.link_genes@[q].to),
                forall|p: int|
                    0 <= p < i ==> link_ok(self.neuron_genes@, #[trigger] self.link_genes@[p]),
            decreases m - i,
        {
            let l = self.link_genes[i];
            if l.weight < -WEIGHT_CAP || l.weight > WEIGHT_CAP {
                return false;
            }
            if !contains_neuron(&self.neuron_genes, l.from) {
                return false;
            }
            if !contains_neuron(&self.neuron_genes, l.to) {
                return false;
            }
            let mut j: usize = 0;
            while j < i
                invariant
                    m == self.link_genes@.len(),
                    0 <= j <= i < m,
                    l == self.link_genes@[i as int],
                    forall|p: int|
                        0 <= p < j ==> !(self.link_genes@[p].from == self.link_genes@[i as int].from
                            && self.link_genes@[p].to == self.link_genes@[i as int].to),
                decreases i - j,
            {
                if self.link_genes[j].from == l.from && self.link_genes[j].to == l.to {
                    return false;
                }
                j += 1;
            }
            i += 1;
        }
        true
    }

    /// Are two genomes equal, gene lists compared element by element?
    pub open spec fn eqv(self, other: Genome) -> bool {
        &&& self.id == other.id
        &&& self.num_inputs == other.num_inputs
        &&& self.num_outputs == other.num_outputs
        &&& self.fitness == other.fitness
        &&& self.adjusted_fitness == other.adjusted_fitness
        &&& self.depth == other.depth
        &&& self.offspring_amount == other.offspring_amount
        &&& self.neuron_genes@ == other.neuron_genes@
        &&& self.link_genes@ == other.link_genes@
        &&& self.genome_gene == other.genome_gene
        &&& self.evaluated == other.evaluated
        &&& self.initial_num_neurons == other.initial_num_neurons
        &&& self.initial_num_links == other.initial_num_links
        &&& self.phenotype_behavior == other.phenotype_behavior
    }

    /// An exact copy of the genome.
    pub fn copy(&self) -> (r: Genome)
        ensures
            r.eqv(*self),
            r.wf() == self.wf(),
    {
        let r = Genome {
            id: self.id,
            num_inputs: self.num_inputs,
            num_outputs: self.num_outputs,
            fitness: self.fitness,
            adjusted_fitness: self.adjusted_fitness,
            depth: self.depth,
            offspring_amount: self.offspring_amount,
            neuron_genes: copy_neurons(&self.neuron_genes),
            link_genes: copy_links(&self.link_genes),
            genome_gene: self.genome_gene,
            evaluated: self.evaluated,
            initial_num_neurons: self.initial_num_neurons,
            initial_num_links: self.initial_num_links,
            phenotype_behavior: self.phenotype_behavior,
        };
        r
    }
}

impl Default for Genome {
    /// The empty genome: no genes, zero scores.
    fn default() -> (r: Genome)
        ensures
            r.wf(),
            r.neuron_genes@.len() == 0,
            r.link_genes@.len() == 0,
            r.id == 0 && r.fitness == 0 && r.adjusted_fitness == 0,
            r.num_inputs == 0 && r.num_outputs == 0,
            r.depth == 0 && r.offspring_amount == 0,
            r.genome_gene is None && r.phenotype_behavior is None,
            r.initial_num_neurons == 0 && r.initial_num_links == 0,
            !r.evaluated,
    {
        Genome {
            id: 0,
            num_inputs: 0,
            num_outputs: 0,
            fitness: 0,
            adjusted_fitness: 0,
            depth: 0,
            offspring_amount: 0,
            neuron_genes: Vec::new(),
            link_genes: Vec::new(),
            genome_gene: None,
            evaluated: false,
            initial_num_neurons: 0,
            initial_num_links: 0,
            phenotype_behavior: None,
        }
    }
}

/// Element-exact copy of a neuron gene list.
pub fn copy_neurons(v: &Vec<NeuronGene>) -> (r: Vec<NeuronGene>)
    ensures
        r@ == v@,
{
    let mut r: Vec<NeuronGene> = Vec::new();
    let mut i: usize = 0;
    while i < v.len()
        invariant
            0 <= i <= v@.len(),
            r@ == v@.subrange(0, i as int),
        decreases v@.len() - i,
    {
        r.push(v[i]);
        proof {
            assert(r@ =~= v@.subrange(0, i + 1 as int));
        }
        i += 1;
    }
    proof {
        assert(r@ =~= v@);
    }
    r
}

/// Element-exact copy of a link gene list.
pub fn copy_links(v: &Vec<LinkGene>) -> (r: Vec<LinkGene>)
    ensures
        r@ == v@,
{
    let mut r: Vec<LinkGene> = Vec::new();
    let mut i: usize = 0;
    while i < v.len()
        invariant
            0 <= i <= v@.len(),
            r@ == v@.subrange(0, i as int),
        decreases v@.len() - i,
    {
        r.push(v[i]);
        proof {
            assert(r@ =~= v@.subrange(0, i + 1 as int));
        }
        i += 1;
    }
    proof {
        assert(r@ =~= v@);
    }
    r
}

/// Does the neuron list contain the id?
pub fn contains_neuron(ns: &Vec<NeuronGene>, id: u64) -> (r: bool)
    ensures
        r == has_neuron_id(ns@, id),
{
    let mut i: usize = 0;
    while i < ns.len()
        invariant
            0 <= i <= ns@.len(),
            forall|p: int| 0 <= p < i ==> (#[trigger] ns@[p]).id != id,
        decreases ns@.len() - i,
    {
        if ns[i].id == id {
            return true;
        }
        i += 1;
    }
    false
}

/// Index of the link with the given pair, if any.
pub fn find_link(ls: &Vec<LinkGene>, from: u64, to: u64) -> (r: Option<usize>)
    ensures
        match r {
            Some(j) => j < ls@.len() && ls@[j as int].from == from && ls@[j as int].to == to,
            None => !has_pair(ls@, from, to),
        },
{
    let mut i: usize = 0;
    while i < ls.len()
        invariant
            0 <= i <= ls@.len(),
            forall|p: int|
                0 <= p < i ==> !((#[trigger] ls@[p]).from == from && ls@[p].to == to),
        decreases ls@.len() - i,
    {
        if ls[i].from == from && ls[i].to == to {
            return Some(i);
        }
        i += 1;
    }
    None
}


/// Number of neuron genes a seed of this shape creates: inputs, outputs,
/// and — for a layered, non-sparse seed — the hidden neurons.
pub open spec fn seed_neuron_count(params: GenomeInitStruct) -> int {
    params.num_inputs + params.num_outputs + (if params.seed_type == GenomeSeedType::Layered
        && !params.fs_neat {
        params.num_hidden as int
    } else {
        0int
    })
}

/// Is the input-to-output link `(a, ni + b)` present?
pub open spec fn io_pair_present(ls: Seq<LinkGene>, ni: int, a: int, b: int) -> bool {
    has_pair(ls, a as u64, (ni + b) as u64)
}

/// With unique pairs, the looked-up weight of a link's pair is that
/// link's weight.
pub proof fn lemma_weight_at(ls: Seq<LinkGene>, q: int)
    requires
        link_pairs_unique(ls),
        0 <= q < ls.len(),
    ensures
        has_pair(ls, ls[q].from, ls[q].to),
        weight_at(ls, ls[q].from, ls[q].to) == ls[q].weight,
{
    assert(0 <= q < ls.len() && ls[q].from == ls[q].from && ls[q].to == ls[q].to);
    let j = choose|j: int|
        0 <= j < ls.len() && ls[j].from == ls[q].from && ls[j].to == ls[q].to;
    if j != q {
        let lo = if j < q {
            j
        } else {
            q
        };
        let hi = if j < q {
            q
        } else {
            j
        };
        assert(!(ls[lo].from == ls[hi].from && ls[lo].to == ls[hi].to));
        assert(false);
    }
}

/// Appending a link whose pair is absent keeps the pairs unique and the
/// links well formed.
pub proof fn lemma_push_link_wf(ns: Seq<NeuronGene>, ls: Seq<LinkGene>, l: LinkGene)
    requires
        link_pairs_unique(ls),
        forall|q: int| 0 <= q < ls.len() ==> link_ok(ns, #[trigger] ls[q]),
        !has_pair(ls, l.from, l.to),
        link_ok(ns, l),
    ensures
        link_pairs_unique(ls.push(l)),
        forall|q: int| 0 <= q < ls.push(l).len() ==> link_ok(ns, #[trigger] ls.push(l)[q]),
{
    let t = ls.push(l);
    assert forall|i: int, j: int|
        0 <= i < j < t.len() implies !(t[i].from == t[j].from && t[i].to == t[j].to) by {
        assert(t[i] == ls[i]);
        if j < t.len() - 1 {
            assert(t[j] == ls[j]);
        } else {
            if t[i].from == l.from && t[i].to == l.to {
                assert(has_pair(ls, l.from, l.to));
            }
        }
    }
    assert forall|q: int| 0 <= q < t.len() implies link_ok(ns, #[trigger] t[q]) by {
        if q < t.len() - 1 {
            assert(t[q] == ls[q]);
        }
    }
}

impl Genome {
    /// Seed a new genome. Inputs take positions and ids `0..num_inputs`,
    /// outputs follow, hidden neurons of a layered seed come last. A
    /// perceptron seed connects every input to every output; a sparse
    /// (`fs_neat`) seed draws `fs_neat_links` random input-to-output
    /// links; a layered seed threads the hidden neurons one after
    /// another between a random input and a random output. Link weights
    /// are drawn uniformly from the weight band.
    pub fn new(id: u64, params: &GenomeInitStruct) -> (r: Genome)
        requires
            1 <= params.num_inputs,
            1 <= params.num_outputs,
            params.num_inputs * params.num_outputs <= MAX_LINKS,
            params.num_inputs + params.num_outputs + params.num_hidden <= MAX_NEURONS,
            2 * params.num_hidden + 2 <= MAX_LINKS,
            params.fs_neat_links <= MAX_LINKS,
            1 <= params.num_layers <= 64,
        ensures
            r.wf(),
            r.id == id,
            r.num_inputs == params.num_inputs,
            r.num_outputs == params.num_outputs,
            r.fitness == 0 && r.adjusted_fitness == 0 && r.offspring_amount == 0,
            r.depth == 0,
            r.genome_gene is None && r.phenotype_behavior is None,
            !r.evaluated,
            r.initial_num_neurons == r.neuron_genes@.len(),
            r.initial_num_links == r.link_genes@.len(),
            r.neuron_genes@.len() == seed_neuron_count(*params),
            forall|q: int|
                0 <= q < params.num_inputs ==> ((#[trigger] r.neuron_genes@[q]).id == q
                    && r.neuron_genes@[q].neuron_type == NeuronType::Input),
            forall|q: int|
                params.num_inputs <= q < params.num_inputs + params.num_outputs ==> ((
                #[trigger] r.neuron_genes@[q]).id == q && r.neuron_genes@[q].neuron_type
                    == NeuronType::Output && r.neuron_genes@[q].activation
                    == params.output_act_type),
            params.seed_type == GenomeSeedType::Perceptron && !params.fs_neat
                ==> r.link_genes@.len() == params.num_inputs * params.num_outputs,
            params.seed_type == GenomeSeedType::Perceptron && !params.fs_neat ==> forall|
                a: int,
                b: int,
            |
                0 <= a < params.num_inputs && 0 <= b < params.num_outputs
                    ==> #[trigger] io_pair_present(
                    r.link_genes@,
                    params.num_inputs as int,
                    a,
                    b,
                ),
    {
        let ni = params.num_inputs;
        let no = params.num_outputs;
        let mut neurons: Vec<NeuronGene> = Vec::new();
        let mut i: usize = 0;
        while i < ni
            invariant
                ni + no <= MAX_NEURONS,
                0 <= i <= ni,
                neurons@.len() == i,
                forall|q: int|
                    0 <= q < i ==> ((#[trigger] neurons@[q]).id == q && neurons@[q].neuron_type
                        == NeuronType::Input),
            decreases ni - i,
        {
            neurons.push(
                NeuronGene {
                    id: i as u64,
                    neuron_type: NeuronType::Input,
                    activation: ActivationFunction::Linear,
                },
            );
            i += 1;
        }
        let mut o: usize = 0;
        while o < no
            invariant
                ni + no <= MAX_NEURONS,
                0 <= o <= no,
                neurons@.len() == ni + o,
                forall|q: int|
                    0 <= q < ni ==> ((#[trigger] neurons@[q]).id == q && neurons@[q].neuron_type
                        == NeuronType::Input),
                forall|q: int|
                    ni <= q < ni + o ==> ((#[trigger] neurons@[q]).id == q
                        && neurons@[q].neuron_type == NeuronType::Output
                        && neurons@[q].activation == params.output_act_type),
            decreases no - o,
        {
            neurons.push(
                NeuronGene {
                    id: (ni + o) as u64,
                    neuron_type: NeuronType::Output,
                    activation: params.output_act_type,
                },
            );
            o += 1;
        }
        let mut nh: usize = 0;
        if matches!(params.seed_type, GenomeSeedType::Layered) && !params.fs_neat {
            nh = params.num_hidden;
        }
        let mut h: usize = 0;
        while h < nh
            invariant
                ni + no + nh <= MAX_NEURONS,
                0 <= h <= nh,
                neurons@.len() == ni + no + h,
                forall|q: int|
                    0 <= q < ni ==> ((#[trigger] neurons@[q]).id == q && neurons@[q].neuron_type
                        == NeuronType::Input),
                forall|q: int|
                    ni <= q < ni + no ==> ((#[trigger] neurons@[q]).id == q
                        && neurons@[q].neuron_type == NeuronType::Output
                        && neurons@[q].activation == params.output_act_type),
                forall|q: int|
                    ni + no <= q < ni + no + h ==> ((#[trigger] neurons@[q]).id == q
                        && neurons@[q].neuron_type == NeuronType::Hidden
                        && neurons@[q].activation == params.hidden_act_type),
            decreases nh - h,
        {
            neurons.push(
                NeuronGene {
                    id: (ni + no + h) as u64,
                    neuron_type: NeuronType::Hidden,
                    activation: params.hidden_act_type,
                },
            );
            h += 1;
        }
        proof {
            assert forall|p: int, q: int|
                0 <= p < q < neurons@.len() implies neurons@[p].id != neurons@[q].id by {
                assert(neurons@[p].id == p && neurons@[q].id == q);
            }
            assert forall|q: int|
                0 <= q < neurons@.len() implies (#[trigger] neurons@[q]).id < MAX_NEURON_ID by {
                assert(neurons@[q].id == q);
            }
        }
        let mut links: Vec<LinkGene> = Vec::new();
        if params.fs_neat {
            let mut t: usize = 0;
            while t < params.fs_neat_links
                invariant
                    ni >= 1,
                    no >= 1,
                    params.fs_neat_links <= MAX_LINKS,
                    0 <= t <= params.fs_neat_links,
                    neurons@.len() >= ni + no,
                    neurons@.len() <= MAX_NEURONS,
                    neuron_ids_unique(neurons@),
                    forall|q: int|
                        0 <= q < neurons@.len() ==> (#[trigger] neurons@[q]).id < MAX_NEURON_ID,
                    forall|q: int|
                        0 <= q < ni ==> ((#[trigger] neurons@[q]).id == q
                            && neurons@[q].neuron_type == NeuronType::Input),
                    forall|q: int|
                        ni <= q < ni + no ==> ((#[trigger] neurons@[q]).id == q
                            && neurons@[q].neuron_type == NeuronType::Output),
                    links@.len() <= t,
                    link_pairs_unique(links@),
                    forall|q: int| 0 <= q < links@.len() ==> link_ok(neurons@, #[trigger] links@[q]),
                decreases params.fs_neat_links - t,
            {
                let a = Random::rand_int(ni as u64);
                let b = Random::rand_int(no as u64);
                let from: u64 = a;
                let to: u64 = (ni as u64) + b;
                if matches!(find_link(&links, from, to), None) {
                    let w = Random::rand_range(WEIGHT_CAP);
                    proof {
                        assert(neurons@[a as int].id == from);
                        assert(neurons@[(ni + b) as int].id == to);
                        lemma_push_link_wf(
                            neurons@,
                            links@,
                            (LinkGene { from, to, weight: w, enabled: true }),
                        );
                    }
                    links.push(LinkGene { from, to, weight: w, enabled: true });
                }
                t += 1;
            }
        } else if matches!(params.seed_type, GenomeSeedType::Perceptron) {
            let mut a: usize = 0;
            while a < ni
                invariant
                    ni >= 1,
                    no >= 1,
                    ni * no <= MAX_LINKS,
                    0 <= a <= ni,
                    neurons@.len() >= ni + no,
                    neurons@.len() <= MAX_NEURONS,
                    neuron_ids_unique(neurons@),
                    forall|q: int|
                        0 <= q < neurons@.len() ==> (#[trigger] neurons@[q]).id < MAX_NEURON_ID,
                    forall|q: int|
                        0 <= q < ni ==> ((#[trigger] neurons@[q]).id == q
                            && neurons@[q].neuron_type == NeuronType::Input),
                    forall|q: int|
                        ni <= q < ni + no ==> ((#[trigger] neurons@[q]).id == q
                            && neurons@[q].neuron_type == NeuronType::Output),
                    links@.len() == a * no,
                    link_pairs_unique(links@),
                    forall|q: int| 0 <= q < links@.len() ==> link_ok(neurons@, #[trigger] links@[q]),
                    forall|q: int|
                        0 <= q < links@.len() ==> ((#[trigger] links@[q]).from < a
                            && links@[q].enabled),
                    forall|x: int, y: int|
                        0 <= x < a && 0 <= y < no ==> #[trigger] io_pair_present(
                            links@,
                            ni as int,
                            x,
                            y,
                        ),
                decreases ni - a,
            {
                let mut b: usize = 0;
                while b < no
                    invariant
                        ni >= 1,
                        no >= 1,
                        ni * no <= MAX_LINKS,
                        0 <= a < ni,
                        0 <= b <= no,
                        neurons@.len() >= ni + no,
                        neurons@.len() <= MAX_NEURONS,
                        neuron_ids_unique(neurons@),
                        forall|q: int|
                            0 <= q < neurons@.len() ==> (#[trigger] neurons@[q]).id
                                < MAX_NEURON_ID,
                        forall|q: int|
                            0 <= q < ni ==> ((#[trigger] neurons@[q]).id == q
                                && neurons@[q].neuron_type == NeuronType::Input),
                        forall|q: int|
                            ni <= q < ni + no ==> ((#[trigger] neurons@[q]).id == q
                                && neurons@[q].neuron_type == NeuronType::Output),
                        links@.len() == a * no + b,
                        link_pairs_unique(links@),
                        forall|q: int|
                            0 <= q < links@.len() ==> link_ok(neurons@, #[trigger] links@[q]),
                        forall|q: int|
                            0 <= q < links@.len() ==> ((#[trigger] links@[q]).from < a || (
                            links@[q].from == a && links@[q].to < ni + b)),
                        forall|q: int| 0 <= q < links@.len() ==> (#[trigger] links@[q]).enabled,
                        forall|x: int, y: int|
                            0 <= x < a && 0 <= y < no ==> #[trigger] io_pair_present(
                                links@,
                                ni as int,
                                x,
                                y,
                            ),
                        forall|y: int|
                            0 <= y < b ==> #[trigger] io_pair_present(links@, ni as int, a as int, y),
                    decreases no - b,
                {
                    let from: u64 = a as u64;
                    let to: u64 = (ni + b) as u64;
                    let w = Random::rand_range(WEIGHT_CAP);
                    let ghost pre = links@;
                    proof {
                        assert(neurons@[a as int].id == from);
                        assert(neurons@[(ni + b) as int].id == to);
                        assert(!has_pair(links@, from, to));
                        lemma_push_link_wf(
                            neurons@,
                            links@,
                            (LinkGene { from, to, weight: w, enabled: true }),
                        );
                    }
                    links.push(LinkGene { from, to, weight: w, enabled: true });
                    proof {
                        assert(links@[links@.len() - 1].from == from && links@[links@.len() - 1].to
                            == to);
                        assert forall|x: int, y: int|
                            0 <= x < a && 0 <= y < no implies #[trigger] io_pair_present(
                            links@,
                            ni as int,
                            x,
                            y,
                        ) by {
                            assert(io_pair_present(pre, ni as int, x, y));
                            let j = choose|j: int|
                                0 <= j < pre.len() && pre[j].from == x as u64 && pre[j].to == (ni
                                    + y) as u64;
                            assert(links@[j].from == x as u64 && links@[j].to == (ni + y) as u64);
                        }
                        assert forall|y: int|
                            0 <= y < b + 1 implies #[trigger] io_pair_present(
                            links@,
                            ni as int,
                            a as int,
                            y,
                        ) by {
                            if y < b {
                                assert(io_pair_present(pre, ni as int, a as int, y));
                                let j = choose|j: int|
                                    0 <= j < pre.len() && pre[j].from == a as u64 && pre[j].to == (
                                    ni + y) as u64;
                                assert(links@[j].from == a as u64 && links@[j].to == (ni + y)
                                    as u64);
                            } else {
                                assert(links@[links@.len() - 1].from == a as u64
                                    && links@[links@.len() - 1].to == (ni + y) as u64);
                            }
                        }
                    }
                    b += 1;
                }
                proof {
                    assert((a + 1) * no == a * no + no) by (nonlinear_arith);
                    assert(a * no + no <= ni * no) by (nonlinear_arith)
                        requires
                            0 <= a < ni,
                            0 <= no,
                    ;
                }
                a += 1;
            }
        } else {
            let mut l: usize = 0;
            while l < nh + 1
                invariant
                    ni >= 1,
                    no >= 1,
                    2 * nh + 2 <= MAX_LINKS,
                    ni + no + nh <= MAX_NEURONS,
                    0 <= l <= nh + 1,
                    neurons@.len() == ni + no + nh,
                    neuron_ids_unique(neurons@),
                    forall|q: int|
                        0 <= q < neurons@.len() ==> (#[trigger] neurons@[q]).id < MAX_NEURON_ID,
                    forall|q: int|
                        0 <= q < neurons@.len() ==> (#[trigger] neurons@[q]).id == q,
                    links@.len() <= l * 2,
                    link_pairs_unique(links@),
                    forall|q: int| 0 <= q < links@.len() ==> link_ok(neurons@, #[trigger] links@[q]),
                decreases nh + 1 - l,
            {
                let lower: usize = if l == 0 {
                    Random::rand_int(ni as u64) as usize
                } else {
                    ni + no + l - 1
                };
                let upper: usize = if l < nh {
                    ni + no + l
                } else {
                    ni + (Random::rand_int(no as u64) as usize)
                };
                let from = neurons[lower].id;
                let to = neurons[upper].id;
                if matches!(find_link(&links, from, to), None) {
                    let w = Random::rand_range(WEIGHT_CAP);
                    proof {
                        lemma_push_link_wf(
                            neurons@,
                            links@,
                            (LinkGene { from, to, weight: w, enabled: true }),
                        );
                    }
                    links.push(LinkGene { from, to, weight: w, enabled: true });
                }
                l += 1;
            }
        }
        let n_neurons = neurons.len();
        let n_links = links.len();
        Genome {
            id,
            num_inputs: ni,
            num_outputs: no,
            fitness: 0,
            adjusted_fitness: 0,
            depth: 0,
            offspring_amount: 0,
            neuron_genes: neurons,
            link_genes: links,
            genome_gene: None,
            evaluated: false,
            initial_num_neurons: n_neurons,
            initial_num_links: n_links,
            phenotype_behavior: None,
        }
    }
}



/// Does some link of `ls` carry an enabled flag?
pub open spec fn some_link_enabled(ls: Seq<LinkGene>) -> bool {
    exists|q: int| 0 <= q < ls.len() && (#[trigger] ls[q]).enabled
}

/// Number of enabled links of `ls`.
pub open spec fn count_enabled(ls: Seq<LinkGene>) -> int
    decreases ls.len(),
{
    if ls.len() == 0 {
        0
    } else {
        count_enabled(ls.drop_last()) + (if ls.last().enabled {
            1int
        } else {
            0int
        })
    }
}

proof fn lemma_count_enabled_nonneg(ls: Seq<LinkGene>)
    ensures
        0 <= count_enabled(ls) <= ls.len(),
    decreases ls.len(),
{
    if ls.len() > 0 {
        lemma_count_enabled_nonneg(ls.drop_last());
    }
}

/// A witnessed enabled link makes the enabled count positive.
proof fn lemma_count_enabled_pos(ls: Seq<LinkGene>, q: int)
    requires
        0 <= q < ls.len(),
        ls[q].enabled,
    ensures
        count_enabled(ls) >= 1,
    decreases ls.len(),
{
    lemma_count_enabled_nonneg(ls.drop_last());
    if q < ls.len() - 1 {
        lemma_count_enabled_pos(ls.drop_last(), q);
    }
}

/// The enabled flags of `b` agree with those of `a` everywhere except
/// possibly at position `j`.
pub open spec fn toggled_at_most_at(a: Seq<LinkGene>, b: Seq<LinkGene>, j: int) -> bool {
    forall|q: int| 0 <= q < a.len() && q != j ==> (#[trigger] b[q]).enabled == a[q].enabled
}

/// Clamp a weight into the weight band.
fn clamp_weight(w: i64) -> (r: i64)
    ensures
        -WEIGHT_CAP <= r <= WEIGHT_CAP,
        -WEIGHT_CAP <= w <= WEIGHT_CAP ==> r == w,
{
    if w < -WEIGHT_CAP {
        -WEIGHT_CAP
    } else if w > WEIGHT_CAP {
        WEIGHT_CAP
    } else {
        w
    }
}

impl Genome {
    /// Attempt an add-link mutation: draw endpoint pairs at random, and
    /// add the first legal one — the target hidden or output, the pair
    /// absent, and, when recurrent networks are disabled, the new graph
    /// still expressible as a feed-forward network. With no legal pair
    /// found within the attempt budget the genome is left unchanged.
    pub fn mutate_add_link(
        &mut self,
        tracker: &mut InnovationTracker,
        params: &Parameters,
    ) -> (r: Result<u64, NeatError>)
        requires
            old(self).wf(),
            old(tracker).wf(),
            old(tracker).next_innovation < u64::MAX,
            params.wf(),
            old(self).neuron_genes@.len() >= 1,
        ensures
            final(self).wf(),
            final(tracker).wf(),
            final(self).neuron_genes@ == old(self).neuron_genes@,
            match r {
                Ok(_) => {
                    &&& final(self).link_genes@.len() == old(self).link_genes@.len() + 1
                    &&& forall|q: int|
                        0 <= q < old(self).link_genes@.len() ==> final(self).link_genes@[q] == old(self).link_genes@[q]
                    &&& {
                        let l = final(self).link_genes@.last();
                        &&& l.enabled
                        &&& !has_pair(old(self).link_genes@, l.from, l.to)
                        &&& has_neuron_id(old(self).neuron_genes@, l.from)
                        &&& has_neuron_id(old(self).neuron_genes@, l.to)
                    }
                },
                Err(e) => {
                    &&& e == NeatError::MutationExhausted
                    &&& final(self).link_genes@ == old(self).link_genes@
                    &&& *final(tracker) == *old(tracker)
                },
            },
    {
        let ghost self0 = *old(self);
        let n = self.neuron_genes.len();
        let mut t: usize = 0;
        let attempts = params.add_link_attempts;
        while t < attempts
            invariant
                self0 == *old(self),
                *self == self0,
                self0.wf(),
                old(tracker).wf(),
                *tracker == *old(tracker),
                old(tracker).next_innovation < u64::MAX,
                params.wf(),
                n == self.neuron_genes@.len(),
                n >= 1,
                0 <= t <= attempts,
            decreases attempts - t,
        {
            let fi = Random::rand_int(n as u64) as usize;
            let ti = Random::rand_int(n as u64) as usize;
            let to_kind = self.neuron_genes[ti].neuron_type;
            let target_ok = matches!(to_kind, NeuronType::Hidden) || matches!(
                to_kind,
                NeuronType::Output,
            );
            let from = self.neuron_genes[fi].id;
            let to = self.neuron_genes[ti].id;
            if target_ok && matches!(find_link(&self.link_genes, from, to), None)
                && self.link_genes.len() < MAX_LINKS {
                let w = Random::rand_range(WEIGHT_CAP);
                let candidate = LinkGene { from, to, weight: w, enabled: true };
                proof {
                    assert(self.neuron_genes@[fi as int].id == from);
                    assert(self.neuron_genes@[ti as int].id == to);
                    lemma_push_link_wf(self.neuron_genes@, self.link_genes@, candidate);
                }
                let mut feed_forward_ok = true;
                if !params.allow_recurrent {
                    let mut cand = self.copy();
                    cand.link_genes.push(candidate);
                    let built = crate::network::build_phenotype(&cand, params);
                    feed_forward_ok = matches!(built, Ok(_));
                }
                if feed_forward_ok {
                    self.link_genes.push(candidate);
                    let inno = tracker.get_or_create_link(from, to);
                    return Ok(inno);
                }
            }
            t += 1;
        }
        Err(NeatError::MutationExhausted)
    }

    /// Split a random enabled link: disable it, insert a new hidden
    /// neuron, and bridge it with a unit-weight link into the new neuron
    /// and a link carrying the old weight out of it, so the genome's
    /// transfer behavior is preserved at the moment of the split. The
    /// neuron id comes from the tracker, keyed by the split pair, so
    /// repeated splits of the same link across the population agree.
    pub fn mutate_add_neuron(
        &mut self,
        tracker: &mut InnovationTracker,
        params: &Parameters,
    ) -> (r: Result<u64, NeatError>)
        requires
            old(self).wf(),
            old(tracker).wf(),
            old(tracker).next_neuron_id + 2 <= MAX_NEURON_ID,
            params.wf(),
            forall|q: int|
                0 <= q < old(self).neuron_genes@.len() ==> (#[trigger] old(self).neuron_genes@[q]).id < old(tracker).next_neuron_id,
        ensures
            final(self).wf(),
            final(tracker).wf(),
            match r {
                Ok(nid) => exists|j: int|
                    {
                        &&& 0 <= j < old(self).link_genes@.len()
                        &&& (#[trigger] old(self).link_genes@[j]).enabled
                        &&& !has_neuron_id(old(self).neuron_genes@, nid)
                        &&& final(self).neuron_genes@ == old(self).neuron_genes@.push(
                            (NeuronGene {
                                id: nid,
                                neuron_type: NeuronType::Hidden,
                                activation: params.hidden_activation,
                            }),
                        )
                        &&& final(self).link_genes@ == old(self).link_genes@.update(
                            j,
                            (LinkGene {
                                from: old(self).link_genes@[j].from,
                                to: old(self).link_genes@[j].to,
                                weight: old(self).link_genes@[j].weight,
                                enabled: false,
                            }),
                        ).push(
                            (LinkGene {
                                from: old(self).link_genes@[j].from,
                                to: nid,
                                weight: FP_SCALE,
                                enabled: true,
                            }),
                        ).push(
                            (LinkGene {
                                from: nid,
                                to: old(self).link_genes@[j].to,
                                weight: old(self).link_genes@[j].weight,
                                enabled: true,
                            }),
                        )
                    },
                Err(e) => {
                    &&& e == NeatError::MutationExhausted
                    &&& final(self).link_genes@ == old(self).link_genes@
                    &&& final(self).neuron_genes@ == old(self).neuron_genes@
                },
            },
            some_link_enabled(old(self).link_genes@) && old(self).link_genes@.len() + 2
                <= MAX_LINKS && old(self).neuron_genes@.len() + 1 <= MAX_NEURONS ==> r is Ok,
    {
        let m = self.link_genes.len();
        let mut enabled_count: usize = 0;
        let mut i: usize = 0;
        while i < m
            invariant
                *self == *old(self),
                m == self.link_genes@.len(),
                0 <= i <= m,
                enabled_count <= i,
                enabled_count as int == count_enabled(self.link_genes@.subrange(0, i as int)),
            decreases m - i,
        {
            proof {
                let pre = self.link_genes@.subrange(0, i as int);
                let cur = self.link_genes@.subrange(0, i + 1 as int);
                assert(cur.drop_last() =~= pre);
                assert(cur.last() == self.link_genes@[i as int]);
            }
            if self.link_genes[i].enabled {
                enabled_count += 1;
            }
            i += 1;
        }
        proof {
            assert(self.link_genes@.subrange(0, m as int) =~= self.link_genes@);
        }
        if enabled_count == 0 || self.link_genes.len() + 2 > MAX_LINKS
            || self.neuron_genes.len() + 1 > MAX_NEURONS {
            proof {
                if enabled_count == 0 && some_link_enabled(self.link_genes@) {
                    let q = choose|q: int|
                        0 <= q < self.link_genes@.len() && (#[trigger] self.link_genes@[q]).enabled;
                    lemma_count_enabled_pos(self.link_genes@, q);
                }
            }
            return Err(NeatError::MutationExhausted);
        }
        let pick = Random::rand_int(enabled_count as u64) as usize;
        let mut j: usize = 0;
        let mut seen: usize = 0;
        let mut chosen: usize = 0;
        let mut found = false;
        while j < m
            invariant
                *self == *old(self),
                m == self.link_genes@.len(),
                (pick as int) < count_enabled(self.link_genes@),
                0 <= j <= m,
                seen <= j,
                seen as int == count_enabled(self.link_genes@.subrange(0, j as int)),
                !found ==> seen <= pick,
                found ==> ((chosen as int) < m && old(self).link_genes@[chosen as int].enabled),
            decreases m - j,
        {
            proof {
                let pre = self.link_genes@.subrange(0, j as int);
                let cur = self.link_genes@.subrange(0, j + 1 as int);
                assert(cur.drop_last() =~= pre);
                assert(cur.last() == self.link_genes@[j as int]);
            }
            if self.link_genes[j].enabled {
                if seen == pick && !found {
                    chosen = j;
                    found = true;
                }
                seen += 1;
            }
            j += 1;
        }
        proof {
            assert(self.link_genes@.subrange(0, m as int) =~= self.link_genes@);
        }
        if !found {
            proof {
                assert(false);
            }
            return Err(NeatError::MutationExhausted);
        }
        let link = self.link_genes[chosen];
        let ghost next0 = tracker.next_neuron_id;
        let mut nid = tracker.get_or_create_neuron(link.from, link.to);
        if contains_neuron(&self.neuron_genes, nid) {
            nid = tracker.fresh_neuron_id();
            proof {
                assert forall|q: int|
                    0 <= q < self.neuron_genes@.len() implies (#[trigger] self.neuron_genes@[q]).id
                    != nid by {
                    assert(self.neuron_genes@[q].id < next0);
                }
                if has_neuron_id(self.neuron_genes@, nid) {
                    let q = choose|q: int|
                        0 <= q < self.neuron_genes@.len() && self.neuron_genes@[q].id == nid;
                    assert(false);
                }
            }
        }
        proof {
            assert(!has_neuron_id(self.neuron_genes@, nid));
            assert(nid < MAX_NEURON_ID);
        }
        let ghost ns0 = self.neuron_genes@;
        let ghost ls0 = self.link_genes@;
        self.neuron_genes.push(
            NeuronGene {
                id: nid,
                neuron_type: NeuronType::Hidden,
                activation: params.hidden_activation,
            },
        );
        self.link_genes[chosen] = LinkGene {
            from: link.from,
            to: link.to,
            weight: link.weight,
            enabled: false,
        };
        self.link_genes.push(LinkGene { from: link.from, to: nid, weight: FP_SCALE, enabled: true });
        self.link_genes.push(
            LinkGene { from: nid, to: link.to, weight: link.weight, enabled: true },
        );
        proof {
            lemma_split_wf(ns0, ls0, chosen as int, nid, params.hidden_activation);
        }
        Ok(nid)
    }

    /// Mutate the enabled links' weights: each, with the configured
    /// probability, is either nudged by bounded noise or replaced by a
    /// fresh draw, and always clamped into the weight band. Structure,
    /// pairs and enabled flags are untouched.
    pub fn mutate_weights(&mut self, params: &Parameters)
        requires
            old(self).wf(),
            params.wf(),
        ensures
            final(self).wf(),
            final(self).neuron_genes@ == old(self).neuron_genes@,
            final(self).link_genes@.len() == old(self).link_genes@.len(),
            forall|q: int|
                0 <= q < old(self).link_genes@.len() ==> ((#[trigger] final(self).link_genes@[q]).from == old(self).link_genes@[q].from && final(self).link_genes@[q].to == old(self).link_genes@[q].to && final(self).link_genes@[q].enabled == old(self).link_genes@[q].enabled),
    {
        let ghost self0 = *old(self);
        let m = self.link_genes.len();
        let mut i: usize = 0;
        while i < m
            invariant
                self0.wf(),
                params.wf(),
                m == self.link_genes@.len(),
                0 <= i <= m,
                self.neuron_genes@ == self0.neuron_genes@,
                self.link_genes@.len() == self0.link_genes@.len(),
                forall|q: int|
                    0 <= q < m ==> ((#[trigger] self.link_genes@[q]).from
                        == self0.link_genes@[q].from && self.link_genes@[q].to
                        == self0.link_genes@[q].to && self.link_genes@[q].enabled
                        == self0.link_genes@[q].enabled),
                forall|q: int|
                    0 <= q < m ==> -WEIGHT_CAP <= (#[trigger] self.link_genes@[q]).weight
                        <= WEIGHT_CAP,
                self.id == self0.id && self.num_inputs == self0.num_inputs && self.num_outputs
                    == self0.num_outputs && self.fitness == self0.fitness && self.adjusted_fitness
                    == self0.adjusted_fitness && self.depth == self0.depth
                    && self.offspring_amount == self0.offspring_amount && self.genome_gene
                    == self0.genome_gene && self.evaluated == self0.evaluated
                    && self.initial_num_neurons == self0.initial_num_neurons
                    && self.initial_num_links == self0.initial_num_links
                    && self.phenotype_behavior == self0.phenotype_behavior,
            decreases m - i,
        {
            let l = self.link_genes[i];
            if l.enabled && Random::rand_unit() < params.weight_perturb_rate {
                let w: i64 = if Random::rand_unit() < params.weight_replace_rate {
                    Random::rand_range(WEIGHT_CAP)
                } else {
                    clamp_weight(l.weight + Random::rand_range(params.weight_perturb_magnitude))
                };
                let ghost before = self.link_genes@;
                self.link_genes[i] = LinkGene { from: l.from, to: l.to, weight: w, enabled: true };
                proof {
                    assert forall|q: int|
                        0 <= q < m implies ((#[trigger] self.link_genes@[q]).from
                        == self0.link_genes@[q].from && self.link_genes@[q].to
                        == self0.link_genes@[q].to && self.link_genes@[q].enabled
                        == self0.link_genes@[q].enabled) by {
                        if q != i as int {
                            assert(self.link_genes@[q] == before[q]);
                        }
                    }
                }
            }
            i += 1;
        }
        proof {
            lemma_same_pairs_wf(self0, *self);
        }
    }

    /// With the configured probability, flip one random link's enabled
    /// flag, silencing or reviving structure without deleting it.
    pub fn mutate_toggle(&mut self, params: &Parameters)
        requires
            old(self).wf(),
            params.wf(),
        ensures
            final(self).wf(),
            final(self).neuron_genes@ == old(self).neuron_genes@,
            final(self).link_genes@.len() == old(self).link_genes@.len(),
            forall|q: int|
                0 <= q < old(self).link_genes@.len() ==> ((#[trigger] final(self).link_genes@[q]).from == old(self).link_genes@[q].from && final(self).link_genes@[q].to == old(self).link_genes@[q].to && final(self).link_genes@[q].weight == old(self).link_genes@[q].weight),
            exists|j: int| toggled_at_most_at(old(self).link_genes@, final(self).link_genes@, j),
    {
        let ghost self0 = *old(self);
        let m = self.link_genes.len();
        if m == 0 {
            proof {
                assert(toggled_at_most_at(self0.link_genes@, self.link_genes@, 0));
            }
            return ;
        }
        if Random::rand_unit() < params.toggle_rate {
            let j = Random::rand_int(m as u64) as usize;
            let l = self.link_genes[j];
            let ghost before = self.link_genes@;
            self.link_genes[j] = LinkGene {
                from: l.from,
                to: l.to,
                weight: l.weight,
                enabled: !l.enabled,
            };
            proof {
                assert forall|q: int|
                    0 <= q < self0.link_genes@.len() && q != j as int implies (#[trigger] self.link_genes@[q]).enabled
                    == self0.link_genes@[q].enabled by {
                    assert(self.link_genes@[q] == before[q]);
                }
                assert(toggled_at_most_at(self0.link_genes@, self.link_genes@, j as int));
                assert forall|q: int|
                    0 <= q < m implies ((#[trigger] self.link_genes@[q]).from
                    == self0.link_genes@[q].from && self.link_genes@[q].to
                    == self0.link_genes@[q].to && self.link_genes@[q].weight
                    == self0.link_genes@[q].weight) by {
                    if q != j as int {
                        assert(self.link_genes@[q] == before[q]);
                    }
                }
                lemma_same_pairs_wf(self0, *self);
            }
        } else {
            proof {
                assert(toggled_at_most_at(self0.link_genes@, self.link_genes@, 0));
            }
        }
    }
}

/// A genome whose links keep their pairs and weight band, over the same
/// neurons, stays well formed.
proof fn lemma_same_pairs_wf(a: Genome, b: Genome)
    requires
        a.wf(),
        b.neuron_genes@ == a.neuron_genes@,
        b.link_genes@.len() == a.link_genes@.len(),
        forall|q: int|
            0 <= q < a.link_genes@.len() ==> ((#[trigger] b.link_genes@[q]).from
                == a.link_genes@[q].from && b.link_genes@[q].to == a.link_genes@[q].to
                && -WEIGHT_CAP <= b.link_genes@[q].weight <= WEIGHT_CAP),
    ensures
        b.wf(),
{
    assert forall|i: int, j: int|
        0 <= i < j < b.link_genes@.len() implies !(b.link_genes@[i].from == b.link_genes@[j].from
        && b.link_genes@[i].to == b.link_genes@[j].to) by {
        assert(!(a.link_genes@[i].from == a.link_genes@[j].from && a.link_genes@[i].to
            == a.link_genes@[j].to));
    }
    assert forall|i: int|
        0 <= i < b.link_genes@.len() implies link_ok(
        b.neuron_genes@,
        #[trigger] b.link_genes@[i],
    ) by {
        assert(link_ok(a.neuron_genes@, a.link_genes@[i]));
    }
}

/// Splitting a link of a well-formed genome with a fresh neuron id keeps
/// the genome well formed and pins the resulting gene lists.
proof fn lemma_split_wf(ns: Seq<NeuronGene>, ls: Seq<LinkGene>, j: int, nid: u64, act: ActivationFunction)
    requires
        neuron_ids_unique(ns),
        forall|i: int| 0 <= i < ns.len() ==> (#[trigger] ns[i]).id < MAX_NEURON_ID,
        link_pairs_unique(ls),
        forall|i: int| 0 <= i < ls.len() ==> link_ok(ns, #[trigger] ls[i]),
        ns.len() + 1 <= MAX_NEURONS,
        ls.len() + 2 <= MAX_LINKS,
        0 <= j < ls.len(),
        !has_neuron_id(ns, nid),
        nid < MAX_NEURON_ID,
    ensures
        ({
            let ns2 = ns.push((NeuronGene { id: nid, neuron_type: NeuronType::Hidden, activation: act }));
            let ls2 = ls.update(
                j,
                (LinkGene { from: ls[j].from, to: ls[j].to, weight: ls[j].weight, enabled: false }),
            ).push((LinkGene { from: ls[j].from, to: nid, weight: FP_SCALE, enabled: true })).push(
                (LinkGene { from: nid, to: ls[j].to, weight: ls[j].weight, enabled: true }),
            );
            &&& neuron_ids_unique(ns2)
            &&& forall|i: int| 0 <= i < ns2.len() ==> (#[trigger] ns2[i]).id < MAX_NEURON_ID
            &&& link_pairs_unique(ls2)
            &&& forall|i: int| 0 <= i < ls2.len() ==> link_ok(ns2, #[trigger] ls2[i])
        }),
{
    let ns2 = ns.push((NeuronGene { id: nid, neuron_type: NeuronType::Hidden, activation: act }));
    let ls1 = ls.update(
        j,
        (LinkGene { from: ls[j].from, to: ls[j].to, weight: ls[j].weight, enabled: false }),
    );
    let la = LinkGene { from: ls[j].from, to: nid, weight: FP_SCALE, enabled: true };
    let lb = LinkGene { from: nid, to: ls[j].to, weight: ls[j].weight, enabled: true };
    let ls2 = ls1.push(la).push(lb);
    assert forall|p: int, q: int|
        0 <= p < q < ns2.len() implies ns2[p].id != ns2[q].id by {
        if q < ns2.len() - 1 {
            assert(ns2[p] == ns[p] && ns2[q] == ns[q]);
        } else {
            assert(ns2[p] == ns[p]);
            if ns[p].id == nid {
                assert(has_neuron_id(ns, nid));
            }
        }
    }
    assert forall|i: int| 0 <= i < ns2.len() implies (#[trigger] ns2[i]).id < MAX_NEURON_ID by {
        if i < ns2.len() - 1 {
            assert(ns2[i] == ns[i]);
        }
    }
    assert forall|i: int| 0 <= i < ls.len() implies !((#[trigger] ls[i]).from == nid) && !(ls[i].to
        == nid) by {
        assert(link_ok(ns, ls[i]));
        if ls[i].from == nid || ls[i].to == nid {
            assert(has_neuron_id(ns, nid));
        }
    }
    assert forall|p: int, q: int|
        0 <= p < q < ls2.len() implies !(ls2[p].from == ls2[q].from && ls2[p].to == ls2[q].to) by {
        if q < ls.len() {
            assert(ls2[p].from == ls[p].from && ls2[p].to == ls[p].to);
            assert(ls2[q].from == ls[q].from && ls2[q].to == ls[q].to);
            assert(!(ls[p].from == ls[q].from && ls[p].to == ls[q].to));
        } else if q == ls.len() {
            assert(ls2[q] == la);
            assert(ls2[p].to == ls[p].to);
            assert(!(ls[p].to == nid));
        } else {
            assert(ls2[q] == lb);
            if p < ls.len() {
                assert(ls2[p].from == ls[p].from);
                assert(!(ls[p].from == nid));
            } else {
                assert(ls2[p] == la);
            }
        }
    }
    assert forall|i: int| 0 <= i < ls2.len() implies link_ok(ns2, #[trigger] ls2[i]) by {
        assert(ns2[ns2.len() - 1].id == nid);
        if i < ls.len() {
            assert(link_ok(ns, ls[i]));
            assert(ls2[i].from == ls[i].from && ls2[i].to == ls[i].to && ls2[i].weight
                == ls[i].weight);
            let jf = choose|k: int| 0 <= k < ns.len() && ns[k].id == ls[i].from;
            assert(ns2[jf].id == ls[i].from);
            let jt = choose|k: int| 0 <= k < ns.len() && ns[k].id == ls[i].to;
            assert(ns2[jt].id == ls[i].to);
        } else {
            assert(link_ok(ns, ls[j]));
            let jf = choose|k: int| 0 <= k < ns.len() && ns[k].id == ls[j].from;
            assert(ns2[jf].id == ls[j].from);
            let jt = choose|k: int| 0 <= k < ns.len() && ns[k].id == ls[j].to;
            assert(ns2[jt].id == ls[j].to);
        }
    }
}



/// Every link of `c` is homologous: its pair occurs in `a` or in `b`, and
/// its weight is exactly that parent's weight for the pair — crossover
/// never invents a weight.
pub open spec fn links_homologous(c: Seq<LinkGene>, a: Seq<LinkGene>, b: Seq<LinkGene>) -> bool {
    forall|q: int|
        0 <= q < c.len() ==> {
            let l = #[trigger] c[q];
            ||| (has_pair(a, l.from, l.to) && l.weight == weight_at(a, l.from, l.to))
            ||| (has_pair(b, l.from, l.to) && l.weight == weight_at(b, l.from, l.to))
        }
}

/// Every pair of `p` occurs in `c`.
pub open spec fn pairs_carried(p: Seq<LinkGene>, c: Seq<LinkGene>) -> bool {
    forall|q: int|
        0 <= q < p.len() ==> has_pair(c, (#[trigger] p[q]).from, p[q].to)
}

impl Genome {
    /// Breed a child by crossover. Links are aligned by their `(from,
    /// to)` identity: where both parents hold a pair the child inherits
    /// one parent's gene at random, weight and enabled flag together;
    /// pairs only the fitter parent holds are inherited unconditionally;
    /// pairs only the less fit parent holds are inherited, each with the
    /// configured probability, when the fitnesses are tied. A disabled
    /// inherited link is re-enabled with the configured probability. The
    /// child's neurons are the union of the neurons its links touch and
    /// both parents' non-hidden neurons; no new structure is created.
    #[verifier::rlimit(100)]
    #[verifier::spinoff_prover]
    pub fn crossover(a: &Genome, b: &Genome, child_id: u64, params: &Parameters) -> (r: Genome)
        requires
            a.wf(),
            b.wf(),
            params.wf(),
            a.link_genes@.len() + b.link_genes@.len() <= MAX_LINKS,
            a.neuron_genes@.len() + b.neuron_genes@.len() <= MAX_NEURONS,
        ensures
            r.wf(),
            r.id == child_id,
            r.num_inputs == a.num_inputs,
            r.num_outputs == a.num_outputs,
            r.fitness == 0 && r.adjusted_fitness == 0 && !r.evaluated,
            links_homologous(r.link_genes@, a.link_genes@, b.link_genes@),
            a.fitness >= b.fitness ==> pairs_carried(a.link_genes@, r.link_genes@),
            b.fitness > a.fitness ==> pairs_carried(b.link_genes@, r.link_genes@),
    {
        let tie = a.fitness == b.fitness;
        let a_primary = a.fitness >= b.fitness;
        let ghost prim = if a_primary {
            a.link_genes@
        } else {
            b.link_genes@
        };
        let mut links: Vec<LinkGene> = Vec::new();
        proof {
            cross_phase_lemma(a, b);
        }
        let pm = if a_primary {
            a.link_genes.len()
        } else {
            b.link_genes.len()
        };
        let mut i: usize = 0;
        while i < pm
            invariant
                a.wf(),
                b.wf(),
                params.wf(),
                a.link_genes@.len() + b.link_genes@.len() <= MAX_LINKS,
                prim == (if a_primary {
                    a.link_genes@
                } else {
                    b.link_genes@
                }),
                pm == prim.len(),
                0 <= i <= pm,
                links@.len() <= i,
                link_pairs_unique(links@),
                links_homologous(links@, a.link_genes@, b.link_genes@),
                forall|q: int| 0 <= q < i ==> has_pair(links@, (#[trigger] prim[q]).from, prim[q].to),
            decreases pm - i,
        {
            let pl = if a_primary {
                a.link_genes[i]
            } else {
                b.link_genes[i]
            };
            let other = if a_primary {
                &b.link_genes
            } else {
                &a.link_genes
            };
            let mut gene = pl;
            match find_link(other, pl.from, pl.to) {
                Some(k) => {
                    if Random::rand_int(2) == 0 {
                        gene = other[k];
                    }
                },
                None => {
                },
            }
            if !gene.enabled && Random::rand_unit() < params.reenable_rate {
                gene = LinkGene { from: gene.from, to: gene.to, weight: gene.weight, enabled: true };
            }
            let ghost pre = links@;
            if matches!(find_link(&links, gene.from, gene.to), None) {
                proof {
                    if a_primary {
                        lemma_weight_at(a.link_genes@, i as int);
                    } else {
                        lemma_weight_at(b.link_genes@, i as int);
                    }
                    cross_push_lemma(a, b, links@, gene);
                }
                links.push(gene);
            }
            proof {
                cross_carry_lemma(prim, pre, links@, i as int, gene);
            }
            i += 1;
        }
        if tie {
            let sm = if a_primary {
                b.link_genes.len()
            } else {
                a.link_genes.len()
            };
            let mut i: usize = 0;
            while i < sm
                invariant
                    a.wf(),
                    b.wf(),
                    params.wf(),
                    a.link_genes@.len() + b.link_genes@.len() <= MAX_LINKS,
                    sm == if a_primary {
                        b.link_genes@.len()
                    } else {
                        a.link_genes@.len()
                    },
                    0 <= i <= sm,
                    links@.len() <= a.link_genes@.len() + i,
                    prim == (if a_primary {
                        a.link_genes@
                    } else {
                        b.link_genes@
                    }),
                    link_pairs_unique(links@),
                    links_homologous(links@, a.link_genes@, b.link_genes@),
                    pairs_carried(prim, links@),
                decreases sm - i,
            {
                let sl = if a_primary {
                    b.link_genes[i]
                } else {
                    a.link_genes[i]
                };
                if Random::rand_unit() < params.tie_disjoint_rate {
                    let mut gene = sl;
                    if !gene.enabled && Random::rand_unit() < params.reenable_rate {
                        gene = LinkGene {
                            from: gene.from,
                            to: gene.to,
                            weight: gene.weight,
                            enabled: true,
                        };
                    }
                    let ghost pre = links@;
                    if matches!(find_link(&links, gene.from, gene.to), None) {
                        proof {
                            if a_primary {
                                lemma_weight_at(b.link_genes@, i as int);
                            } else {
                                lemma_weight_at(a.link_genes@, i as int);
                            }
                            cross_push_lemma(a, b, links@, gene);
                            cross_keep_lemma(prim, pre, gene);
                        }
                        links.push(gene);
                    }
                }
                i += 1;
            }
        }
        let mut neurons: Vec<NeuronGene> = Vec::new();
        cross_collect_neurons(&mut neurons, &a.neuron_genes, &links);
        let ghost mid = neurons@;
        cross_collect_neurons(&mut neurons, &b.neuron_genes, &links);
        proof {
            assert forall|q: int|
                0 <= q < a.neuron_genes@.len() && ((#[trigger] a.neuron_genes@[q]).neuron_type
                    != NeuronType::Hidden || has_pair_from(links@, a.neuron_genes@[q].id)
                    || has_pair_to(links@, a.neuron_genes@[q].id)) implies has_neuron_id(
                neurons@,
                a.neuron_genes@[q].id,
            ) by {
                assert(has_neuron_id(mid, a.neuron_genes@[q].id));
            }
            assert forall|q: int|
                0 <= q < links@.len() implies (has_pair_from(links@, (#[trigger] links@[q]).from)
                && has_pair_to(links@, links@[q].to)) by {
                assert(0 <= q < links@.len() && links@[q].from == links@[q].from);
            }
            cross_wf_lemma(a, b, neurons@, links@);
        }
        let n_neurons = neurons.len();
        let n_links = links.len();
        Genome {
            id: child_id,
            num_inputs: a.num_inputs,
            num_outputs: a.num_outputs,
            fitness: 0,
            adjusted_fitness: 0,
            depth: 0,
            offspring_amount: 0,
            neuron_genes: neurons,
            link_genes: links,
            genome_gene: None,
            evaluated: false,
            initial_num_neurons: n_neurons,
            initial_num_links: n_links,
            phenotype_behavior: None,
        }
    }
}

/// Trivial facts shared by the crossover phases.
proof fn cross_phase_lemma(a: &Genome, b: &Genome)
    ensures
        links_homologous(Seq::<LinkGene>::empty(), a.link_genes@, b.link_genes@),
        link_pairs_unique(Seq::<LinkGene>::empty()),
{
}

/// Pushing a homologous gene with an absent pair keeps uniqueness and
/// homology.
proof fn cross_push_lemma(a: &Genome, b: &Genome, ls: Seq<LinkGene>, gene: LinkGene)
    requires
        link_pairs_unique(ls),
        links_homologous(ls, a.link_genes@, b.link_genes@),
        !has_pair(ls, gene.from, gene.to),
        (has_pair(a.link_genes@, gene.from, gene.to) && gene.weight == weight_at(
            a.link_genes@,
            gene.from,
            gene.to,
        )) || (has_pair(b.link_genes@, gene.from, gene.to) && gene.weight == weight_at(
            b.link_genes@,
            gene.from,
            gene.to,
        )),
    ensures
        link_pairs_unique(ls.push(gene)),
        links_homologous(ls.push(gene), a.link_genes@, b.link_genes@),
{
    let t = ls.push(gene);
    assert forall|i: int, j: int|
        0 <= i < j < t.len() implies !(t[i].from == t[j].from && t[i].to == t[j].to) by {
        assert(t[i] == ls[i]);
        if j < t.len() - 1 {
            assert(t[j] == ls[j]);
        } else {
            if t[i].from == gene.from && t[i].to == gene.to {
                assert(has_pair(ls, gene.from, gene.to));
            }
        }
    }
    assert forall|q: int|
        0 <= q < t.len() implies {
        let l = #[trigger] t[q];
        ||| (has_pair(a.link_genes@, l.from, l.to) && l.weight == weight_at(
            a.link_genes@,
            l.from,
            l.to,
        ))
        ||| (has_pair(b.link_genes@, l.from, l.to) && l.weight == weight_at(
            b.link_genes@,
            l.from,
            l.to,
        ))
    } by {
        if q < t.len() - 1 {
            assert(t[q] == ls[q]);
        }
    }
}

/// After handling position `i` of the primary parent, its pair stands in
/// the child whether it was pushed now or found already present.
proof fn cross_carry_lemma(p: Seq<LinkGene>, pre: Seq<LinkGene>, cur: Seq<LinkGene>, i: int, gene: LinkGene)
    requires
        0 <= i < p.len(),
        gene.from == p[i].from && gene.to == p[i].to,
        cur == pre || cur == pre.push(gene),
        cur == pre ==> has_pair(pre, gene.from, gene.to),
        forall|q: int| 0 <= q < i ==> has_pair(pre, (#[trigger] p[q]).from, p[q].to),
    ensures
        forall|q: int| 0 <= q < i + 1 ==> has_pair(cur, (#[trigger] p[q]).from, p[q].to),
{
    assert forall|q: int| 0 <= q < i + 1 implies has_pair(cur, (#[trigger] p[q]).from, p[q].to) by {
        if q < i {
            let j = choose|j: int|
                0 <= j < pre.len() && pre[j].from == p[q].from && pre[j].to == p[q].to;
            assert(cur[j].from == p[q].from && cur[j].to == p[q].to);
        } else {
            if cur == pre {
                assert(has_pair(cur, gene.from, gene.to));
            } else {
                assert(cur[cur.len() - 1] == gene);
            }
        }
    }
}

/// Pushing one more gene keeps every already carried pair carried.
proof fn cross_keep_lemma(p: Seq<LinkGene>, pre: Seq<LinkGene>, gene: LinkGene)
    requires
        pairs_carried(p, pre),
    ensures
        pairs_carried(p, pre.push(gene)),
{
    assert forall|q: int|
        0 <= q < p.len() implies has_pair(pre.push(gene), (#[trigger] p[q]).from, p[q].to) by {
        let j = choose|j: int|
            0 <= j < pre.len() && pre[j].from == p[q].from && pre[j].to == p[q].to;
        assert(pre.push(gene)[j].from == p[q].from && pre.push(gene)[j].to == p[q].to);
    }
}

/// Append, to the child's neuron list, those neuron genes of a parent
/// that are not yet present and are wanted: non-hidden ones always,
/// hidden ones only when one of the child's links touches them.
fn cross_collect_neurons(
    neurons: &mut Vec<NeuronGene>,
    parent: &Vec<NeuronGene>,
    links: &Vec<LinkGene>,
)
    requires
        neuron_ids_unique(old(neurons)@),
        forall|q: int| 0 <= q < old(neurons)@.len() ==> (#[trigger] old(neurons)@[q]).id < MAX_NEURON_ID,
        neuron_ids_unique(parent@),
        forall|q: int| 0 <= q < parent@.len() ==> (#[trigger] parent@[q]).id < MAX_NEURON_ID,
        old(neurons)@.len() + parent@.len() <= MAX_NEURONS,
    ensures
        neuron_ids_unique(final(neurons)@),
        forall|q: int|
            0 <= q < final(neurons)@.len() ==> (#[trigger] final(neurons)@[q]).id < MAX_NEURON_ID,
        final(neurons)@.len() <= old(neurons)@.len() + parent@.len(),
        forall|id: u64| has_neuron_id(old(neurons)@, id) ==> has_neuron_id(final(neurons)@, id),
        forall|q: int|
            0 <= q < parent@.len() && ((#[trigger] parent@[q]).neuron_type != NeuronType::Hidden
                || has_pair_from(links@, parent@[q].id) || has_pair_to(links@, parent@[q].id))
                ==> has_neuron_id(final(neurons)@, parent@[q].id),
{
    let n = parent.len();
    let mut i: usize = 0;
    while i < n
        invariant
            n == parent@.len(),
            0 <= i <= n,
            neuron_ids_unique(neurons@),
            neuron_ids_unique(parent@),
            forall|q: int| 0 <= q < neurons@.len() ==> (#[trigger] neurons@[q]).id < MAX_NEURON_ID,
            forall|q: int| 0 <= q < parent@.len() ==> (#[trigger] parent@[q]).id < MAX_NEURON_ID,
            neurons@.len() <= old(neurons)@.len() + i,
            old(neurons)@.len() + parent@.len() <= MAX_NEURONS,
            forall|id: u64| has_neuron_id(old(neurons)@, id) ==> has_neuron_id(neurons@, id),
            forall|q: int|
                0 <= q < i && ((#[trigger] parent@[q]).neuron_type != NeuronType::Hidden
                    || has_pair_from(links@, parent@[q].id) || has_pair_to(links@, parent@[q].id))
                    ==> has_neuron_id(neurons@, parent@[q].id),
        decreases n - i,
    {
        let ng = parent[i];
        let wanted: bool = if matches!(ng.neuron_type, NeuronType::Hidden) {
            links_touch(links, ng.id)
        } else {
            true
        };
        let ghost pre = neurons@;
        if wanted && !contains_neuron(neurons, ng.id) {
            proof {
                assert forall|p2: int, q2: int|
                    0 <= p2 < q2 < pre.push(ng).len() implies pre.push(ng)[p2].id != pre.push(
                    ng,
                )[q2].id by {
                    assert(pre.push(ng)[p2] == pre[p2]);
                    if q2 < pre.len() {
                        assert(pre.push(ng)[q2] == pre[q2]);
                    } else {
                        if pre[p2].id == ng.id {
                            assert(has_neuron_id(pre, ng.id));
                        }
                    }
                }
            }
            neurons.push(ng);
        }
        proof {
            assert forall|id: u64|
                has_neuron_id(old(neurons)@, id) implies has_neuron_id(neurons@, id) by {
                let j = choose|j: int| 0 <= j < pre.len() && pre[j].id == id;
                assert(neurons@[j].id == id);
            }
            assert forall|q: int|
                0 <= q < i + 1 && ((#[trigger] parent@[q]).neuron_type != NeuronType::Hidden
                    || has_pair_from(links@, parent@[q].id) || has_pair_to(
                    links@,
                    parent@[q].id,
                )) implies has_neuron_id(neurons@, parent@[q].id) by {
                if q < i {
                    let j = choose|j: int| 0 <= j < pre.len() && pre[j].id == parent@[q].id;
                    assert(neurons@[j].id == parent@[q].id);
                } else {
                    if neurons@.len() > pre.len() {
                        assert(neurons@[neurons@.len() - 1].id == ng.id);
                    } else {
                        assert(has_neuron_id(pre, ng.id));
                        let j = choose|j: int| 0 <= j < pre.len() && pre[j].id == ng.id;
                        assert(neurons@[j].id == ng.id);
                    }
                }
            }
        }
        i += 1;
    }
}

/// Does some link of `ls` start at the id?
pub open spec fn has_pair_from(ls: Seq<LinkGene>, id: u64) -> bool {
    exists|j: int| 0 <= j < ls.len() && ls[j].from == id
}

/// Does some link of `ls` end at the id?
pub open spec fn has_pair_to(ls: Seq<LinkGene>, id: u64) -> bool {
    exists|j: int| 0 <= j < ls.len() && ls[j].to == id
}

/// Does some link of `ls` touch the id?
fn links_touch(ls: &Vec<LinkGene>, id: u64) -> (r: bool)
    ensures
        r == (has_pair_from(ls@, id) || has_pair_to(ls@, id)),
{
    let mut i: usize = 0;
    while i < ls.len()
        invariant
            0 <= i <= ls@.len(),
            forall|p: int| 0 <= p < i ==> ((#[trigger] ls@[p]).from != id && ls@[p].to != id),
        decreases ls@.len() - i,
    {
        if ls[i].from == id || ls[i].to == id {
            return true;
        }
        i += 1;
    }
    false
}

/// The collected neurons and links of a crossover child form a
/// well-formed genome: every link of the child stems from a parent whose
/// endpoints were collected by the hidden pass or the non-hidden pass.
proof fn cross_wf_lemma(a: &Genome, b: &Genome, ns: Seq<NeuronGene>, ls: Seq<LinkGene>)
    requires
        a.wf(),
        b.wf(),
        neuron_ids_unique(ns),
        forall|q: int| 0 <= q < ns.len() ==> (#[trigger] ns[q]).id < MAX_NEURON_ID,
        ns.len() <= MAX_NEURONS,
        ls.len() <= MAX_LINKS,
        link_pairs_unique(ls),
        links_homologous(ls, a.link_genes@, b.link_genes@),
        forall|q: int|
            0 <= q < ls.len() ==> (has_pair_from(ls, (#[trigger] ls[q]).from) && has_pair_to(
                ls,
                ls[q].to,
            )),
        forall|q: int|
            0 <= q < a.neuron_genes@.len() && ((#[trigger] a.neuron_genes@[q]).neuron_type
                != NeuronType::Hidden || has_pair_from(ls, a.neuron_genes@[q].id) || has_pair_to(
                ls,
                a.neuron_genes@[q].id,
            )) ==> has_neuron_id(ns, a.neuron_genes@[q].id),
        forall|q: int|
            0 <= q < b.neuron_genes@.len() && ((#[trigger] b.neuron_genes@[q]).neuron_type
                != NeuronType::Hidden || has_pair_from(ls, b.neuron_genes@[q].id) || has_pair_to(
                ls,
                b.neuron_genes@[q].id,
            )) ==> has_neuron_id(ns, b.neuron_genes@[q].id),
    ensures
        forall|q: int| 0 <= q < ls.len() ==> link_ok(ns, #[trigger] ls[q]),
{
    assert forall|q: int| 0 <= q < ls.len() implies link_ok(ns, #[trigger] ls[q]) by {
        let l = ls[q];
        assert(has_pair_from(ls, l.from));
        assert(has_pair_to(ls, l.to));
        if has_pair(a.link_genes@, l.from, l.to) && l.weight == weight_at(
            a.link_genes@,
            l.from,
            l.to,
        ) {
            let j = choose|j: int|
                0 <= j < a.link_genes@.len() && a.link_genes@[j].from == l.from
                    && a.link_genes@[j].to == l.to;
            assert(link_ok(a.neuron_genes@, a.link_genes@[j]));
            let qf = choose|k: int|
                0 <= k < a.neuron_genes@.len() && a.neuron_genes@[k].id == l.from;
            assert(has_neuron_id(ns, a.neuron_genes@[qf].id));
            let qt = choose|k: int| 0 <= k < a.neuron_genes@.len() && a.neuron_genes@[k].id == l.to;
            assert(has_neuron_id(ns, a.neuron_genes@[qt].id));
            lemma_weight_at(a.link_genes@, j);
        } else {
            let j = choose|j: int|
                0 <= j < b.link_genes@.len() && b.link_genes@[j].from == l.from
                    && b.link_genes@[j].to == l.to;
            assert(link_ok(b.neuron_genes@, b.link_genes@[j]));
            let qf = choose|k: int|
                0 <= k < b.neuron_genes@.len() && b.neuron_genes@[k].id == l.from;
            assert(has_neuron_id(ns, b.neuron_genes@[qf].id));
            let qt = choose|k: int| 0 <= k < b.neuron_genes@.len() && b.neuron_genes@[k].id == l.to;
            assert(has_neuron_id(ns, b.neuron_genes@[qt].id));
            lemma_weight_at(b.link_genes@, j);
        }
    }
}


} // verus!
