use neat::fixed::{clamp_value, fp_mul};
use neat::genome::{
    ActivationFunction, Genome, GenomeInitStruct, GenomeSeedType, LinkGene, NeuronGene, NeuronType,
};
use neat::innovation::InnovationTracker;
use neat::network::{act_apply, build_phenotype};
use neat::parameters::Parameters;
use neat::population::{allocate_offspring, Population};
use neat::random::Random;
use neat::species::distance;
use neat::{NeatError, FP_SCALE};

fn neuron(id: u64, t: NeuronType, act: ActivationFunction) -> NeuronGene {
    NeuronGene {
        id,
        neuron_type: t,
        activation: act,
    }
}

fn link(from: u64, to: u64, weight: i64, enabled: bool) -> LinkGene {
    LinkGene {
        from,
        to,
        weight,
        enabled,
    }
}

fn genome_with(neurons: Vec<NeuronGene>, links: Vec<LinkGene>) -> Genome {
    let mut g = Genome::default();
    g.num_inputs = neurons
        .iter()
        .filter(|n| matches!(n.neuron_type, NeuronType::Input))
        .count();
    g.num_outputs = neurons
        .iter()
        .filter(|n| matches!(n.neuron_type, NeuronType::Output))
        .count();
    g.neuron_genes = neurons;
    g.link_genes = links;
    g
}

/// Two inputs feeding one linear output with opposite weights cancel out.
#[test]
fn linear_sum_cancels() {
    let g = genome_with(
        vec![
            neuron(1, NeuronType::Input, ActivationFunction::Linear),
            neuron(2, NeuronType::Input, ActivationFunction::Linear),
            neuron(3, NeuronType::Output, ActivationFunction::Linear),
        ],
        vec![link(1, 3, 500, true), link(2, 3, -500, true)],
    );
    let params = Parameters::new();
    let mut net = build_phenotype(&g, &params).unwrap();
    let out = net.activate(&vec![1000, 1000]);
    assert_eq!(out, vec![0]);
}

/// Repeated activation of a feed-forward network is deterministic.
#[test]
fn activation_deterministic() {
    let g = genome_with(
        vec![
            neuron(1, NeuronType::Input, ActivationFunction::Linear),
            neuron(2, NeuronType::Input, ActivationFunction::Linear),
            neuron(3, NeuronType::Output, ActivationFunction::Sigmoid),
        ],
        vec![link(1, 3, 700, true), link(2, 3, -300, true)],
    );
    let params = Parameters::new();
    let mut net = build_phenotype(&g, &params).unwrap();
    let a = net.activate(&vec![1000, 500]);
    net.reset();
    let b = net.activate(&vec![1000, 500]);
    assert_eq!(a, b);
}

/// Splitting a linear link preserves the path's contribution.
#[test]
fn split_link_preserves_linear_path() {
    let mut g = genome_with(
        vec![
            neuron(1, NeuronType::Input, ActivationFunction::Linear),
            neuron(3, NeuronType::Output, ActivationFunction::Linear),
        ],
        vec![link(1, 3, 500, true)],
    );
    let mut params = Parameters::new();
    params.hidden_activation = ActivationFunction::Linear;
    let mut tracker = InnovationTracker::new(4);
    let before = {
        let mut net = build_phenotype(&g, &params).unwrap();
        net.activate(&vec![1000])[0]
    };
    assert_eq!(before, 500);
    let nid = g.mutate_add_neuron(&mut tracker, &params).unwrap();
    assert_eq!(nid, 4);
    assert_eq!(g.link_genes.len(), 3);
    assert!(!g.link_genes[0].enabled);
    assert_eq!((g.link_genes[1].from, g.link_genes[1].to), (1, 4));
    assert_eq!(g.link_genes[1].weight, FP_SCALE);
    assert_eq!((g.link_genes[2].from, g.link_genes[2].to), (4, 3));
    assert_eq!(g.link_genes[2].weight, 500);
    let after = {
        let mut net = build_phenotype(&g, &params).unwrap();
        net.activate(&vec![1000])[0]
    };
    assert_eq!(after, before);
}

/// Crossover never invents a weight: every child link carries one
/// parent's weight for its pair.
#[test]
fn crossover_homologous_weights() {
    let ns = vec![
        neuron(1, NeuronType::Input, ActivationFunction::Linear),
        neuron(2, NeuronType::Output, ActivationFunction::Linear),
        neuron(3, NeuronType::Hidden, ActivationFunction::Linear),
    ];
    let mut a = genome_with(ns.clone(), vec![link(1, 2, 100, true), link(1, 3, 300, true)]);
    let mut b = genome_with(ns.clone(), vec![link(1, 2, -200, true)]);
    a.fitness = 500;
    b.fitness = 400;
    let params = Parameters::new();
    for _ in 0..10 {
        let child = Genome::crossover(&a, &b, 9, &params);
        for l in &child.link_genes {
            let wa = a
                .link_genes
                .iter()
                .find(|x| x.from == l.from && x.to == l.to)
                .map(|x| x.weight);
            let wb = b
                .link_genes
                .iter()
                .find(|x| x.from == l.from && x.to == l.to)
                .map(|x| x.weight);
            assert!(wa == Some(l.weight) || wb == Some(l.weight));
        }
        // the fitter parent's pairs all carry over
        for l in &a.link_genes {
            assert!(child
                .link_genes
                .iter()
                .any(|x| x.from == l.from && x.to == l.to));
        }
    }
}

/// The compatibility distance is symmetric and zero on itself.
#[test]
fn distance_symmetric_and_self_zero() {
    let ns = vec![
        neuron(1, NeuronType::Input, ActivationFunction::Linear),
        neuron(2, NeuronType::Output, ActivationFunction::Linear),
        neuron(3, NeuronType::Hidden, ActivationFunction::Linear),
    ];
    let a = genome_with(ns.clone(), vec![link(1, 2, 100, true), link(1, 3, 300, true)]);
    let b = genome_with(ns.clone(), vec![link(1, 2, -200, true), link(3, 2, 50, true)]);
    let params = Parameters::new();
    assert_eq!(
        distance(&a, &b, &params),
        distance(&b, &a, &params)
    );
    assert_eq!(distance(&a, &a, &params), 0);
    assert_eq!(distance(&b, &b, &params), 0);
    assert!(distance(&a, &b, &params) > 0);
}

/// Offspring allocation conserves the population size exactly.
#[test]
fn allocation_conserves_population() {
    let r = allocate_offspring(&vec![3000, 1000], 10);
    assert_eq!(r.iter().sum::<usize>(), 10);
    let r = allocate_offspring(&vec![1, 1, 1], 100);
    assert_eq!(r.iter().sum::<usize>(), 100);
    let r = allocate_offspring(&vec![0, 0], 7);
    assert_eq!(r.iter().sum::<usize>(), 7);
    let r = allocate_offspring(&vec![5, 0, 2, 93], 17);
    assert_eq!(r.iter().sum::<usize>(), 17);
}

/// A one-genome population with all mutation off reproduces its genome
/// structurally unchanged.
#[test]
fn minimal_population_is_stable() {
    let mut params = Parameters::new();
    params.population_size = 1;
    params.mutation_rate = 0;
    params.crossover_rate = 0;
    params.add_link_rate = 0;
    params.add_neuron_rate = 0;
    params.toggle_rate = 0;
    params.elitism_count = 1;
    let init = GenomeInitStruct {
        num_inputs: 2,
        num_hidden: 0,
        num_outputs: 1,
        fs_neat: false,
        output_act_type: ActivationFunction::Linear,
        hidden_act_type: ActivationFunction::Linear,
        seed_type: GenomeSeedType::Perceptron,
        num_layers: 1,
        fs_neat_links: 0,
    };
    let mut pop = Population::new(params, &init);
    let before: Vec<(u64, u64, i64, bool)> = pop.genomes[0]
        .link_genes
        .iter()
        .map(|l| (l.from, l.to, l.weight, l.enabled))
        .collect();
    let before_neurons: Vec<u64> = pop.genomes[0].neuron_genes.iter().map(|n| n.id).collect();
    pop.set_fitness(0, 1000);
    pop.epoch().unwrap();
    assert_eq!(pop.generation, 1);
    assert_eq!(pop.genomes.len(), 1);
    let after: Vec<(u64, u64, i64, bool)> = pop.genomes[0]
        .link_genes
        .iter()
        .map(|l| (l.from, l.to, l.weight, l.enabled))
        .collect();
    let after_neurons: Vec<u64> = pop.genomes[0].neuron_genes.iter().map(|n| n.id).collect();
    assert_eq!(before, after);
    assert_eq!(before_neurons, after_neurons);
}

/// The perceptron seed fully connects inputs to outputs.
#[test]
fn perceptron_seed_shape() {
    let init = GenomeInitStruct {
        num_inputs: 3,
        num_hidden: 0,
        num_outputs: 2,
        fs_neat: false,
        output_act_type: ActivationFunction::Sigmoid,
        hidden_act_type: ActivationFunction::Sigmoid,
        seed_type: GenomeSeedType::Perceptron,
        num_layers: 1,
        fs_neat_links: 0,
    };
    let g = Genome::new(7, &init);
    assert_eq!(g.id, 7);
    assert_eq!(g.neuron_genes.len(), 5);
    assert_eq!(g.link_genes.len(), 6);
    for a in 0..3u64 {
        for b in 3..5u64 {
            assert!(g.link_genes.iter().any(|l| l.from == a && l.to == b));
        }
    }
    assert!(g.check_valid());
}

/// The innovation tracker hands the same id to the same descriptor and
/// fresh ids to new ones.
#[test]
fn innovation_ids_are_stable() {
    let mut t = InnovationTracker::new(100);
    let a = t.get_or_create_link(1, 3);
    let b = t.get_or_create_link(2, 3);
    let a2 = t.get_or_create_link(1, 3);
    assert_eq!(a, a2);
    assert_ne!(a, b);
    let n1 = t.get_or_create_neuron(1, 3);
    let n2 = t.get_or_create_neuron(1, 3);
    assert_eq!(n1, n2);
    assert_eq!(n1, 100);
}

/// A dangling link endpoint is rejected as malformed; a cycle is
/// rejected while recurrence is disabled and accepted when enabled.
#[test]
fn build_errors() {
    let params = Parameters::new();
    let bad = genome_with(
        vec![neuron(1, NeuronType::Input, ActivationFunction::Linear)],
        vec![link(1, 9, 100, true)],
    );
    assert_eq!(
        build_phenotype(&bad, &params).err(),
        Some(NeatError::MalformedGenome)
    );
    let cyc = genome_with(
        vec![
            neuron(1, NeuronType::Input, ActivationFunction::Linear),
            neuron(2, NeuronType::Hidden, ActivationFunction::Linear),
            neuron(3, NeuronType::Hidden, ActivationFunction::Linear),
            neuron(4, NeuronType::Output, ActivationFunction::Linear),
        ],
        vec![
            link(1, 2, 100, true),
            link(2, 3, 100, true),
            link(3, 2, 100, true),
            link(3, 4, 100, true),
        ],
    );
    assert_eq!(
        build_phenotype(&cyc, &params).err(),
        Some(NeatError::BuildCycleUnsupported)
    );
    let mut rec = params.clone();
    rec.allow_recurrent = true;
    let net = build_phenotype(&cyc, &rec).unwrap();
    assert!(net.recurrent);
}

/// Splitting is impossible without an enabled link.
#[test]
fn add_neuron_needs_enabled_link() {
    let mut g = genome_with(
        vec![
            neuron(1, NeuronType::Input, ActivationFunction::Linear),
            neuron(2, NeuronType::Output, ActivationFunction::Linear),
        ],
        vec![link(1, 2, 100, false)],
    );
    let params = Parameters::new();
    let mut tracker = InnovationTracker::new(10);
    assert_eq!(
        g.mutate_add_neuron(&mut tracker, &params).err(),
        Some(NeatError::MutationExhausted)
    );
    assert_eq!(g.link_genes.len(), 1);
}

/// The add-link mutation appends exactly one fresh enabled pair.
#[test]
fn add_link_adds_fresh_pair() {
    let mut g = genome_with(
        vec![
            neuron(1, NeuronType::Input, ActivationFunction::Linear),
            neuron(2, NeuronType::Input, ActivationFunction::Linear),
            neuron(3, NeuronType::Output, ActivationFunction::Linear),
        ],
        vec![link(1, 3, 100, true)],
    );
    let params = Parameters::new();
    let mut tracker = InnovationTracker::new(10);
    match g.mutate_add_link(&mut tracker, &params) {
        Ok(_) => {
            assert_eq!(g.link_genes.len(), 2);
            let l = g.link_genes[1];
            assert!(l.enabled);
            assert!(!(l.from == 1 && l.to == 3));
        }
        Err(e) => assert_eq!(e, NeatError::MutationExhausted),
    }
}

/// Fixed-point activation: the rational sigmoid is one half at zero,
/// relu clips negatives, clamping and products are exact.
#[test]
fn fixed_point_activations() {
    assert_eq!(act_apply(ActivationFunction::Sigmoid, 0), 500);
    assert_eq!(act_apply(ActivationFunction::Relu, -700), 0);
    assert_eq!(act_apply(ActivationFunction::Relu, 700), 700);
    assert_eq!(act_apply(ActivationFunction::Linear, -123), -123);
    assert_eq!(act_apply(ActivationFunction::Tanh, 0), 0);
    assert!(act_apply(ActivationFunction::Tanh, 1000000) < 1000);
    assert_eq!(fp_mul(FP_SCALE, 12345), 12345);
    assert_eq!(fp_mul(500, 1000), 500);
    assert_eq!(fp_mul(-500, 1000), -500);
    assert_eq!(clamp_value(2000000), 1000000);
    assert_eq!(clamp_value(-2000000), -1000000);
}

/// Random draws respect their stated ranges.
#[test]
fn random_ranges() {
    for _ in 0..100 {
        assert!(Random::rand_int(5) < 5);
        let u = Random::rand_unit();
        assert!((0..FP_SCALE).contains(&u));
        let w = Random::rand_range(300);
        assert!((-300..=300).contains(&w));
    }
    assert_eq!(Random::rand_int(1), 0);
}

/// Speciation partitions the whole population.
#[test]
fn speciation_partitions() {
    let mut params = Parameters::new();
    params.population_size = 12;
    let init = GenomeInitStruct {
        num_inputs: 2,
        num_hidden: 0,
        num_outputs: 1,
        fs_neat: false,
        output_act_type: ActivationFunction::Sigmoid,
        hidden_act_type: ActivationFunction::Sigmoid,
        seed_type: GenomeSeedType::Perceptron,
        num_layers: 1,
        fs_neat_links: 0,
    };
    let mut pop = Population::new(params, &init);
    pop.speciate();
    let mut seen = vec![false; 12];
    for sp in &pop.species {
        assert!(!sp.members.is_empty());
        for &m in &sp.members {
            assert!(m < 12);
            assert!(!seen[m], "a genome was assigned twice");
            seen[m] = true;
        }
    }
    assert!(seen.iter().all(|&b| b));
}

/// A whole generation conserves the population size and resets the
/// evaluation state.
#[test]
fn epoch_conserves_population() {
    let mut params = Parameters::new();
    params.population_size = 20;
    let init = GenomeInitStruct {
        num_inputs: 3,
        num_hidden: 0,
        num_outputs: 2,
        fs_neat: false,
        output_act_type: ActivationFunction::Sigmoid,
        hidden_act_type: ActivationFunction::Sigmoid,
        seed_type: GenomeSeedType::Perceptron,
        num_layers: 1,
        fs_neat_links: 0,
    };
    let mut pop = Population::new(params, &init);
    for gen in 0..3u64 {
        for i in 0..20 {
            let f = (i as i64 + 1) * 100;
            pop.set_fitness(i, f);
        }
        pop.epoch().unwrap();
        assert_eq!(pop.generation, gen + 1);
        assert_eq!(pop.genomes.len(), 20);
        assert!(pop.genomes.iter().all(|g| !g.evaluated && g.fitness == 0));
        assert!(pop.genomes.iter().all(|g| g.check_valid()));
    }
}
