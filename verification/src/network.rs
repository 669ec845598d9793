//! The phenotype: an executable network derived from a genome snapshot.
//! Feed-forward networks are evaluated once along a topological order;
//! cyclic networks are relaxed over a fixed number of passes, neuron values
//! persisting across calls until reset.

use vstd::prelude::*;

use crate::fixed::{
    clamp_spec, clamp_value, div_trunc, div_trunc_exec, fp_mul, fp_mul_spec, lemma_fp_mul_term_cap,
    TERM_CAP,
};
use crate::genome::{ActivationFunction, Genome, LinkGene, NeuronGene, NeuronType};
use crate::parameters::Parameters;
use crate::{FP_HALF, FP_SCALE, MAX_LINKS, MAX_NEURONS, NeatError, VALUE_CAP, WEIGHT_CAP};
use vstd::arithmetic::div_mod::lemma_multiply_divide_lt;

verus! {

/// A value cell of the phenotype; its tags are copied from the genome's
/// neuron gene of the same position.
#[derive(Clone, Copy, Debug, PartialEq, Eq, Structural)]
pub struct Neuron {
    pub id: u64,
    /// Current activation value, fixed-point, always inside
    /// `[-VALUE_CAP, VALUE_CAP]`.
    pub value: i64,
    pub neuron_type: NeuronType,
    pub activation: ActivationFunction,
}

/// A connection of the phenotype, copied from an enabled link gene.
#[derive(Clone, Copy, Debug, PartialEq, Eq, Structural)]
pub struct Link {
    pub from: u64,
    pub to: u64,
    /// Fixed-point weight.
    pub weight: i64,
    pub enabled: bool,
}

/// The expressed network: value cells, weighted connections resolved to
/// neuron positions, and an evaluation order.
pub struct NeuralNetwork {
    pub neurons: Vec<Neuron>,
    pub links: Vec<Link>,
    /// Position, in `neurons`, of each link's source.
    pub link_from_idx: Vec<usize>,
    /// Position, in `neurons`, of each link's target.
    pub link_to_idx: Vec<usize>,
    /// Positions of the input neurons, in genome order.
    pub input_indices: Vec<usize>,
    /// Positions of the output neurons, in genome order.
    pub output_indices: Vec<usize>,
    /// Evaluation order over the hidden and output neurons.
    pub order: Vec<usize>,
    /// Whether the enabled-link graph is cyclic and the network is
    /// evaluated by relaxation instead of a single topological pass.
    pub recurrent: bool,
    /// Relaxation passes per presentation for a cyclic network.
    pub passes: usize,
}

/// Magnitude of an integer.
pub open spec fn abs_int(x: int) -> int {
    if x < 0 {
        -x
    } else {
        x
    }
}

/// The activation functions over fixed-point values. `Sigmoid` and `Tanh`
/// are the exact rational (hard-limit) forms `1/2 + x/(2(1+|x|))` and
/// `x/(1+|x|)`, which integer arithmetic evaluates bit-for-bit
/// reproducibly.
pub open spec fn act_spec(f: ActivationFunction, x: int) -> int {
    match f {
        ActivationFunction::Linear => x,
        ActivationFunction::Relu => if x < 0 {
            0
        } else {
            x
        },
        ActivationFunction::Sigmoid => FP_HALF as int + div_trunc(
            FP_SCALE as int * x,
            2 * (FP_SCALE as int + abs_int(x)),
        ),
        ActivationFunction::Tanh => div_trunc(
            FP_SCALE as int * x,
            FP_SCALE as int + abs_int(x),
        ),
    }
}

/// Quotients stay below any multiple that exceeds the dividend.
proof fn lemma_div_lt(p: int, q: int, c: int)
    requires
        0 <= p,
        0 < q,
        0 < c,
        p < c * q,
    ensures
        p / q < c,
{
    assert(p < q * c) by (nonlinear_arith)
        requires
            p < c * q,
    ;
    lemma_multiply_divide_lt(p, q, c);
}

/// The activation band: every activation of a clamped sum lies inside
/// `[-VALUE_CAP, VALUE_CAP]`.
pub proof fn lemma_act_in_band(f: ActivationFunction, x: int)
    requires
        -(VALUE_CAP as int) <= x <= VALUE_CAP as int,
    ensures
        -(VALUE_CAP as int) <= act_spec(f, x) <= VALUE_CAP as int,
{
    match f {
        ActivationFunction::Linear => {
        }
        ActivationFunction::Relu => {
        }
        ActivationFunction::Sigmoid => {
            let num = FP_SCALE as int * abs_int(x);
            let den = 2 * (FP_SCALE as int + abs_int(x));
            assert(num < 500 * den);
            lemma_div_lt(num, den, 500);
            lemma_div_trunc_sym(FP_SCALE as int * x, den);
        }
        ActivationFunction::Tanh => {
            let num = FP_SCALE as int * abs_int(x);
            let den = FP_SCALE as int + abs_int(x);
            assert(num < 1000 * den);
            lemma_div_lt(num, den, 1000);
            lemma_div_trunc_sym(FP_SCALE as int * x, den);
        }
    }
}

/// Truncating division of `p` and of `-p` give opposite values, and the
/// magnitude of the quotient is the quotient of the magnitude.
proof fn lemma_div_trunc_sym(p: int, q: int)
    requires
        0 < q,
    ensures
        div_trunc(p, q) == if p >= 0 {
            abs_int(p) / q
        } else {
            -(abs_int(p) / q)
        },
        abs_int(div_trunc(p, q)) == abs_int(p) / q,
{
    vstd::arithmetic::div_mod::lemma_div_pos_is_pos(abs_int(p), q);
}

/// Executable activation.
pub fn act_apply(f: ActivationFunction, x: i64) -> (r: i64)
    requires
        -VALUE_CAP <= x <= VALUE_CAP,
    ensures
        r as int == act_spec(f, x as int),
        -VALUE_CAP <= r <= VALUE_CAP,
{
    proof {
        lemma_act_in_band(f, x as int);
    }
    match f {
        ActivationFunction::Linear => x,
        ActivationFunction::Relu => if x < 0 {
            0
        } else {
            x
        },
        ActivationFunction::Sigmoid => {
            let ax: i64 = if x < 0 {
                -x
            } else {
                x
            };
            let q = div_trunc_exec(FP_SCALE * x, 2 * (FP_SCALE + ax));
            FP_HALF + q
        }
        ActivationFunction::Tanh => {
            let ax: i64 = if x < 0 {
                -x
            } else {
                x
            };
            div_trunc_exec(FP_SCALE * x, FP_SCALE + ax)
        }
    }
}

/// Contribution of link `l` to its target's weighted input, given the
/// value sequence `values`.
pub open spec fn link_contrib(
    links: Seq<Link>,
    fidx: Seq<usize>,
    tidx: Seq<usize>,
    values: Seq<int>,
    n: int,
    l: int,
) -> int {
    if tidx[l] as int == n && links[l].enabled {
        fp_mul_spec(links[l].weight as int, values[fidx[l] as int])
    } else {
        0
    }
}

/// Weighted input of neuron `n`: the sum of the contributions of the
/// first `k` links.
pub open spec fn incoming_sum(
    links: Seq<Link>,
    fidx: Seq<usize>,
    tidx: Seq<usize>,
    values: Seq<int>,
    n: int,
    k: int,
) -> int
    decreases k,
{
    if k <= 0 {
        0
    } else {
        incoming_sum(links, fidx, tidx, values, n, k - 1) + link_contrib(
            links,
            fidx,
            tidx,
            values,
            n,
            k - 1,
        )
    }
}

impl NeuralNetwork {
    /// The current value of every neuron, as mathematical integers.
    pub open spec fn values(self) -> Seq<int> {
        self.neurons@.map(|i: int, n: Neuron| n.value as int)
    }

    /// Is the neuron at position `n` evaluated (hidden or output)?
    pub open spec fn orderable_at(self, n: int) -> bool {
        self.neurons@[n].neuron_type == NeuronType::Hidden || self.neurons@[n].neuron_type
            == NeuronType::Output
    }

    /// One link of the network is internally consistent.
    pub open spec fn link_wf_at(self, l: int) -> bool {
        &&& self.link_from_idx@[l] < self.neurons@.len()
        &&& self.link_to_idx@[l] < self.neurons@.len()
        &&& -WEIGHT_CAP <= self.links@[l].weight <= WEIGHT_CAP
        &&& self.neurons@[self.link_from_idx@[l] as int].id == self.links@[l].from
        &&& self.neurons@[self.link_to_idx@[l] as int].id == self.links@[l].to
    }

    /// The network invariant: resolved links, in-range indices, an order
    /// over hidden/output neurons, and every value inside the band.
    pub open spec fn wf(self) -> bool {
        &&& self.neurons@.len() <= MAX_NEURONS
        &&& self.links@.len() <= MAX_LINKS
        &&& self.link_from_idx@.len() == self.links@.len()
        &&& self.link_to_idx@.len() == self.links@.len()
        &&& forall|l: int| 0 <= l < self.links@.len() ==> self.link_wf_at(l)
        &&& forall|i: int|
            0 <= i < self.input_indices@.len() ==> ((#[trigger] self.input_indices@[i]) as int)
                < self.neurons@.len()
        &&& forall|i: int|
            0 <= i < self.output_indices@.len() ==> ((#[trigger] self.output_indices@[i]) as int)
                < self.neurons@.len()
        &&& forall|k: int|
            0 <= k < self.order@.len() ==> ((#[trigger] self.order@[k]) as int)
                < self.neurons@.len() && self.orderable_at(self.order@[k] as int)
        &&& forall|i: int|
            0 <= i < self.neurons@.len() ==> -VALUE_CAP <= (#[trigger] self.neurons@[i]).value
                <= VALUE_CAP
        &&& 1 <= self.passes <= 64
    }

    /// The two networks have the same structure; only neuron values may
    /// differ.
    pub open spec fn same_structure(self, other: NeuralNetwork) -> bool {
        &&& self.neurons@.len() == other.neurons@.len()
        &&& forall|i: int|
            0 <= i < self.neurons@.len() ==> (#[trigger] self.neurons@[i]).id == other.neurons@[i].id
                && self.neurons@[i].neuron_type == other.neurons@[i].neuron_type
                && self.neurons@[i].activation == other.neurons@[i].activation
        &&& self.links@ == other.links@
        &&& self.link_from_idx@ == other.link_from_idx@
        &&& self.link_to_idx@ == other.link_to_idx@
        &&& self.input_indices@ == other.input_indices@
        &&& self.output_indices@ == other.output_indices@
        &&& self.order@ == other.order@
        &&& self.recurrent == other.recurrent
        &&& self.passes == other.passes
    }
}

/// A network with the structure of a well-formed one and in-band values
/// is well formed itself.
pub proof fn lemma_wf_from_structure(a: NeuralNetwork, b: NeuralNetwork)
    requires
        a.wf(),
        b.same_structure(a),
        forall|i: int|
            0 <= i < b.neurons@.len() ==> -VALUE_CAP <= (#[trigger] b.neurons@[i]).value
                <= VALUE_CAP,
    ensures
        b.wf(),
{
    assert forall|l: int| 0 <= l < b.links@.len() implies b.link_wf_at(l) by {
        assert(a.link_wf_at(l));
        assert(b.neurons@[b.link_from_idx@[l] as int].id == a.neurons@[a.link_from_idx@[l]
            as int].id);
        assert(b.neurons@[b.link_to_idx@[l] as int].id == a.neurons@[a.link_to_idx@[l] as int].id);
    }
    assert forall|k: int|
        0 <= k < b.order@.len() implies ((#[trigger] b.order@[k]) as int) < b.neurons@.len()
        && b.orderable_at(b.order@[k] as int) by {
        assert(((a.order@[k]) as int) < a.neurons@.len() && a.orderable_at(a.order@[k] as int));
        assert(b.neurons@[b.order@[k] as int].neuron_type == a.neurons@[a.order@[k]
            as int].neuron_type);
    }
}

/// The value sequence after evaluating neuron `n` of `net` once: its
/// clamped weighted input fed through its activation function.
pub open spec fn neuron_step(net: NeuralNetwork, values: Seq<int>, n: int) -> Seq<int> {
    let s = incoming_sum(
        net.links@,
        net.link_from_idx@,
        net.link_to_idx@,
        values,
        n,
        net.links@.len() as int,
    );
    values.update(n, act_spec(net.neurons@[n].activation, clamp_spec(s)))
}

/// The value sequence after evaluating the first `k` neurons of `net`'s
/// order, in order.
pub open spec fn run_order(net: NeuralNetwork, values: Seq<int>, k: int) -> Seq<int>
    decreases k,
{
    if k <= 0 {
        values
    } else {
        neuron_step(net, run_order(net, values, k - 1), net.order@[k - 1] as int)
    }
}

/// The value sequence after `p` full passes over `net`'s order.
pub open spec fn run_passes(net: NeuralNetwork, values: Seq<int>, p: int) -> Seq<int>
    decreases p,
{
    if p <= 0 {
        values
    } else {
        run_order(net, run_passes(net, values, p - 1), net.order@.len() as int)
    }
}

/// The value sequence after writing the first `k` inputs into their input
/// positions.
pub open spec fn write_inputs(values: Seq<int>, idxs: Seq<usize>, inputs: Seq<i64>, k: int) -> Seq<
    int,
>
    decreases k,
{
    if k <= 0 {
        values
    } else {
        write_inputs(values, idxs, inputs, k - 1).update(idxs[k - 1] as int, inputs[k - 1] as int)
    }
}

/// The complete evaluation of one input presentation: inputs written,
/// then one topological pass for a feed-forward network or the configured
/// number of relaxation passes for a cyclic one. This function of the
/// network state and the inputs alone is what `activate` computes.
pub open spec fn spec_activate_values(net: NeuralNetwork, inputs: Seq<i64>) -> Seq<int> {
    run_passes(
        net,
        write_inputs(net.values(), net.input_indices@, inputs, net.input_indices@.len() as int),
        if net.recurrent {
            net.passes as int
        } else {
            1
        },
    )
}

/// Repeated evaluation is deterministic: equal network states and equal
/// inputs yield equal value sequences, hence equal outputs.
pub proof fn lemma_activate_deterministic(
    a: NeuralNetwork,
    b: NeuralNetwork,
    x: Seq<i64>,
    y: Seq<i64>,
)
    requires
        a == b,
        x == y,
    ensures
        spec_activate_values(a, x) == spec_activate_values(b, y),
{
}

/// All value sequences produced by evaluation stay inside the band and
/// keep their length.
pub proof fn lemma_run_order_wf(net: NeuralNetwork, values: Seq<int>, k: int)
    requires
        net.wf(),
        values.len() == net.neurons@.len(),
        forall|i: int| 0 <= i < values.len() ==> -VALUE_CAP <= #[trigger] values[i] <= VALUE_CAP,
        0 <= k <= net.order@.len(),
    ensures
        run_order(net, values, k).len() == values.len(),
        forall|i: int|
            0 <= i < values.len() ==> -VALUE_CAP <= #[trigger] run_order(net, values, k)[i]
                <= VALUE_CAP,
    decreases k,
{
    if k > 0 {
        lemma_run_order_wf(net, values, k - 1);
        let prev = run_order(net, values, k - 1);
        let n = net.order@[k - 1] as int;
        let s = incoming_sum(
            net.links@,
            net.link_from_idx@,
            net.link_to_idx@,
            prev,
            n,
            net.links@.len() as int,
        );
        lemma_act_in_band(net.neurons@[n].activation, clamp_spec(s));
    }
}

impl NeuralNetwork {
    /// The weighted input currently arriving at neuron `n`.
    fn weighted_input(&self, n: usize) -> (r: i64)
        requires
            self.wf(),
            n < self.neurons@.len(),
        ensures
            r as int == incoming_sum(
                self.links@,
                self.link_from_idx@,
                self.link_to_idx@,
                self.values(),
                n as int,
                self.links@.len() as int,
            ),
    {
        let m = self.links.len();
        let mut acc: i64 = 0;
        let mut l: usize = 0;
        while l < m
            invariant
                self.wf(),
                n < self.neurons@.len(),
                m == self.links@.len(),
                0 <= l <= m,
                acc as int == incoming_sum(
                    self.links@,
                    self.link_from_idx@,
                    self.link_to_idx@,
                    self.values(),
                    n as int,
                    l as int,
                ),
                -(l as int) * (TERM_CAP as int) <= acc as int <= (l as int) * (TERM_CAP as int),
            decreases m - l,
        {
            proof {
                assert(self.link_wf_at(l as int));
            }
            if self.link_to_idx[l] == n && self.links[l].enabled {
                let f = self.link_from_idx[l];
                proof {
                    lemma_fp_mul_term_cap(
                        self.links@[l as int].weight as int,
                        self.values()[f as int],
                    );
                }
                let term = fp_mul(self.links[l].weight, self.neurons[f].value);
                acc = acc + term;
            } else {
            }
            proof {
                assert((l + 1) as int * (TERM_CAP as int) == (l as int) * (TERM_CAP as int)
                    + TERM_CAP as int);
            }
            l += 1;
        }
        acc
    }

    /// Feed one input presentation through the network and return the
    /// output neuron values, in genome order. Neuron values persist
    /// across calls, so a cyclic network carries state between
    /// presentations until `reset`.
    pub fn activate(&mut self, inputs: &Vec<i64>) -> (r: Vec<i64>)
        requires
            old(self).wf(),
            inputs@.len() == old(self).input_indices@.len(),
            forall|i: int|
                0 <= i < inputs@.len() ==> -VALUE_CAP <= #[trigger] inputs@[i] <= VALUE_CAP,
        ensures
            final(self).wf(),
            final(self).same_structure(*old(self)),
            final(self).values() == spec_activate_values(*old(self), inputs@),
            r@.len() == old(self).output_indices@.len(),
            forall|i: int|
                0 <= i < r@.len() ==> #[trigger] r@[i] as int == final(self).values()[old(
                    self,
                ).output_indices@[i] as int],
    {
        let ghost net0 = *old(self);
        let nin = inputs.len();
        let mut i: usize = 0;
        while i < nin
            invariant
                net0.wf(),
                self.wf(),
                self.same_structure(net0),
                nin == inputs@.len(),
                nin == self.input_indices@.len(),
                0 <= i <= nin,
                forall|k: int|
                    0 <= k < inputs@.len() ==> -VALUE_CAP <= #[trigger] inputs@[k] <= VALUE_CAP,
                self.values() == write_inputs(net0.values(), net0.input_indices@, inputs@, i as int),
            decreases nin - i,
        {
            let idx = self.input_indices[i];
            let ghost before = *self;
            let mut cell = self.neurons[idx];
            cell.value = inputs[i];
            self.neurons[idx] = cell;
            proof {
                assert forall|q: int|
                    0 <= q < self.neurons@.len() implies -VALUE_CAP <= (
                #[trigger] self.neurons@[q]).value <= VALUE_CAP by {
                    if q != idx as int {
                        assert(self.neurons@[q] == before.neurons@[q]);
                    }
                }
                assert forall|q: int|
                    0 <= q < self.neurons@.len() implies (#[trigger] self.neurons@[q]).id
                    == net0.neurons@[q].id && self.neurons@[q].neuron_type
                    == net0.neurons@[q].neuron_type && self.neurons@[q].activation
                    == net0.neurons@[q].activation by {
                    if q != idx as int {
                        assert(self.neurons@[q] == before.neurons@[q]);
                    }
                }
                lemma_wf_from_structure(net0, *self);
                assert(self.values() =~= before.values().update(
                    idx as int,
                    inputs@[i as int] as int,
                ));
                assert(self.values() =~= write_inputs(
                    net0.values(),
                    net0.input_indices@,
                    inputs@,
                    i + 1 as int,
                ));
            }
            i += 1;
        }
        let ghost v_in = write_inputs(
            net0.values(),
            net0.input_indices@,
            inputs@,
            net0.input_indices@.len() as int,
        );
        let rounds: usize = if self.recurrent {
            self.passes
        } else {
            1
        };
        let mut p: usize = 0;
        while p < rounds
            invariant
                net0.wf(),
                self.wf(),
                self.same_structure(net0),
                0 <= p <= rounds,
                rounds == if net0.recurrent {
                    net0.passes as int
                } else {
                    1
                },
                self.values() == run_passes(net0, v_in, p as int),
            decreases rounds - p,
        {
            let ghost v_ps = self.values();
            let nord = self.order.len();
            let mut k: usize = 0;
            while k < nord
                invariant
                    net0.wf(),
                    self.wf(),
                    self.same_structure(net0),
                    nord == self.order@.len(),
                    v_ps.len() == self.neurons@.len(),
                    forall|q: int|
                        0 <= q < v_ps.len() ==> -VALUE_CAP <= #[trigger] v_ps[q] <= VALUE_CAP,
                    0 <= k <= nord,
                    self.values() == run_order(net0, v_ps, k as int),
                decreases nord - k,
            {
                let n = self.order[k];
                let s = self.weighted_input(n);
                let v = act_apply(self.neurons[n].activation, clamp_value(s));
                let ghost before = *self;
                let mut cell = self.neurons[n];
                cell.value = v;
                self.neurons[n] = cell;
                proof {
                    assert forall|q: int|
                        0 <= q < self.neurons@.len() implies -VALUE_CAP <= (
                    #[trigger] self.neurons@[q]).value <= VALUE_CAP by {
                        if q != n as int {
                            assert(self.neurons@[q] == before.neurons@[q]);
                        }
                    }
                    assert forall|q: int|
                        0 <= q < self.neurons@.len() implies (#[trigger] self.neurons@[q]).id
                        == net0.neurons@[q].id && self.neurons@[q].neuron_type
                        == net0.neurons@[q].neuron_type && self.neurons@[q].activation
                        == net0.neurons@[q].activation by {
                        if q != n as int {
                            assert(self.neurons@[q] == before.neurons@[q]);
                        }
                    }
                    lemma_wf_from_structure(net0, *self);
                    assert(before.values() == run_order(net0, v_ps, k as int));
                    assert(s as int == incoming_sum(
                        net0.links@,
                        net0.link_from_idx@,
                        net0.link_to_idx@,
                        run_order(net0, v_ps, k as int),
                        n as int,
                        net0.links@.len() as int,
                    ));
                    assert(before.neurons@[n as int].activation == net0.neurons@[n
                        as int].activation);
                    assert(self.values() =~= before.values().update(n as int, v as int));
                    assert(self.values() =~= neuron_step(
                        net0,
                        run_order(net0, v_ps, k as int),
                        net0.order@[k as int] as int,
                    ));
                }
                k += 1;
            }
            p += 1;
        }
        let nout = self.output_indices.len();
        let mut out: Vec<i64> = Vec::new();
        let mut i: usize = 0;
        while i < nout
            invariant
                net0.wf(),
                self.wf(),
                self.same_structure(net0),
                nout == self.output_indices@.len(),
                0 <= i <= nout,
                out@.len() == i,
                forall|q: int|
                    0 <= q < i ==> #[trigger] out@[q] as int == self.values()[self.output_indices@[q]
                        as int],
                self.values() == run_passes(net0, v_in, if net0.recurrent {
                    net0.passes as int
                } else {
                    1
                }),
            decreases nout - i,
        {
            let idx = self.output_indices[i];
            out.push(self.neurons[idx].value);
            i += 1;
        }
        out
    }

    /// Clear the evaluation state: every neuron value returns to its
    /// build-time starting point, `FP_SCALE` for bias neurons and zero
    /// for all others.
    pub fn reset(&mut self)
        requires
            old(self).wf(),
        ensures
            final(self).wf(),
            final(self).same_structure(*old(self)),
            forall|i: int|
                0 <= i < final(self).neurons@.len() ==> (#[trigger] final(self).neurons@[i]).value
                    == (if final(self).neurons@[i].neuron_type == NeuronType::Bias {
                    FP_SCALE
                } else {
                    0
                }),
    {
        let ghost net0 = *old(self);
        let n = self.neurons.len();
        let mut i: usize = 0;
        while i < n
            invariant
                net0.wf(),
                self.wf(),
                self.same_structure(net0),
                n == self.neurons@.len(),
                0 <= i <= n,
                forall|q: int|
                    0 <= q < i ==> (#[trigger] self.neurons@[q]).value == (
                    if self.neurons@[q].neuron_type == NeuronType::Bias {
                        FP_SCALE
                    } else {
                        0
                    }),
            decreases n - i,
        {
            let ghost before = *self;
            let mut cell = self.neurons[i];
            if matches!(cell.neuron_type, NeuronType::Bias) {
                cell.value = FP_SCALE;
            } else {
                cell.value = 0;
            }
            self.neurons[i] = cell;
            proof {
                assert forall|q: int|
                    0 <= q < self.neurons@.len() implies -VALUE_CAP <= (
                #[trigger] self.neurons@[q]).value <= VALUE_CAP by {
                    if q != i as int {
                        assert(self.neurons@[q] == before.neurons@[q]);
                    }
                }
                assert forall|q: int|
                    0 <= q < self.neurons@.len() implies (#[trigger] self.neurons@[q]).id
                    == net0.neurons@[q].id && self.neurons@[q].neuron_type
                    == net0.neurons@[q].neuron_type && self.neurons@[q].activation
                    == net0.neurons@[q].activation by {
                    if q != i as int {
                        assert(self.neurons@[q] == before.neurons@[q]);
                    }
                }
                lemma_wf_from_structure(net0, *self);
            }
            i += 1;
        }
    }
}


/// The network image of a link gene.
pub open spec fn to_link(l: LinkGene) -> Link {
    Link { from: l.from, to: l.to, weight: l.weight, enabled: true }
}

/// The enabled links of a gene list, in order.
pub open spec fn enabled_links(ls: Seq<LinkGene>) -> Seq<Link>
    decreases ls.len(),
{
    if ls.len() == 0 {
        Seq::empty()
    } else {
        let prev = enabled_links(ls.drop_last());
        if ls.last().enabled {
            prev.push(to_link(ls.last()))
        } else {
            prev
        }
    }
}

/// There are at most as many enabled links as links.
pub proof fn lemma_enabled_links_len(ls: Seq<LinkGene>)
    ensures
        enabled_links(ls).len() <= ls.len(),
    decreases ls.len(),
{
    if ls.len() > 0 {
        lemma_enabled_links_len(ls.drop_last());
    }
}

/// Every enabled link stems from an enabled link gene.
pub proof fn lemma_enabled_links_member(ls: Seq<LinkGene>, l: int)
    requires
        0 <= l < enabled_links(ls).len(),
    ensures
        exists|j: int|
            0 <= j < ls.len() && ls[j].enabled && to_link(ls[j]) == enabled_links(ls)[l],
    decreases ls.len(),
{
    let prev = enabled_links(ls.drop_last());
    if ls.last().enabled && l == prev.len() {
        assert(ls[ls.len() - 1].enabled && to_link(ls[ls.len() - 1]) == enabled_links(ls)[l]);
    } else {
        lemma_enabled_links_member(ls.drop_last(), l);
        let j = choose|j: int|
            0 <= j < ls.drop_last().len() && ls.drop_last()[j].enabled && to_link(
                ls.drop_last()[j],
            ) == enabled_links(ls.drop_last())[l];
        assert(ls[j].enabled && to_link(ls[j]) == enabled_links(ls)[l]);
    }
}

/// Positions, in order, of the neuron genes with role `t`.
pub open spec fn indices_with_type(ns: Seq<NeuronGene>, t: NeuronType) -> Seq<usize>
    decreases ns.len(),
{
    if ns.len() == 0 {
        Seq::empty()
    } else {
        let prev = indices_with_type(ns.drop_last(), t);
        if ns.last().neuron_type == t {
            prev.push((ns.len() - 1) as usize)
        } else {
            prev
        }
    }
}

/// Every such position is in range and carries the role.
pub proof fn lemma_indices_with_type(ns: Seq<NeuronGene>, t: NeuronType)
    requires
        ns.len() <= usize::MAX,
    ensures
        forall|i: int|
            0 <= i < indices_with_type(ns, t).len() ==> ((#[trigger] indices_with_type(ns, t)[i])
                as int) < ns.len() && ns[indices_with_type(ns, t)[i] as int].neuron_type == t,
    decreases ns.len(),
{
    if ns.len() > 0 {
        lemma_indices_with_type(ns.drop_last(), t);
        assert forall|i: int|
            0 <= i < indices_with_type(ns, t).len() implies ((#[trigger] indices_with_type(ns, t)[i])
            as int) < ns.len() && ns[indices_with_type(ns, t)[i] as int].neuron_type == t by {
            let prev = indices_with_type(ns.drop_last(), t);
            if i < prev.len() {
                assert(((prev[i]) as int) < ns.drop_last().len() && ns.drop_last()[prev[i]
                    as int].neuron_type == t);
                assert(indices_with_type(ns, t)[i] == prev[i]);
                assert(ns.drop_last()[prev[i] as int] == ns[prev[i] as int]);
            } else {
                assert(ns.last().neuron_type == t);
                assert(indices_with_type(ns, t)[i] == (ns.len() - 1) as usize);
            }
        }
    }
}

/// Is the neuron at position `n` a hidden or output neuron?
pub open spec fn net_orderable(ns: Seq<Neuron>, n: int) -> bool {
    ns[n].neuron_type == NeuronType::Hidden || ns[n].neuron_type == NeuronType::Output
}

/// Is the neuron gene at position `n` a hidden or output neuron?
pub open spec fn genome_orderable(g: Genome, n: int) -> bool {
    g.neuron_genes@[n].neuron_type == NeuronType::Hidden || g.neuron_genes@[n].neuron_type
        == NeuronType::Output
}

/// The link arrays agree in length and all positions are in range.
pub open spec fn arrays_ok(
    neurons: Seq<Neuron>,
    links: Seq<Link>,
    fidx: Seq<usize>,
    tidx: Seq<usize>,
) -> bool {
    &&& fidx.len() == links.len()
    &&& tidx.len() == links.len()
    &&& forall|l: int|
        0 <= l < links.len() ==> ((#[trigger] fidx[l]) as int) < neurons.len() && ((tidx[l] as int)
            < neurons.len())
}

/// Every enabled link into `n` from a hidden or output neuron comes from
/// a placed one.
pub open spec fn preds_placed_spec(
    links: Seq<Link>,
    fidx: Seq<usize>,
    tidx: Seq<usize>,
    ns: Seq<Neuron>,
    placed: Seq<bool>,
    n: int,
) -> bool {
    forall|l: int|
        0 <= l < links.len() && (#[trigger] links[l]).enabled && tidx[l] as int == n
            && net_orderable(ns, fidx[l] as int) ==> placed[fidx[l] as int]
}

/// No unplaced hidden or output neuron is ready: each still has an
/// unplaced predecessor of its own kind. A nonempty unplaced set of this
/// shape certifies a cycle in the enabled-link graph.
pub open spec fn sweep_stuck(
    links: Seq<Link>,
    fidx: Seq<usize>,
    tidx: Seq<usize>,
    ns: Seq<Neuron>,
    placed: Seq<bool>,
) -> bool {
    forall|n: int|
        0 <= n < ns.len() && net_orderable(ns, n) && !(#[trigger] placed[n]) ==> !preds_placed_spec(
            links,
            fidx,
            tidx,
            ns,
            placed,
            n,
        )
}

/// The order holds only in-range hidden/output positions, each once.
pub open spec fn order_ok(ns: Seq<Neuron>, order: Seq<usize>) -> bool {
    &&& forall|k: int|
        0 <= k < order.len() ==> ((#[trigger] order[k]) as int) < ns.len() && net_orderable(
            ns,
            order[k] as int,
        )
    &&& forall|k1: int, k2: int| 0 <= k1 < k2 < order.len() ==> order[k1] != order[k2]
}

/// Every hidden/output predecessor of a neuron stands earlier in the
/// order than the neuron itself.
pub open spec fn order_topological(
    ns: Seq<Neuron>,
    links: Seq<Link>,
    fidx: Seq<usize>,
    tidx: Seq<usize>,
    order: Seq<usize>,
) -> bool {
    forall|k: int, l: int|
        0 <= k < order.len() && 0 <= l < links.len() && (#[trigger] links[l]).enabled && tidx[l]
            == (#[trigger] order[k]) && net_orderable(ns, fidx[l] as int) ==> exists|k2: int|
            0 <= k2 < k && order[k2] == fidx[l]
}

/// A neuron is placed exactly when it stands in the order.
pub open spec fn order_matches_placed(placed: Seq<bool>, order: Seq<usize>) -> bool {
    forall|n: int| 0 <= n < placed.len() ==> ((#[trigger] placed[n]) <==> order.contains(n as usize))
}

/// Some enabled link gene reaches the neuron gene at position `n` from a
/// hidden or output neuron gene that the marker sequence also marks.
pub open spec fn genome_blocking_link(g: Genome, marked: Seq<bool>, n: int) -> bool {
    exists|l: int, m: int|
        #![trigger g.link_genes@[l], g.neuron_genes@[m]]
        0 <= l < g.link_genes@.len() && 0 <= m < g.neuron_genes@.len() && g.link_genes@[l].enabled
            && g.link_genes@[l].to == g.neuron_genes@[n].id && g.link_genes@[l].from
            == g.neuron_genes@[m].id && genome_orderable(g, m) && marked[m]
}

/// A cycle certificate at genome level: a nonempty set of hidden/output
/// neuron positions, each the target of an enabled link whose source is
/// also in the set. No topological order can exist over such a set.
pub open spec fn genome_cycle_witness(g: Genome, unplaced: Seq<bool>) -> bool {
    &&& unplaced.len() == g.neuron_genes@.len()
    &&& exists|n: int|
        0 <= n < g.neuron_genes@.len() && unplaced[n] && genome_orderable(g, n)
    &&& forall|n: int|
        0 <= n < g.neuron_genes@.len() && (#[trigger] unplaced[n]) && genome_orderable(g, n)
            ==> genome_blocking_link(g, unplaced, n)
}

/// Number of true entries of a marker sequence.
pub open spec fn count_true(s: Seq<bool>) -> int
    decreases s.len(),
{
    if s.len() == 0 {
        0
    } else {
        count_true(s.drop_last()) + (if s.last() {
            1int
        } else {
            0int
        })
    }
}

proof fn lemma_count_true_le(s: Seq<bool>)
    ensures
        0 <= count_true(s) <= s.len(),
    decreases s.len(),
{
    if s.len() > 0 {
        lemma_count_true_le(s.drop_last());
    }
}

proof fn lemma_count_true_lt(s: Seq<bool>, v: int)
    requires
        0 <= v < s.len(),
        !s[v],
    ensures
        count_true(s) < s.len(),
    decreases s.len(),
{
    if v == s.len() - 1 {
        lemma_count_true_le(s.drop_last());
    } else {
        lemma_count_true_lt(s.drop_last(), v);
    }
}

proof fn lemma_count_true_update(s: Seq<bool>, i: int)
    requires
        0 <= i < s.len(),
        !s[i],
    ensures
        count_true(s.update(i, true)) == count_true(s) + 1,
    decreases s.len(),
{
    let t = s.update(i, true);
    if i == s.len() - 1 {
        assert(t.drop_last() =~= s.drop_last());
    } else {
        assert(t.drop_last() =~= s.drop_last().update(i, true));
        lemma_count_true_update(s.drop_last(), i);
        assert(t.last() == s.last());
    }
}

proof fn lemma_contains_push(s: Seq<usize>, v: usize, x: usize)
    ensures
        s.push(v).contains(x) <==> (s.contains(x) || x == v),
{
    if s.contains(x) {
        let k = choose|k: int| 0 <= k < s.len() && s[k] == x;
        assert(s.push(v)[k] == x);
    }
    if x == v {
        assert(s.push(v)[s.len() as int] == x);
    }
    if s.push(v).contains(x) {
        let k = choose|k: int| 0 <= k < s.push(v).len() && s.push(v)[k] == x;
        if k < s.len() {
            assert(s[k] == x);
        }
    }
}

/// Is the neuron's role hidden or output?
fn is_orderable(t: NeuronType) -> (r: bool)
    ensures
        r == (t == NeuronType::Hidden || t == NeuronType::Output),
{
    match t {
        NeuronType::Hidden => true,
        NeuronType::Output => true,
        NeuronType::Input => false,
        NeuronType::Bias => false,
    }
}

/// Are all hidden/output predecessors of `v` placed?
fn preds_placed(
    links: &Vec<Link>,
    fidx: &Vec<usize>,
    tidx: &Vec<usize>,
    neurons: &Vec<Neuron>,
    placed: &Vec<bool>,
    v: usize,
) -> (r: bool)
    requires
        arrays_ok(neurons@, links@, fidx@, tidx@),
        placed@.len() == neurons@.len(),
        (v as int) < neurons@.len(),
    ensures
        r == preds_placed_spec(links@, fidx@, tidx@, neurons@, placed@, v as int),
{
    let m = links.len();
    let mut l: usize = 0;
    while l < m
        invariant
            arrays_ok(neurons@, links@, fidx@, tidx@),
            placed@.len() == neurons@.len(),
            (v as int) < neurons@.len(),
            m == links@.len(),
            0 <= l <= m,
            forall|p: int|
                0 <= p < l && (#[trigger] links@[p]).enabled && tidx@[p] as int == v as int
                    && net_orderable(neurons@, fidx@[p] as int) ==> placed@[fidx@[p] as int],
        decreases m - l,
    {
        if links[l].enabled && tidx[l] == v {
            let f = fidx[l];
            if is_orderable(neurons[f].neuron_type) && !placed[f] {
                return false;
            }
        }
        l += 1;
    }
    true
}

/// Resolve the position of the neuron with a given id.
fn index_of_neuron(neurons: &Vec<Neuron>, id: u64) -> (r: usize)
    requires
        exists|j: int| 0 <= j < neurons@.len() && neurons@[j].id == id,
    ensures
        (r as int) < neurons@.len(),
        neurons@[r as int].id == id,
{
    let n = neurons.len();
    let mut i: usize = 0;
    while i < n
        invariant
            exists|j: int| 0 <= j < neurons@.len() && neurons@[j].id == id,
            n == neurons@.len(),
            0 <= i <= n,
            forall|p: int| 0 <= p < i ==> (#[trigger] neurons@[p]).id != id,
        decreases n - i,
    {
        if neurons[i].id == id {
            return i;
        }
        i += 1;
    }
    proof {
        assert(false);
    }
    0
}

/// Repeatedly place every hidden/output neuron whose placed predecessors
/// allow it, until a full sweep places nothing. The resulting order is
/// topological over the placed neurons; whatever remains unplaced is
/// stuck on a cycle.
fn compute_order(
    neurons: &Vec<Neuron>,
    links: &Vec<Link>,
    fidx: &Vec<usize>,
    tidx: &Vec<usize>,
) -> (r: (Vec<usize>, Vec<bool>))
    requires
        arrays_ok(neurons@, links@, fidx@, tidx@),
    ensures
        r.1@.len() == neurons@.len(),
        order_ok(neurons@, r.0@),
        order_topological(neurons@, links@, fidx@, tidx@, r.0@),
        order_matches_placed(r.1@, r.0@),
        sweep_stuck(links@, fidx@, tidx@, neurons@, r.1@),
{
    let n = neurons.len();
    let mut placed: Vec<bool> = Vec::new();
    let mut i: usize = 0;
    while i < n
        invariant
            0 <= i <= n,
            placed@.len() == i,
            forall|p: int| 0 <= p < i ==> !(#[trigger] placed@[p]),
        decreases n - i,
    {
        placed.push(false);
        i += 1;
    }
    let mut order: Vec<usize> = Vec::new();
    proof {
        assert(count_true(placed@) == 0) by {
            lemma_count_true_zero(placed@);
        }
    }
    loop
        invariant
            arrays_ok(neurons@, links@, fidx@, tidx@),
            n == neurons@.len(),
            placed@.len() == n,
            order@.len() == count_true(placed@),
            order@.len() <= n,
            order_ok(neurons@, order@),
            order_topological(neurons@, links@, fidx@, tidx@, order@),
            order_matches_placed(placed@, order@),
        ensures
            placed@.len() == n,
            order_ok(neurons@, order@),
            order_topological(neurons@, links@, fidx@, tidx@, order@),
            order_matches_placed(placed@, order@),
            sweep_stuck(links@, fidx@, tidx@, neurons@, placed@),
        decreases n - order@.len(),
    {
        proof {
            lemma_count_true_le(placed@);
        }
        let ghost olen = order@.len();
        let mut progress = false;
        let mut v: usize = 0;
        while v < n
            invariant
                arrays_ok(neurons@, links@, fidx@, tidx@),
                n == neurons@.len(),
                placed@.len() == n,
                0 <= v <= n,
                order@.len() == count_true(placed@),
                order_ok(neurons@, order@),
                order_topological(neurons@, links@, fidx@, tidx@, order@),
                order_matches_placed(placed@, order@),
                progress ==> order@.len() > olen,
                !progress ==> order@.len() == olen,
                !progress ==> forall|p: int|
                    0 <= p < v && net_orderable(neurons@, p) && !(#[trigger] placed@[p])
                        ==> !preds_placed_spec(links@, fidx@, tidx@, neurons@, placed@, p),
            decreases n - v,
        {
            if is_orderable(neurons[v].neuron_type) && !placed[v] {
                if preds_placed(links, fidx, tidx, neurons, &placed, v) {
                    let ghost old_placed = placed@;
                    let ghost old_order = order@;
                    proof {
                        lemma_count_true_lt(placed@, v as int);
                        lemma_count_true_update(placed@, v as int);
                    }
                    order.push(v);
                    placed[v] = true;
                    progress = true;
                    proof {
                        assert forall|n2: int|
                            0 <= n2 < placed@.len() implies ((#[trigger] placed@[n2])
                            <==> order@.contains(n2 as usize)) by {
                            lemma_contains_push(old_order, v, n2 as usize);
                            if n2 != v as int {
                                assert(placed@[n2] == old_placed[n2]);
                            }
                        }
                        assert forall|k: int, l: int|
                            0 <= k < order@.len() && 0 <= l < links@.len() && (
                        #[trigger] links@[l]).enabled && tidx@[l] == (#[trigger] order@[k])
                            && net_orderable(neurons@, fidx@[l] as int) implies exists|k2: int|
                            0 <= k2 < k && order@[k2] == fidx@[l] by {
                            if k < old_order.len() {
                                assert(order@[k] == old_order[k]);
                                let k2 = choose|k2: int| 0 <= k2 < k && old_order[k2] == fidx@[l];
                                assert(order@[k2] == fidx@[l]);
                            } else {
                                assert(order@[k] == v);
                                assert(old_placed[fidx@[l] as int]);
                                assert(old_order.contains(fidx@[l]));
                                let k2 = choose|k2: int|
                                    0 <= k2 < old_order.len() && old_order[k2] == fidx@[l];
                                assert(order@[k2] == fidx@[l]);
                            }
                        }
                    }
                }
            }
            v += 1;
        }
        proof {
            lemma_count_true_le(placed@);
        }
        if !progress {
            break;
        }
    }
    (order, placed)
}

proof fn lemma_count_true_zero(s: Seq<bool>)
    requires
        forall|p: int| 0 <= p < s.len() ==> !(#[trigger] s[p]),
    ensures
        count_true(s) == 0,
    decreases s.len(),
{
    if s.len() > 0 {
        lemma_count_true_zero(s.drop_last());
    }
}



impl NeuralNetwork {
    /// The network expresses the genome: neurons copied in position, the
    /// enabled links resolved, input and output positions in genome order.
    pub open spec fn matches_genome(self, g: Genome) -> bool {
        &&& self.neurons@.len() == g.neuron_genes@.len()
        &&& forall|i: int|
            0 <= i < g.neuron_genes@.len() ==> ((#[trigger] self.neurons@[i]).id
                == g.neuron_genes@[i].id && self.neurons@[i].neuron_type
                == g.neuron_genes@[i].neuron_type && self.neurons@[i].activation
                == g.neuron_genes@[i].activation)
        &&& self.links@ == enabled_links(g.link_genes@)
        &&& self.input_indices@ == indices_with_type(g.neuron_genes@, NeuronType::Input)
        &&& self.output_indices@ == indices_with_type(g.neuron_genes@, NeuronType::Output)
    }
}

/// Copy a genome's neurons and enabled links into network arrays; the
/// evaluation order is left empty for the caller to fill.
#[verifier::rlimit(30)]
fn build_parts(g: &Genome, passes: usize) -> (net: NeuralNetwork)
    requires
        g.wf(),
        1 <= passes <= 64,
    ensures
        net.wf(),
        net.matches_genome(*g),
        net.order@.len() == 0,
        net.recurrent == false,
        net.passes == passes,
        arrays_ok(net.neurons@, net.links@, net.link_from_idx@, net.link_to_idx@),
        forall|i: int|
            0 <= i < net.neurons@.len() ==> (#[trigger] net.neurons@[i]).value == (
            if net.neurons@[i].neuron_type == NeuronType::Bias {
                FP_SCALE
            } else {
                0
            }),
{
    let gn = g.neuron_genes.len();
    let mut neurons: Vec<Neuron> = Vec::new();
    let mut input_indices: Vec<usize> = Vec::new();
    let mut output_indices: Vec<usize> = Vec::new();
    let mut i: usize = 0;
    while i < gn
        invariant
            g.wf(),
            gn == g.neuron_genes@.len(),
            0 <= i <= gn,
            neurons@.len() == i,
            forall|q: int|
                0 <= q < i ==> ((#[trigger] neurons@[q]).id == g.neuron_genes@[q].id
                    && neurons@[q].neuron_type == g.neuron_genes@[q].neuron_type
                    && neurons@[q].activation == g.neuron_genes@[q].activation),
            forall|q: int|
                0 <= q < i ==> (#[trigger] neurons@[q]).value == (
                if neurons@[q].neuron_type == NeuronType::Bias {
                    FP_SCALE
                } else {
                    0
                }),
            input_indices@ == indices_with_type(
                g.neuron_genes@.subrange(0, i as int),
                NeuronType::Input,
            ),
            output_indices@ == indices_with_type(
                g.neuron_genes@.subrange(0, i as int),
                NeuronType::Output,
            ),
        decreases gn - i,
    {
        let ng = g.neuron_genes[i];
        let value: i64 = if matches!(ng.neuron_type, NeuronType::Bias) {
            FP_SCALE
        } else {
            0
        };
        neurons.push(
            Neuron { id: ng.id, value, neuron_type: ng.neuron_type, activation: ng.activation },
        );
        if matches!(ng.neuron_type, NeuronType::Input) {
            input_indices.push(i);
        }
        if matches!(ng.neuron_type, NeuronType::Output) {
            output_indices.push(i);
        }
        proof {
            let pre = g.neuron_genes@.subrange(0, i as int);
            let cur = g.neuron_genes@.subrange(0, i + 1 as int);
            assert(cur.drop_last() =~= pre);
            assert(cur.last() == g.neuron_genes@[i as int]);
        }
        i += 1;
    }
    proof {
        assert(g.neuron_genes@.subrange(0, gn as int) =~= g.neuron_genes@);
    }
    let gm = g.link_genes.len();
    let mut links: Vec<Link> = Vec::new();
    let mut lf: Vec<usize> = Vec::new();
    let mut lt: Vec<usize> = Vec::new();
    let mut l: usize = 0;
    while l < gm
        invariant
            g.wf(),
            gm == g.link_genes@.len(),
            gn == g.neuron_genes@.len(),
            0 <= l <= gm,
            neurons@.len() == gn,
            forall|q: int|
                0 <= q < gn ==> ((#[trigger] neurons@[q]).id == g.neuron_genes@[q].id
                    && neurons@[q].neuron_type == g.neuron_genes@[q].neuron_type
                    && neurons@[q].activation == g.neuron_genes@[q].activation),
            links@ == enabled_links(g.link_genes@.subrange(0, l as int)),
            lf@.len() == links@.len(),
            lt@.len() == links@.len(),
            forall|p: int|
                0 <= p < links@.len() ==> (((#[trigger] lf@[p]) as int) < gn && ((lt@[p] as int)
                    < gn) && neurons@[lf@[p] as int].id == links@[p].from && neurons@[lt@[p]
                    as int].id == links@[p].to && -WEIGHT_CAP <= links@[p].weight <= WEIGHT_CAP
                    && links@[p].enabled),
        decreases gm - l,
    {
        let lg = g.link_genes[l];
        if lg.enabled {
            proof {
                assert(crate::genome::link_ok(g.neuron_genes@, g.link_genes@[l as int]));
                let jf = choose|j: int|
                    0 <= j < g.neuron_genes@.len() && g.neuron_genes@[j].id == lg.from;
                assert(neurons@[jf].id == lg.from);
                let jt = choose|j: int|
                    0 <= j < g.neuron_genes@.len() && g.neuron_genes@[j].id == lg.to;
                assert(neurons@[jt].id == lg.to);
            }
            let fi = index_of_neuron(&neurons, lg.from);
            let ti = index_of_neuron(&neurons, lg.to);
            links.push(Link { from: lg.from, to: lg.to, weight: lg.weight, enabled: true });
            lf.push(fi);
            lt.push(ti);
        }
        proof {
            let pre = g.link_genes@.subrange(0, l as int);
            let cur = g.link_genes@.subrange(0, l + 1 as int);
            assert(cur.drop_last() =~= pre);
            assert(cur.last() == g.link_genes@[l as int]);
        }
        l += 1;
    }
    proof {
        assert(g.link_genes@.subrange(0, gm as int) =~= g.link_genes@);
        lemma_enabled_links_len(g.link_genes@);
        lemma_indices_with_type(g.neuron_genes@, NeuronType::Input);
        lemma_indices_with_type(g.neuron_genes@, NeuronType::Output);
    }
    NeuralNetwork {
        neurons,
        links,
        link_from_idx: lf,
        link_to_idx: lt,
        input_indices,
        output_indices,
        order: Vec::new(),
        recurrent: false,
        passes,
    }
}

/// A well-formed network stays well formed when its order is replaced by
/// another valid one.
proof fn lemma_wf_set_order(a: NeuralNetwork, b: NeuralNetwork)
    requires
        a.wf(),
        b.neurons@ == a.neurons@,
        b.links@ == a.links@,
        b.link_from_idx@ == a.link_from_idx@,
        b.link_to_idx@ == a.link_to_idx@,
        b.input_indices@ == a.input_indices@,
        b.output_indices@ == a.output_indices@,
        b.passes == a.passes,
        order_ok(b.neurons@, b.order@),
    ensures
        b.wf(),
{
    assert forall|l: int| 0 <= l < b.links@.len() implies b.link_wf_at(l) by {
        assert(a.link_wf_at(l));
    }
    assert forall|k: int|
        0 <= k < b.order@.len() implies ((#[trigger] b.order@[k]) as int) < b.neurons@.len()
        && b.orderable_at(b.order@[k] as int) by {
        assert(net_orderable(b.neurons@, b.order@[k] as int));
    }
    assert forall|i: int|
        0 <= i < b.neurons@.len() implies -VALUE_CAP <= (#[trigger] b.neurons@[i]).value
        <= VALUE_CAP by {
        assert(-VALUE_CAP <= a.neurons@[i].value <= VALUE_CAP);
    }
}

/// One stuck neuron has an enabled genome link from another stuck neuron.
proof fn lemma_cycle_step(
    g: Genome,
    neurons: Seq<Neuron>,
    links: Seq<Link>,
    lf: Seq<usize>,
    lt: Seq<usize>,
    placed: Seq<bool>,
    marked: Seq<bool>,
    n2: int,
)
    requires
        neurons.len() == g.neuron_genes@.len(),
        forall|q: int|
            0 <= q < neurons.len() ==> ((#[trigger] neurons[q]).id == g.neuron_genes@[q].id
                && neurons[q].neuron_type == g.neuron_genes@[q].neuron_type),
        links == enabled_links(g.link_genes@),
        lf.len() == links.len(),
        lt.len() == links.len(),
        forall|p: int|
            0 <= p < links.len() ==> (((#[trigger] lf[p]) as int) < neurons.len() && ((lt[p] as int)
                < neurons.len()) && neurons[lf[p] as int].id == links[p].from && neurons[lt[p]
                as int].id == links[p].to),
        placed.len() == neurons.len(),
        marked.len() == placed.len(),
        forall|q: int| 0 <= q < placed.len() ==> ((#[trigger] marked[q]) <==> !placed[q]),
        0 <= n2 < neurons.len(),
        net_orderable(neurons, n2),
        !placed[n2],
        !preds_placed_spec(links, lf, lt, neurons, placed, n2),
    ensures
        genome_blocking_link(g, marked, n2),
{
    let lx = choose|lx: int|
        !(0 <= lx < links.len() && (#[trigger] links[lx]).enabled && lt[lx] as int == n2
            && net_orderable(neurons, lf[lx] as int) ==> placed[lf[lx] as int]);
    lemma_enabled_links_member(g.link_genes@, lx);
    let j = choose|j: int|
        0 <= j < g.link_genes@.len() && g.link_genes@[j].enabled && to_link(g.link_genes@[j])
            == enabled_links(g.link_genes@)[lx];
    let m2 = lf[lx] as int;
    assert(0 <= j < g.link_genes@.len() && 0 <= m2 < g.neuron_genes@.len()
        && g.link_genes@[j].enabled && g.link_genes@[j].to == g.neuron_genes@[n2].id
        && g.link_genes@[j].from == g.neuron_genes@[m2].id && genome_orderable(g, m2)
        && marked[m2]);
}

/// A stuck sweep over the network arrays of a genome yields a cycle
/// certificate at genome level.
proof fn lemma_cycle_witness_from_stuck(
    g: Genome,
    neurons: Seq<Neuron>,
    links: Seq<Link>,
    lf: Seq<usize>,
    lt: Seq<usize>,
    placed: Seq<bool>,
    w: int,
)
    requires
        neurons.len() == g.neuron_genes@.len(),
        forall|q: int|
            0 <= q < neurons.len() ==> ((#[trigger] neurons[q]).id == g.neuron_genes@[q].id
                && neurons[q].neuron_type == g.neuron_genes@[q].neuron_type),
        links == enabled_links(g.link_genes@),
        lf.len() == links.len(),
        lt.len() == links.len(),
        forall|p: int|
            0 <= p < links.len() ==> (((#[trigger] lf[p]) as int) < neurons.len() && ((lt[p] as int)
                < neurons.len()) && neurons[lf[p] as int].id == links[p].from && neurons[lt[p]
                as int].id == links[p].to),
        placed.len() == neurons.len(),
        sweep_stuck(links, lf, lt, neurons, placed),
        0 <= w < neurons.len(),
        net_orderable(neurons, w),
        !placed[w],
    ensures
        genome_cycle_witness(g, placed.map(|q: int, b: bool| !b)),
{
    let unplaced = placed.map(|q: int, b: bool| !b);
    assert(unplaced.len() == placed.len());
    assert forall|n2: int|
        0 <= n2 < g.neuron_genes@.len() && (#[trigger] unplaced[n2]) && genome_orderable(
        g,
        n2,
    ) implies genome_blocking_link(g, unplaced, n2) by {
        assert(net_orderable(neurons, n2) && !placed[n2]);
        assert(!preds_placed_spec(links, lf, lt, neurons, placed, n2));
        lemma_cycle_step(g, neurons, links, lf, lt, placed, unplaced, n2);
    }
    assert(unplaced[w] && genome_orderable(g, w));
}

/// Build the phenotype of a genome: copy the neurons, resolve the enabled
/// links, and find an evaluation order. A malformed genome is rejected; a
/// cyclic enabled-link graph is rejected when recurrent networks are
/// disabled, and otherwise expressed as a relaxation-evaluated network.
#[verifier::rlimit(60)]
pub fn build_phenotype(g: &Genome, params: &Parameters) -> (r: Result<NeuralNetwork, NeatError>)
    requires
        params.wf(),
    ensures
        match r {
            Ok(net) => {
                &&& g.wf()
                &&& net.wf()
                &&& net.matches_genome(*g)
                &&& net.passes == params.relaxation_passes
                &&& (net.recurrent ==> params.allow_recurrent)
                &&& (!net.recurrent ==> order_topological(
                    net.neurons@,
                    net.links@,
                    net.link_from_idx@,
                    net.link_to_idx@,
                    net.order@,
                ))
                &&& forall|n: int|
                    0 <= n < net.neurons@.len() && net_orderable(net.neurons@, n)
                        ==> net.order@.contains(n as usize)
                &&& forall|i: int|
                    0 <= i < net.neurons@.len() ==> (#[trigger] net.neurons@[i]).value == (
                    if net.neurons@[i].neuron_type == NeuronType::Bias {
                        FP_SCALE
                    } else {
                        0
                    })
            },
            Err(e) => {
                ||| (e == NeatError::MalformedGenome && !g.wf())
                ||| (e == NeatError::BuildCycleUnsupported && g.wf() && !params.allow_recurrent
                    && (exists|unplaced: Seq<bool>| genome_cycle_witness(*g, unplaced)))
            },
        },
        g.wf() && params.allow_recurrent ==> r is Ok,
{
    if !g.check_valid() {
        return Err(NeatError::MalformedGenome);
    }
    let mut net = build_parts(g, params.relaxation_passes);
    let gn = net.neurons.len();
    let pair = compute_order(&net.neurons, &net.links, &net.link_from_idx, &net.link_to_idx);
    let mut order = pair.0;
    let mut placed = pair.1;
    let mut missing: Option<usize> = None;
    let mut v: usize = 0;
    while v < gn
        invariant
            gn == net.neurons@.len(),
            placed@.len() == gn,
            0 <= v <= gn,
            match missing {
                Some(w) => (w as int) < gn && net_orderable(net.neurons@, w as int) && !placed@[w
                    as int],
                None => forall|p: int|
                    0 <= p < v && net_orderable(net.neurons@, p) ==> placed@[p],
            },
        decreases gn - v,
    {
        if matches!(missing, None) {
            if is_orderable(net.neurons[v].neuron_type) && !placed[v] {
                missing = Some(v);
            }
        }
        v += 1;
    }
    match missing {
        None => {
            proof {
                assert forall|n2: int|
                    0 <= n2 < net.neurons@.len() && net_orderable(net.neurons@, n2)
                    implies order@.contains(n2 as usize) by {
                    assert(placed@[n2]);
                }
            }
            let ghost before = net;
            net.order = order;
            proof {
                lemma_wf_set_order(before, net);
            }
            Ok(net)
        },
        Some(w) => {
            if !params.allow_recurrent {
                proof {
                    assert forall|p: int|
                        0 <= p < net.links@.len() implies (((#[trigger] net.link_from_idx@[p])
                        as int) < net.neurons@.len() && ((net.link_to_idx@[p] as int)
                        < net.neurons@.len()) && net.neurons@[net.link_from_idx@[p] as int].id
                        == net.links@[p].from && net.neurons@[net.link_to_idx@[p] as int].id
                        == net.links@[p].to) by {
                        assert(net.link_wf_at(p));
                    }
                    lemma_cycle_witness_from_stuck(
                        *g,
                        net.neurons@,
                        net.links@,
                        net.link_from_idx@,
                        net.link_to_idx@,
                        placed@,
                        w as int,
                    );
                }
                return Err(NeatError::BuildCycleUnsupported);
            }
            let ghost neurons0 = net.neurons@;
            let mut v: usize = 0;
            while v < gn
                invariant
                    gn == net.neurons@.len(),
                    net.neurons@ == neurons0,
                    placed@.len() == gn,
                    0 <= v <= gn,
                    order_ok(net.neurons@, order@),
                    order_matches_placed(placed@, order@),
                    forall|p: int| 0 <= p < v && net_orderable(net.neurons@, p) ==> placed@[p],
                decreases gn - v,
            {
                if is_orderable(net.neurons[v].neuron_type) && !placed[v] {
                    let ghost old_placed = placed@;
                    let ghost old_order = order@;
                    order.push(v);
                    placed[v] = true;
                    proof {
                        assert forall|n2: int|
                            0 <= n2 < placed@.len() implies ((#[trigger] placed@[n2])
                            <==> order@.contains(n2 as usize)) by {
                            lemma_contains_push(old_order, v, n2 as usize);
                            if n2 != v as int {
                                assert(placed@[n2] == old_placed[n2]);
                            }
                        }
                        assert forall|k1: int, k2: int|
                            0 <= k1 < k2 < order@.len() implies order@[k1] != order@[k2] by {
                            if k2 < old_order.len() {
                                assert(order@[k1] == old_order[k1] && order@[k2] == old_order[k2]);
                            } else {
                                assert(order@[k2] == v);
                                assert(old_order.contains(old_order[k1]));
                                assert(old_placed[old_order[k1] as int]);
                            }
                        }
                    }
                }
                v += 1;
            }
            proof {
                assert forall|n2: int|
                    0 <= n2 < net.neurons@.len() && net_orderable(net.neurons@, n2)
                    implies order@.contains(n2 as usize) by {
                    assert(placed@[n2]);
                }
            }
            let ghost before = net;
            net.order = order;
            net.recurrent = true;
            proof {
                lemma_wf_set_order(before, net);
            }
            Ok(net)
        },
    }
}


/// Two value sequences that agree at every source feeding neuron `n`
/// produce the same weighted input for `n`.
proof fn lemma_incoming_sum_agrees(
    links: Seq<Link>,
    fidx: Seq<usize>,
    tidx: Seq<usize>,
    v1: Seq<int>,
    v2: Seq<int>,
    n: int,
    k: int,
)
    requires
        forall|l: int|
            0 <= l < k && (#[trigger] links[l]).enabled && tidx[l] as int == n ==> v1[fidx[l]
                as int] == v2[fidx[l] as int],
    ensures
        incoming_sum(links, fidx, tidx, v1, n, k) == incoming_sum(links, fidx, tidx, v2, n, k),
    decreases k,
{
    if k > 0 {
        lemma_incoming_sum_agrees(links, fidx, tidx, v1, v2, n, k - 1);
    }
}

/// Running a prefix of the order changes no position outside that
/// prefix's entries.
proof fn lemma_run_order_frame(net: NeuralNetwork, v: Seq<int>, k: int, i: int)
    requires
        0 <= k <= net.order@.len(),
        0 <= i < v.len(),
        forall|j: int| 0 <= j < k ==> ((#[trigger] net.order@[j]) as int) < v.len(),
        forall|j: int| 0 <= j < k ==> (#[trigger] net.order@[j]) as int != i,
    ensures
        run_order(net, v, k).len() == v.len(),
        run_order(net, v, k)[i] == v[i],
    decreases k,
{
    if k > 0 {
        lemma_run_order_frame(net, v, k - 1, i);
    }
}

/// Evaluation along a complete topological order depends only on the
/// structure, the inputs already written, and the values of the cells
/// that are neither evaluated nor rewritten: two runs from states that
/// agree on those cells agree everywhere along the order.
proof fn lemma_run_order_agrees(a: NeuralNetwork, b: NeuralNetwork, v1: Seq<int>, v2: Seq<int>, k: int)
    requires
        a.wf(),
        b.same_structure(a),
        order_topological(a.neurons@, a.links@, a.link_from_idx@, a.link_to_idx@, a.order@),
        v1.len() == a.neurons@.len(),
        v2.len() == a.neurons@.len(),
        forall|i: int|
            0 <= i < v1.len() && !net_orderable(a.neurons@, i) ==> v1[i] == #[trigger] v2[i],
        0 <= k <= a.order@.len(),
    ensures
        forall|j: int|
            0 <= j < k ==> run_order(a, v1, k)[(#[trigger] a.order@[j]) as int] == run_order(
                b,
                v2,
                k,
            )[a.order@[j] as int],
        forall|i: int|
            0 <= i < v1.len() && !net_orderable(a.neurons@, i) ==> run_order(a, v1, k)[i]
                == #[trigger] run_order(b, v2, k)[i],
        run_order(a, v1, k).len() == v1.len() && run_order(b, v2, k).len() == v2.len(),
    decreases k,
{
    if k > 0 {
        lemma_run_order_agrees(a, b, v1, v2, k - 1);
        let w1 = run_order(a, v1, k - 1);
        let w2 = run_order(b, v2, k - 1);
        let n = a.order@[k - 1] as int;
        assert(b.order@ == a.order@);
        assert forall|l: int|
            0 <= l < a.links@.len() && (#[trigger] a.links@[l]).enabled && a.link_to_idx@[l] as int
                == n implies w1[a.link_from_idx@[l] as int] == w2[a.link_from_idx@[l]
            as int] by {
            assert(a.link_wf_at(l));
            let src = a.link_from_idx@[l] as int;
            if net_orderable(a.neurons@, src) {
                let k2 = choose|k2: int| 0 <= k2 < k - 1 && a.order@[k2] == a.link_from_idx@[l];
                assert(w1[(a.order@[k2]) as int] == w2[(a.order@[k2]) as int]);
            }
        }
        lemma_incoming_sum_agrees(
            a.links@,
            a.link_from_idx@,
            a.link_to_idx@,
            w1,
            w2,
            n,
            a.links@.len() as int,
        );
        assert(incoming_sum(
            b.links@,
            b.link_from_idx@,
            b.link_to_idx@,
            w2,
            n,
            b.links@.len() as int,
        ) == incoming_sum(a.links@, a.link_from_idx@, a.link_to_idx@, w2, n, a.links@.len() as int));
        assert(b.neurons@[n].activation == a.neurons@[n].activation);
        assert forall|j: int|
            0 <= j < k implies run_order(a, v1, k)[(#[trigger] a.order@[j]) as int] == run_order(
            b,
            v2,
            k,
        )[a.order@[j] as int] by {
            if j < k - 1 {
                assert(w1[(a.order@[j]) as int] == w2[(a.order@[j]) as int]);
            }
        }
    }
}

/// Writing inputs never changes the sequence's length.
proof fn lemma_write_inputs_len(v: Seq<int>, idxs: Seq<usize>, inputs: Seq<i64>, k: int)
    requires
        0 <= k <= idxs.len(),
        forall|j: int| 0 <= j < k ==> ((#[trigger] idxs[j]) as int) < v.len(),
    ensures
        write_inputs(v, idxs, inputs, k).len() == v.len(),
    decreases k,
{
    if k > 0 {
        lemma_write_inputs_len(v, idxs, inputs, k - 1);
    }
}

/// Writing the same inputs into the same positions preserves agreement
/// and establishes it at the written positions.
proof fn lemma_write_inputs_agrees(
    v1: Seq<int>,
    v2: Seq<int>,
    idxs: Seq<usize>,
    inputs: Seq<i64>,
    k: int,
    i: int,
)
    requires
        v1.len() == v2.len(),
        0 <= i < v1.len(),
        0 <= k <= idxs.len(),
        forall|j: int| 0 <= j < idxs.len() ==> ((#[trigger] idxs[j]) as int) < v1.len(),
        v1[i] == v2[i] || (exists|j: int| 0 <= j < k && (#[trigger] idxs[j]) as int == i),
    ensures
        write_inputs(v1, idxs, inputs, k)[i] == write_inputs(v2, idxs, inputs, k)[i],
        write_inputs(v1, idxs, inputs, k).len() == v1.len(),
        write_inputs(v2, idxs, inputs, k).len() == v2.len(),
    decreases k,
{
    lemma_write_inputs_len(v1, idxs, inputs, k);
    lemma_write_inputs_len(v2, idxs, inputs, k);
    if k > 0 {
        lemma_write_inputs_len(v1, idxs, inputs, k - 1);
        lemma_write_inputs_len(v2, idxs, inputs, k - 1);
        if idxs[k - 1] as int == i {
            assert(write_inputs(v1, idxs, inputs, k)[i] == inputs[k - 1] as int);
            assert(write_inputs(v2, idxs, inputs, k)[i] == inputs[k - 1] as int);
        } else {
            if v1[i] != v2[i] {
                let j = choose|j: int| 0 <= j < k && (#[trigger] idxs[j]) as int == i;
                assert(0 <= j < k - 1 && idxs[j] as int == i);
            }
            lemma_write_inputs_agrees(v1, v2, idxs, inputs, k - 1, i);
        }
    }
}

/// Writing inputs leaves every position outside the input list unchanged.
proof fn lemma_write_inputs_frame(v: Seq<int>, idxs: Seq<usize>, inputs: Seq<i64>, k: int, i: int)
    requires
        0 <= i < v.len(),
        0 <= k <= idxs.len(),
        forall|j: int| 0 <= j < k ==> ((#[trigger] idxs[j]) as int) < v.len(),
        forall|j: int| 0 <= j < k ==> (#[trigger] idxs[j]) as int != i,
    ensures
        write_inputs(v, idxs, inputs, k)[i] == v[i],
    decreases k,
{
    if k > 0 {
        lemma_write_inputs_len(v, idxs, inputs, k - 1);
        lemma_write_inputs_frame(v, idxs, inputs, k - 1, i);
    }
}

/// A feed-forward network's evaluation is a function of its structure
/// and inputs alone: two networks of the same structure whose cells can
/// differ only where evaluation rewrites them — the hidden and output
/// cells, and the input cells, which the presentation overwrites —
/// produce identical value sequences. In particular a repeated
/// presentation of the same inputs repeats the outputs, whatever state
/// the first call left behind.
pub proof fn lemma_activate_state_independent(a: NeuralNetwork, b: NeuralNetwork, x: Seq<i64>)
    requires
        a.wf(),
        b.same_structure(a),
        !a.recurrent,
        order_topological(a.neurons@, a.links@, a.link_from_idx@, a.link_to_idx@, a.order@),
        forall|n: int|
            0 <= n < a.neurons@.len() && net_orderable(a.neurons@, n) ==> a.order@.contains(
                n as usize,
            ),
        forall|i: int|
            0 <= i < a.neurons@.len() && !net_orderable(a.neurons@, i) && !a.input_indices@.contains(
                i as usize,
            ) ==> a.values()[i] == #[trigger] b.values()[i],
        x.len() == a.input_indices@.len(),
    ensures
        spec_activate_values(a, x) == spec_activate_values(b, x),
{
    let nn = a.neurons@.len() as int;
    assert forall|j: int|
        0 <= j < a.input_indices@.len() implies ((#[trigger] a.input_indices@[j]) as int)
        < nn by {}
    assert forall|j: int|
        0 <= j < a.order@.len() implies ((#[trigger] a.order@[j]) as int) < nn by {}
    let w1 = write_inputs(a.values(), a.input_indices@, x, a.input_indices@.len() as int);
    let w2 = write_inputs(b.values(), b.input_indices@, x, b.input_indices@.len() as int);
    assert(a.values().len() == nn);
    assert(b.values().len() == nn);
    assert forall|i: int|
        0 <= i < nn && !net_orderable(a.neurons@, i) implies w1[i] == #[trigger] w2[i] by {
        if a.input_indices@.contains(i as usize) {
            lemma_write_inputs_agrees(
                a.values(),
                b.values(),
                a.input_indices@,
                x,
                a.input_indices@.len() as int,
                i,
            );
        } else {
            lemma_write_inputs_agrees(
                a.values(),
                b.values(),
                a.input_indices@,
                x,
                a.input_indices@.len() as int,
                i,
            );
        }
    }
    assert forall|i: int|
        0 <= i < nn && net_orderable(a.neurons@, i) && a.input_indices@.contains(i as usize)
            implies w1[i] == #[trigger] w2[i] by {
        lemma_write_inputs_agrees(
            a.values(),
            b.values(),
            a.input_indices@,
            x,
            a.input_indices@.len() as int,
            i,
        );
    }
    lemma_write_inputs_len(a.values(), a.input_indices@, x, a.input_indices@.len() as int);
    lemma_write_inputs_len(b.values(), b.input_indices@, x, b.input_indices@.len() as int);
    assert(w1.len() == nn);
    assert(w2.len() == nn);
    let k = a.order@.len() as int;
    lemma_run_order_agrees(a, b, w1, w2, k);
    let r1 = run_order(a, w1, k);
    let r2 = run_order(b, w2, k);
    assert forall|i: int| 0 <= i < nn implies r1[i] == #[trigger] r2[i] by {
        if net_orderable(a.neurons@, i) {
            if a.order@.contains(i as usize) {
                let j = choose|j: int| 0 <= j < a.order@.len() && a.order@[j] == i as usize;
                assert(r1[(a.order@[j]) as int] == r2[(a.order@[j]) as int]);
            } else {
                assert(a.order@.contains(i as usize));
            }
        } else {
            assert(run_order(a, w1, k)[i] == run_order(b, w2, k)[i]);
        }
    }
    assert(run_passes(a, w1, 0) == w1);
    assert(run_passes(b, w2, 0) == w2);
    assert(run_passes(a, w1, 1) == run_order(a, run_passes(a, w1, 0), a.order@.len() as int));
    assert(run_passes(b, w2, 1) == run_order(b, run_passes(b, w2, 0), b.order@.len() as int));
    assert(spec_activate_values(a, x) =~= spec_activate_values(b, x));
}



/// Cells that evaluation neither computes nor rewrites — neither hidden
/// nor output, and not an input position — keep their values across a
/// presentation. Together with the state-independence lemma this gives
/// the repetition law: a second `activate` on the state the first one
/// left behind returns the same outputs.
pub proof fn lemma_activate_quiet_cells(a: NeuralNetwork, x: Seq<i64>, i: int)
    requires
        a.wf(),
        !a.recurrent,
        0 <= i < a.neurons@.len(),
        !net_orderable(a.neurons@, i),
        !a.input_indices@.contains(i as usize),
        x.len() == a.input_indices@.len(),
    ensures
        spec_activate_values(a, x)[i] == a.values()[i],
{
    let nn = a.neurons@.len() as int;
    assert forall|j: int|
        0 <= j < a.input_indices@.len() implies ((#[trigger] a.input_indices@[j]) as int)
        < nn by {}
    assert forall|j: int|
        0 <= j < a.input_indices@.len() implies (#[trigger] a.input_indices@[j]) as int != i by {
        if a.input_indices@[j] as int == i {
            assert(a.input_indices@.contains(i as usize));
        }
    }
    let w = write_inputs(a.values(), a.input_indices@, x, a.input_indices@.len() as int);
    lemma_write_inputs_frame(a.values(), a.input_indices@, x, a.input_indices@.len() as int, i);
    lemma_write_inputs_len(a.values(), a.input_indices@, x, a.input_indices@.len() as int);
    let k = a.order@.len() as int;
    assert forall|j: int| 0 <= j < k implies ((#[trigger] a.order@[j]) as int) < w.len() by {}
    assert forall|j: int| 0 <= j < k implies (#[trigger] a.order@[j]) as int != i by {
        if a.order@[j] as int == i {
            assert(a.orderable_at(a.order@[j] as int));
        }
    }
    lemma_run_order_frame(a, w, k, i);
    assert(run_passes(a, w, 0) == w);
    assert(run_passes(a, w, 1) == run_order(a, run_passes(a, w, 0), a.order@.len() as int));
}


} // verus!
