//! Species and the compatibility distance: the three-term NEAT metric
//! over disjoint links, excess links and matched-weight differences.

use vstd::arithmetic::div_mod::lemma_div_of0;
use vstd::prelude::*;

use crate::genome::{
    find_link, has_pair, lemma_weight_at, link_pairs_unique, weight_at, Genome, LinkGene,
};
use crate::network::abs_int;
use crate::parameters::Parameters;
use crate::{FP_SCALE, MAX_LINKS, MAX_NEURON_ID, WEIGHT_CAP};

verus! {

/// Ordering key of a link's pair: the packed `(from, to)` endpoints, a
/// surrogate for chronological innovation order, which genomes do not
/// store. It splits unmatched links into disjoint and excess; a link
/// between low-numbered neurons created late counts as disjoint where
/// ledger order would say excess. With equal disjoint and excess
/// coefficients the distance itself is unaffected by the split.
pub open spec fn pair_key(l: LinkGene) -> int {
    l.from * MAX_NEURON_ID + l.to
}

/// Largest pair key of a link list; `-1` when empty.
pub open spec fn max_key(ls: Seq<LinkGene>) -> int
    decreases ls.len(),
{
    if ls.len() == 0 {
        -1
    } else {
        let m = max_key(ls.drop_last());
        if pair_key(ls.last()) > m {
            pair_key(ls.last())
        } else {
            m
        }
    }
}

/// Links of `xs` whose pair `ys` lacks, lying inside `ys`'s key range:
/// the disjoint links of `xs` against `ys`.
pub open spec fn count_disjoint(xs: Seq<LinkGene>, ys: Seq<LinkGene>) -> int
    decreases xs.len(),
{
    if xs.len() == 0 {
        0
    } else {
        count_disjoint(xs.drop_last(), ys) + (if !has_pair(ys, xs.last().from, xs.last().to)
            && pair_key(xs.last()) <= max_key(ys) {
            1int
        } else {
            0int
        })
    }
}

/// Links of `xs` whose pair `ys` lacks, beyond `ys`'s largest key: the
/// excess links of `xs` against `ys`.
pub open spec fn count_excess(xs: Seq<LinkGene>, ys: Seq<LinkGene>) -> int
    decreases xs.len(),
{
    if xs.len() == 0 {
        0
    } else {
        count_excess(xs.drop_last(), ys) + (if !has_pair(ys, xs.last().from, xs.last().to)
            && pair_key(xs.last()) > max_key(ys) {
            1int
        } else {
            0int
        })
    }
}

/// Links of `xs` whose pair `ys` also holds.
pub open spec fn count_matching(xs: Seq<LinkGene>, ys: Seq<LinkGene>) -> int
    decreases xs.len(),
{
    if xs.len() == 0 {
        0
    } else {
        count_matching(xs.drop_last(), ys) + (if has_pair(ys, xs.last().from, xs.last().to) {
            1int
        } else {
            0int
        })
    }
}

/// Sum, over the matched links of `xs`, of the magnitude of the weight
/// difference against `ys`'s link of the same pair.
pub open spec fn wdiff_sum(xs: Seq<LinkGene>, ys: Seq<LinkGene>) -> int
    decreases xs.len(),
{
    if xs.len() == 0 {
        0
    } else {
        wdiff_sum(xs.drop_last(), ys) + (if has_pair(ys, xs.last().from, xs.last().to) {
            abs_int(xs.last().weight - weight_at(ys, xs.last().from, xs.last().to))
        } else {
            0int
        })
    }
}

/// The compatibility distance: disjoint and excess counts, each summed
/// over both directions and normalised by the larger genome's link
/// count, and the mean matched-weight difference, each term scaled by
/// its coefficient. All divisions truncate; every term is nonnegative.
pub open spec fn spec_distance(
    a: Seq<LinkGene>,
    b: Seq<LinkGene>,
    cd: int,
    ce: int,
    cw: int,
) -> int {
    let n: int = if a.len() >= b.len() {
        if a.len() >= 1 {
            a.len() as int
        } else {
            1
        }
    } else {
        b.len() as int
    };
    let d = count_disjoint(a, b) + count_disjoint(b, a);
    let e = count_excess(a, b) + count_excess(b, a);
    let m = count_matching(a, b) + count_matching(b, a);
    let w = wdiff_sum(a, b) + wdiff_sum(b, a);
    (cd * d) / n + (ce * e) / n + (if m > 0 {
        (cw * w) / (m * FP_SCALE as int)
    } else {
        0int
    })
}

/// The compatibility distance is symmetric in its two genomes.
pub proof fn lemma_distance_symmetric(a: Seq<LinkGene>, b: Seq<LinkGene>, cd: int, ce: int, cw: int)
    ensures
        spec_distance(a, b, cd, ce, cw) == spec_distance(b, a, cd, ce, cw),
{
}

/// All per-direction terms vanish when every link of `xs` is matched in
/// `ys` at an equal weight.
proof fn lemma_terms_of_matched(xs: Seq<LinkGene>, ys: Seq<LinkGene>)
    requires
        forall|q: int|
            0 <= q < xs.len() ==> (has_pair(ys, (#[trigger] xs[q]).from, xs[q].to) && xs[q].weight
                == weight_at(ys, xs[q].from, xs[q].to)),
    ensures
        count_disjoint(xs, ys) == 0,
        count_excess(xs, ys) == 0,
        wdiff_sum(xs, ys) == 0,
    decreases xs.len(),
{
    if xs.len() > 0 {
        assert forall|q: int|
            0 <= q < xs.drop_last().len() implies (has_pair(
            ys,
            (#[trigger] xs.drop_last()[q]).from,
            xs.drop_last()[q].to,
        ) && xs.drop_last()[q].weight == weight_at(
            ys,
            xs.drop_last()[q].from,
            xs.drop_last()[q].to,
        )) by {
            assert(xs.drop_last()[q] == xs[q]);
        }
        lemma_terms_of_matched(xs.drop_last(), ys);
        assert(xs.last() == xs[xs.len() - 1]);
        assert(has_pair(ys, xs.last().from, xs.last().to));
        assert(abs_int(xs.last().weight - weight_at(ys, xs.last().from, xs.last().to)) == 0);
    }
}

/// A genome is at distance zero from itself.
pub proof fn lemma_distance_self_zero(a: Seq<LinkGene>, cd: int, ce: int, cw: int)
    requires
        link_pairs_unique(a),
    ensures
        spec_distance(a, a, cd, ce, cw) == 0,
{
    assert forall|q: int|
        0 <= q < a.len() implies (has_pair(a, (#[trigger] a[q]).from, a[q].to) && a[q].weight
        == weight_at(a, a[q].from, a[q].to)) by {
        lemma_weight_at(a, q);
    }
    lemma_terms_of_matched(a, a);
    let n: int = if a.len() >= 1 {
        a.len() as int
    } else {
        1
    };
    lemma_div_of0(n);
    let m = count_matching(a, a) + count_matching(a, a);
    if m > 0 {
        lemma_div_of0(m * FP_SCALE as int);
    }
}

/// A genome's group under speciation: its members, its age, its best
/// fitness and its stagnation state, with the representative genome the
/// compatibility of newcomers is measured against.
pub struct Species {
    pub id: u64,
    /// Positions, in the population's genome arena, of the members.
    pub members: Vec<usize>,
    /// Generations since the species was founded.
    pub age: u64,
    /// Best raw fitness ever seen in the species, fixed-point.
    pub best_fitness: i64,
    /// Generations since `best_fitness` last improved.
    pub generations_since_improvement: u64,
    /// The genome newcomers are compared against.
    pub representative: Genome,
}

impl Species {
    /// Found a new species around a representative.
    pub fn new(id: u64, member: usize, representative: Genome) -> (r: Species)
        ensures
            r.id == id,
            r.members@ == seq![member],
            r.age == 0,
            r.best_fitness == representative.fitness,
            r.generations_since_improvement == 0,
            r.representative == representative,
    {
        let best = representative.fitness;
        let mut members: Vec<usize> = Vec::new();
        members.push(member);
        proof {
            assert(members@ =~= seq![member]);
        }
        Species {
            id,
            members,
            age: 0,
            best_fitness: best,
            generations_since_improvement: 0,
            representative,
        }
    }
}

/// The compatibility distance between two well-formed genomes, with the
/// configured coefficients.
pub fn distance(a: &Genome, b: &Genome, params: &Parameters) -> (r: i64)
    requires
        a.wf(),
        b.wf(),
        params.wf(),
    ensures
        r as int == spec_distance(
            a.link_genes@,
            b.link_genes@,
            params.disjoint_coeff as int,
            params.excess_coeff as int,
            params.weight_coeff as int,
        ),
        r >= 0,
{
    proof {
        link_id_bounds(a);
        link_id_bounds(b);
    }
    let (dab, eab, mab, wab) = distance_terms(&a.link_genes, &b.link_genes);
    let (dba, eba, mba, wba) = distance_terms(&b.link_genes, &a.link_genes);
    let n: u64 = if a.link_genes.len() >= b.link_genes.len() {
        if a.link_genes.len() >= 1 {
            a.link_genes.len() as u64
        } else {
            1
        }
    } else {
        b.link_genes.len() as u64
    };
    let d: u64 = dab + dba;
    let e: u64 = eab + eba;
    let m: u64 = mab + mba;
    let w: u64 = wab + wba;
    let cd = params.disjoint_coeff as u64;
    let ce = params.excess_coeff as u64;
    let cw = params.weight_coeff as u64;
    proof {
        assert(cd * d <= 100000 * 200000) by (nonlinear_arith)
            requires
                cd <= 100000,
                d <= 200000,
        ;
        assert(ce * e <= 100000 * 200000) by (nonlinear_arith)
            requires
                ce <= 100000,
                e <= 200000,
        ;
        assert(cw * w <= 100000 * 3200000000) by (nonlinear_arith)
            requires
                cw <= 100000,
                w <= 3200000000,
        ;
        assert(m * 1000 <= 200000000) by (nonlinear_arith)
            requires
                m <= 200000,
        ;
    }
    let t1: u64 = (cd * d) / n;
    let t2: u64 = (ce * e) / n;
    let t3: u64 = if m > 0 {
        (cw * w) / (m * (FP_SCALE as u64))
    } else {
        0
    };
    proof {
        vstd::arithmetic::div_mod::lemma_div_nonincreasing((cd * d) as int, n as int);
        vstd::arithmetic::div_mod::lemma_div_nonincreasing((ce * e) as int, n as int);
        if m > 0 {
            vstd::arithmetic::div_mod::lemma_div_nonincreasing(
                (cw * w) as int,
                (m * (FP_SCALE as u64)) as int,
            );
        }
    }
    (t1 + t2 + t3) as i64
}

/// The link endpoints of a well-formed genome lie below the id bound and
/// its weights inside the band.
proof fn link_id_bounds(g: &Genome)
    requires
        g.wf(),
    ensures
        forall|q: int|
            0 <= q < g.link_genes@.len() ==> ((#[trigger] g.link_genes@[q]).from < MAX_NEURON_ID
                && g.link_genes@[q].to < MAX_NEURON_ID),
        forall|q: int|
            0 <= q < g.link_genes@.len() ==> -WEIGHT_CAP <= (#[trigger] g.link_genes@[q]).weight
                <= WEIGHT_CAP,
{
    assert forall|q: int|
        0 <= q < g.link_genes@.len() implies ((#[trigger] g.link_genes@[q]).from < MAX_NEURON_ID
        && g.link_genes@[q].to < MAX_NEURON_ID && -WEIGHT_CAP <= g.link_genes@[q].weight
        <= WEIGHT_CAP) by {
        assert(crate::genome::link_ok(g.neuron_genes@, g.link_genes@[q]));
        let jf = choose|k: int|
            0 <= k < g.neuron_genes@.len() && g.neuron_genes@[k].id == g.link_genes@[q].from;
        assert(g.neuron_genes@[jf].id < MAX_NEURON_ID);
        let jt = choose|k: int|
            0 <= k < g.neuron_genes@.len() && g.neuron_genes@[k].id == g.link_genes@[q].to;
        assert(g.neuron_genes@[jt].id < MAX_NEURON_ID);
    }
}

/// One direction of the distance terms: disjoint count, excess count,
/// matched count and matched-weight difference sum of `xs` against `ys`.
fn distance_terms(xs: &Vec<LinkGene>, ys: &Vec<LinkGene>) -> (r: (u64, u64, u64, u64))
    requires
        link_pairs_unique(ys@),
        xs@.len() <= MAX_LINKS,
        forall|q: int|
            0 <= q < xs@.len() ==> -WEIGHT_CAP <= (#[trigger] xs@[q]).weight <= WEIGHT_CAP,
        forall|q: int|
            0 <= q < ys@.len() ==> -WEIGHT_CAP <= (#[trigger] ys@[q]).weight <= WEIGHT_CAP,
        forall|q: int|
            0 <= q < xs@.len() ==> ((#[trigger] xs@[q]).from < MAX_NEURON_ID && xs@[q].to
                < MAX_NEURON_ID),
        forall|q: int|
            0 <= q < ys@.len() ==> ((#[trigger] ys@[q]).from < MAX_NEURON_ID && ys@[q].to
                < MAX_NEURON_ID),
    ensures
        r.0 as int == count_disjoint(xs@, ys@),
        r.1 as int == count_excess(xs@, ys@),
        r.2 as int == count_matching(xs@, ys@),
        r.3 as int == wdiff_sum(xs@, ys@),
        r.0 <= xs@.len(),
        r.1 <= xs@.len(),
        r.2 <= xs@.len(),
        r.3 <= 16000 * xs@.len(),
{
    let mk: i128 = max_key_exec(ys);
    let n = xs.len();
    let mut d: u64 = 0;
    let mut e: u64 = 0;
    let mut m: u64 = 0;
    let mut w: u64 = 0;
    let mut i: usize = 0;
    while i < n
        invariant
            link_pairs_unique(ys@),
            n == xs@.len(),
            n <= MAX_LINKS,
            forall|q: int|
                0 <= q < xs@.len() ==> -WEIGHT_CAP <= (#[trigger] xs@[q]).weight <= WEIGHT_CAP,
            forall|q: int|
                0 <= q < ys@.len() ==> -WEIGHT_CAP <= (#[trigger] ys@[q]).weight <= WEIGHT_CAP,
            mk as int == max_key(ys@),
            forall|q: int|
                0 <= q < xs@.len() ==> ((#[trigger] xs@[q]).from < MAX_NEURON_ID && xs@[q].to
                    < MAX_NEURON_ID),
            0 <= i <= n,
            d as int == count_disjoint(xs@.subrange(0, i as int), ys@),
            e as int == count_excess(xs@.subrange(0, i as int), ys@),
            m as int == count_matching(xs@.subrange(0, i as int), ys@),
            w as int == wdiff_sum(xs@.subrange(0, i as int), ys@),
            d <= i && e <= i && m <= i,
            w as int <= 16000 * i,
        decreases n - i,
    {
        let l = xs[i];
        proof {
            let pre = xs@.subrange(0, i as int);
            let cur = xs@.subrange(0, i + 1 as int);
            assert(cur.drop_last() =~= pre);
            assert(cur.last() == xs@[i as int]);
        }
        match find_link(ys, l.from, l.to) {
            Some(k) => {
                let yw = ys[k].weight;
                proof {
                    lemma_weight_at(ys@, k as int);
                    assert(ys@[k as int].from == l.from && ys@[k as int].to == l.to);
                }
                let diff: i64 = if l.weight >= yw {
                    l.weight - yw
                } else {
                    yw - l.weight
                };
                m = m + 1;
                w = w + (diff as u64);
            },
            None => {
                proof {
                    assert(xs@[i as int].from < MAX_NEURON_ID && xs@[i as int].to < MAX_NEURON_ID);
                    assert(l.from * (MAX_NEURON_ID as u64) <= (MAX_NEURON_ID - 1) * (MAX_NEURON_ID
                        as u64)) by (nonlinear_arith)
                        requires
                            l.from < MAX_NEURON_ID,
                    ;
                }
                let key: u64 = l.from * (MAX_NEURON_ID as u64) + l.to;
                if (key as i128) <= mk {
                    d = d + 1;
                } else {
                    e = e + 1;
                }
            },
        }
        i += 1;
    }
    proof {
        assert(xs@.subrange(0, n as int) =~= xs@);
    }
    (d, e, m, w)
}

/// The largest pair key of a link list, `-1` when empty.
fn max_key_exec(ls: &Vec<LinkGene>) -> (r: i128)
    requires
        forall|q: int|
            0 <= q < ls@.len() ==> ((#[trigger] ls@[q]).from < MAX_NEURON_ID && ls@[q].to
                < MAX_NEURON_ID),
    ensures
        r as int == max_key(ls@),
{
    let n = ls.len();
    let mut r: i128 = -1;
    let mut i: usize = 0;
    while i < n
        invariant
            n == ls@.len(),
            0 <= i <= n,
            r as int == max_key(ls@.subrange(0, i as int)),
            forall|q: int|
                0 <= q < ls@.len() ==> ((#[trigger] ls@[q]).from < MAX_NEURON_ID && ls@[q].to
                    < MAX_NEURON_ID),
        decreases n - i,
    {
        proof {
            let pre = ls@.subrange(0, i as int);
            let cur = ls@.subrange(0, i + 1 as int);
            assert(cur.drop_last() =~= pre);
            assert(cur.last() == ls@[i as int]);
        }
        proof {
            assert(ls@[i as int].from < MAX_NEURON_ID && ls@[i as int].to < MAX_NEURON_ID);
            assert(ls@[i as int].from * (MAX_NEURON_ID as u64) <= (MAX_NEURON_ID - 1) * (
            MAX_NEURON_ID as u64)) by (nonlinear_arith)
                requires
                    ls@[i as int].from < MAX_NEURON_ID,
            ;
        }
        let key: u64 = ls[i].from * (MAX_NEURON_ID as u64) + ls[i].to;
        if (key as i128) > r {
            r = key as i128;
        }
        i += 1;
    }
    proof {
        assert(ls@.subrange(0, n as int) =~= ls@);
    }
    r
}

} // verus!
