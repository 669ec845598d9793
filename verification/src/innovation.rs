//! The innovation tracker: a run-wide ledger that gives every structural
//! mutation a stable identifier, so the same mutation made in different
//! genomes or generations is recognised as the same innovation.

use vstd::prelude::*;

verus! {

/// Ledger entry: the link `(from, to)` was first created under innovation
/// id `innovation`.
#[derive(Clone, Copy, Debug, PartialEq, Eq, Structural)]
pub struct LinkRecord {
    pub from: u64,
    pub to: u64,
    pub innovation: u64,
}

/// Ledger entry: splitting the link `(from, to)` first inserted the neuron
/// with id `neuron_id`.
#[derive(Clone, Copy, Debug, PartialEq, Eq, Structural)]
pub struct NeuronRecord {
    pub from: u64,
    pub to: u64,
    pub neuron_id: u64,
}

/// Is the pair recorded in the link ledger?
pub open spec fn link_recorded(rs: Seq<LinkRecord>, from: u64, to: u64) -> bool {
    exists|j: int| 0 <= j < rs.len() && rs[j].from == from && rs[j].to == to
}

/// The innovation id the link ledger holds for a pair; meaningful only
/// where the pair is recorded.
pub open spec fn link_record_id(rs: Seq<LinkRecord>, from: u64, to: u64) -> u64 {
    let j = choose|j: int| 0 <= j < rs.len() && rs[j].from == from && rs[j].to == to;
    rs[j].innovation
}

/// Is the pair recorded in the neuron ledger?
pub open spec fn neuron_recorded(rs: Seq<NeuronRecord>, from: u64, to: u64) -> bool {
    exists|j: int| 0 <= j < rs.len() && rs[j].from == from && rs[j].to == to
}

/// The neuron id the neuron ledger holds for a split pair; meaningful only
/// where the pair is recorded.
pub open spec fn neuron_record_id(rs: Seq<NeuronRecord>, from: u64, to: u64) -> u64 {
    let j = choose|j: int| 0 <= j < rs.len() && rs[j].from == from && rs[j].to == to;
    rs[j].neuron_id
}

/// Run-wide ledger of structural innovations. One tracker serves the whole
/// population; its counters only grow, so identifiers are globally unique
/// within a run.
pub struct InnovationTracker {
    pub link_records: Vec<LinkRecord>,
    pub neuron_records: Vec<NeuronRecord>,
    /// Next unused link innovation id.
    pub next_innovation: u64,
    /// Next unused neuron id.
    pub next_neuron_id: u64,
}

impl InnovationTracker {
    /// Tracker invariant: each descriptor is recorded at most once.
    pub open spec fn wf(self) -> bool {
        &&& forall|i: int, j: int|
            0 <= i < j < self.link_records@.len() ==> !(self.link_records@[i].from
                == self.link_records@[j].from && self.link_records@[i].to
                == self.link_records@[j].to)
        &&& forall|i: int, j: int|
            0 <= i < j < self.neuron_records@.len() ==> !(self.neuron_records@[i].from
                == self.neuron_records@[j].from && self.neuron_records@[i].to
                == self.neuron_records@[j].to)
        &&& forall|i: int|
            0 <= i < self.neuron_records@.len() ==> (#[trigger] self.neuron_records@[i]).neuron_id
                < self.next_neuron_id
    }

    /// A fresh tracker whose neuron ids start at `first_neuron_id`, which
    /// should lie above every id a seed genome uses.
    pub fn new(first_neuron_id: u64) -> (r: InnovationTracker)
        ensures
            r.wf(),
            r.link_records@.len() == 0,
            r.neuron_records@.len() == 0,
            r.next_innovation == 0,
            r.next_neuron_id == first_neuron_id,
    {
        InnovationTracker {
            link_records: Vec::new(),
            neuron_records: Vec::new(),
            next_innovation: 0,
            next_neuron_id: first_neuron_id,
        }
    }

    /// The innovation id of the link `(from, to)`: the recorded id where
    /// the descriptor was seen before, a freshly minted one otherwise.
    /// The same descriptor therefore always yields the same id within a
    /// run, whichever genome asks.
    pub fn get_or_create_link(&mut self, from: u64, to: u64) -> (r: u64)
        requires
            old(self).wf(),
            old(self).next_innovation < u64::MAX,
        ensures
            final(self).wf(),
            final(self).neuron_records@ == old(self).neuron_records@,
            final(self).next_neuron_id == old(self).next_neuron_id,
            link_recorded(final(self).link_records@, from, to),
            link_record_id(final(self).link_records@, from, to) == r,
            if link_recorded(old(self).link_records@, from, to) {
                &&& *final(self) == *old(self)
                &&& r == link_record_id(old(self).link_records@, from, to)
            } else {
                &&& r == old(self).next_innovation
                &&& final(self).next_innovation == old(self).next_innovation + 1
                &&& final(self).link_records@ == old(self).link_records@.push(
                    (LinkRecord { from, to, innovation: r }),
                )
            },
    {
        let n = self.link_records.len();
        let mut i: usize = 0;
        while i < n
            invariant
                old(self).wf(),
                *self == *old(self),
                n == self.link_records@.len(),
                0 <= i <= n,
                forall|p: int|
                    0 <= p < i ==> !((#[trigger] self.link_records@[p]).from == from
                        && self.link_records@[p].to == to),
            decreases n - i,
        {
            if self.link_records[i].from == from && self.link_records[i].to == to {
                proof {
                    lemma_link_id_stable(self.link_records@, from, to, i as int, i as int);
                }
                return self.link_records[i].innovation;
            }
            i += 1;
        }
        let r = self.next_innovation;
        self.link_records.push(LinkRecord { from, to, innovation: r });
        self.next_innovation = self.next_innovation + 1;
        proof {
            let rs = self.link_records@;
            let prev = old(self).link_records@;
            assert(rs[rs.len() - 1].from == from && rs[rs.len() - 1].to == to);
            assert forall|p: int, q: int|
                0 <= p < q < rs.len() implies !(rs[p].from == rs[q].from && rs[p].to
                == rs[q].to) by {
                assert(rs[p] == prev[p]);
                if q < rs.len() - 1 {
                    assert(rs[q] == prev[q]);
                }
            }
            lemma_link_id_stable(rs, from, to, rs.len() - 1, rs.len() - 1);
        }
        r
    }

    /// The neuron id minted for splitting the link `(from, to)`: the
    /// recorded id where that split was seen before, a fresh one
    /// otherwise, so repeated splits of the same link across the
    /// population reuse the same neuron innovation.
    pub fn get_or_create_neuron(&mut self, from: u64, to: u64) -> (r: u64)
        requires
            old(self).wf(),
            old(self).next_neuron_id < u64::MAX,
        ensures
            final(self).wf(),
            final(self).link_records@ == old(self).link_records@,
            final(self).next_innovation == old(self).next_innovation,
            neuron_recorded(final(self).neuron_records@, from, to),
            neuron_record_id(final(self).neuron_records@, from, to) == r,
            r < final(self).next_neuron_id,
            if neuron_recorded(old(self).neuron_records@, from, to) {
                &&& *final(self) == *old(self)
                &&& r == neuron_record_id(old(self).neuron_records@, from, to)
            } else {
                &&& r == old(self).next_neuron_id
                &&& final(self).next_neuron_id == old(self).next_neuron_id + 1
                &&& final(self).neuron_records@ == old(self).neuron_records@.push(
                    (NeuronRecord { from, to, neuron_id: r }),
                )
            },
    {
        let n = self.neuron_records.len();
        let mut i: usize = 0;
        while i < n
            invariant
                old(self).wf(),
                *self == *old(self),
                n == self.neuron_records@.len(),
                0 <= i <= n,
                forall|p: int|
                    0 <= p < i ==> !((#[trigger] self.neuron_records@[p]).from == from
                        && self.neuron_records@[p].to == to),
            decreases n - i,
        {
            if self.neuron_records[i].from == from && self.neuron_records[i].to == to {
                proof {
                    lemma_neuron_id_stable(self.neuron_records@, from, to, i as int, i as int);
                }
                return self.neuron_records[i].neuron_id;
            }
            i += 1;
        }
        let r = self.next_neuron_id;
        self.neuron_records.push(NeuronRecord { from, to, neuron_id: r });
        self.next_neuron_id = self.next_neuron_id + 1;
        proof {
            let rs = self.neuron_records@;
            let prev = old(self).neuron_records@;
            assert(rs[rs.len() - 1].from == from && rs[rs.len() - 1].to == to);
            assert forall|p: int, q: int|
                0 <= p < q < rs.len() implies !(rs[p].from == rs[q].from && rs[p].to
                == rs[q].to) by {
                assert(rs[p] == prev[p]);
                if q < rs.len() - 1 {
                    assert(rs[q] == prev[q]);
                }
            }
            lemma_neuron_id_stable(rs, from, to, rs.len() - 1, rs.len() - 1);
        }
        r
    }

    /// Mint a neuron id that no descriptor is tied to; used when a reused
    /// split id would collide with a neuron the genome already holds.
    pub fn fresh_neuron_id(&mut self) -> (r: u64)
        requires
            old(self).wf(),
            old(self).next_neuron_id < u64::MAX,
        ensures
            final(self).wf(),
            r == old(self).next_neuron_id,
            r < final(self).next_neuron_id,
            final(self).next_neuron_id == old(self).next_neuron_id + 1,
            final(self).link_records@ == old(self).link_records@,
            final(self).neuron_records@ == old(self).neuron_records@,
            final(self).next_innovation == old(self).next_innovation,
    {
        let r = self.next_neuron_id;
        self.next_neuron_id = self.next_neuron_id + 1;
        r
    }
}

/// Two lookups of the same descriptor in the same ledger agree: the ledger
/// is a function of the descriptor.
pub proof fn lemma_link_id_stable(rs: Seq<LinkRecord>, from: u64, to: u64, i: int, j: int)
    requires
        forall|p: int, q: int|
            0 <= p < q < rs.len() ==> !(rs[p].from == rs[q].from && rs[p].to == rs[q].to),
        0 <= i < rs.len() && rs[i].from == from && rs[i].to == to,
        0 <= j < rs.len() && rs[j].from == from && rs[j].to == to,
    ensures
        i == j,
        rs[i].innovation == link_record_id(rs, from, to),
{
    let k = choose|k: int| 0 <= k < rs.len() && rs[k].from == from && rs[k].to == to;
    assert(k == i);
}

/// Two lookups of the same split descriptor in the neuron ledger agree.
pub proof fn lemma_neuron_id_stable(rs: Seq<NeuronRecord>, from: u64, to: u64, i: int, j: int)
    requires
        forall|p: int, q: int|
            0 <= p < q < rs.len() ==> !(rs[p].from == rs[q].from && rs[p].to == rs[q].to),
        0 <= i < rs.len() && rs[i].from == from && rs[i].to == to,
        0 <= j < rs.len() && rs[j].from == from && rs[j].to == to,
    ensures
        i == j,
        rs[i].neuron_id == neuron_record_id(rs, from, to),
{
    let k = choose|k: int| 0 <= k < rs.len() && rs[k].from == from && rs[k].to == to;
    assert(k == i);
}

} // verus!
