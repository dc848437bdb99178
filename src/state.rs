//! Run-wide bookkeeping: the innovation registry that gives structural edits
//! their ids, and the speciation manager that numbers species and steers the
//! compatibility threshold.
use vstd::prelude::*;
use crate::assoc::{
    assoc, keys_unique, lemma_assoc_absent, lemma_assoc_key_has_entry, lemma_assoc_lookup,
    lemma_assoc_push,
};

verus! {

/// Which way the compatibility threshold moves after a respeciation.
#[derive(Clone, Copy, Debug, PartialEq, Eq, Structural)]
pub enum ThresholdAdjustment {
    /// Too many species: the threshold grows (by the factor 1.3).
    Raise,
    /// Too few species: the threshold shrinks (by the factor 0.95).
    Lower,
    /// The species count is in range.
    Keep,
}

/// The step that a species count calls for against a target count.
pub open spec fn threshold_step(target: nat, species_count: nat) -> ThresholdAdjustment {
    if species_count > 2 * target {
        ThresholdAdjustment::Raise
    } else if species_count < target / 2 {
        ThresholdAdjustment::Lower
    } else {
        ThresholdAdjustment::Keep
    }
}

/// Numbers species and steers the compatibility threshold towards a target
/// species count. The threshold itself is a real number held by the caller;
/// this type decides each step.
#[derive(Clone, Debug)]
pub struct SpeciationManager {
    species_counter: usize,
    target_species_count: usize,
}

impl SpeciationManager {
    pub closed spec fn counter(&self) -> nat {
        self.species_counter as nat
    }

    pub closed spec fn target(&self) -> nat {
        self.target_species_count as nat
    }

    pub fn new(current_species_count: usize, target_species_count: usize) -> (r: Self)
        ensures
            r.counter() == current_species_count,
            r.target() == target_species_count,
    {
        SpeciationManager { species_counter: current_species_count, target_species_count }
    }

    /// Hands out the next species id.
    pub fn new_species(&mut self) -> (r: usize)
        requires
            old(self).counter() < usize::MAX,
        ensures
            r == old(self).counter() + 1,
            final(self).counter() == r,
            final(self).target() == old(self).target(),
    {
        self.species_counter = self.species_counter + 1;
        self.species_counter
    }

    pub fn species_counter(&self) -> (r: usize)
        ensures
            r == self.counter(),
    {
        self.species_counter
    }

    pub fn target_species_count(&self) -> (r: usize)
        ensures
            r == self.target(),
    {
        self.target_species_count
    }

    /// Raise when there are more than twice the target species, lower when
    /// there are fewer than half of it (rounded down), else keep.
    pub fn adjust_threshold(&self, current_species_count: usize) -> (r: ThresholdAdjustment)
        ensures
            r == threshold_step(self.target(), current_species_count as nat),
    {
        let t = self.target_species_count;
        if current_species_count > t && current_species_count - t > t {
            ThresholdAdjustment::Raise
        } else if current_species_count < t / 2 {
            ThresholdAdjustment::Lower
        } else {
            ThresholdAdjustment::Keep
        }
    }
}

/// What the innovation registry holds: the two counters, the ids given to
/// connections by their `(source, target)` pair, and the recorded splits
/// by the id of the split connection.
pub struct RegistryModel {
    pub next_node: nat,
    pub next_connection: nat,
    pub connections: Map<(usize, usize), usize>,
    pub splits: Map<usize, (usize, usize, usize)>,
}

/// Registering the connection `(a, b)`: the id it already has, or the next
/// connection id, which is then stored.
pub open spec fn connection_step(m: RegistryModel, a: usize, b: usize) -> (RegistryModel, usize) {
    if m.connections.contains_key((a, b)) {
        (m, m.connections[(a, b)])
    } else {
        let id = m.next_connection as usize;
        (
            RegistryModel {
                next_connection: m.next_connection + 1,
                connections: m.connections.insert((a, b), id),
                ..m
            },
            id,
        )
    }
}

/// Registering the split of connection `c`, which runs from `a` to `b`: the
/// recorded triple, or a new node id with the ids of the connections
/// `(a, node)` and `(node, b)`, which is then recorded.
pub open spec fn split_step(m: RegistryModel, c: usize, a: usize, b: usize) -> (
    RegistryModel,
    (usize, usize, usize),
) {
    if m.splits.contains_key(c) {
        (m, m.splits[c])
    } else {
        let n = m.next_node as usize;
        let m1 = RegistryModel { next_node: m.next_node + 1, ..m };
        let (m2, i1) = connection_step(m1, a, n);
        let (m3, i2) = connection_step(m2, n, b);
        (RegistryModel { splits: m3.splits.insert(c, (n, i1, i2)), ..m3 }, (n, i1, i2))
    }
}

/// Registers connection and node innovations for one run, so that the same
/// structural edit made in different genomes gets the same ids.
#[derive(Clone, Debug)]
pub struct InnovationRecord {
    node_innovation_counter: usize,
    connection_innovation_counter: usize,
    connection_innovations: Vec<((usize, usize), usize)>,
    node_splits: Vec<(usize, (usize, usize, usize))>,
}

impl View for InnovationRecord {
    type V = RegistryModel;

    closed spec fn view(&self) -> RegistryModel {
        RegistryModel {
            next_node: self.node_innovation_counter as nat,
            next_connection: self.connection_innovation_counter as nat,
            connections: assoc(self.connection_innovations@),
            splits: assoc(self.node_splits@),
        }
    }
}

impl InnovationRecord {
    /// Keys are unique, and the connection ids given out are distinct and
    /// below the connection counter.
    pub closed spec fn wf(&self) -> bool {
        &&& keys_unique(self.connection_innovations@)
        &&& keys_unique(self.node_splits@)
        &&& forall|i: int|
            0 <= i < self.connection_innovations@.len()
                ==> #[trigger] self.connection_innovations@[i].1
                < self.connection_innovation_counter
        &&& forall|i: int, j: int|
            0 <= i < j < self.connection_innovations@.len()
                ==> self.connection_innovations@[i].1 != self.connection_innovations@[j].1
    }

    /// Distinct pairs have distinct ids, and each id is below the counter.
    pub proof fn lemma_ids_distinct(&self, p: (usize, usize), q: (usize, usize))
        requires
            self.wf(),
            self@.connections.contains_key(p),
            self@.connections.contains_key(q),
            p != q,
        ensures
            self@.connections[p] != self@.connections[q],
            self@.connections[p] < self@.next_connection,
    {
        let s = self.connection_innovations@;
        lemma_assoc_key_has_entry(s, p);
        lemma_assoc_key_has_entry(s, q);
        let i = choose|i: int| 0 <= i < s.len() && s[i].0 == p && s[i].1 == assoc(s)[p];
        let j = choose|j: int| 0 <= j < s.len() && s[j].0 == q && s[j].1 == assoc(s)[q];
        assert(s[i].1 < self.connection_innovation_counter);
        if i < j {
        } else if j < i {
        }
    }

    pub fn new() -> (r: Self)
        ensures
            r.wf(),
            r@.next_node == 0,
            r@.next_connection == 0,
            r@.connections == Map::<(usize, usize), usize>::empty(),
            r@.splits == Map::<usize, (usize, usize, usize)>::empty(),
    {
        InnovationRecord {
            node_innovation_counter: 0,
            connection_innovation_counter: 0,
            connection_innovations: Vec::new(),
            node_splits: Vec::new(),
        }
    }

    /// The next node id.
    pub fn node_counter(&self) -> (r: usize)
        ensures
            r == self@.next_node,
    {
        self.node_innovation_counter
    }

    /// The next connection id.
    pub fn connection_counter(&self) -> (r: usize)
        ensures
            r == self@.next_connection,
    {
        self.connection_innovation_counter
    }

    /// A fresh node id.
    pub fn record_node_innovation(&mut self) -> (r: usize)
        requires
            old(self).wf(),
            old(self)@.next_node < usize::MAX,
        ensures
            final(self).wf(),
            r == old(self)@.next_node,
            final(self)@ == (RegistryModel { next_node: old(self)@.next_node + 1, ..old(self)@ }),
    {
        let innovation = self.node_innovation_counter;
        self.node_innovation_counter = self.node_innovation_counter + 1;
        innovation
    }

    fn find_connection(&self, in_node: usize, out_node: usize) -> (r: Option<usize>)
        requires
            self.wf(),
        ensures
            r == (if self@.connections.contains_key((in_node, out_node)) {
                Some(self@.connections[(in_node, out_node)])
            } else {
                None
            }),
    {
        let mut i: usize = 0;
        while i < self.connection_innovations.len()
            invariant
                self.wf(),
                i <= self.connection_innovations@.len(),
                forall|j: int| 0 <= j < i ==> self.connection_innovations@[j].0 != (in_node, out_node),
            decreases self.connection_innovations@.len() - i,
        {
            let (key, id) = self.connection_innovations[i];
            if key.0 == in_node && key.1 == out_node {
                proof {
                    lemma_assoc_lookup(self.connection_innovations@, i as int);
                }
                return Some(id);
            }
            i = i + 1;
        }
        proof {
            lemma_assoc_absent(self.connection_innovations@, (in_node, out_node));
        }
        None
    }

    /// The id of connection `(in_node, out_node)`: the one it was given
    /// before in this run, or a new one.
    pub fn record_connection_innovation(&mut self, in_node: usize, out_node: usize) -> (r: usize)
        requires
            old(self).wf(),
            old(self)@.next_connection < usize::MAX,
        ensures
            final(self).wf(),
            (final(self)@, r) == connection_step(old(self)@, in_node, out_node),
    {
        match self.find_connection(in_node, out_node) {
            Some(id) => id,
            None => {
                let innovation = self.connection_innovation_counter;
                let ghost s = self.connection_innovations@;
                proof {
                    lemma_assoc_push(s, ((in_node, out_node), innovation));
                    assert forall|j: int| 0 <= j < s.len() implies s[j].0 != (in_node, out_node) by {
                        if s[j].0 == (in_node, out_node) {
                            lemma_assoc_lookup(s, j);
                        }
                    }
                }
                self.connection_innovations.push(((in_node, out_node), innovation));
                self.connection_innovation_counter = self.connection_innovation_counter + 1;
                proof {
                    let t = self.connection_innovations@;
                    assert forall|i: int| 0 <= i < t.len() implies #[trigger] t[i].1
                        < self.connection_innovation_counter by {
                        if i < s.len() {
                            assert(t[i] == s[i]);
                        }
                    }
                    assert forall|i: int, j: int| 0 <= i < j < t.len() implies t[i].0 != t[j].0 by {
                        if j < s.len() {
                            assert(t[i] == s[i] && t[j] == s[j]);
                        } else {
                            assert(t[i] == s[i]);
                        }
                    }
                    assert forall|i: int, j: int| 0 <= i < j < t.len() implies t[i].1 != t[j].1 by {
                        if j < s.len() {
                            assert(t[i] == s[i] && t[j] == s[j]);
                        } else {
                            assert(t[i] == s[i]);
                            assert(s[i].1 < innovation);
                        }
                    }
                }
                innovation
            }
        }
    }

    fn find_split(&self, connection_id: usize) -> (r: Option<(usize, usize, usize)>)
        requires
            self.wf(),
        ensures
            r == (if self@.splits.contains_key(connection_id) {
                Some(self@.splits[connection_id])
            } else {
                None
            }),
    {
        let mut i: usize = 0;
        while i < self.node_splits.len()
            invariant
                self.wf(),
                i <= self.node_splits@.len(),
                forall|j: int| 0 <= j < i ==> self.node_splits@[j].0 != connection_id,
            decreases self.node_splits@.len() - i,
        {
            let (key, triple) = self.node_splits[i];
            if key == connection_id {
                proof {
                    lemma_assoc_lookup(self.node_splits@, i as int);
                }
                return Some(triple);
            }
            i = i + 1;
        }
        proof {
            lemma_assoc_absent(self.node_splits@, connection_id);
        }
        None
    }

    /// The split of connection `connection_id` (from `in_node` to `out_node`):
    /// `(new node id, id of in_node -> new, id of new -> out_node)`, the same
    /// triple each time the same connection is split in this run.
    pub fn record_node_split(&mut self, connection_id: usize, in_node: usize, out_node: usize) -> (r: (
        usize,
        usize,
        usize,
    ))
        requires
            old(self).wf(),
            old(self)@.next_node < usize::MAX,
            old(self)@.next_connection + 1 < usize::MAX,
        ensures
            final(self).wf(),
            (final(self)@, r) == split_step(old(self)@, connection_id, in_node, out_node),
    {
        if let Some(result) = self.find_split(connection_id) {
            return result;
        }
        let new_node_id = self.node_innovation_counter;
        self.node_innovation_counter = self.node_innovation_counter + 1;
        let in_to_new = self.record_connection_innovation(in_node, new_node_id);
        let new_to_out = self.record_connection_innovation(new_node_id, out_node);
        let result = (new_node_id, in_to_new, new_to_out);
        let ghost s = self.node_splits@;
        proof {
            lemma_assoc_push(s, (connection_id, result));
            assert forall|j: int| 0 <= j < s.len() implies s[j].0 != connection_id by {
                if s[j].0 == connection_id {
                    lemma_assoc_lookup(s, j);
                }
            }
        }
        self.node_splits.push((connection_id, result));
        proof {
            let t = self.node_splits@;
            assert forall|i: int, j: int| 0 <= i < j < t.len() implies t[i].0 != t[j].0 by {
                if j < s.len() {
                    assert(t[i] == s[i] && t[j] == s[j]);
                } else {
                    assert(t[i] == s[i]);
                }
            }
        }
        result
    }
}

/// Registering the same connection twice gives the same id, and the second
/// time changes nothing.
pub proof fn lemma_connection_idempotent(m: RegistryModel, a: usize, b: usize)
    ensures
        ({
            let (m1, r1) = connection_step(m, a, b);
            let (m2, r2) = connection_step(m1, a, b);
            r2 == r1 && m2 == m1
        }),
{
}

/// Splitting the same connection twice gives the same triple, whatever
/// endpoints the second request names, and the second time changes nothing.
pub proof fn lemma_split_idempotent(
    m: RegistryModel,
    c: usize,
    a: usize,
    b: usize,
    a2: usize,
    b2: usize,
)
    ensures
        ({
            let (m1, r1) = split_step(m, c, a, b);
            let (m2, r2) = split_step(m1, c, a2, b2);
            r2 == r1 && m2 == m1
        }),
{
}

} // verus!
