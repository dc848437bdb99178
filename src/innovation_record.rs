//! A simpler registry: connection ids are handed out in the order in which
//! pairs are first seen, and node ids by a counter.
use vstd::prelude::*;
use crate::assoc::{assoc, keys_unique, lemma_assoc_absent, lemma_assoc_lookup, lemma_assoc_push};

verus! {

pub struct InnovationRecord {
    /// `(from, to)` pairs with their ids; the entry at position `i` has id `i`.
    innovation_number: Vec<((usize, usize), usize)>,
    num_nodes: usize,
}

impl InnovationRecord {
    /// The ids given so far, by pair.
    pub closed spec fn innovations(&self) -> Map<(usize, usize), usize> {
        assoc(self.innovation_number@)
    }

    /// How many pairs have an id.
    pub closed spec fn count(&self) -> nat {
        self.innovation_number@.len()
    }

    /// The next node id.
    pub closed spec fn node_count(&self) -> nat {
        self.num_nodes as nat
    }

    pub closed spec fn wf(&self) -> bool {
        &&& keys_unique(self.innovation_number@)
        &&& forall|i: int|
            0 <= i < self.innovation_number@.len() ==> #[trigger] self.innovation_number@[i].1 == i
    }

    pub fn new() -> (r: Self)
        ensures
            r.wf(),
            r.node_count() == 0,
            r.count() == 0,
            r.innovations() == Map::<(usize, usize), usize>::empty(),
    {
        InnovationRecord { innovation_number: Vec::new(), num_nodes: 0 }
    }

    /// An empty registry whose node ids start at `num_nodes`, the ids below
    /// being taken by nodes that exist from the start.
    pub fn with_nodes(num_nodes: usize) -> (r: Self)
        ensures
            r.wf(),
            r.node_count() == num_nodes,
            r.count() == 0,
            r.innovations() == Map::<(usize, usize), usize>::empty(),
    {
        InnovationRecord { innovation_number: Vec::new(), num_nodes }
    }

    pub fn num_nodes(&self) -> (r: usize)
        ensures
            r == self.node_count(),
    {
        self.num_nodes
    }

    fn find(&self, from: usize, to: usize) -> (r: Option<usize>)
        requires
            self.wf(),
        ensures
            r == (if self.innovations().contains_key((from, to)) {
                Some(self.innovations()[(from, to)])
            } else {
                None
            }),
    {
        let mut i: usize = 0;
        while i < self.innovation_number.len()
            invariant
                self.wf(),
                i <= self.innovation_number@.len(),
                forall|j: int| 0 <= j < i ==> self.innovation_number@[j].0 != (from, to),
            decreases self.innovation_number@.len() - i,
        {
            let (key, id) = self.innovation_number[i];
            if key.0 == from && key.1 == to {
                proof {
                    lemma_assoc_lookup(self.innovation_number@, i as int);
                }
                return Some(id);
            }
            i = i + 1;
        }
        proof {
            lemma_assoc_absent(self.innovation_number@, (from, to));
        }
        None
    }

    pub fn has_innovation(&self, from: usize, to: usize) -> (r: bool)
        requires
            self.wf(),
        ensures
            r == self.innovations().contains_key((from, to)),
    {
        self.find(from, to).is_some()
    }

    /// The id of `(from, to)`: the one it has, or the number of pairs
    /// registered before it.
    pub fn new_innovation(&mut self, from: usize, to: usize) -> (r: usize)
        requires
            old(self).wf(),
        ensures
            final(self).wf(),
            final(self).node_count() == old(self).node_count(),
            old(self).innovations().contains_key((from, to)) ==> {
                &&& r == old(self).innovations()[(from, to)]
                &&& final(self).innovations() == old(self).innovations()
                &&& final(self).count() == old(self).count()
            },
            !old(self).innovations().contains_key((from, to)) ==> {
                &&& r == old(self).count()
                &&& final(self).innovations() == old(self).innovations().insert((from, to), r)
                &&& final(self).count() == old(self).count() + 1
            },
    {
        match self.find(from, to) {
            Some(id) => id,
            None => {
                let innovation = self.innovation_number.len();
                let ghost s = self.innovation_number@;
                proof {
                    lemma_assoc_push(s, ((from, to), innovation));
                    assert forall|j: int| 0 <= j < s.len() implies s[j].0 != (from, to) by {
                        if s[j].0 == (from, to) {
                            lemma_assoc_lookup(s, j);
                        }
                    }
                }
                self.innovation_number.push(((from, to), innovation));
                proof {
                    let t = self.innovation_number@;
                    assert forall|i: int| 0 <= i < t.len() implies #[trigger] t[i].1 == i by {
                        if i < s.len() {
                            assert(t[i] == s[i]);
                        }
                    }
                    assert forall|i: int, j: int| 0 <= i < j < t.len() implies t[i].0 != t[j].0 by {
                        if j < s.len() {
                            assert(t[i] == s[i] && t[j] == s[j]);
                        } else {
                            assert(t[i] == s[i]);
                        }
                    }
                }
                innovation
            }
        }
    }

    /// A fresh node id.
    pub fn new_node_innovation(&mut self) -> (r: usize)
        requires
            old(self).node_count() < usize::MAX,
        ensures
            r == old(self).node_count(),
            final(self).node_count() == old(self).node_count() + 1,
            final(self).innovations() == old(self).innovations(),
            final(self).count() == old(self).count(),
            final(self).wf() == old(self).wf(),
    {
        let innovation = self.num_nodes;
        self.num_nodes = self.num_nodes + 1;
        innovation
    }
}

} // verus!
