//! A genome: node genes, connection genes and the ids of its input, bias
//! and output nodes. Every operator here keeps the structural invariant
//! `wf`: unique node ids, unique `(source, target)` pairs, unique
//! innovation ids, no connection into an input or the bias, none out of an
//! output, no self-loop.
use vstd::prelude::*;
use rand::rngs::StdRng;
use crate::genome::genes::{ActivationFunction, ConnectionGene, NodeGene, NodeType};
use crate::random::{random_coin, random_index};
use crate::state::{connection_step, split_step, InnovationRecord};

verus! {

#[derive(Clone, Debug)]
pub struct Genome<W, P> {
    pub nodes: Vec<NodeGene<P>>,
    pub connections: Vec<ConnectionGene<W>>,
    pub input_nodes: Vec<usize>,
    pub bias_node: usize,
    pub output_nodes: Vec<usize>,
}

impl<W: Copy, P: Copy> Genome<W, P> {
    pub open spec fn has_node(&self, id: usize) -> bool {
        exists|i: int| 0 <= i < self.nodes@.len() && #[trigger] self.nodes@[i].id == id
    }

    /// An input or the bias: a node that is only ever a source.
    pub open spec fn is_source_only(&self, id: usize) -> bool {
        self.input_nodes@.contains(id) || id == self.bias_node
    }

    pub open spec fn is_output(&self, id: usize) -> bool {
        self.output_nodes@.contains(id)
    }

    pub open spec fn has_pair(&self, a: usize, b: usize) -> bool {
        exists|i: int|
            0 <= i < self.connections@.len() && #[trigger] self.connections@[i].in_node == a
                && self.connections@[i].out_node == b
    }

    pub open spec fn has_innovation(&self, k: usize) -> bool {
        exists|i: int|
            0 <= i < self.connections@.len() && #[trigger] self.connections@[i].innovation == k
    }

    /// A connection from `a` to `b` is allowed by the roles of the nodes.
    pub open spec fn can_link(&self, a: usize, b: usize) -> bool {
        &&& self.has_node(a)
        &&& self.has_node(b)
        &&& !self.is_output(a)
        &&& !self.is_source_only(b)
        &&& a != b
    }

    /// The gene may join the genome without breaking the invariant.
    pub open spec fn insertable(&self, c: ConnectionGene<W>) -> bool {
        &&& self.can_link(c.in_node, c.out_node)
        &&& !self.has_pair(c.in_node, c.out_node)
        &&& !self.has_innovation(c.innovation)
    }

    pub open spec fn nodes_unique(&self) -> bool {
        forall|i: int, j: int|
            0 <= i < j < self.nodes@.len() ==> self.nodes@[i].id != self.nodes@[j].id
    }

    pub open spec fn roles_wf(&self) -> bool {
        &&& self.has_node(self.bias_node)
        &&& forall|k: int| 0 <= k < self.input_nodes@.len() ==> self.has_node(#[trigger] self.input_nodes@[k])
        &&& forall|k: int| 0 <= k < self.output_nodes@.len() ==> self.has_node(#[trigger] self.output_nodes@[k])
        &&& !self.is_output(self.bias_node)
        &&& !self.input_nodes@.contains(self.bias_node)
        &&& forall|k: int| 0 <= k < self.input_nodes@.len() ==> !self.is_output(#[trigger] self.input_nodes@[k])
    }

    pub open spec fn connections_wf(&self) -> bool {
        &&& forall|i: int|
            0 <= i < self.connections@.len() ==> self.can_link(
                #[trigger] self.connections@[i].in_node,
                self.connections@[i].out_node,
            )
        &&& forall|i: int, j: int|
            0 <= i < j < self.connections@.len() ==> (self.connections@[i].in_node
                != self.connections@[j].in_node || self.connections@[i].out_node
                != self.connections@[j].out_node)
        &&& forall|i: int, j: int|
            0 <= i < j < self.connections@.len() ==> self.connections@[i].innovation
                != self.connections@[j].innovation
    }

    /// The structural invariant of a genome.
    pub open spec fn wf(&self) -> bool {
        &&& self.nodes_unique()
        &&& self.roles_wf()
        &&& self.connections_wf()
    }

    /// The role of node `id`.
    pub open spec fn role(&self, id: usize) -> NodeType {
        if id == self.bias_node {
            NodeType::Bias
        } else if self.input_nodes@.contains(id) {
            NodeType::Input
        } else if self.output_nodes@.contains(id) {
            NodeType::Output
        } else {
            NodeType::Hidden
        }
    }

    pub fn contains_node(&self, id: usize) -> (r: bool)
        ensures
            r == self.has_node(id),
    {
        let mut i: usize = 0;
        while i < self.nodes.len()
            invariant
                i <= self.nodes@.len(),
                forall|j: int| 0 <= j < i ==> self.nodes@[j].id != id,
            decreases self.nodes@.len() - i,
        {
            if self.nodes[i].id == id {
                return true;
            }
            i = i + 1;
        }
        false
    }

    pub fn contains_pair(&self, a: usize, b: usize) -> (r: bool)
        ensures
            r == self.has_pair(a, b),
    {
        let mut i: usize = 0;
        while i < self.connections.len()
            invariant
                i <= self.connections@.len(),
                forall|j: int|
                    0 <= j < i ==> !(self.connections@[j].in_node == a
                        && self.connections@[j].out_node == b),
            decreases self.connections@.len() - i,
        {
            if self.connections[i].in_node == a && self.connections[i].out_node == b {
                return true;
            }
            i = i + 1;
        }
        false
    }

    pub fn contains_innovation(&self, k: usize) -> (r: bool)
        ensures
            r == self.has_innovation(k),
    {
        let mut i: usize = 0;
        while i < self.connections.len()
            invariant
                i <= self.connections@.len(),
                forall|j: int| 0 <= j < i ==> self.connections@[j].innovation != k,
            decreases self.connections@.len() - i,
        {
            if self.connections[i].innovation == k {
                return true;
            }
            i = i + 1;
        }
        false
    }

    pub fn is_input_or_bias(&self, id: usize) -> (r: bool)
        ensures
            r == self.is_source_only(id),
    {
        if id == self.bias_node {
            return true;
        }
        vec_contains(&self.input_nodes, id)
    }

    pub fn is_output_node(&self, id: usize) -> (r: bool)
        ensures
            r == self.is_output(id),
    {
        vec_contains(&self.output_nodes, id)
    }

    /// The role of node `id`.
    pub fn node_type(&self, id: usize) -> (r: NodeType)
        ensures
            r == self.role(id),
    {
        if id == self.bias_node {
            NodeType::Bias
        } else if vec_contains(&self.input_nodes, id) {
            NodeType::Input
        } else if vec_contains(&self.output_nodes, id) {
            NodeType::Output
        } else {
            NodeType::Hidden
        }
    }

    pub fn may_link(&self, a: usize, b: usize) -> (r: bool)
        ensures
            r == self.can_link(a, b),
    {
        a != b && !self.is_output_node(a) && !self.is_input_or_bias(b) && self.contains_node(a)
            && self.contains_node(b)
    }

    fn nodes_distinct(&self) -> (r: bool)
        ensures
            r == self.nodes_unique(),
    {
        let n = self.nodes.len();
        let mut i: usize = 0;
        while i < n
            invariant
                n == self.nodes@.len(),
                i <= n,
                forall|x: int, y: int| 0 <= x < i && x < y < n ==> self.nodes@[x].id != self.nodes@[y].id,
            decreases n - i,
        {
            let mut j: usize = i + 1;
            while j < n
                invariant
                    n == self.nodes@.len(),
                    i < n,
                    i + 1 <= j <= n,
                    forall|x: int, y: int| 0 <= x < i && x < y < n ==> self.nodes@[x].id != self.nodes@[y].id,
                    forall|y: int| i < y < j ==> self.nodes@[i as int].id != self.nodes@[y].id,
                decreases n - j,
            {
                if self.nodes[i].id == self.nodes[j].id {
                    return false;
                }
                j = j + 1;
            }
            i = i + 1;
        }
        true
    }

    fn roles_consistent(&self) -> (r: bool)
        ensures
            r == self.roles_wf(),
    {
        if !self.contains_node(self.bias_node) || self.is_output_node(self.bias_node) || vec_contains(
            &self.input_nodes,
            self.bias_node,
        ) {
            return false;
        }
        let mut k: usize = 0;
        while k < self.input_nodes.len()
            invariant
                k <= self.input_nodes@.len(),
                forall|q: int|
                    0 <= q < k ==> self.has_node(#[trigger] self.input_nodes@[q]) && !self.is_output(
                        self.input_nodes@[q],
                    ),
            decreases self.input_nodes@.len() - k,
        {
            let id = self.input_nodes[k];
            if !self.contains_node(id) || self.is_output_node(id) {
                return false;
            }
            k = k + 1;
        }
        let mut k: usize = 0;
        while k < self.output_nodes.len()
            invariant
                k <= self.output_nodes@.len(),
                forall|q: int| 0 <= q < k ==> self.has_node(#[trigger] self.output_nodes@[q]),
            decreases self.output_nodes@.len() - k,
        {
            if !self.contains_node(self.output_nodes[k]) {
                return false;
            }
            k = k + 1;
        }
        true
    }

    fn connections_consistent(&self) -> (r: bool)
        ensures
            r == self.connections_wf(),
    {
        let n = self.connections.len();
        let mut i: usize = 0;
        while i < n
            invariant
                n == self.connections@.len(),
                i <= n,
                forall|x: int|
                    0 <= x < i ==> self.can_link(
                        #[trigger] self.connections@[x].in_node,
                        self.connections@[x].out_node,
                    ),
                forall|x: int, y: int|
                    0 <= x < i && x < y < n ==> (self.connections@[x].in_node
                        != self.connections@[y].in_node || self.connections@[x].out_node
                        != self.connections@[y].out_node),
                forall|x: int, y: int|
                    0 <= x < i && x < y < n ==> self.connections@[x].innovation
                        != self.connections@[y].innovation,
            decreases n - i,
        {
            let c = self.connections[i];
            if !self.may_link(c.in_node, c.out_node) {
                return false;
            }
            let mut j: usize = i + 1;
            while j < n
                invariant
                    n == self.connections@.len(),
                    i < n,
                    i + 1 <= j <= n,
                    c == self.connections@[i as int],
                    forall|x: int, y: int|
                        0 <= x < i && x < y < n ==> (self.connections@[x].in_node
                            != self.connections@[y].in_node || self.connections@[x].out_node
                            != self.connections@[y].out_node),
                    forall|x: int, y: int|
                        0 <= x < i && x < y < n ==> self.connections@[x].innovation
                            != self.connections@[y].innovation,
                    forall|y: int|
                        i < y < j ==> (c.in_node != self.connections@[y].in_node || c.out_node
                            != self.connections@[y].out_node) && c.innovation
                            != self.connections@[y].innovation,
                decreases n - j,
            {
                let d = self.connections[j];
                if (c.in_node == d.in_node && c.out_node == d.out_node) || c.innovation
                    == d.innovation {
                    return false;
                }
                j = j + 1;
            }
            i = i + 1;
        }
        true
    }

    /// Whether the genome meets its structural invariant.
    pub fn is_well_formed(&self) -> (r: bool)
        ensures
            r == self.wf(),
    {
        self.nodes_distinct() && self.roles_consistent() && self.connections_consistent()
    }

    /// Adds the gene when the invariant allows it; says whether it did.
    pub fn try_add_connection(&mut self, gene: ConnectionGene<W>) -> (r: bool)
        requires
            old(self).wf(),
        ensures
            final(self).wf(),
            r == old(self).insertable(gene),
            r ==> final(self).connections@ == old(self).connections@.push(gene),
            !r ==> final(self).connections@ == old(self).connections@,
            final(self).nodes@ == old(self).nodes@,
            final(self).input_nodes@ == old(self).input_nodes@,
            final(self).output_nodes@ == old(self).output_nodes@,
            final(self).bias_node == old(self).bias_node,
    {
        if !self.may_link(gene.in_node, gene.out_node) || self.contains_pair(
            gene.in_node,
            gene.out_node,
        ) || self.contains_innovation(gene.innovation) {
            return false;
        }
        let ghost g0 = *self;
        self.connections.push(gene);
        proof {
            let s = self.connections@;
            assert forall|i: int| 0 <= i < s.len() implies self.can_link(
                #[trigger] s[i].in_node,
                s[i].out_node,
            ) by {
                if i < s.len() - 1 {
                    assert(s[i] == g0.connections@[i]);
                    assert(g0.can_link(s[i].in_node, s[i].out_node));
                }
            }
            assert forall|i: int, j: int| 0 <= i < j < s.len() implies (s[i].in_node
                != s[j].in_node || s[i].out_node != s[j].out_node) by {
                assert(s[i] == g0.connections@[i]);
                if j < s.len() - 1 {
                    assert(s[j] == g0.connections@[j]);
                }
            }
            assert forall|i: int, j: int| 0 <= i < j < s.len() implies s[i].innovation
                != s[j].innovation by {
                assert(s[i] == g0.connections@[i]);
                if j < s.len() - 1 {
                    assert(s[j] == g0.connections@[j]);
                }
            }
        }
        true
    }

    /// The pairs an add-connection mutation may pick: every `(a, b)` of
    /// node ids that the roles allow and that is not yet connected.
    pub fn connection_candidates(&self) -> (r: Vec<(usize, usize)>)
        ensures
            forall|a: usize, b: usize|
                #[trigger] r@.contains((a, b)) <==> (self.can_link(a, b) && !self.has_pair(a, b)),
    {
        let mut r: Vec<(usize, usize)> = Vec::new();
        let n = self.nodes.len();
        let mut i: usize = 0;
        while i < n
            invariant
                n == self.nodes@.len(),
                i <= n,
                forall|a: usize, b: usize|
                    #[trigger] r@.contains((a, b)) <==> (self.can_link(a, b) && !self.has_pair(a, b)
                        && exists|x: int| 0 <= x < i && #[trigger] self.nodes@[x].id == a),
            decreases n - i,
        {
            let a = self.nodes[i].id;
            let ghost r0 = r@;
            let mut j: usize = 0;
            while j < n
                invariant
                    n == self.nodes@.len(),
                    i < n,
                    j <= n,
                    a == self.nodes@[i as int].id,
                    forall|x: usize, y: usize|
                        #[trigger] r@.contains((x, y)) <==> (r0.contains((x, y)) || (x == a
                            && self.can_link(x, y) && !self.has_pair(x, y) && exists|z: int|
                            0 <= z < j && #[trigger] self.nodes@[z].id == y)),
                decreases n - j,
            {
                let b = self.nodes[j].id;
                let ghost r1 = r@;
                if self.may_link(a, b) && !self.contains_pair(a, b) {
                    r.push((a, b));
                    proof {
                        assert forall|x: usize, y: usize|
                            #[trigger] r@.contains((x, y)) <==> (r1.contains((x, y)) || (x, y) == (a, b)) by {
                            if r@.contains((x, y)) {
                                let q = choose|q: int| 0 <= q < r@.len() && r@[q] == (x, y);
                                if q < r1.len() {
                                    assert(r1[q] == r@[q]);
                                }
                            }
                            if r1.contains((x, y)) {
                                let q = choose|q: int| 0 <= q < r1.len() && r1[q] == (x, y);
                                assert(r@[q] == r1[q]);
                            }
                            if (x, y) == (a, b) {
                                assert(r@[r1.len() as int] == (a, b));
                            }
                        }
                    }
                }
                proof {
                    assert forall|x: usize, y: usize|
                        #[trigger] r@.contains((x, y)) <==> (r0.contains((x, y)) || (x == a
                            && self.can_link(x, y) && !self.has_pair(x, y) && exists|z: int|
                            0 <= z < j + 1 && #[trigger] self.nodes@[z].id == y)) by {
                        if x == a && self.can_link(x, y) && !self.has_pair(x, y) && exists|z: int|
                            0 <= z < j + 1 && #[trigger] self.nodes@[z].id == y {
                            let z = choose|z: int| 0 <= z < j + 1 && #[trigger] self.nodes@[z].id == y;
                            if z < j {
                                assert(exists|z: int| 0 <= z < j && #[trigger] self.nodes@[z].id == y);
                            }
                        }
                    }
                }
                j = j + 1;
            }
            proof {
                assert forall|x: usize, y: usize|
                    #[trigger] r@.contains((x, y)) <==> (self.can_link(x, y) && !self.has_pair(x, y)
                        && exists|z: int| 0 <= z < i + 1 && #[trigger] self.nodes@[z].id == x) by {
                    if self.can_link(x, y) && !self.has_pair(x, y) && exists|z: int|
                        0 <= z < i + 1 && #[trigger] self.nodes@[z].id == x {
                        let z = choose|z: int| 0 <= z < i + 1 && #[trigger] self.nodes@[z].id == x;
                        if z < i {
                            assert(exists|z: int| 0 <= z < i && #[trigger] self.nodes@[z].id == x);
                        } else {
                            let w = choose|w: int| 0 <= w < self.nodes@.len() && #[trigger] self.nodes@[w].id == y;
                            assert(exists|z: int| 0 <= z < n && #[trigger] self.nodes@[z].id == y);
                        }
                    }
                }
            }
            i = i + 1;
        }
        r
    }

    /// Picks a candidate pair uniformly at random and connects it with the
    /// given weight and the registry's id for the pair, unless the genome
    /// already holds a gene with that id. Says whether a gene was added.
    pub fn add_connection_mutation(
        &mut self,
        rng: &mut StdRng,
        weight: W,
        innovation: &mut InnovationRecord,
    ) -> (r: bool)
        requires
            old(self).wf(),
            old(innovation).wf(),
            old(innovation)@.next_connection < usize::MAX,
        ensures
            final(self).wf(),
            final(innovation).wf(),
            final(self).nodes@ == old(self).nodes@,
            final(self).input_nodes@ == old(self).input_nodes@,
            final(self).output_nodes@ == old(self).output_nodes@,
            final(self).bias_node == old(self).bias_node,
            r ==> exists|a: usize, b: usize|
                {
                    &&& old(self).can_link(a, b)
                    &&& !old(self).has_pair(a, b)
                    &&& final(innovation)@ == connection_step(old(innovation)@, a, b).0
                    &&& final(self).connections@ == old(self).connections@.push(
                        ConnectionGene {
                            weight,
                            enabled: true,
                            in_node: a,
                            out_node: b,
                            innovation: connection_step(old(innovation)@, a, b).1,
                        },
                    )
                },
            !r ==> final(self).connections@ == old(self).connections@,
            !r ==> (final(innovation)@ == old(innovation)@ || exists|a: usize, b: usize|
                old(self).can_link(a, b) && !old(self).has_pair(a, b) && final(innovation)@
                    == connection_step(old(innovation)@, a, b).0),
            (forall|a: usize, b: usize| old(self).can_link(a, b) ==> old(self).has_pair(a, b))
                ==> !r && final(innovation)@ == old(innovation)@,
            !r ==> (forall|a: usize, b: usize| old(self).can_link(a, b) ==> old(self).has_pair(a, b))
                || exists|a: usize, b: usize|
                old(self).can_link(a, b) && !old(self).has_pair(a, b) && old(self).has_innovation(
                    connection_step(old(innovation)@, a, b).1,
                ),
    {
        let candidates = self.connection_candidates();
        if candidates.len() == 0 {
            proof {
                assert forall|a: usize, b: usize| !(self.can_link(a, b) && !self.has_pair(a, b)) by {
                    if self.can_link(a, b) && !self.has_pair(a, b) {
                        assert(candidates@.contains((a, b)));
                    }
                }
            }
            return false;
        }
        let k = random_index(rng, candidates.len());
        let (a, b) = candidates[k];
        proof {
            assert(candidates@.contains((a, b)));
        }
        let id = innovation.record_connection_innovation(a, b);
        if self.contains_innovation(id) {
            proof {
                assert(self.can_link(a, b) && !self.has_pair(a, b));
            }
            return false;
        }
        let gene = ConnectionGene::new((a, b), weight, id);
        let added = self.try_add_connection(gene);
        proof {
            assert(gene == ConnectionGene {
                weight,
                enabled: true,
                in_node: a,
                out_node: b,
                innovation: connection_step(old(innovation)@, a, b).1,
            });
        }
        added
    }

    /// Flips `enabled` on one connection chosen uniformly at random and
    /// returns its position; `None` when there is no connection.
    pub fn toggle_enable_mutation(&mut self, rng: &mut StdRng) -> (r: Option<usize>)
        requires
            old(self).wf(),
        ensures
            final(self).wf(),
            final(self).nodes@ == old(self).nodes@,
            final(self).input_nodes@ == old(self).input_nodes@,
            final(self).output_nodes@ == old(self).output_nodes@,
            final(self).bias_node == old(self).bias_node,
            r is None <==> old(self).connections@.len() == 0,
            r is None ==> final(self).connections@ == old(self).connections@,
            r matches Some(k) ==> k < old(self).connections@.len() && final(self).connections@
                == old(self).connections@.update(
                k as int,
                ConnectionGene {
                    enabled: !old(self).connections@[k as int].enabled,
                    ..old(self).connections@[k as int]
                },
            ),
    {
        if self.connections.len() == 0 {
            return None;
        }
        let k = random_index(rng, self.connections.len());
        let mut gene = self.connections[k];
        gene.enabled = !gene.enabled;
        let ghost g0 = *self;
        self.connections.set(k, gene);
        proof {
            let s = self.connections@;
            assert forall|i: int| 0 <= i < s.len() implies self.can_link(
                #[trigger] s[i].in_node,
                s[i].out_node,
            ) by {
                assert(g0.can_link(g0.connections@[i].in_node, g0.connections@[i].out_node));
            }
            assert forall|i: int, j: int| 0 <= i < j < s.len() implies (s[i].in_node
                != s[j].in_node || s[i].out_node != s[j].out_node) by {
                assert(g0.connections@[i].in_node != g0.connections@[j].in_node
                    || g0.connections@[i].out_node != g0.connections@[j].out_node);
            }
            assert forall|i: int, j: int| 0 <= i < j < s.len() implies s[i].innovation
                != s[j].innovation by {
                assert(g0.connections@[i].innovation != g0.connections@[j].innovation);
            }
        }
        Some(k)
    }

    /// Sets `enabled` of the connection at position `k`.
    pub fn set_enabled(&mut self, k: usize, enabled: bool)
        requires
            old(self).wf(),
            k < old(self).connections@.len(),
        ensures
            final(self).wf(),
            final(self).nodes@ == old(self).nodes@,
            final(self).input_nodes@ == old(self).input_nodes@,
            final(self).output_nodes@ == old(self).output_nodes@,
            final(self).bias_node == old(self).bias_node,
            final(self).connections@ == old(self).connections@.update(
                k as int,
                ConnectionGene { enabled, ..old(self).connections@[k as int] },
            ),
    {
        let mut gene = self.connections[k];
        gene.enabled = enabled;
        let ghost g0 = *self;
        self.connections.set(k, gene);
        proof {
            let s = self.connections@;
            assert forall|i: int| 0 <= i < s.len() implies self.can_link(
                #[trigger] s[i].in_node,
                s[i].out_node,
            ) by {
                assert(g0.can_link(g0.connections@[i].in_node, g0.connections@[i].out_node));
            }
            assert forall|i: int, j: int| 0 <= i < j < s.len() implies (s[i].in_node
                != s[j].in_node || s[i].out_node != s[j].out_node) by {
                assert(g0.connections@[i].in_node != g0.connections@[j].in_node
                    || g0.connections@[i].out_node != g0.connections@[j].out_node);
            }
            assert forall|i: int, j: int| 0 <= i < j < s.len() implies s[i].innovation
                != s[j].innovation by {
                assert(g0.connections@[i].innovation != g0.connections@[j].innovation);
            }
        }
    }

    /// Adds the node unless its id is taken; says whether it did.
    pub fn add_node_gene(&mut self, node: NodeGene<P>) -> (r: bool)
        requires
            old(self).wf(),
        ensures
            final(self).wf(),
            r == !old(self).has_node(node.id),
            r ==> final(self).nodes@ == old(self).nodes@.push(node),
            !r ==> final(self).nodes@ == old(self).nodes@,
            final(self).has_node(node.id),
            forall|x: usize| old(self).has_node(x) ==> #[trigger] final(self).has_node(x),
            final(self).connections@ == old(self).connections@,
            final(self).input_nodes@ == old(self).input_nodes@,
            final(self).output_nodes@ == old(self).output_nodes@,
            final(self).bias_node == old(self).bias_node,
    {
        if self.contains_node(node.id) {
            return false;
        }
        let ghost g0 = *self;
        self.nodes.push(node);
        proof {
            let s = self.nodes@;
            assert(s[s.len() - 1].id == node.id);
            assert forall|x: usize| g0.has_node(x) implies #[trigger] self.has_node(x) by {
                let i = choose|i: int| 0 <= i < g0.nodes@.len() && #[trigger] g0.nodes@[i].id == x;
                assert(s[i] == g0.nodes@[i]);
            }
            assert forall|i: int, j: int| 0 <= i < j < s.len() implies s[i].id != s[j].id by {
                assert(s[i] == g0.nodes@[i]);
                if j < s.len() - 1 {
                    assert(s[j] == g0.nodes@[j]);
                }
            }
            assert forall|k: int| 0 <= k < self.input_nodes@.len() implies self.has_node(
                #[trigger] self.input_nodes@[k],
            ) by {
                assert(g0.has_node(g0.input_nodes@[k]));
            }
            assert forall|k: int| 0 <= k < self.output_nodes@.len() implies self.has_node(
                #[trigger] self.output_nodes@[k],
            ) by {
                assert(g0.has_node(g0.output_nodes@[k]));
            }
            assert forall|i: int| 0 <= i < self.connections@.len() implies self.can_link(
                #[trigger] self.connections@[i].in_node,
                self.connections@[i].out_node,
            ) by {
                assert(g0.can_link(g0.connections@[i].in_node, g0.connections@[i].out_node));
            }
            assert(g0.has_node(g0.bias_node));
        }
        true
    }

    /// Splits an enabled connection chosen uniformly at random: disables it,
    /// asks the registry for the split's node and connection ids, adds the
    /// node (a hidden node with the given activation and parameters) unless
    /// the genome has it, then the connection into it with `unit_weight` and
    /// the one out of it with the old weight, each where the invariant allows.
    /// Returns the registry's triple; `None` when no connection is enabled.
    pub fn add_node_mutation(
        &mut self,
        rng: &mut StdRng,
        activation: ActivationFunction,
        params: P,
        unit_weight: W,
        innovation: &mut InnovationRecord,
    ) -> (r: Option<(usize, usize, usize)>)
        requires
            old(self).wf(),
            old(innovation).wf(),
            old(innovation)@.next_node < usize::MAX,
            old(innovation)@.next_connection + 1 < usize::MAX,
        ensures
            final(self).wf(),
            final(innovation).wf(),
            final(self).input_nodes@ == old(self).input_nodes@,
            final(self).output_nodes@ == old(self).output_nodes@,
            final(self).bias_node == old(self).bias_node,
            r is None <==> (forall|i: int|
                0 <= i < old(self).connections@.len() ==> !(#[trigger] old(self).connections@[i]).enabled),
            r is None ==> *final(self) == *old(self) && final(innovation)@ == old(innovation)@,
            r matches Some(t) ==> exists|k: int|
                {
                    let c = #[trigger] old(self).connections@[k];
                    let (n, i1, i2) = t;
                    &&& 0 <= k < old(self).connections@.len()
                    &&& c.enabled
                    &&& (final(innovation)@, t) == split_step(
                        old(innovation)@,
                        c.innovation,
                        c.in_node,
                        c.out_node,
                    )
                    &&& final(self).has_node(n)
                    &&& old(self).connections@.len() <= final(self).connections@.len()
                        <= old(self).connections@.len() + 2
                    &&& final(self).connections@.subrange(0, old(self).connections@.len() as int)
                        == old(self).connections@.update(k, ConnectionGene { enabled: false, ..c })
                    &&& forall|q: int|
                        old(self).connections@.len() <= q < final(self).connections@.len()
                            ==> #[trigger] final(self).connections@[q] == ConnectionGene::<W>::new_spec(
                            (c.in_node, n),
                            unit_weight,
                            i1,
                        ) || final(self).connections@[q] == ConnectionGene::<W>::new_spec(
                            (n, c.out_node),
                            c.weight,
                            i2,
                        )
                    &&& (old(self).role(n) == NodeType::Hidden && n != c.in_node && n
                        != c.out_node && i1 != i2 && !old(self).has_innovation(i1)
                        && !old(self).has_innovation(i2)) ==> final(self).has_pair(c.in_node, n)
                        && final(self).has_pair(n, c.out_node)
                },
    {
        let mut enabled: Vec<usize> = Vec::new();
        let mut i: usize = 0;
        while i < self.connections.len()
            invariant
                i <= self.connections@.len(),
                forall|q: int|
                    0 <= q < enabled@.len() ==> #[trigger] enabled@[q] < self.connections@.len()
                        && self.connections@[enabled@[q] as int].enabled,
                enabled@.len() == 0 ==> forall|j: int|
                    0 <= j < i ==> !(#[trigger] self.connections@[j]).enabled,
            decreases self.connections@.len() - i,
        {
            if self.connections[i].enabled {
                enabled.push(i);
            }
            i = i + 1;
        }
        if enabled.len() == 0 {
            return None;
        }
        let k = enabled[random_index(rng, enabled.len())];
        let c = self.connections[k];
        let ghost g0 = *self;
        let ghost reg0 = innovation@;
        self.set_enabled(k, false);
        let ghost g1 = *self;
        let (n, i1, i2) = innovation.record_node_split(c.innovation, c.in_node, c.out_node);
        self.add_node_gene(NodeGene::new(n, activation, params));
        let ghost g2 = *self;
        let in_half = ConnectionGene::new((c.in_node, n), unit_weight, i1);
        let out_half = ConnectionGene::new((n, c.out_node), c.weight, i2);
        let added_in = self.try_add_connection(in_half);
        let ghost g3 = *self;
        self.try_add_connection(out_half);
        proof {
            let len0 = g0.connections@.len();
            assert(self.connections@.subrange(0, len0 as int) =~= g1.connections@);
            assert(self.has_node(n));
            assert forall|x: int|
                0 <= x < g1.connections@.len() implies #[trigger] g1.connections@[x].innovation
                == g0.connections@[x].innovation by {}
            if g0.role(n) == NodeType::Hidden && n != c.in_node && n != c.out_node && i1 != i2
                && !g0.has_innovation(i1) && !g0.has_innovation(i2) {
                assert(g0.can_link(g0.connections@[k as int].in_node, g0.connections@[k as int].out_node));
                assert(!g1.has_innovation(i1)) by {
                    if g1.has_innovation(i1) {
                        let x = choose|x: int| 0 <= x < g1.connections@.len() && #[trigger] g1.connections@[x].innovation == i1;
                        assert(g0.connections@[x].innovation == i1);
                    }
                }
                assert(!g1.has_innovation(i2)) by {
                    if g1.has_innovation(i2) {
                        let x = choose|x: int| 0 <= x < g1.connections@.len() && #[trigger] g1.connections@[x].innovation == i2;
                        assert(g0.connections@[x].innovation == i2);
                    }
                }
                assert(g2.has_node(c.in_node));
                assert(g2.has_node(c.out_node));
                assert(g2.can_link(c.in_node, n));
                if added_in {
                    assert(g3.connections@[g2.connections@.len() as int] == in_half);
                    assert(g3.has_pair(c.in_node, n));
                }
                assert(g3.has_pair(c.in_node, n));
                assert(!g3.has_innovation(i2)) by {
                    if g3.has_innovation(i2) {
                        let x = choose|x: int| 0 <= x < g3.connections@.len() && #[trigger] g3.connections@[x].innovation == i2;
                        if x < g2.connections@.len() {
                            assert(g2.connections@[x] == g3.connections@[x]);
                        }
                    }
                }
                assert(g3.can_link(n, c.out_node));
                assert(self.has_pair(c.in_node, n)) by {
                    let x = choose|x: int| 0 <= x < g3.connections@.len() && #[trigger] g3.connections@[x].in_node == c.in_node && g3.connections@[x].out_node == n;
                    assert(self.connections@[x] == g3.connections@[x]);
                }
                if !g3.has_pair(n, c.out_node) {
                    assert(self.connections@[g3.connections@.len() as int] == out_half);
                }
                assert(self.has_pair(n, c.out_node)) by {
                    if g3.has_pair(n, c.out_node) {
                        let x = choose|x: int| 0 <= x < g3.connections@.len() && #[trigger] g3.connections@[x].in_node == n && g3.connections@[x].out_node == c.out_node;
                        assert(self.connections@[x] == g3.connections@[x]);
                    } else {
                        assert(self.connections@[g3.connections@.len() as int] == out_half);
                    }
                }
            }
            assert(g0.connections@[k as int] == c);
        }
        Some((n, i1, i2))
    }

    /// The genesis genome: `input_size` input nodes and the bias node (both
    /// with the Identity activation and `input_params`), then `output_size`
    /// output nodes with `output_activation` and `output_params`, all with
    /// fresh node ids; and an enabled connection from every input and the
    /// bias to every output, with the registry's id for its pair and the
    /// weights taken in order from `weights`.
    pub fn create_initial_genome(
        input_size: usize,
        output_size: usize,
        output_activation: ActivationFunction,
        input_params: P,
        output_params: &Vec<P>,
        weights: &Vec<W>,
        innovation: &mut InnovationRecord,
    ) -> (r: Self)
        requires
            old(innovation).wf(),
            output_params@.len() == output_size,
            weights@.len() == (input_size + 1) * output_size,
            old(innovation)@.next_node + input_size + output_size + 1 <= usize::MAX,
            old(innovation)@.next_connection + (input_size + 1) * output_size < usize::MAX,
        ensures
            r.wf(),
            final(innovation).wf(),
            ({
                let n0 = old(innovation)@.next_node;
                &&& final(innovation)@.next_node == n0 + input_size + output_size + 1
                &&& r.input_nodes@ == Seq::new(input_size as nat, |i: int| (n0 + i) as usize)
                &&& r.bias_node == n0 + input_size
                &&& r.output_nodes@ == Seq::new(
                    output_size as nat,
                    |i: int| (n0 + input_size + 1 + i) as usize,
                )
                &&& r.nodes@.len() == input_size + output_size + 1
                &&& forall|i: int|
                    0 <= i < r.nodes@.len() ==> (#[trigger] r.nodes@[i]).id == n0 + i
                        && r.nodes@[i].activation == (if i <= input_size {
                            ActivationFunction::Identity
                        } else {
                            output_activation
                        }) && r.nodes@[i].params == (if i <= input_size {
                            input_params
                        } else {
                            output_params@[i - input_size - 1]
                        })
            }),
            r.connections@.len() == (input_size + 1) * output_size,
            forall|a: usize, b: usize|
                #[trigger] r.has_pair(a, b) <==> (r.is_source_only(a) && r.is_output(b)),
            forall|i: int|
                0 <= i < r.connections@.len() ==> {
                    let c = #[trigger] r.connections@[i];
                    &&& c.enabled
                    &&& c.weight == weights@[i]
                    &&& final(innovation)@.connections.contains_key((c.in_node, c.out_node))
                    &&& final(innovation)@.connections[(c.in_node, c.out_node)] == c.innovation
                },
    {
        let ghost n0 = innovation@.next_node;
        let mut g: Genome<W, P> = Genome {
            nodes: Vec::new(),
            connections: Vec::new(),
            input_nodes: Vec::new(),
            bias_node: 0,
            output_nodes: Vec::new(),
        };
        let mut i: usize = 0;
        while i < input_size
            invariant
                innovation.wf(),
                n0 == old(innovation)@.next_node,
                innovation@.next_node == n0 + i,
                innovation@.next_connection == old(innovation)@.next_connection,
                innovation@.connections == old(innovation)@.connections,
                n0 + input_size + output_size + 1 <= usize::MAX,
                i <= input_size,
                g.nodes@.len() == i,
                g.connections@.len() == 0,
                g.output_nodes@.len() == 0,
                g.input_nodes@ == Seq::new(i as nat, |x: int| (n0 + x) as usize),
                forall|x: int|
                    0 <= x < i ==> (#[trigger] g.nodes@[x]).id == n0 + x && g.nodes@[x].activation
                        == ActivationFunction::Identity && g.nodes@[x].params == input_params,
            decreases input_size - i,
        {
            let id = innovation.record_node_innovation();
            g.nodes.push(NodeGene::new(id, ActivationFunction::Identity, input_params));
            g.input_nodes.push(id);
            proof {
                assert(g.input_nodes@ =~= Seq::new((i + 1) as nat, |x: int| (n0 + x) as usize));
            }
            i = i + 1;
        }
        let bias_idx = innovation.record_node_innovation();
        g.nodes.push(NodeGene::new(bias_idx, ActivationFunction::Identity, input_params));
        g.bias_node = bias_idx;
        proof {
            assert(g.output_nodes@ =~= Seq::new(0, |x: int| (n0 + input_size + 1 + x) as usize));
        }
        let mut j: usize = 0;
        while j < output_size
            invariant
                innovation.wf(),
                n0 == old(innovation)@.next_node,
                innovation@.next_node == n0 + input_size + 1 + j,
                innovation@.next_connection == old(innovation)@.next_connection,
                innovation@.connections == old(innovation)@.connections,
                n0 + input_size + output_size + 1 <= usize::MAX,
                output_params@.len() == output_size,
                j <= output_size,
                g.nodes@.len() == input_size + 1 + j,
                g.bias_node == n0 + input_size,
                g.connections@.len() == 0,
                g.input_nodes@ == Seq::new(input_size as nat, |x: int| (n0 + x) as usize),
                g.output_nodes@ == Seq::new(j as nat, |x: int| (n0 + input_size + 1 + x) as usize),
                forall|x: int|
                    0 <= x < g.nodes@.len() ==> (#[trigger] g.nodes@[x]).id == n0 + x
                        && g.nodes@[x].activation == (if x <= input_size {
                            ActivationFunction::Identity
                        } else {
                            output_activation
                        }) && g.nodes@[x].params == (if x <= input_size {
                            input_params
                        } else {
                            output_params@[x - input_size - 1]
                        }),
            decreases output_size - j,
        {
            let id = innovation.record_node_innovation();
            g.nodes.push(NodeGene::new(id, output_activation, output_params[j]));
            g.output_nodes.push(id);
            proof {
                assert(g.output_nodes@ =~= Seq::new(
                    (j + 1) as nat,
                    |x: int| (n0 + input_size + 1 + x) as usize,
                ));
            }
            j = j + 1;
        }
        proof {
            assert forall|a: usize| #[trigger] g.has_node(a) <==> n0 <= a < n0 + input_size
                + output_size + 1 by {
                if n0 <= a < n0 + input_size + output_size + 1 {
                    assert(g.nodes@[a - n0].id == a);
                }
            }
            assert forall|a: usize| #[trigger] g.is_source_only(a) <==> n0 <= a <= n0 + input_size by {
                if n0 <= a < n0 + input_size {
                    assert(g.input_nodes@[a - n0] == a);
                }
            }
            assert forall|a: usize| #[trigger] g.is_output(a) <==> n0 + input_size + 1 <= a < n0
                + input_size + output_size + 1 by {
                if n0 + input_size + 1 <= a < n0 + input_size + output_size + 1 {
                    assert(g.output_nodes@[a - n0 - input_size - 1] == a);
                }
            }
            assert forall|x: int, y: int| 0 <= x < y < g.nodes@.len() implies g.nodes@[x].id
                != g.nodes@[y].id by {
                assert(g.nodes@[x].id == n0 + x);
                assert(g.nodes@[y].id == n0 + y);
            }
            assert forall|k: int| 0 <= k < g.input_nodes@.len() implies g.has_node(
                #[trigger] g.input_nodes@[k],
            ) by {
                assert(g.has_node(g.input_nodes@[k]));
            }
            assert forall|k: int| 0 <= k < g.output_nodes@.len() implies g.has_node(
                #[trigger] g.output_nodes@[k],
            ) by {
                assert(g.has_node(g.output_nodes@[k]));
            }
            assert forall|k: int| 0 <= k < g.input_nodes@.len() implies !g.is_output(
                #[trigger] g.input_nodes@[k],
            ) by {
                assert(g.is_source_only(g.input_nodes@[k]));
            }
            assert(g.has_node(g.bias_node));
        }
        let first: usize = g.nodes[0].id;
        let src_end = input_size + 1;
        let ghost out0 = n0 + input_size + 1;
        let mut si: usize = 0;
        while si < src_end
            invariant
                g.wf(),
                innovation.wf(),
                n0 == old(innovation)@.next_node,
                first == n0,
                out0 == n0 + input_size + 1,
                src_end == input_size + 1,
                si <= src_end,
                n0 + input_size + output_size + 1 <= usize::MAX,
                weights@.len() == (input_size + 1) * output_size,
                old(innovation)@.next_connection + (input_size + 1) * output_size < usize::MAX,
                innovation@.next_connection <= old(innovation)@.next_connection + g.connections@.len(),
                innovation@.next_node == n0 + input_size + output_size + 1,
                g.connections@.len() == si * output_size,
                g.nodes@.len() == input_size + output_size + 1,
                g.bias_node == n0 + input_size,
                g.input_nodes@ == Seq::new(input_size as nat, |x: int| (n0 + x) as usize),
                g.output_nodes@ == Seq::new(output_size as nat, |x: int| (n0 + input_size + 1 + x) as usize),
                forall|x: int|
                    0 <= x < g.nodes@.len() ==> (#[trigger] g.nodes@[x]).id == n0 + x
                        && g.nodes@[x].activation == (if x <= input_size {
                            ActivationFunction::Identity
                        } else {
                            output_activation
                        }) && g.nodes@[x].params == (if x <= input_size {
                            input_params
                        } else {
                            output_params@[x - input_size - 1]
                        }),
                forall|a: usize| #[trigger] g.has_node(a) <==> n0 <= a < n0 + input_size + output_size + 1,
                forall|a: usize| #[trigger] g.is_source_only(a) <==> n0 <= a <= n0 + input_size,
                forall|a: usize| #[trigger] g.is_output(a) <==> out0 <= a < out0 + output_size,
                forall|a: usize, b: usize|
                    #[trigger] g.has_pair(a, b) <==> (n0 <= a < n0 + si && out0 <= b < out0 + output_size),
                forall|x: int|
                    0 <= x < g.connections@.len() ==> {
                        let c = #[trigger] g.connections@[x];
                        &&& c.enabled
                        &&& c.weight == weights@[x]
                        &&& innovation@.connections.contains_key((c.in_node, c.out_node))
                        &&& innovation@.connections[(c.in_node, c.out_node)] == c.innovation
                    },
            decreases src_end - si,
        {
            let s = first + si;
            let mut ti: usize = 0;
            while ti < output_size
                invariant
                    g.wf(),
                    innovation.wf(),
                    n0 == old(innovation)@.next_node,
                    out0 == n0 + input_size + 1,
                    src_end == input_size + 1,
                    si < src_end,
                    s == n0 + si,
                    ti <= output_size,
                    n0 + input_size + output_size + 1 <= usize::MAX,
                    weights@.len() == (input_size + 1) * output_size,
                    old(innovation)@.next_connection + (input_size + 1) * output_size < usize::MAX,
                    innovation@.next_connection <= old(innovation)@.next_connection + g.connections@.len(),
                    innovation@.next_node == n0 + input_size + output_size + 1,
                    g.connections@.len() == si * output_size + ti,
                    g.nodes@.len() == input_size + output_size + 1,
                    g.bias_node == n0 + input_size,
                    g.input_nodes@ == Seq::new(input_size as nat, |x: int| (n0 + x) as usize),
                    g.output_nodes@ == Seq::new(output_size as nat, |x: int| (n0 + input_size + 1 + x) as usize),
                    forall|x: int|
                        0 <= x < g.nodes@.len() ==> (#[trigger] g.nodes@[x]).id == n0 + x
                            && g.nodes@[x].activation == (if x <= input_size {
                                ActivationFunction::Identity
                            } else {
                                output_activation
                            }) && g.nodes@[x].params == (if x <= input_size {
                                input_params
                            } else {
                                output_params@[x - input_size - 1]
                            }),
                    forall|a: usize| #[trigger] g.has_node(a) <==> n0 <= a < n0 + input_size + output_size + 1,
                    forall|a: usize| #[trigger] g.is_source_only(a) <==> n0 <= a <= n0 + input_size,
                    forall|a: usize| #[trigger] g.is_output(a) <==> out0 <= a < out0 + output_size,
                    forall|a: usize, b: usize|
                        #[trigger] g.has_pair(a, b) <==> ((n0 <= a < s && out0 <= b < out0 + output_size)
                            || (a == s && out0 <= b < out0 + ti)),
                    forall|x: int|
                        0 <= x < g.connections@.len() ==> {
                            let c = #[trigger] g.connections@[x];
                            &&& c.enabled
                            &&& c.weight == weights@[x]
                            &&& innovation@.connections.contains_key((c.in_node, c.out_node))
                            &&& innovation@.connections[(c.in_node, c.out_node)] == c.innovation
                        },
                decreases output_size - ti,
            {
                let t = g.output_nodes[ti];
                assert((si * output_size + ti) < (input_size + 1) * output_size) by (nonlinear_arith)
                    requires
                        si < input_size + 1,
                        ti < output_size,
                ;
                let ghost reg0 = innovation@;
                let id = innovation.record_connection_innovation(s, t);
                let w = weights[g.connections.len()];
                let gene = ConnectionGene::new((s, t), w, id);
                let ghost g0 = g;
                proof {
                    assert(t == out0 + ti);
                    assert(!g.has_pair(s, t));
                    assert(g.has_node(s) && g.has_node(t));
                    assert(!g.is_output(s));
                    assert(!g.is_source_only(t));
                    assert forall|x: int| 0 <= x < g.connections@.len() implies {
                        let c = #[trigger] g.connections@[x];
                        &&& innovation@.connections.contains_key((c.in_node, c.out_node))
                        &&& innovation@.connections[(c.in_node, c.out_node)] == c.innovation
                    } by {
                        let c = g.connections@[x];
                        assert(g.has_pair(c.in_node, c.out_node));
                    }
                    assert(!g.has_innovation(id)) by {
                        if g.has_innovation(id) {
                            let x = choose|x: int| 0 <= x < g.connections@.len() && #[trigger] g.connections@[x].innovation == id;
                            let c = g.connections@[x];
                            assert(g.has_pair(c.in_node, c.out_node));
                            innovation.lemma_ids_distinct((c.in_node, c.out_node), (s, t));
                        }
                    }
                }
                let added = g.try_add_connection(gene);
                proof {
                    assert(added);
                    assert(g.connections@[g0.connections@.len() as int] == gene);
                    assert forall|x: int| 0 <= x < g.nodes@.len() implies (#[trigger] g.nodes@[x]).id == n0 + x by {
                        assert(g.nodes@[x] == g0.nodes@[x]);
                    }
                    assert forall|a: usize| #[trigger] g.has_node(a) <==> g0.has_node(a) by {}
                    assert forall|a: usize| #[trigger] g.is_source_only(a) <==> g0.is_source_only(a) by {}
                    assert forall|a: usize| #[trigger] g.is_output(a) <==> g0.is_output(a) by {}
                    assert forall|a: usize, b: usize|
                        #[trigger] g.has_pair(a, b) <==> (g0.has_pair(a, b) || (a == s && b == t)) by {
                        if g.has_pair(a, b) {
                            let x = choose|x: int| 0 <= x < g.connections@.len() && #[trigger] g.connections@[x].in_node == a && g.connections@[x].out_node == b;
                            if x < g0.connections@.len() {
                                assert(g0.connections@[x] == g.connections@[x]);
                            }
                        }
                        if g0.has_pair(a, b) {
                            let x = choose|x: int| 0 <= x < g0.connections@.len() && #[trigger] g0.connections@[x].in_node == a && g0.connections@[x].out_node == b;
                            assert(g0.connections@[x] == g.connections@[x]);
                        }
                    }
                    assert(si * output_size + ti + 1 == si * output_size + (ti + 1));
                }
                ti = ti + 1;
            }
            proof {
                assert((si + 1) * output_size == si * output_size + output_size) by (nonlinear_arith);
            }
            si = si + 1;
        }
        proof {
            assert forall|a: usize, b: usize|
                #[trigger] g.has_pair(a, b) <==> (g.is_source_only(a) && g.is_output(b)) by {}
        }
        g
    }

    /// The position of the connection with innovation id `k`, if any.
    pub fn find_innovation(&self, k: usize) -> (r: Option<usize>)
        ensures
            r is None <==> !self.has_innovation(k),
            r matches Some(i) ==> i < self.connections@.len() && self.connections@[i as int].innovation == k,
    {
        let mut i: usize = 0;
        while i < self.connections.len()
            invariant
                i <= self.connections@.len(),
                forall|j: int| 0 <= j < i ==> self.connections@[j].innovation != k,
            decreases self.connections@.len() - i,
        {
            if self.connections[i].innovation == k {
                return Some(i);
            }
            i = i + 1;
        }
        None
    }

    /// Positions of genes with strictly ascending innovation ids are at most
    /// as many as the genes.
    proof fn lemma_order_len(&self, r: Seq<usize>, n: usize)
        requires
            n == self.connections@.len(),
            forall|t: int| 0 <= t < r.len() ==> #[trigger] r[t] < self.connections@.len(),
            forall|t: int, u: int|
                0 <= t < u < r.len() ==> self.connections@[r[t] as int].innovation
                    < self.connections@[r[u] as int].innovation,
        ensures
            r.len() <= self.connections@.len(),
    {
        let all = Seq::new(n as nat, |i: int| i as usize);
        assert forall|i: int, j: int| 0 <= i < j < all.len() implies all[i] != all[j] by {}
        assert forall|t: int, u: int| 0 <= t < u < r.len() implies r[t] != r[u] by {
            assert(self.connections@[r[t] as int].innovation < self.connections@[r[u] as int].innovation);
        }
        assert forall|x: usize| #[trigger] r.contains(x) implies all.contains(x) by {
            let t = choose|t: int| 0 <= t < r.len() && r[t] == x;
            assert(all[x as int] == x);
        }
        lemma_distinct_subset_len(r, all);
    }

    /// The positions of the connection genes, in ascending order of their
    /// innovation ids.
    pub fn innovation_order(&self) -> (r: Vec<usize>)
        requires
            self.wf(),
        ensures
            forall|t: int| 0 <= t < r@.len() ==> #[trigger] r@[t] < self.connections@.len(),
            forall|t: int, u: int|
                0 <= t < u < r@.len() ==> self.connections@[r@[t] as int].innovation
                    < self.connections@[r@[u] as int].innovation,
            forall|i: usize| i < self.connections@.len() ==> #[trigger] r@.contains(i),
    {
        let n = self.connections.len();
        let mut r: Vec<usize> = Vec::new();
        let mut last: usize = 0;
        loop
            invariant
                self.wf(),
                n == self.connections@.len(),
                forall|t: int| 0 <= t < r@.len() ==> #[trigger] r@[t] < n,
                forall|t: int, u: int|
                    0 <= t < u < r@.len() ==> self.connections@[r@[t] as int].innovation
                        < self.connections@[r@[u] as int].innovation,
                r@.len() > 0 ==> last == self.connections@[r@.last() as int].innovation,
                r@.len() > 0 ==> forall|i: int|
                    0 <= i < n && #[trigger] self.connections@[i].innovation <= last ==> r@.contains(
                        i as usize,
                    ),
            decreases n - r@.len(),
        {
            proof {
                self.lemma_order_len(r@, n);
            }
            let started = r.len() > 0;
            let mut best: Option<usize> = None;
            let mut i: usize = 0;
            while i < n
                invariant
                    n == self.connections@.len(),
                    i <= n,
                    best matches Some(b) ==> b < i && (!started || self.connections@[b as int].innovation > last)
                        && forall|j: int|
                        0 <= j < i && (!started || #[trigger] self.connections@[j].innovation > last)
                            ==> self.connections@[b as int].innovation <= self.connections@[j].innovation,
                    best is None ==> (!started && i == 0) || (started && forall|j: int|
                        0 <= j < i ==> #[trigger] self.connections@[j].innovation <= last),
                decreases n - i,
            {
                let k = self.connections[i].innovation;
                if !started || k > last {
                    match best {
                        Some(b) => {
                            if k < self.connections[b].innovation {
                                best = Some(i);
                            }
                        },
                        None => {
                            best = Some(i);
                        },
                    }
                }
                i = i + 1;
            }
            match best {
                None => {
                    proof {
                        assert forall|x: usize| x < n implies #[trigger] r@.contains(x) by {
                            assert(self.connections@[x as int].innovation <= last);
                        }
                    }
                    return r;
                },
                Some(b) => {
                    let ghost r0 = r@;
                    let ghost last0 = last;
                    r.push(b);
                    last = self.connections[b].innovation;
                    proof {
                        assert(r@.last() == b);
                        assert forall|t: int, u: int| 0 <= t < u < r@.len() implies self.connections@[r@[t] as int].innovation
                            < self.connections@[r@[u] as int].innovation by {
                            if u == r0.len() {
                                assert(r@[t] == r0[t]);
                                if started {
                                    if t < r0.len() - 1 {
                                        assert(self.connections@[r0[t] as int].innovation < self.connections@[r0[r0.len() - 1] as int].innovation);
                                    }
                                }
                            } else {
                                assert(r@[t] == r0[t] && r@[u] == r0[u]);
                            }
                        }
                        assert forall|j: int|
                            0 <= j < n && #[trigger] self.connections@[j].innovation <= last implies r@.contains(
                                j as usize,
                            ) by {
                            if started && self.connections@[j].innovation <= last0 {
                                let t = choose|t: int| 0 <= t < r0.len() && r0[t] == j as usize;
                                assert(r@[t] == j as usize);
                            } else {
                                assert(self.connections@[b as int].innovation <= self.connections@[j].innovation);
                                if j != b as int {
                                    if j < b as int {
                                        assert(self.connections@[j].innovation != self.connections@[b as int].innovation);
                                    } else {
                                        assert(self.connections@[b as int].innovation != self.connections@[j].innovation);
                                    }
                                }
                                assert(r@[r0.len() as int] == b);
                            }
                        }
                        self.lemma_order_len(r@, n);
                    }
                },
            }
        }
    }

    /// The parents have the same input, bias and output nodes.
    pub open spec fn same_roles(&self, other: &Self) -> bool {
        &&& self.input_nodes@ == other.input_nodes@
        &&& self.output_nodes@ == other.output_nodes@
        &&& self.bias_node == other.bias_node
    }

    /// A child of `self`, the fitter parent, and `other`. It has every node
    /// of both parents and the role lists of `self`. Going through the genes
    /// of `self` in ascending order of innovation id, a gene whose id `other`
    /// also has comes
    /// from a parent picked by a fair coin, any other from `self`; a gene
    /// joins only where the invariant allows (its pair must be free). No
    /// gene comes from `other` alone.
    pub fn crossover(&self, other: &Self, rng: &mut StdRng) -> (child: Self)
        requires
            self.wf(),
            other.wf(),
        ensures
            child.wf(),
            child.input_nodes@ == self.input_nodes@,
            child.output_nodes@ == self.output_nodes@,
            child.bias_node == self.bias_node,
            forall|x: usize| #[trigger] child.has_node(x) <==> (self.has_node(x) || other.has_node(x)),
            forall|q: int|
                0 <= q < child.connections@.len() ==> {
                    let c = #[trigger] child.connections@[q];
                    &&& self.connections@.contains(c) || other.connections@.contains(c)
                    &&& self.has_innovation(c.innovation)
                },
            forall|q: int, v: int|
                0 <= q < v < child.connections@.len() ==> child.connections@[q].innovation
                    < child.connections@[v].innovation,
            self.same_roles(other) ==> forall|i: int|
                0 <= i < self.connections@.len() ==> {
                    let c = #[trigger] self.connections@[i];
                    ||| child.has_innovation(c.innovation)
                    ||| child.has_pair(c.in_node, c.out_node)
                    ||| exists|j: int|
                        0 <= j < other.connections@.len() && other.connections@[j].innovation
                            == c.innovation && child.has_pair(
                            other.connections@[j].in_node,
                            other.connections@[j].out_node,
                        )
                },
    {
        let mut child: Genome<W, P> = Genome {
            nodes: copy_vec(&self.nodes),
            connections: Vec::new(),
            input_nodes: copy_vec(&self.input_nodes),
            bias_node: self.bias_node,
            output_nodes: copy_vec(&self.output_nodes),
        };
        proof {
            assert forall|x: usize| #[trigger] child.has_node(x) <==> self.has_node(x) by {}
            assert forall|k: int| 0 <= k < child.input_nodes@.len() implies child.has_node(
                #[trigger] child.input_nodes@[k],
            ) by {
                assert(self.has_node(self.input_nodes@[k]));
            }
            assert forall|k: int| 0 <= k < child.output_nodes@.len() implies child.has_node(
                #[trigger] child.output_nodes@[k],
            ) by {
                assert(self.has_node(self.output_nodes@[k]));
            }
            assert forall|k: int| 0 <= k < child.input_nodes@.len() implies !child.is_output(
                #[trigger] child.input_nodes@[k],
            ) by {
                assert(!self.is_output(self.input_nodes@[k]));
            }
        }
        let mut i: usize = 0;
        while i < other.nodes.len()
            invariant
                child.wf(),
                child.connections@.len() == 0,
                child.input_nodes@ == self.input_nodes@,
                child.output_nodes@ == self.output_nodes@,
                child.bias_node == self.bias_node,
                i <= other.nodes@.len(),
                forall|x: usize| #[trigger] child.has_node(x) <==> (self.has_node(x) || exists|j: int|
                    0 <= j < i && #[trigger] other.nodes@[j].id == x),
            decreases other.nodes@.len() - i,
        {
            let ghost c0 = child;
            child.add_node_gene(other.nodes[i]);
            proof {
                assert forall|x: usize| #[trigger] child.has_node(x) <==> (self.has_node(x) || exists|j: int|
                    0 <= j < i + 1 && #[trigger] other.nodes@[j].id == x) by {
                    if child.has_node(x) && x != other.nodes@[i as int].id {
                        if !c0.has_node(x) {
                            let q = choose|q: int| 0 <= q < child.nodes@.len() && #[trigger] child.nodes@[q].id == x;
                            if q < c0.nodes@.len() {
                                assert(c0.nodes@[q] == child.nodes@[q]);
                            }
                        }
                    }
                    if exists|j: int| 0 <= j < i + 1 && #[trigger] other.nodes@[j].id == x {
                        let j = choose|j: int| 0 <= j < i + 1 && #[trigger] other.nodes@[j].id == x;
                        if j < i {
                            assert(c0.has_node(x));
                        }
                    }
                }
            }
            i = i + 1;
        }
        proof {
            assert forall|x: usize| #[trigger] child.has_node(x) <==> (self.has_node(x) || other.has_node(x)) by {
                if other.has_node(x) {
                    let j = choose|j: int| 0 <= j < other.nodes@.len() && #[trigger] other.nodes@[j].id == x;
                    assert(exists|j: int| 0 <= j < other.nodes@.len() && #[trigger] other.nodes@[j].id == x);
                }
            }
        }
        let order = self.innovation_order();
        let mut t: usize = 0;
        while t < order.len()
            invariant
                self.wf(),
                other.wf(),
                child.wf(),
                child.input_nodes@ == self.input_nodes@,
                child.output_nodes@ == self.output_nodes@,
                child.bias_node == self.bias_node,
                t <= order@.len(),
                forall|u: int| 0 <= u < order@.len() ==> #[trigger] order@[u] < self.connections@.len(),
                forall|u: int, v: int|
                    0 <= u < v < order@.len() ==> self.connections@[order@[u] as int].innovation
                        < self.connections@[order@[v] as int].innovation,
                forall|x: usize| #[trigger] child.has_node(x) <==> (self.has_node(x) || other.has_node(x)),
                forall|q: int|
                    0 <= q < child.connections@.len() ==> {
                        let c = #[trigger] child.connections@[q];
                        &&& self.connections@.contains(c) || other.connections@.contains(c)
                        &&& exists|u: int|
                            0 <= u < t && self.connections@[order@[u] as int].innovation == c.innovation
                    },
                forall|q: int, v: int|
                    0 <= q < v < child.connections@.len() ==> child.connections@[q].innovation
                        < child.connections@[v].innovation,
                self.same_roles(other) ==> forall|u: int|
                    0 <= u < t ==> {
                        let c = self.connections@[#[trigger] order@[u] as int];
                        ||| child.has_innovation(c.innovation)
                        ||| child.has_pair(c.in_node, c.out_node)
                        ||| exists|jj: int|
                            0 <= jj < other.connections@.len() && other.connections@[jj].innovation
                                == c.innovation && child.has_pair(
                                other.connections@[jj].in_node,
                                other.connections@[jj].out_node,
                            )
                    },
            decreases order@.len() - t,
        {
            let i = order[t];
            let gene = self.connections[i];
            let mut chosen = gene;
            let ghost mut from_other: Option<int> = None;
            match other.find_innovation(gene.innovation) {
                Some(j) => {
                    if random_coin(rng) {
                        chosen = other.connections[j];
                        proof {
                            from_other = Some(j as int);
                        }
                    }
                },
                None => {},
            }
            let ghost c0 = child;
            proof {
                assert(self.connections@.contains(gene));
                if from_other is Some {
                    assert(other.connections@.contains(chosen));
                }
                assert(chosen.innovation == gene.innovation);
                assert(!c0.has_innovation(gene.innovation)) by {
                    if c0.has_innovation(gene.innovation) {
                        let q = choose|q: int| 0 <= q < c0.connections@.len() && #[trigger] c0.connections@[q].innovation == gene.innovation;
                        let c = c0.connections@[q];
                        let u = choose|u: int| 0 <= u < t && self.connections@[order@[u] as int].innovation == c.innovation;
                        assert(self.connections@[order@[u] as int].innovation < self.connections@[order@[t as int] as int].innovation);
                    }
                }
            }
            let added = child.try_add_connection(chosen);
            proof {
                lemma_push_grows(c0, child, chosen, added);
                assert forall|x: usize| #[trigger] child.has_node(x) <==> c0.has_node(x) by {}
                assert forall|q: int, v: int| 0 <= q < v < child.connections@.len() implies child.connections@[q].innovation
                    < child.connections@[v].innovation by {
                    assert(child.connections@[q] == c0.connections@[q]);
                    if v < c0.connections@.len() {
                        assert(child.connections@[v] == c0.connections@[v]);
                    } else {
                        let c = c0.connections@[q];
                        assert(c0.connections@[q] == c);
                        let u = choose|u: int| 0 <= u < t && self.connections@[order@[u] as int].innovation == c.innovation;
                        assert(self.connections@[order@[u] as int].innovation < self.connections@[order@[t as int] as int].innovation);
                    }
                }
                assert forall|q: int| 0 <= q < child.connections@.len() implies {
                    let c = #[trigger] child.connections@[q];
                    &&& self.connections@.contains(c) || other.connections@.contains(c)
                    &&& exists|u: int|
                        0 <= u < t + 1 && self.connections@[order@[u] as int].innovation == c.innovation
                } by {
                    if q < c0.connections@.len() {
                        assert(child.connections@[q] == c0.connections@[q]);
                        let c = c0.connections@[q];
                        let u = choose|u: int| 0 <= u < t && self.connections@[order@[u] as int].innovation == c.innovation;
                        assert(0 <= u < t + 1 && self.connections@[order@[u] as int].innovation == c.innovation);
                    } else {
                        assert(child.connections@[q] == chosen);
                        assert(0 <= t < t + 1 && self.connections@[order@[t as int] as int].innovation == chosen.innovation);
                    }
                }
                if self.same_roles(other) {
                    assert forall|u: int| 0 <= u < t + 1 implies {
                        let c = self.connections@[#[trigger] order@[u] as int];
                        ||| child.has_innovation(c.innovation)
                        ||| child.has_pair(c.in_node, c.out_node)
                        ||| exists|jj: int|
                            0 <= jj < other.connections@.len() && other.connections@[jj].innovation
                                == c.innovation && child.has_pair(
                                other.connections@[jj].in_node,
                                other.connections@[jj].out_node,
                            )
                    } by {
                        let c = self.connections@[order@[u] as int];
                        if u < t {
                            if c0.has_innovation(c.innovation) {
                            } else if c0.has_pair(c.in_node, c.out_node) {
                            } else {
                                let jj = choose|jj: int|
                                    0 <= jj < other.connections@.len() && other.connections@[jj].innovation
                                        == c.innovation && c0.has_pair(
                                        other.connections@[jj].in_node,
                                        other.connections@[jj].out_node,
                                    );
                                assert(child.has_pair(other.connections@[jj].in_node, other.connections@[jj].out_node));
                            }
                        } else if !added {
                            assert(c == gene);
                            if from_other is Some {
                                let jj = from_other->Some_0;
                                assert(other.can_link(other.connections@[jj].in_node, other.connections@[jj].out_node));
                                assert(c0.can_link(chosen.in_node, chosen.out_node));
                                assert(c0.has_pair(chosen.in_node, chosen.out_node));
                                assert(child.has_pair(other.connections@[jj].in_node, other.connections@[jj].out_node));
                            } else {
                                assert(self.can_link(gene.in_node, gene.out_node));
                                assert(c0.can_link(chosen.in_node, chosen.out_node));
                            }
                        }
                    }
                }
            }
            t = t + 1;
        }
        let n_conn = self.connections.len();
        proof {
            assert forall|q: int| 0 <= q < child.connections@.len() implies
                self.has_innovation((#[trigger] child.connections@[q]).innovation) by {
                let c = child.connections@[q];
                let u = choose|u: int| 0 <= u < t && self.connections@[order@[u] as int].innovation == c.innovation;
                assert(self.connections@[order@[u] as int].innovation == c.innovation);
            }
            if self.same_roles(other) {
                assert forall|i: int| 0 <= i < self.connections@.len() implies {
                    let c = #[trigger] self.connections@[i];
                    ||| child.has_innovation(c.innovation)
                    ||| child.has_pair(c.in_node, c.out_node)
                    ||| exists|j: int|
                        0 <= j < other.connections@.len() && other.connections@[j].innovation
                            == c.innovation && child.has_pair(
                            other.connections@[j].in_node,
                            other.connections@[j].out_node,
                        )
                } by {
                    assert(i < n_conn);
                    assert(order@.contains(i as usize));
                    let u = choose|u: int| 0 <= u < order@.len() && order@[u] == i as usize;
                    assert(order@[u] as int == i);
                    assert(self.connections@[order@[u] as int] == self.connections@[i]);
                }
            }
        }
        child
    }

}

/// A sequence without repeats drawn from another without repeats is no
/// longer than it.
pub proof fn lemma_distinct_subset_len(s: Seq<usize>, t: Seq<usize>)
    requires
        s.no_duplicates(),
        t.no_duplicates(),
        forall|x: usize| #[trigger] s.contains(x) ==> t.contains(x),
    ensures
        s.len() <= t.len(),
{
    s.unique_seq_to_set();
    t.unique_seq_to_set();
    assert(s.to_set().subset_of(t.to_set()));
    vstd::set_lib::lemma_len_subset(s.to_set(), t.to_set());
}

/// What a push keeps and adds.
proof fn lemma_push_grows<W: Copy, P: Copy>(g0: Genome<W, P>, g: Genome<W, P>, gene: ConnectionGene<W>, pushed: bool)
    requires
        pushed ==> g.connections@ == g0.connections@.push(gene),
        !pushed ==> g.connections@ == g0.connections@,
    ensures
        forall|a: usize, b: usize| g0.has_pair(a, b) ==> #[trigger] g.has_pair(a, b),
        forall|k: usize| g0.has_innovation(k) ==> #[trigger] g.has_innovation(k),
        pushed ==> g.has_pair(gene.in_node, gene.out_node) && g.has_innovation(gene.innovation),
{
    assert forall|a: usize, b: usize| g0.has_pair(a, b) implies #[trigger] g.has_pair(a, b) by {
        let x = choose|x: int| 0 <= x < g0.connections@.len() && #[trigger] g0.connections@[x].in_node == a && g0.connections@[x].out_node == b;
        assert(g.connections@[x] == g0.connections@[x]);
    }
    assert forall|k: usize| g0.has_innovation(k) implies #[trigger] g.has_innovation(k) by {
        let x = choose|x: int| 0 <= x < g0.connections@.len() && #[trigger] g0.connections@[x].innovation == k;
        assert(g.connections@[x] == g0.connections@[x]);
    }
    if pushed {
        assert(g.connections@[g0.connections@.len() as int] == gene);
    }
}

/// A copy of a vector of `Copy` values.
pub fn copy_vec<T: Copy>(v: &Vec<T>) -> (r: Vec<T>)
    ensures
        r@ == v@,
{
    let mut r: Vec<T> = Vec::new();
    let mut i: usize = 0;
    while i < v.len()
        invariant
            i <= v@.len(),
            r@ == v@.subrange(0, i as int),
        decreases v@.len() - i,
    {
        r.push(v[i]);
        i = i + 1;
    }
    assert(r@ =~= v@);
    r
}

pub fn vec_contains(v: &Vec<usize>, x: usize) -> (r: bool)
    ensures
        r == v@.contains(x),
{
    let mut i: usize = 0;
    while i < v.len()
        invariant
            i <= v@.len(),
            forall|j: int| 0 <= j < i ==> v@[j] != x,
        decreases v@.len() - i,
    {
        if v[i] == x {
            return true;
        }
        i = i + 1;
    }
    false
}

/// Of every well-formed genome: no `(source, target)` pair twice; no
/// connection into an input or out of an output, none from a node to
/// itself; the bias node present exactly once and never a target; no
/// innovation id twice.
pub proof fn lemma_structure_invariants<W: Copy, P: Copy>(g: Genome<W, P>)
    requires
        g.wf(),
    ensures
        forall|i: int, j: int|
            0 <= i < j < g.connections@.len() ==> !(g.connections@[i].in_node
                == g.connections@[j].in_node && g.connections@[i].out_node
                == g.connections@[j].out_node),
        forall|i: int|
            0 <= i < g.connections@.len() ==> {
                &&& !g.input_nodes@.contains(#[trigger] g.connections@[i].out_node)
                &&& !g.output_nodes@.contains(g.connections@[i].in_node)
                &&& g.connections@[i].in_node != g.connections@[i].out_node
            },
        exists|b: int|
            0 <= b < g.nodes@.len() && g.nodes@[b].id == g.bias_node && forall|j: int|
                0 <= j < g.nodes@.len() && #[trigger] g.nodes@[j].id == g.bias_node ==> j == b,
        forall|i: int|
            0 <= i < g.connections@.len() ==> #[trigger] g.connections@[i].out_node != g.bias_node,
        forall|i: int, j: int|
            0 <= i < j < g.connections@.len() ==> g.connections@[i].innovation
                != g.connections@[j].innovation,
{
    let b = choose|b: int| 0 <= b < g.nodes@.len() && #[trigger] g.nodes@[b].id == g.bias_node;
    assert forall|j: int|
        0 <= j < g.nodes@.len() && #[trigger] g.nodes@[j].id == g.bias_node implies j == b by {
        if j < b {
        } else if b < j {
        }
    }
    assert forall|i: int| 0 <= i < g.connections@.len() implies {
        &&& !g.input_nodes@.contains(#[trigger] g.connections@[i].out_node)
        &&& !g.output_nodes@.contains(g.connections@[i].in_node)
        &&& g.connections@[i].in_node != g.connections@[i].out_node
        &&& g.connections@[i].out_node != g.bias_node
    } by {
        assert(g.can_link(g.connections@[i].in_node, g.connections@[i].out_node));
    }
}


} // verus!
