//! The acyclic part of a genome's enabled graph, by Kahn-style peeling: a
//! node is peeled once every edge into it comes from a peeled node. Nodes on
//! or behind a cycle are never peeled, and the edges out of unpeeled nodes
//! take no part in evaluation.
use vstd::prelude::*;
use crate::genome::genome::{lemma_distinct_subset_len, vec_contains, Genome};

verus! {

/// Every edge into `v` comes from a node of `s`.
pub open spec fn preds_within(edges: Seq<(usize, usize)>, v: usize, s: Seq<usize>) -> bool {
    forall|e: int| 0 <= e < edges.len() && (#[trigger] edges[e]).1 == v ==> s.contains(edges[e].0)
}

/// The order and the edges a feedforward evaluation uses.
pub struct FeedforwardPlan {
    /// Peeled nodes, each after the sources of all edges into it.
    pub sorted_nodes: Vec<usize>,
    /// The edges out of peeled nodes.
    pub used_connections: Vec<(usize, usize)>,
}

/// Peels `node_ids` along `edges`. The result is the least set of nodes
/// closed under "every edge into it comes from the set", in an order that
/// puts each node after the sources of its incoming edges, with the edges
/// out of that set.
pub fn topological_peel(node_ids: &Vec<usize>, edges: &Vec<(usize, usize)>) -> (r: FeedforwardPlan)
    requires
        node_ids@.no_duplicates(),
    ensures
        r.sorted_nodes@.no_duplicates(),
        forall|x: usize| #[trigger] r.sorted_nodes@.contains(x) ==> node_ids@.contains(x),
        forall|p: int|
            0 <= p < r.sorted_nodes@.len() ==> preds_within(
                edges@,
                #[trigger] r.sorted_nodes@[p],
                r.sorted_nodes@.subrange(0, p),
            ),
        forall|v: usize|
            #[trigger] node_ids@.contains(v) && !r.sorted_nodes@.contains(v) ==> !preds_within(
                edges@,
                v,
                r.sorted_nodes@,
            ),
        forall|e: (usize, usize)|
            #[trigger] r.used_connections@.contains(e) <==> (edges@.contains(e)
                && r.sorted_nodes@.contains(e.0)),
{
    let mut sorted: Vec<usize> = Vec::new();
    loop
        invariant
            node_ids@.no_duplicates(),
            sorted@.no_duplicates(),
            forall|x: usize| #[trigger] sorted@.contains(x) ==> node_ids@.contains(x),
            forall|p: int|
                0 <= p < sorted@.len() ==> preds_within(
                    edges@,
                    #[trigger] sorted@[p],
                    sorted@.subrange(0, p),
                ),
        decreases node_ids@.len() - sorted@.len(),
    {
        let ghost before = sorted@;
        proof {
            lemma_distinct_subset_len(sorted@, node_ids@);
            assert(node_ids@.len() >= before.len());
        }
        let before_len = sorted.len();
        let mut i: usize = 0;
        while i < node_ids.len()
            invariant
                node_ids@.no_duplicates(),
                sorted@.no_duplicates(),
                i <= node_ids@.len(),
                before.len() <= sorted@.len(),
                before_len == before.len(),
                before == sorted@.subrange(0, before.len() as int),
                forall|x: usize| #[trigger] sorted@.contains(x) ==> node_ids@.contains(x),
                forall|p: int|
                    0 <= p < sorted@.len() ==> preds_within(
                        edges@,
                        #[trigger] sorted@[p],
                        sorted@.subrange(0, p),
                    ),
                sorted@.len() == before.len() ==> forall|j: int|
                    0 <= j < i ==> sorted@.contains(#[trigger] node_ids@[j]) || !preds_within(
                        edges@,
                        node_ids@[j],
                        sorted@,
                    ),
            decreases node_ids@.len() - i,
        {
            let v = node_ids[i];
            if !vec_contains(&sorted, v) && all_preds_within(edges, v, &sorted) {
                let ghost s0 = sorted@;
                sorted.push(v);
                proof {
                    assert(node_ids@[i as int] == v);
                    assert(sorted@.subrange(0, s0.len() as int) =~= s0);
                    assert(sorted@.subrange(0, before.len() as int) =~= before);
                    assert forall|x: usize| #[trigger] sorted@.contains(x) implies node_ids@.contains(x) by {
                        if x != v {
                            let q = choose|q: int| 0 <= q < sorted@.len() && sorted@[q] == x;
                            assert(s0[q] == x);
                            assert(s0.contains(x));
                        }
                    }
                    assert forall|p: int| 0 <= p < sorted@.len() implies preds_within(
                        edges@,
                        #[trigger] sorted@[p],
                        sorted@.subrange(0, p),
                    ) by {
                        if p < s0.len() {
                            assert(sorted@.subrange(0, p) =~= s0.subrange(0, p));
                        }
                    }
                }
            }
            i = i + 1;
        }
        if sorted.len() == before_len {
            proof {
                assert(sorted@ =~= before);
                assert forall|v: usize| #[trigger] node_ids@.contains(v) && !sorted@.contains(v) implies !preds_within(
                    edges@,
                    v,
                    sorted@,
                ) by {
                    let j = choose|j: int| 0 <= j < node_ids@.len() && node_ids@[j] == v;
                }
            }
            let used = used_edges(edges, &sorted);
            return FeedforwardPlan { sorted_nodes: sorted, used_connections: used };
        }
        proof {
            lemma_distinct_subset_len(sorted@, node_ids@);
        }
    }
}

fn all_preds_within(edges: &Vec<(usize, usize)>, v: usize, s: &Vec<usize>) -> (r: bool)
    ensures
        r == preds_within(edges@, v, s@),
{
    let mut e: usize = 0;
    while e < edges.len()
        invariant
            e <= edges@.len(),
            forall|x: int| 0 <= x < e && (#[trigger] edges@[x]).1 == v ==> s@.contains(edges@[x].0),
        decreases edges@.len() - e,
    {
        let (a, b) = edges[e];
        if b == v && !vec_contains(s, a) {
            return false;
        }
        e = e + 1;
    }
    true
}

fn used_edges(edges: &Vec<(usize, usize)>, sorted: &Vec<usize>) -> (r: Vec<(usize, usize)>)
    ensures
        forall|e: (usize, usize)|
            #[trigger] r@.contains(e) <==> (edges@.contains(e) && sorted@.contains(e.0)),
{
    let mut r: Vec<(usize, usize)> = Vec::new();
    let mut i: usize = 0;
    while i < edges.len()
        invariant
            i <= edges@.len(),
            forall|e: (usize, usize)|
                #[trigger] r@.contains(e) <==> (edges@.subrange(0, i as int).contains(e)
                    && sorted@.contains(e.0)),
        decreases edges@.len() - i,
    {
        let e = edges[i];
        let ghost r0 = r@;
        let ghost s0 = edges@.subrange(0, i as int);
        let ghost s1 = edges@.subrange(0, i as int + 1);
        proof {
            assert(s1 =~= s0.push(e));
            assert forall|x: (usize, usize)| #[trigger] s1.contains(x) <==> (s0.contains(x) || x == e) by {
                if s1.contains(x) {
                    let q = choose|q: int| 0 <= q < s1.len() && s1[q] == x;
                    if q < s0.len() {
                        assert(s0[q] == x);
                    }
                }
                if s0.contains(x) {
                    let q = choose|q: int| 0 <= q < s0.len() && s0[q] == x;
                    assert(s1[q] == x);
                }
                if x == e {
                    assert(s1[s0.len() as int] == x);
                }
            }
        }
        if vec_contains(sorted, e.0) {
            r.push(e);
            proof {
                assert forall|x: (usize, usize)| #[trigger] r@.contains(x) <==> (r0.contains(x) || x == e) by {
                    if r@.contains(x) {
                        let q = choose|q: int| 0 <= q < r@.len() && r@[q] == x;
                        if q < r0.len() {
                            assert(r0[q] == x);
                        }
                    }
                    if r0.contains(x) {
                        let q = choose|q: int| 0 <= q < r0.len() && r0[q] == x;
                        assert(r@[q] == x);
                    }
                    if x == e {
                        assert(r@[r0.len() as int] == x);
                    }
                }
            }
        }
        i = i + 1;
    }
    proof {
        assert(edges@.subrange(0, i as int) =~= edges@);
    }
    r
}

impl<W: Copy, P: Copy> Genome<W, P> {
    /// The node ids, in the order of the node genes.
    pub open spec fn node_ids(&self) -> Seq<usize> {
        self.nodes@.map_values(|n: crate::genome::genes::NodeGene<P>| n.id)
    }

    /// The `(source, target)` pairs of the enabled connections, in order.
    pub open spec fn enabled_edges(&self) -> Seq<(usize, usize)> {
        self.connections@.filter(|c: crate::genome::genes::ConnectionGene<W>| c.enabled).map_values(
            |c: crate::genome::genes::ConnectionGene<W>| (c.in_node, c.out_node),
        )
    }

    /// The feedforward plan of the genome: its nodes peeled along its enabled
    /// connections.
    pub fn feedforward_plan(&self) -> (r: FeedforwardPlan)
        requires
            self.wf(),
        ensures
            r.sorted_nodes@.no_duplicates(),
            forall|x: usize| #[trigger] r.sorted_nodes@.contains(x) ==> self.has_node(x),
            forall|p: int|
                0 <= p < r.sorted_nodes@.len() ==> preds_within(
                    self.enabled_edges(),
                    #[trigger] r.sorted_nodes@[p],
                    r.sorted_nodes@.subrange(0, p),
                ),
            forall|v: usize|
                #[trigger] self.has_node(v) && !r.sorted_nodes@.contains(v) ==> !preds_within(
                    self.enabled_edges(),
                    v,
                    r.sorted_nodes@,
                ),
            forall|e: (usize, usize)|
                #[trigger] r.used_connections@.contains(e) <==> (self.enabled_edges().contains(e)
                    && r.sorted_nodes@.contains(e.0)),
    {
        let mut ids: Vec<usize> = Vec::new();
        let mut i: usize = 0;
        while i < self.nodes.len()
            invariant
                i <= self.nodes@.len(),
                ids@ == self.node_ids().subrange(0, i as int),
            decreases self.nodes@.len() - i,
        {
            ids.push(self.nodes[i].id);
            proof {
                assert(ids@ =~= self.node_ids().subrange(0, i as int + 1));
            }
            i = i + 1;
        }
        let ghost pe = |c: crate::genome::genes::ConnectionGene<W>| c.enabled;
        let ghost fe = |c: crate::genome::genes::ConnectionGene<W>| (c.in_node, c.out_node);
        let mut edges: Vec<(usize, usize)> = Vec::new();
        let mut j: usize = 0;
        while j < self.connections.len()
            invariant
                j <= self.connections@.len(),
                pe == (|c: crate::genome::genes::ConnectionGene<W>| c.enabled),
                fe == (|c: crate::genome::genes::ConnectionGene<W>| (c.in_node, c.out_node)),
                edges@ == self.connections@.subrange(0, j as int).filter(pe).map_values(fe),
            decreases self.connections@.len() - j,
        {
            let c = self.connections[j];
            let ghost sc = self.connections@.subrange(0, j as int);
            proof {
                assert(self.connections@.subrange(0, j as int + 1) =~= sc.push(c));
                sc.lemma_filter_push(c, pe);
            }
            if c.enabled {
                edges.push((c.in_node, c.out_node));
                proof {
                    assert(sc.filter(pe).push(c).map_values(fe) =~= sc.filter(pe).map_values(fe).push(fe(c)));
                }
            }
            j = j + 1;
        }
        proof {
            assert(ids@ =~= self.node_ids());
            assert(self.connections@.subrange(0, j as int) =~= self.connections@);
            assert(edges@ == self.enabled_edges());
            assert forall|x: int, y: int| 0 <= x < y < ids@.len() implies ids@[x] != ids@[y] by {
                assert(ids@[x] == self.nodes@[x].id);
                assert(ids@[y] == self.nodes@[y].id);
            }
            assert forall|x: usize| #[trigger] ids@.contains(x) <==> self.has_node(x) by {
                if ids@.contains(x) {
                    let q = choose|q: int| 0 <= q < ids@.len() && ids@[q] == x;
                    assert(self.nodes@[q].id == x);
                }
                if self.has_node(x) {
                    let q = choose|q: int| 0 <= q < self.nodes@.len() && #[trigger] self.nodes@[q].id == x;
                    assert(ids@[q] == x);
                }
            }
        }
        let r = topological_peel(&ids, &edges);
        proof {
            assert forall|v: usize|
                #[trigger] self.has_node(v) && !r.sorted_nodes@.contains(v) implies !preds_within(
                    self.enabled_edges(),
                    v,
                    r.sorted_nodes@,
                ) by {
                assert(ids@.contains(v));
            }
        }
        r
    }
}

} // verus!
