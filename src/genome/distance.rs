//! Compatibility distance: the disjoint and excess counts and the matching
//! weights of two genomes, and the laws they obey. The real-valued distance
//! `c_d * (disjoint + excess) / N + c_w * mean |w1 - w2|` is formed from these
//! terms by the caller.
use vstd::prelude::*;
use crate::genome::genes::ConnectionGene;
use crate::genome::genome::Genome;

verus! {

/// The terms of the compatibility distance of two genomes.
pub struct CompatibilityCounts<W> {
    pub disjoint: usize,
    pub excess: usize,
    /// The weights of the genes with the same innovation id in both genomes:
    /// the first genome's, then the second's.
    pub matching: Vec<(W, W)>,
    /// The larger number of connections of the two.
    pub size: usize,
}

/// The largest element; 0 for the empty sequence.
pub open spec fn seq_max(s: Seq<usize>) -> usize
    decreases s.len(),
{
    if s.len() == 0 {
        0
    } else if s.last() > seq_max(s.drop_last()) {
        s.last()
    } else {
        seq_max(s.drop_last())
    }
}

impl<W: Copy, P: Copy> Genome<W, P> {
    /// The innovation ids, in the order of the connection genes.
    pub open spec fn innovations(&self) -> Seq<usize> {
        self.connections@.map_values(|c: ConnectionGene<W>| c.innovation)
    }

    /// The largest innovation id; 0 for a genome without connections.
    pub open spec fn max_innovation(&self) -> usize {
        seq_max(self.innovations())
    }

    /// The gene with innovation id `k`.
    pub open spec fn gene_of(&self, k: usize) -> ConnectionGene<W> {
        self.connections@[choose|i: int|
            0 <= i < self.connections@.len() && #[trigger] self.connections@[i].innovation == k]
    }

    /// Ids of `self` that `other` lacks and that are not above `other`'s
    /// largest id.
    pub open spec fn disjoint_in(&self, other: &Self) -> Seq<usize> {
        self.innovations().filter(
            |k: usize| !other.has_innovation(k) && k <= other.max_innovation(),
        )
    }

    /// Ids of `self` that `other` lacks and that are above `other`'s largest
    /// id.
    pub open spec fn excess_in(&self, other: &Self) -> Seq<usize> {
        self.innovations().filter(|k: usize| !other.has_innovation(k) && k > other.max_innovation())
    }

    /// The genes of `self` whose innovation id `other` also has.
    pub open spec fn matching_genes(&self, other: &Self) -> Seq<ConnectionGene<W>> {
        self.connections@.filter(|c: ConnectionGene<W>| other.has_innovation(c.innovation))
    }

    /// The number of disjoint genes of the pair.
    pub open spec fn disjoint_count(&self, other: &Self) -> nat {
        self.disjoint_in(other).len() + other.disjoint_in(self).len()
    }

    /// The number of excess genes of the pair.
    pub open spec fn excess_count(&self, other: &Self) -> nat {
        self.excess_in(other).len() + other.excess_in(self).len()
    }

    /// The weights of each matching gene: that of `self`, then that of
    /// `other`, in the order of the genes of `self`.
    pub open spec fn matching_weights(&self, other: &Self) -> Seq<(W, W)> {
        self.matching_genes(other).map_values(
            |c: ConnectionGene<W>| (c.weight, other.gene_of(c.innovation).weight),
        )
    }

    /// The largest innovation id; 0 when there is no connection.
    pub fn max_innovation_exec(&self) -> (r: usize)
        ensures
            r == self.max_innovation(),
    {
        let mut m: usize = 0;
        let mut i: usize = 0;
        while i < self.connections.len()
            invariant
                i <= self.connections@.len(),
                m == seq_max(self.innovations().subrange(0, i as int)),
            decreases self.connections@.len() - i,
        {
            let k = self.connections[i].innovation;
            proof {
                let t = self.innovations().subrange(0, i as int + 1);
                assert(t.drop_last() =~= self.innovations().subrange(0, i as int));
                assert(t.last() == k);
            }
            if k > m {
                m = k;
            }
            i = i + 1;
        }
        proof {
            assert(self.innovations().subrange(0, i as int) =~= self.innovations());
        }
        m
    }

    /// The terms of the compatibility distance between `self` and `other`:
    /// the disjoint and excess counts, the weights of the matching genes and
    /// the larger connection count.
    pub fn compatibility_counts(&self, other: &Self) -> (r: CompatibilityCounts<W>)
        requires
            self.wf(),
            other.wf(),
            self.connections@.len() + other.connections@.len() <= usize::MAX,
        ensures
            r.disjoint == self.disjoint_count(other),
            r.excess == self.excess_count(other),
            r.matching@ == self.matching_weights(other),
            r.size == if self.connections@.len() >= other.connections@.len() {
                self.connections@.len()
            } else {
                other.connections@.len()
            },
    {
        let max_self = self.max_innovation_exec();
        let max_other = other.max_innovation_exec();
        let ghost pd1 = |k: usize| !other.has_innovation(k) && k <= other.max_innovation();
        let ghost pe1 = |k: usize| !other.has_innovation(k) && k > other.max_innovation();
        let ghost pm = |c: ConnectionGene<W>| other.has_innovation(c.innovation);
        let ghost fw = |c: ConnectionGene<W>| (c.weight, other.gene_of(c.innovation).weight);
        let mut d1: usize = 0;
        let mut e1: usize = 0;
        let mut matching: Vec<(W, W)> = Vec::new();
        let mut i: usize = 0;
        while i < self.connections.len()
            invariant
                other.wf(),
                max_other == other.max_innovation(),
                i <= self.connections@.len(),
                d1 == self.innovations().subrange(0, i as int).filter(pd1).len(),
                e1 == self.innovations().subrange(0, i as int).filter(pe1).len(),
                d1 + e1 <= i,
                matching@ == self.connections@.subrange(0, i as int).filter(pm).map_values(fw),
                pd1 == (|k: usize| !other.has_innovation(k) && k <= other.max_innovation()),
                pe1 == (|k: usize| !other.has_innovation(k) && k > other.max_innovation()),
                pm == (|c: ConnectionGene<W>| other.has_innovation(c.innovation)),
                fw == (|c: ConnectionGene<W>| (c.weight, other.gene_of(c.innovation).weight)),
            decreases self.connections@.len() - i,
        {
            let c = self.connections[i];
            let ghost si = self.innovations().subrange(0, i as int);
            let ghost sc = self.connections@.subrange(0, i as int);
            proof {
                assert(self.innovations().subrange(0, i as int + 1) =~= si.push(c.innovation));
                assert(self.connections@.subrange(0, i as int + 1) =~= sc.push(c));
                si.lemma_filter_push(c.innovation, pd1);
                si.lemma_filter_push(c.innovation, pe1);
                sc.lemma_filter_push(c, pm);
            }
            match other.find_innovation(c.innovation) {
                Some(j) => {
                    proof {
                        other.lemma_gene_of(j as int);
                        assert(sc.filter(pm).push(c).map_values(fw) =~= sc.filter(pm).map_values(fw).push(fw(c)));
                    }
                    matching.push((c.weight, other.connections[j].weight));
                },
                None => {
                    if c.innovation > max_other {
                        e1 = e1 + 1;
                    } else {
                        d1 = d1 + 1;
                    }
                },
            }
            i = i + 1;
        }
        let ghost pd2 = |k: usize| !self.has_innovation(k) && k <= self.max_innovation();
        let ghost pe2 = |k: usize| !self.has_innovation(k) && k > self.max_innovation();
        let mut d2: usize = 0;
        let mut e2: usize = 0;
        let mut i: usize = 0;
        while i < other.connections.len()
            invariant
                max_self == self.max_innovation(),
                d1 + e1 <= self.connections@.len(),
                self.connections@.len() + other.connections@.len() <= usize::MAX,
                i <= other.connections@.len(),
                d2 == other.innovations().subrange(0, i as int).filter(pd2).len(),
                e2 == other.innovations().subrange(0, i as int).filter(pe2).len(),
                d2 + e2 <= i,
                pd2 == (|k: usize| !self.has_innovation(k) && k <= self.max_innovation()),
                pe2 == (|k: usize| !self.has_innovation(k) && k > self.max_innovation()),
            decreases other.connections@.len() - i,
        {
            let k = other.connections[i].innovation;
            let ghost si = other.innovations().subrange(0, i as int);
            proof {
                assert(other.innovations().subrange(0, i as int + 1) =~= si.push(k));
                si.lemma_filter_push(k, pd2);
                si.lemma_filter_push(k, pe2);
            }
            if !self.contains_innovation(k) {
                if k > max_self {
                    e2 = e2 + 1;
                } else {
                    d2 = d2 + 1;
                }
            }
            i = i + 1;
        }
        proof {
            assert(self.innovations().subrange(0, self.connections@.len() as int) =~= self.innovations());
            assert(self.connections@.subrange(0, self.connections@.len() as int) =~= self.connections@);
            assert(other.innovations().subrange(0, other.connections@.len() as int) =~= other.innovations());
            assert(self.disjoint_in(other) == self.innovations().filter(pd1));
            assert(self.excess_in(other) == self.innovations().filter(pe1));
            assert(other.disjoint_in(self) == other.innovations().filter(pd2));
            assert(other.excess_in(self) == other.innovations().filter(pe2));
            assert(self.matching_genes(other) == self.connections@.filter(pm));
            assert(self.matching_weights(other) == self.connections@.filter(pm).map_values(fw));
        }
        let size = if self.connections.len() >= other.connections.len() {
            self.connections.len()
        } else {
            other.connections.len()
        };
        CompatibilityCounts { disjoint: d1 + d2, excess: e1 + e2, matching, size }
    }

    /// In a well-formed genome the gene at position `j` is the gene of its id.
    pub proof fn lemma_gene_of(&self, j: int)
        requires
            self.wf(),
            0 <= j < self.connections@.len(),
        ensures
            self.gene_of(self.connections@[j].innovation) == self.connections@[j],
    {
        let k = self.connections@[j].innovation;
        let i = choose|i: int| 0 <= i < self.connections@.len() && #[trigger] self.connections@[i].innovation == k;
        if i < j {
        } else if j < i {
        }
    }
}

/// Filtering genes by a test on their innovation id keeps as many genes as
/// filtering the ids by that test keeps ids.
proof fn lemma_filter_by_innovation<W>(
    s: Seq<ConnectionGene<W>>,
    pm: spec_fn(ConnectionGene<W>) -> bool,
    q: spec_fn(usize) -> bool,
)
    requires
        forall|c: ConnectionGene<W>| #[trigger] pm(c) == q(c.innovation),
    ensures
        s.filter(pm).len() == s.map_values(|c: ConnectionGene<W>| c.innovation).filter(q).len(),
    decreases s.len(),
{
    reveal(Seq::filter);
    if s.len() > 0 {
        lemma_filter_by_innovation(s.drop_last(), pm, q);
        assert(s.map_values(|c: ConnectionGene<W>| c.innovation).drop_last() =~= s.drop_last().map_values(
            |c: ConnectionGene<W>| c.innovation,
        ));
    }
}

proof fn lemma_filter_no_duplicates(s: Seq<usize>, q: spec_fn(usize) -> bool)
    requires
        s.no_duplicates(),
    ensures
        s.filter(q).no_duplicates(),
    decreases s.len(),
{
    if s.len() > 0 {
        let t = s.drop_last();
        assert(s =~= t.push(s.last()));
        assert(t.no_duplicates());
        lemma_filter_no_duplicates(t, q);
        t.lemma_filter_push(s.last(), q);
        if q(s.last()) {
            if t.filter(q).contains(s.last()) {
                t.lemma_filter_contains_rev(q, s.last());
            }
            let f = t.filter(q);
            assert forall|i: int, j: int| 0 <= i < j < f.push(s.last()).len() implies f.push(
                s.last(),
            )[i] != f.push(s.last())[j] by {
                if j == f.len() {
                    assert(f.contains(f[i]));
                }
            }
        }
    }
}

/// For a sequence without repeats, what a filter keeps is counted by the
/// filtered set.
proof fn lemma_filter_len_set(s: Seq<usize>, q: spec_fn(usize) -> bool)
    requires
        s.no_duplicates(),
    ensures
        s.filter(q).len() == s.to_set().filter(q).len(),
{
    lemma_filter_no_duplicates(s, q);
    s.filter(q).unique_seq_to_set();
    s.filter_lemma(q);
    assert forall|x: usize| #[trigger] s.filter(q).to_set().contains(x) <==> s.to_set().filter(q).contains(x) by {
        if s.filter(q).contains(x) {
            s.lemma_filter_contains_rev(q, x);
            let i = choose|i: int| 0 <= i < s.filter(q).len() && s.filter(q)[i] == x;
            assert(q(s.filter(q)[i]));
        }
        if s.contains(x) && q(x) {
            let i = choose|i: int| 0 <= i < s.len() && s[i] == x;
            assert(s.filter(q).contains(s[i]));
        }
    }
    assert(s.filter(q).to_set() =~= s.to_set().filter(q));
}

impl<W: Copy, P: Copy> Genome<W, P> {
    proof fn lemma_innovations(&self)
        requires
            self.wf(),
        ensures
            self.innovations().no_duplicates(),
            forall|k: usize| #[trigger] self.has_innovation(k) <==> self.innovations().to_set().contains(k),
    {
        assert forall|k: usize| #[trigger] self.has_innovation(k) <==> self.innovations().to_set().contains(k) by {
            if self.has_innovation(k) {
                let i = choose|i: int| 0 <= i < self.connections@.len() && #[trigger] self.connections@[i].innovation == k;
                assert(self.innovations()[i] == k);
            }
            if self.innovations().contains(k) {
                let i = choose|i: int| 0 <= i < self.innovations().len() && self.innovations()[i] == k;
                assert(self.connections@[i].innovation == k);
            }
        }
    }
}

/// Two genomes with the same connection genes are at distance zero: no
/// disjoint or excess gene, and every matching gene has the same weight on
/// both sides.
pub proof fn lemma_same_genes_distance_zero<W: Copy, P: Copy>(g1: Genome<W, P>, g2: Genome<W, P>)
    requires
        g1.wf(),
        g2.wf(),
        g1.connections@ == g2.connections@,
    ensures
        g1.disjoint_count(&g2) == 0,
        g1.excess_count(&g2) == 0,
        g1.matching_weights(&g2).len() == g1.connections@.len(),
        forall|i: int|
            0 <= i < g1.matching_weights(&g2).len() ==> (#[trigger] g1.matching_weights(&g2)[i]).0
                == g1.matching_weights(&g2)[i].1,
{
    assert(g1.innovations() == g2.innovations());
    assert forall|k: usize| #[trigger] g1.has_innovation(k) <==> g2.has_innovation(k) by {}
    let disjoint_test = |k: usize| !g2.has_innovation(k) && k <= g2.max_innovation();
    let excess_test = |k: usize| !g2.has_innovation(k) && k > g2.max_innovation();
    let disjoint_back = |k: usize| !g1.has_innovation(k) && k <= g1.max_innovation();
    let excess_back = |k: usize| !g1.has_innovation(k) && k > g1.max_innovation();
    assert forall|i: int| 0 <= i < g1.innovations().len() implies g2.has_innovation(
        #[trigger] g1.innovations()[i],
    ) by {
        assert(g2.connections@[i].innovation == g1.innovations()[i]);
    }
    g1.innovations().lemma_all_neg_filter_empty(disjoint_test);
    g1.innovations().lemma_all_neg_filter_empty(excess_test);
    g2.innovations().lemma_all_neg_filter_empty(disjoint_back);
    g2.innovations().lemma_all_neg_filter_empty(excess_back);
    let pm = |c: ConnectionGene<W>| g2.has_innovation(c.innovation);
    let f = g1.connections@.filter(pm);
    g1.connections@.filter_lemma(pm);
    assert forall|i: int| 0 <= i < g1.connections@.len() implies pm(#[trigger] g1.connections@[i]) by {
        assert(g2.connections@[i].innovation == g1.connections@[i].innovation);
    }
    assert(f.len() == g1.connections@.len()) by {
        lemma_all_true_filter(g1.connections@, pm);
    }
    assert forall|i: int| 0 <= i < g1.matching_weights(&g2).len() implies (#[trigger] g1.matching_weights(
        &g2,
    )[i]).0 == g1.matching_weights(&g2)[i].1 by {
        assert(f.contains(f[i]));
        g1.connections@.lemma_filter_contains_rev(pm, f[i]);
        let j = choose|j: int| 0 <= j < g2.connections@.len() && g2.connections@[j] == f[i];
        g2.lemma_gene_of(j);
    }
}

/// A genome is at distance zero from itself.
pub proof fn lemma_distance_to_self_zero<W: Copy, P: Copy>(g: Genome<W, P>)
    requires
        g.wf(),
    ensures
        g.disjoint_count(&g) == 0,
        g.excess_count(&g) == 0,
        forall|i: int|
            0 <= i < g.matching_weights(&g).len() ==> (#[trigger] g.matching_weights(&g)[i]).0
                == g.matching_weights(&g)[i].1,
{
    lemma_same_genes_distance_zero(g, g);
}

/// The structural terms of the distance do not depend on the order of the
/// two genomes: the disjoint count, the excess count, the number of
/// matching genes and the larger size.
pub proof fn lemma_distance_terms_symmetric<W: Copy, P: Copy>(g1: Genome<W, P>, g2: Genome<W, P>)
    requires
        g1.wf(),
        g2.wf(),
    ensures
        g1.disjoint_count(&g2) == g2.disjoint_count(&g1),
        g1.excess_count(&g2) == g2.excess_count(&g1),
        g1.matching_weights(&g2).len() == g2.matching_weights(&g1).len(),
{
    g1.lemma_innovations();
    g2.lemma_innovations();
    let q2 = |k: usize| g2.has_innovation(k);
    let q1 = |k: usize| g1.has_innovation(k);
    let pm2 = |c: ConnectionGene<W>| g2.has_innovation(c.innovation);
    let pm1 = |c: ConnectionGene<W>| g1.has_innovation(c.innovation);
    lemma_filter_by_innovation(g1.connections@, pm2, q2);
    lemma_filter_by_innovation(g2.connections@, pm1, q1);
    lemma_filter_len_set(g1.innovations(), q2);
    lemma_filter_len_set(g2.innovations(), q1);
    let s1 = g1.innovations().to_set();
    let s2 = g2.innovations().to_set();
    assert(s1.filter(q2) =~= s2.filter(q1));
}

/// Keeping every element keeps the length.
proof fn lemma_all_true_filter<A>(s: Seq<A>, p: spec_fn(A) -> bool)
    requires
        forall|i: int| 0 <= i < s.len() ==> p(#[trigger] s[i]),
    ensures
        s.filter(p).len() == s.len(),
    decreases s.len(),
{
    reveal(Seq::filter);
    if s.len() > 0 {
        lemma_all_true_filter(s.drop_last(), p);
    }
}

} // verus!
