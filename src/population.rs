//! The integer decisions of a generation step: which species survive
//! stagnation, and how the slots of the next generation are shared between
//! elites, offspring and the top-up.
use vstd::prelude::*;

verus! {

/// The sum of a sequence of counts.
pub open spec fn total(s: Seq<usize>) -> int
    decreases s.len(),
{
    if s.len() == 0 {
        0
    } else {
        total(s.drop_last()) + s.last()
    }
}

proof fn lemma_total_push(s: Seq<usize>, x: usize)
    ensures
        total(s.push(x)) == total(s) + x,
{
    assert(s.push(x).drop_last() =~= s);
}

proof fn lemma_total_nonneg(s: Seq<usize>)
    ensures
        total(s) >= 0,
    decreases s.len(),
{
    if s.len() > 0 {
        lemma_total_nonneg(s.drop_last());
    }
}

/// The positions of the species that are not stagnant.
pub open spec fn fresh_positions(staleness: Seq<usize>, limit: usize) -> Seq<usize>
    decreases staleness.len(),
{
    if staleness.len() == 0 {
        Seq::empty()
    } else {
        let rest = fresh_positions(staleness.drop_last(), limit);
        if staleness.last() < limit {
            rest.push((staleness.len() - 1) as usize)
        } else {
            rest
        }
    }
}

/// The positions of the species that stay after the stagnation cull: those
/// whose staleness is below `stagnation_limit`, in order; where that would
/// leave none of a non-empty list, the first species alone.
pub fn surviving_species(staleness: &Vec<usize>, stagnation_limit: usize) -> (r: Vec<usize>)
    ensures
        r@ == (if fresh_positions(staleness@, stagnation_limit).len() == 0 && staleness@.len() > 0 {
            seq![0usize]
        } else {
            fresh_positions(staleness@, stagnation_limit)
        }),
        staleness@.len() > 0 ==> r@.len() > 0,
        forall|q: int| 0 <= q < r@.len() ==> #[trigger] r@[q] < staleness@.len(),
{
    let mut r: Vec<usize> = Vec::new();
    let mut i: usize = 0;
    while i < staleness.len()
        invariant
            i <= staleness@.len(),
            r@ == fresh_positions(staleness@.subrange(0, i as int), stagnation_limit),
            forall|q: int| 0 <= q < r@.len() ==> #[trigger] r@[q] < i,
        decreases staleness@.len() - i,
    {
        proof {
            let t = staleness@.subrange(0, i as int + 1);
            assert(t.drop_last() =~= staleness@.subrange(0, i as int));
        }
        if staleness[i] < stagnation_limit {
            r.push(i);
        }
        i = i + 1;
    }
    proof {
        assert(staleness@.subrange(0, i as int) =~= staleness@);
    }
    if r.len() == 0 && staleness.len() > 0 {
        r.push(0);
        proof {
            assert(r@ =~= seq![0usize]);
        }
    }
    r
}

/// The share of each species when no genome has positive adjusted fitness:
/// the population split evenly, rounded down.
pub fn even_share(population_size: usize, species_count: usize) -> (r: usize)
    requires
        species_count > 0,
    ensures
        r == population_size / species_count,
{
    population_size / species_count
}

/// How the next generation is filled.
pub struct GenerationPlan {
    /// For each species, how many of its best members are carried over.
    pub elites: Vec<usize>,
    /// For each species, how many children it breeds.
    pub offspring: Vec<usize>,
    /// How many mutated clones of the global best fill the rest.
    pub top_up: usize,
}

/// The slots of the next generation: first the elites of each species with
/// at least `elitism` members (`elitism` each), then the offspring quota of
/// each species with members, each cut to the room that is left, then the
/// top-up to `population_size`.
pub fn plan_generation(
    population_size: usize,
    member_counts: &Vec<usize>,
    elitism: usize,
    quotas: &Vec<usize>,
) -> (r: GenerationPlan)
    requires
        member_counts@.len() == quotas@.len(),
    ensures
        r.elites@.len() == member_counts@.len(),
        r.offspring@.len() == member_counts@.len(),
        total(r.elites@) + total(r.offspring@) + r.top_up == population_size,
        forall|i: int|
            0 <= i < member_counts@.len() ==> {
                let cap = if member_counts@[i] >= elitism {
                    elitism
                } else {
                    0
                };
                &&& #[trigger] r.elites@[i] <= cap
                &&& r.elites@[i] < cap ==> total(r.elites@.subrange(0, i + 1)) == population_size
            },
        forall|i: int|
            0 <= i < member_counts@.len() ==> {
                let cap = if member_counts@[i] > 0 {
                    quotas@[i]
                } else {
                    0
                };
                &&& #[trigger] r.offspring@[i] <= cap
                &&& r.offspring@[i] < cap ==> total(r.elites@) + total(
                    r.offspring@.subrange(0, i + 1),
                ) == population_size
            },
{
    let n = member_counts.len();
    let mut room = population_size;
    let mut elites: Vec<usize> = Vec::new();
    let mut i: usize = 0;
    while i < n
        invariant
            n == member_counts@.len(),
            i <= n,
            elites@.len() == i,
            total(elites@) + room == population_size,
            forall|j: int|
                0 <= j < i ==> {
                    let cap = if member_counts@[j] >= elitism {
                        elitism
                    } else {
                        0
                    };
                    &&& #[trigger] elites@[j] <= cap
                    &&& elites@[j] < cap ==> total(elites@.subrange(0, j + 1)) == population_size
                },
            forall|j: int| 0 <= j < i && elites@[j] < (if member_counts@[j] >= elitism {
                elitism
            } else {
                0
            }) ==> room == 0,
        decreases n - i,
    {
        let cap = if member_counts[i] >= elitism {
            elitism
        } else {
            0
        };
        let take = if cap <= room {
            cap
        } else {
            room
        };
        let ghost e0 = elites@;
        elites.push(take);
        room = room - take;
        proof {
            lemma_total_push(e0, take);
            assert(elites@.subrange(0, i as int + 1) =~= elites@);
            assert forall|j: int| 0 <= j < i implies #[trigger] elites@.subrange(0, j + 1) =~= e0.subrange(0, j + 1) by {}
        }
        i = i + 1;
    }
    let ghost elites_done = elites@;
    let mut offspring: Vec<usize> = Vec::new();
    let mut i: usize = 0;
    while i < n
        invariant
            n == member_counts@.len(),
            n == quotas@.len(),
            i <= n,
            elites@ == elites_done,
            offspring@.len() == i,
            total(elites@) + total(offspring@) + room == population_size,
            forall|j: int|
                0 <= j < i ==> {
                    let cap = if member_counts@[j] > 0 {
                        quotas@[j]
                    } else {
                        0
                    };
                    &&& #[trigger] offspring@[j] <= cap
                    &&& offspring@[j] < cap ==> total(elites@) + total(
                        offspring@.subrange(0, j + 1),
                    ) == population_size
                },
            forall|j: int| 0 <= j < i && offspring@[j] < (if member_counts@[j] > 0 {
                quotas@[j]
            } else {
                0
            }) ==> room == 0,
        decreases n - i,
    {
        let cap = if member_counts[i] > 0 {
            quotas[i]
        } else {
            0
        };
        let take = if cap <= room {
            cap
        } else {
            room
        };
        let ghost o0 = offspring@;
        offspring.push(take);
        room = room - take;
        proof {
            lemma_total_push(o0, take);
            assert(offspring@.subrange(0, i as int + 1) =~= offspring@);
            assert forall|j: int| 0 <= j < i implies #[trigger] offspring@.subrange(0, j + 1) =~= o0.subrange(0, j + 1) by {}
        }
        i = i + 1;
    }
    GenerationPlan { elites, offspring, top_up: room }
}

} // verus!
