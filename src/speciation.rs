//! Respeciation: each offspring joins the first species whose
//! representative it is compatible with, or founds a new species that it
//! represents. Compatibility is the caller's test (a distance below the
//! threshold).
use vstd::prelude::*;

verus! {

/// Where the offspring of a generation go.
pub struct Placement {
    /// For each offspring, the position of its species: positions below the
    /// number of existing representatives are existing species, the next ones
    /// are the new species in the order they were founded.
    pub species: Vec<usize>,
    /// The offspring that founded new species, in order.
    pub founders: Vec<usize>,
}

/// The representative of the species at position `p`.
pub open spec fn representative_at<G>(
    representatives: Seq<G>,
    offspring: Seq<G>,
    founders: Seq<usize>,
    p: int,
) -> G {
    if p < representatives.len() {
        representatives[p]
    } else {
        offspring[founders[p - representatives.len()] as int]
    }
}

/// The species at position `p` existed when offspring `k` was placed.
pub open spec fn existed_before<G>(representatives: Seq<G>, founders: Seq<usize>, p: int, k: int) -> bool {
    p < representatives.len() || (p - representatives.len() < founders.len() && founders[p
        - representatives.len()] < k)
}

/// Places each offspring, in order, into the first species, existing ones
/// first, then those founded so far, whose representative passes
/// `within(representative, offspring)`; an offspring that passes none founds
/// a new species. A non-empty brood leaves at least one species.
pub fn place_offspring<G, F: Fn(&G, &G) -> bool>(
    representatives: &Vec<G>,
    offspring: &Vec<G>,
    within: &F,
) -> (r: Placement)
    requires
        representatives@.len() + offspring@.len() <= usize::MAX,
        forall|a: &G, b: &G| within.requires((a, b)),
    ensures
        r.species@.len() == offspring@.len(),
        offspring@.len() > 0 ==> representatives@.len() + r.founders@.len() > 0,
        forall|j: int, l: int| 0 <= j < l < r.founders@.len() ==> r.founders@[j] < r.founders@[l],
        forall|j: int|
            0 <= j < r.founders@.len() ==> #[trigger] r.founders@[j] < offspring@.len() && r.species@[r.founders@[j] as int]
                == representatives@.len() + j,
        forall|k: int|
            0 <= k < offspring@.len() ==> {
                let p = #[trigger] r.species@[k] as int;
                &&& p < representatives@.len() + r.founders@.len()
                &&& (p >= representatives@.len() && r.founders@[p - representatives@.len()] == k)
                    || (existed_before(representatives@, r.founders@, p, k) && within.ensures(
                    (
                        &representative_at(representatives@, offspring@, r.founders@, p),
                        &offspring@[k],
                    ),
                    true,
                ))
                &&& forall|q: int|
                    0 <= q < p && existed_before(representatives@, r.founders@, q, k)
                        ==> within.ensures(
                        (
                            &representative_at(representatives@, offspring@, r.founders@, q),
                            &offspring@[k],
                        ),
                        false,
                    )
            },
{
    let n_reps = representatives.len();
    let mut species: Vec<usize> = Vec::new();
    let mut founders: Vec<usize> = Vec::new();
    let mut k: usize = 0;
    while k < offspring.len()
        invariant
            n_reps == representatives@.len(),
            representatives@.len() + offspring@.len() <= usize::MAX,
            forall|a: &G, b: &G| within.requires((a, b)),
            k <= offspring@.len(),
            species@.len() == k,
            founders@.len() <= k,
            forall|j: int, l: int| 0 <= j < l < founders@.len() ==> founders@[j] < founders@[l],
            forall|j: int|
                0 <= j < founders@.len() ==> #[trigger] founders@[j] < k && species@[founders@[j] as int]
                    == n_reps + j,
            forall|x: int|
                0 <= x < k ==> {
                    let p = #[trigger] species@[x] as int;
                    &&& p < n_reps + founders@.len()
                    &&& (p >= n_reps && founders@[p - n_reps] == x) || (existed_before(
                        representatives@,
                        founders@,
                        p,
                        x,
                    ) && within.ensures(
                        (&representative_at(representatives@, offspring@, founders@, p), &offspring@[x]),
                        true,
                    ))
                    &&& forall|q: int|
                        0 <= q < p && existed_before(representatives@, founders@, q, x)
                            ==> within.ensures(
                            (
                                &representative_at(representatives@, offspring@, founders@, q),
                                &offspring@[x],
                            ),
                            false,
                        )
                },
        decreases offspring@.len() - k,
    {
        let total = n_reps + founders.len();
        let mut p: usize = 0;
        let mut found = false;
        while p < total && !found
            invariant
                n_reps == representatives@.len(),
                total == n_reps + founders@.len(),
                forall|a: &G, b: &G| within.requires((a, b)),
                k < offspring@.len(),
                forall|j: int| 0 <= j < founders@.len() ==> #[trigger] founders@[j] < k,
                p <= total,
                found ==> p < total && within.ensures(
                    (&representative_at(representatives@, offspring@, founders@, p as int), &offspring@[k as int]),
                    true,
                ),
                forall|q: int|
                    0 <= q < p ==> within.ensures(
                        (&representative_at(representatives@, offspring@, founders@, q), &offspring@[k as int]),
                        false,
                    ),
            decreases total - p + (if found { 0int } else { 1int }),
        {
            let rep = if p < n_reps {
                &representatives[p]
            } else {
                &offspring[founders[p - n_reps]]
            };
            if within(rep, &offspring[k]) {
                found = true;
            } else {
                p = p + 1;
            }
        }
        let ghost f0 = founders@;
        let ghost s0 = species@;
        assert(found || p == total);
        if found {
            species.push(p);
        } else {
            founders.push(k);
            species.push(total);
        }
        proof {
            assert forall|j: int| 0 <= j < founders@.len() implies #[trigger] founders@[j] < k + 1
                && species@[founders@[j] as int] == n_reps + j by {
                if j < f0.len() {
                    assert(founders@[j] == f0[j]);
                }
            }
            assert forall|q: int| 0 <= q < f0.len() + n_reps implies representative_at(
                representatives@,
                offspring@,
                founders@,
                q,
            ) == representative_at(representatives@, offspring@, f0, q) by {
                if q >= n_reps {
                    assert(founders@[q - n_reps] == f0[q - n_reps]);
                }
            }
            assert forall|q: int, x: int| 0 <= x <= k && 0 <= q < f0.len() + n_reps implies existed_before(
                representatives@,
                founders@,
                q,
                x,
            ) == existed_before(representatives@, f0, q, x) by {
                if q >= n_reps {
                    assert(founders@[q - n_reps] == f0[q - n_reps]);
                }
            }
            assert forall|x: int| 0 <= x < k + 1 implies {
                let p = #[trigger] species@[x] as int;
                &&& p < n_reps + founders@.len()
                &&& (p >= n_reps && founders@[p - n_reps] == x) || (existed_before(
                    representatives@,
                    founders@,
                    p,
                    x,
                ) && within.ensures(
                    (&representative_at(representatives@, offspring@, founders@, p), &offspring@[x]),
                    true,
                ))
                &&& forall|q: int|
                    0 <= q < p && existed_before(representatives@, founders@, q, x)
                        ==> within.ensures(
                        (
                            &representative_at(representatives@, offspring@, founders@, q),
                            &offspring@[x],
                        ),
                        false,
                    )
            } by {
                let p = species@[x] as int;
                if x < k {
                    assert(species@[x] == s0[x]);
                    assert forall|q: int|
                        0 <= q < p && existed_before(representatives@, founders@, q, x) implies within.ensures(
                        (
                            &representative_at(representatives@, offspring@, founders@, q),
                            &offspring@[x],
                        ),
                        false,
                    ) by {
                        assert(existed_before(representatives@, f0, q, x));
                    }
                } else {
                    assert forall|q: int|
                        0 <= q < p && existed_before(representatives@, founders@, q, x) implies within.ensures(
                        (
                            &representative_at(representatives@, offspring@, founders@, q),
                            &offspring@[x],
                        ),
                        false,
                    ) by {
                        assert(q < total);
                        assert(representative_at(representatives@, offspring@, founders@, q)
                            == representative_at(representatives@, offspring@, f0, q));
                    }
                }
            }
        }
        k = k + 1;
    }
    proof {
        if offspring@.len() > 0 {
            assert(species@[0] < n_reps + founders@.len());
        }
    }
    Placement { species, founders }
}

} // verus!
