use vstd::prelude::*;

verus! {

/// How many members a cull keeps: the better half, rounded up.
pub fn cull_count(member_count: usize) -> (r: usize)
    ensures
        r == member_count / 2 + member_count % 2,
        2 * r >= member_count,
        r <= member_count,
{
    member_count / 2 + member_count % 2
}

/// The staleness after a generation: back to zero when the species' best
/// fitness improved, else one more.
pub fn next_staleness(staleness: usize, improved: bool) -> (r: usize)
    requires
        improved || staleness < usize::MAX,
    ensures
        r == (if improved {
            0
        } else {
            staleness + 1
        }),
{
    if improved {
        0
    } else {
        staleness + 1
    }
}

} // verus!
