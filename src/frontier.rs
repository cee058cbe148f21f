//! Frontiers: antichains of timestamps that bound the times still to come.

use vstd::prelude::*;

verus! {

/// Logical time of an update.
pub type Timestamp = u64;

/// Some element of `frontier` is at or below `t`: updates at `t` may still arrive.
pub open spec fn frontier_le(frontier: Seq<Timestamp>, t: Timestamp) -> bool {
    exists|i: int| 0 <= i < frontier.len() && #[trigger] frontier[i] <= t
}

/// `later` has not retreated from `earlier` in antichain order: each element of
/// `later` lies at or above some element of `earlier`.
pub open spec fn frontier_advanced(earlier: Seq<Timestamp>, later: Seq<Timestamp>) -> bool {
    forall|j: int|
        0 <= j < later.len() ==> exists|i: int|
            0 <= i < earlier.len() && #[trigger] earlier[i] <= #[trigger] later[j]
}

/// Whether some element of `frontier` is at or below `t`.
pub fn less_equal(frontier: &Vec<Timestamp>, t: Timestamp) -> (r: bool)
    ensures
        r == frontier_le(frontier@, t),
{
    let mut i: usize = 0;
    while i < frontier.len()
        invariant
            i <= frontier@.len(),
            forall|k: int| 0 <= k < i ==> frontier@[k] > t,
        decreases frontier@.len() - i,
    {
        if frontier[i] <= t {
            return true;
        }
        i = i + 1;
    }
    false
}

/// A peek at `t` may be answered once no element of the upper frontier is at or
/// below `t`: the collection can no longer change at `t`.
pub fn peek_ready(upper: &Vec<Timestamp>, t: Timestamp) -> (r: bool)
    ensures
        r == !frontier_le(upper@, t),
{
    !less_equal(upper, t)
}

/// Once an upper frontier has passed a timestamp, every frontier that has not
/// retreated from it has passed that timestamp too: a ready peek stays ready.
pub proof fn lemma_readiness_monotone(earlier: Seq<Timestamp>, later: Seq<Timestamp>, t: Timestamp)
    requires
        frontier_advanced(earlier, later),
        !frontier_le(earlier, t),
    ensures
        !frontier_le(later, t),
{
    if frontier_le(later, t) {
        let j = choose|j: int| 0 <= j < later.len() && #[trigger] later[j] <= t;
        let i = choose|i: int| 0 <= i < earlier.len() && #[trigger] earlier[i] <= later[j];
        assert(earlier[i] <= t);
    }
}

} // verus!
