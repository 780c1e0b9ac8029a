//! How many validators may be faulty, and how many decide a dispute.
use vstd::prelude::*;

verus! {

/// The largest `f` with `3 * f < n`; none of no validators.
pub open spec fn faulty_bound(n: nat) -> nat {
    if n == 0 {
        0
    } else {
        ((n - 1) / 3) as nat
    }
}

/// All but the validators that may be faulty.
pub open spec fn supermajority(n: nat) -> nat {
    (n - faulty_bound(n)) as nat
}

/// The maximum number of validators `f` which may safely be faulty.
///
/// The total number of validators is `n = 3f + e` where `e in { 1, 2, 3 }`.
pub fn byzantine_threshold(n: usize) -> (f: usize)
    ensures
        f == faulty_bound(n as nat),
{
    n.saturating_sub(1) / 3
}

/// The supermajority threshold of validators which is required to
/// conclude a dispute.
pub fn supermajority_threshold(n: usize) -> (t: usize)
    ensures
        t == supermajority(n as nat),
{
    n - byzantine_threshold(n)
}

} // verus!
