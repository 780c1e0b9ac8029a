//! Milestones of a dispute that follow from its votes alone.
use crate::bits::{count, union};
use crate::primitives::{Dispute, DisputeState};
use crate::thresholds::{byzantine_threshold, supermajority_threshold};
use crate::thresholds::{faulty_bound, supermajority};
use vstd::prelude::*;

verus! {

/// A set of milestones.
#[derive(Clone, Copy, PartialEq, Eq, Debug, Structural)]
pub struct DisputeStateFlags {
    /// More validators take part than may be faulty, so at least one is honest.
    pub confirmed: bool,
    /// A supermajority holds the candidate to be valid.
    pub for_supermajority: bool,
    /// A supermajority holds the candidate to be invalid.
    pub against_supermajority: bool,
}

impl<BlockNumber> Dispute<BlockNumber> {
    /// The number of validators of the session.
    pub open spec fn size(self) -> nat {
        self.validators_for.len()
    }

    /// Everyone who voted, on either side.
    pub open spec fn participants(self) -> Seq<bool> {
        union(self.validators_for, self.validators_against)
    }

    pub open spec fn confirmed(self) -> bool {
        count(self.participants()) > faulty_bound(self.size())
    }

    pub open spec fn flags(self) -> DisputeStateFlags {
        DisputeStateFlags {
            confirmed: self.confirmed(),
            for_supermajority: count(self.validators_for) >= supermajority(self.size()),
            against_supermajority: count(self.validators_against) >= supermajority(self.size()),
        }
    }

    /// A supermajority of those that the against side has room for.
    pub open spec fn supermajority_against(self) -> bool {
        count(self.validators_against) >= supermajority(self.validators_against.len())
    }
}

impl DisputeStateFlags {
    /// No milestone.
    pub open spec fn none() -> DisputeStateFlags {
        DisputeStateFlags {
            confirmed: false,
            for_supermajority: false,
            against_supermajority: false,
        }
    }

    /// The milestones of `self` that `other` lacks.
    pub open spec fn without(self, other: DisputeStateFlags) -> DisputeStateFlags {
        DisputeStateFlags {
            confirmed: self.confirmed && !other.confirmed,
            for_supermajority: self.for_supermajority && !other.for_supermajority,
            against_supermajority: self.against_supermajority && !other.against_supermajority,
        }
    }

    /// The milestones that the votes of a dispute have reached.
    pub fn from_state<BlockNumber>(state: &DisputeState<BlockNumber>) -> (r: DisputeStateFlags)
        ensures
            r == state@.flags(),
    {
        let n: usize = state.validators_for.size();
        let byzantine_threshold: usize = byzantine_threshold(n);
        let supermajority_threshold: usize = supermajority_threshold(n);
        let mut all_participants = state.validators_for.clone();
        all_participants.or_assign(&state.validators_against);
        DisputeStateFlags {
            confirmed: all_participants.count_ones() > byzantine_threshold,
            for_supermajority: state.validators_for.count_ones() >= supermajority_threshold,
            against_supermajority: state.validators_against.count_ones()
                >= supermajority_threshold,
        }
    }

    /// The milestones of `self` that `other` lacks.
    pub fn difference(self, other: DisputeStateFlags) -> (r: DisputeStateFlags)
        ensures
            r == self.without(other),
    {
        DisputeStateFlags {
            confirmed: self.confirmed && !other.confirmed,
            for_supermajority: self.for_supermajority && !other.for_supermajority,
            against_supermajority: self.against_supermajority && !other.against_supermajority,
        }
    }
}

impl Default for DisputeStateFlags {
    fn default() -> (r: DisputeStateFlags)
        ensures
            r == DisputeStateFlags::none(),
    {
        DisputeStateFlags {
            confirmed: false,
            for_supermajority: false,
            against_supermajority: false,
        }
    }
}

/// Whether a supermajority has voted against the candidate.
pub fn has_supermajority_against<BlockNumber>(dispute: &DisputeState<BlockNumber>) -> (r: bool)
    ensures
        r == dispute@.supermajority_against(),
{
    let supermajority_threshold: usize = supermajority_threshold(
        dispute.validators_against.size(),
    );
    dispute.validators_against.count_ones() >= supermajority_threshold
}

/// A milestone is in a difference if it is in the first set and not in the second.
/// No milestone is in the empty set.
pub proof fn law_flag_sets(a: DisputeStateFlags, b: DisputeStateFlags)
    ensures
        a.without(b).confirmed == (a.confirmed && !b.confirmed),
        a.without(b).for_supermajority == (a.for_supermajority && !b.for_supermajority),
        a.without(b).against_supermajority == (a.against_supermajority
            && !b.against_supermajority),
        !DisputeStateFlags::none().confirmed,
        !DisputeStateFlags::none().for_supermajority,
        !DisputeStateFlags::none().against_supermajority,
{
}

} // verus!
