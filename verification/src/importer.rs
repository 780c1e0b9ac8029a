//! Import of votes into a dispute, and what follows from them.
use crate::bits::{complement, intersection, ones, zeros, VoteBits};
use crate::errors::VoteImportError;
use crate::flags::DisputeStateFlags;
use crate::primitives::{Dispute, DisputeState, ValidatorIndex};
use vstd::prelude::*;

verus! {

/// A change to the number of spam slots that a validator occupies.
#[derive(Clone, Copy, PartialEq, Eq, Debug, Structural)]
pub enum SpamSlotChange {
    /// One more slot.
    Inc,
    /// One slot less.
    Dec,
}

/// The validators whose bits are set, in ascending order.
pub open spec fn indices(s: Seq<bool>) -> Seq<ValidatorIndex> {
    ones(s).map_values(|i: int| ValidatorIndex(i as u32))
}

/// The same change for each validator whose bit is set, in ascending order.
pub open spec fn changes(s: Seq<bool>, change: SpamSlotChange) -> Seq<
    (ValidatorIndex, SpamSlotChange),
> {
    ones(s).map_values(|i: int| (ValidatorIndex(i as u32), change))
}

/// The outcome of an import of votes.
#[derive(PartialEq, Eq, Debug)]
pub struct ImportSummary<BlockNumber> {
    /// The new state, with all votes imported.
    pub state: DisputeState<BlockNumber>,
    /// Changes to spam slots. Validator index paired with directional change.
    pub spam_slot_changes: Vec<(ValidatorIndex, SpamSlotChange)>,
    /// Validators to slash for being (wrongly) on the AGAINST side.
    pub slash_against: Vec<ValidatorIndex>,
    /// Validators to slash for being (wrongly) on the FOR side.
    pub slash_for: Vec<ValidatorIndex>,
    /// New participants in the dispute.
    pub new_participants: VoteBits,
    /// Difference in state flags from previous.
    pub new_flags: DisputeStateFlags,
}

/// An [`ImportSummary`], its collections read as sequences.
#[verifier::ext_equal]
pub struct Summary<BlockNumber> {
    pub state: Dispute<BlockNumber>,
    pub spam_slot_changes: Seq<(ValidatorIndex, SpamSlotChange)>,
    pub slash_against: Seq<ValidatorIndex>,
    pub slash_for: Seq<ValidatorIndex>,
    pub new_participants: Seq<bool>,
    pub new_flags: DisputeStateFlags,
}

impl<BlockNumber> View for ImportSummary<BlockNumber> {
    type V = Summary<BlockNumber>;

    open spec fn view(&self) -> Summary<BlockNumber> {
        Summary {
            state: self.state@,
            spam_slot_changes: self.spam_slot_changes@,
            slash_against: self.slash_against@,
            slash_for: self.slash_for@,
            new_participants: self.new_participants@,
            new_flags: self.new_flags,
        }
    }
}

/// Collects votes on one dispute.
#[derive(PartialEq, Eq, Debug)]
pub struct DisputeStateImporter<BlockNumber> {
    state: DisputeState<BlockNumber>,
    now: BlockNumber,
    new_participants: VoteBits,
    pre_flags: DisputeStateFlags,
}

/// A [`DisputeStateImporter`], its vote records read as sequences of bits.
#[verifier::ext_equal]
pub struct Import<BlockNumber> {
    /// The dispute with the votes imported so far.
    pub state: Dispute<BlockNumber>,
    /// The current block.
    pub now: BlockNumber,
    /// Those who voted for the first time, on either side.
    pub new_participants: Seq<bool>,
    /// The milestones reached before the import.
    pub pre_flags: DisputeStateFlags,
}

impl<BlockNumber> View for DisputeStateImporter<BlockNumber> {
    type V = Import<BlockNumber>;

    closed spec fn view(&self) -> Import<BlockNumber> {
        Import {
            state: self.state@,
            now: self.now,
            new_participants: self.new_participants@,
            pre_flags: self.pre_flags,
        }
    }
}

impl<BlockNumber> Dispute<BlockNumber> {
    /// The votes on one side.
    pub open spec fn side(self, valid: bool) -> Seq<bool> {
        if valid {
            self.validators_for
        } else {
            self.validators_against
        }
    }

    /// The dispute with one more vote.
    pub open spec fn with_vote(self, validator: int, valid: bool) -> Dispute<BlockNumber> {
        if valid {
            Dispute { validators_for: self.validators_for.update(validator, true), ..self }
        } else {
            Dispute { validators_against: self.validators_against.update(validator, true), ..self }
        }
    }
}

impl<BlockNumber> Import<BlockNumber> {
    /// An import into `state` that has seen no vote yet.
    pub open spec fn start(state: Dispute<BlockNumber>, now: BlockNumber) -> Import<BlockNumber> {
        Import {
            state,
            now,
            new_participants: zeros(state.validators_for.len()),
            pre_flags: state.flags(),
        }
    }

    /// What one vote makes of the import, or why it is refused.
    ///
    /// A validator may vote once on each side. It is a new participant if the
    /// other side has a cleared bit for it as well.
    pub open spec fn vote(self, validator: ValidatorIndex, valid: bool) -> Result<
        Import<BlockNumber>,
        VoteImportError,
    > {
        let i = validator.0 as int;
        let side = self.state.side(valid);
        let other = self.state.side(!valid);
        if i >= side.len() {
            Err(VoteImportError::ValidatorIndexOutOfBounds)
        } else if side[i] {
            Err(VoteImportError::DuplicateStatement)
        } else if i >= self.new_participants.len() {
            Err(VoteImportError::ValidatorIndexOutOfBounds)
        } else {
            Ok(
                Import {
                    state: self.state.with_vote(i, valid),
                    new_participants: if i < other.len() && !other[i] {
                        self.new_participants.update(i, true)
                    } else {
                        self.new_participants
                    },
                    ..self
                },
            )
        }
    }

    /// The milestones that were reached by the import.
    pub open spec fn new_flags(self) -> DisputeStateFlags {
        self.state.flags().without(self.pre_flags)
    }

    /// Everyone who voted before the import.
    pub open spec fn previous_participants(self) -> Seq<bool> {
        intersection(self.state.participants(), complement(self.new_participants))
    }

    /// What is left to do when all votes are in.
    ///
    /// - While the dispute stays unconfirmed, each new participant occupies a
    ///   spam slot. Once it is confirmed, the previous ones have theirs back.
    /// - A fresh supermajority concludes the dispute, unless it was concluded
    ///   before, and has the other side slashed.
    pub open spec fn summary(self) -> Summary<BlockNumber> {
        let post = self.state.flags();
        let fresh = self.new_flags();
        Summary {
            state: Dispute {
                concluded_at: if self.state.concluded_at is None && (fresh.for_supermajority
                    || fresh.against_supermajority) {
                    Some(self.now)
                } else {
                    self.state.concluded_at
                },
                ..self.state
            },
            spam_slot_changes: if self.pre_flags.confirmed {
                Seq::empty()
            } else if post.confirmed {
                changes(self.previous_participants(), SpamSlotChange::Dec)
            } else {
                changes(self.new_participants, SpamSlotChange::Inc)
            },
            slash_against: if fresh.for_supermajority {
                indices(self.state.validators_against)
            } else {
                Seq::empty()
            },
            slash_for: if fresh.against_supermajority {
                indices(self.state.validators_for)
            } else {
                Seq::empty()
            },
            new_participants: self.new_participants,
            new_flags: fresh,
        }
    }
}

/// The validators whose bits are set.
pub(crate) fn set_validators(v: &VoteBits) -> (r: Vec<ValidatorIndex>)
    ensures
        r@ == indices(v@),
{
    let positions = v.iter_ones();
    let mut r: Vec<ValidatorIndex> = Vec::new();
    let mut i: usize = 0;
    while i < positions.len()
        invariant
            i <= positions.len(),
            positions@.map_values(|i: usize| i as int) == ones(v@),
            r@ =~= indices(v@).take(i as int),
        decreases positions.len() - i,
    {
        assert(positions@.map_values(|i: usize| i as int)[i as int] == positions@[i as int]);
        r.push(ValidatorIndex(positions[i] as u32));
        i = i + 1;
    }
    assert(positions@.map_values(|i: usize| i as int).len() == positions.len());
    r
}

/// The same change for each validator whose bit is set.
fn set_validators_with(v: &VoteBits, change: SpamSlotChange) -> (r: Vec<
    (ValidatorIndex, SpamSlotChange),
>)
    ensures
        r@ == changes(v@, change),
{
    let validators = set_validators(v);
    let mut r: Vec<(ValidatorIndex, SpamSlotChange)> = Vec::new();
    let mut i: usize = 0;
    while i < validators.len()
        invariant
            i <= validators.len(),
            validators@ == indices(v@),
            r@ =~= changes(v@, change).take(i as int),
        decreases validators.len() - i,
    {
        r.push((validators[i], change));
        i = i + 1;
    }
    r
}

impl<BlockNumber> DisputeStateImporter<BlockNumber> {
    /// Begins an import into `state`.
    pub fn new(state: DisputeState<BlockNumber>, now: BlockNumber) -> (r: DisputeStateImporter<
        BlockNumber,
    >)
        ensures
            r@ == Import::start(state@, now),
    {
        let pre_flags = DisputeStateFlags::from_state(&state);
        let new_participants = VoteBits::repeat_cleared(state.validators_for.size());
        DisputeStateImporter { state, now, new_participants, pre_flags }
    }

    /// Imports one vote.
    pub fn import(&mut self, validator: ValidatorIndex, valid: bool) -> (r: Result<
        (),
        VoteImportError,
    >)
        ensures
            match old(self)@.vote(validator, valid) {
                Ok(import) => r is Ok && final(self)@ == import,
                Err(e) => r == Err::<(), VoteImportError>(e) && final(self)@ == old(self)@,
            },
    {
        let i: usize = validator.0 as usize;
        // out of bounds or already participated
        let own: Option<bool> = if valid {
            self.state.validators_for.bit(i)
        } else {
            self.state.validators_against.bit(i)
        };
        match own {
            None => {
                return Err(VoteImportError::ValidatorIndexOutOfBounds);
            },
            Some(already) => {
                if already {
                    return Err(VoteImportError::DuplicateStatement);
                }
            },
        }
        // inefficient, and just for extra sanity.
        if i >= self.new_participants.size() {
            return Err(VoteImportError::ValidatorIndexOutOfBounds);
        }
        // New participants tracks those which didn't appear on either
        // side of the dispute until now. So we check the other side
        // and checked the first side before.

        let other: Option<bool> = if valid {
            self.state.validators_for.write(i, true);
            self.state.validators_against.bit(i)
        } else {
            self.state.validators_against.write(i, true);
            self.state.validators_for.bit(i)
        };
        if let Some(voted) = other {
            if !voted {
                self.new_participants.write(i, true);
            }
        }
        Ok(())
    }

    /// Ends the import.
    pub fn finish(self) -> (r: ImportSummary<BlockNumber>)
        ensures
            r@ == self@.summary(),
    {
        let pre_flags = self.pre_flags;
        let post_flags = DisputeStateFlags::from_state(&self.state);
        let new_flags = post_flags.difference(pre_flags);

        // 1. Act on confirmed flag state to inform spam slots changes.
        let spam_slot_changes: Vec<(ValidatorIndex, SpamSlotChange)> = if pre_flags.confirmed {
            // nothing to do.
            Vec::new()
        } else if post_flags.confirmed {
            // all participants
            let mut prev_participants = self.state.validators_for.clone();
            prev_participants.or_assign(&self.state.validators_against);
            // which are not new participants
            let not_new = self.new_participants.clone().negated();
            prev_participants.and_assign(&not_new);
            set_validators_with(&prev_participants, SpamSlotChange::Dec)
        } else {
            // increment spam slots for all new participants.
            set_validators_with(&self.new_participants, SpamSlotChange::Inc)
        };

        // 2. Check for fresh FOR supermajority: provide AGAINST voters to slash.
        let slash_against = if new_flags.for_supermajority {
            set_validators(&self.state.validators_against)
        } else {
            Vec::new()
        };

        // 3. Check for fresh AGAINST supermajority: provide FOR voters to slash.
        let slash_for = if new_flags.against_supermajority {
            set_validators(&self.state.validators_for)
        } else {
            Vec::new()
        };

        // Only if not already concluded.
        let mut state = self.state;
        if state.concluded_at.is_none() && (new_flags.for_supermajority
            || new_flags.against_supermajority) {
            state.concluded_at = Some(self.now);
        }
        ImportSummary {
            state,
            spam_slot_changes,
            slash_against,
            slash_for,
            new_participants: self.new_participants,
            new_flags,
        }
    }
}

/// A summary is read field by field.
pub proof fn law_summary_fields<BlockNumber>(summary: ImportSummary<BlockNumber>)
    ensures
        summary@.state == summary.state@,
        summary@.spam_slot_changes == summary.spam_slot_changes@,
        summary@.slash_against == summary.slash_against@,
        summary@.slash_for == summary.slash_for@,
        summary@.new_participants == summary.new_participants@,
        summary@.new_flags == summary.new_flags,
{
}

} // verus!
