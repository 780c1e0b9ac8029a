//! What votes amount to, in numbers and sets of validators.
use crate::bits::{count, lemma_ones, ones};
use crate::errors::{Error, VoteImportError};
use crate::importer::{changes, indices, Import, SpamSlotChange};
use crate::primitives::{Dispute, DisputeStatement, ValidatorIndex};
use crate::spam::{changed_slots, decremented};
use crate::thresholds::{faulty_bound, supermajority};
use vstd::prelude::*;

verus! {

/// The validators whose bits are set.
pub open spec fn voters(s: Seq<bool>) -> Set<int> {
    Set::new(|i: int| 0 <= i < s.len() && s[i])
}

/// Everyone who has a bit set on either side, as far as the for side has bits.
pub open spec fn taking_part<BlockNumber>(dispute: Dispute<BlockNumber>) -> Set<int> {
    Set::new(
        |i: int|
            0 <= i < dispute.validators_for.len() && (dispute.validators_for[i] || (i
                < dispute.validators_against.len() && dispute.validators_against[i])),
    )
}

/// Whether some validators are a third of all, or more.
pub open spec fn a_third(who: Set<int>, n: nat) -> bool {
    3 * who.len() >= n
}

/// Whether some validators are more than two thirds of all.
pub open spec fn over_two_thirds(who: Set<int>, n: nat) -> bool {
    3 * who.len() > 2 * n
}

/// Whether a list names exactly some validators, in ascending order.
pub open spec fn names(list: Seq<ValidatorIndex>, who: Set<int>) -> bool {
    &&& forall|j: int, k: int|
        #![trigger list[j], list[k]]
        0 <= j < k < list.len() ==> list[j].0 < list[k].0
    &&& forall|k: int| 0 <= k < list.len() ==> who.contains((#[trigger] list[k]).0 as int)
    &&& forall|i: int| #[trigger]
        who.contains(i) ==> exists|k: int| 0 <= k < list.len() && (#[trigger] list[k]).0 == i
}

/// The number of set bits is the number of voters.
pub proof fn law_count_is_voters(s: Seq<bool>)
    ensures
        voters(s).finite(),
        count(s) == voters(s).len(),
    decreases s.len(),
{
    if s.len() == 0 {
        assert(voters(s) =~= Set::empty());
    } else {
        let t = s.drop_last();
        law_count_is_voters(t);
        if s.last() {
            assert(voters(s) =~= voters(t).insert(s.len() - 1));
        } else {
            assert(voters(s) =~= voters(t));
        }
    }
}

/// Nobody may be faulty of no validators, and none are needed to decide.
pub proof fn law_no_validators()
    ensures
        faulty_bound(0) == 0,
        supermajority(0) == 0,
{
}

/// A dispute is confirmed by a third of all validators, and decided by more than
/// two thirds. Without validators it is decided both ways and not confirmed.
pub proof fn law_milestones<BlockNumber>(dispute: Dispute<BlockNumber>)
    ensures
        ({
            let n = dispute.validators_for.len();
            let flags = dispute.flags();
            &&& taking_part(dispute).finite()
            &&& flags.confirmed == (n > 0 && a_third(taking_part(dispute), n))
            &&& flags.for_supermajority == (n == 0 || over_two_thirds(
                voters(dispute.validators_for),
                n,
            ))
            &&& flags.against_supermajority == (n == 0 || over_two_thirds(
                voters(dispute.validators_against),
                n,
            ))
            &&& dispute.supermajority_against() == (dispute.validators_against.len() == 0
                || over_two_thirds(
                voters(dispute.validators_against),
                dispute.validators_against.len(),
            ))
        }),
{
    law_count_is_voters(dispute.validators_for);
    law_count_is_voters(dispute.validators_against);
    law_count_is_voters(dispute.participants());
    assert(voters(dispute.participants()) =~= taking_part(dispute));
    if dispute.validators_for.len() == 0 {
        assert(taking_part(dispute) =~= Set::empty());
    }
}

/// A record of votes is listed as its voters, in ascending order.
pub proof fn law_listed(s: Seq<bool>)
    requires
        s.len() <= u32::MAX,
    ensures
        names(indices(s), voters(s)),
{
    lemma_ones(s);
    let list = indices(s);
    assert forall|i: int| #[trigger] voters(s).contains(i) implies exists|k: int|
        0 <= k < list.len() && (#[trigger] list[k]).0 == i by {
        let k = choose|k: int| 0 <= k < ones(s).len() && ones(s)[k] == i;
        assert(list[k].0 == i);
    }
    assert forall|j: int, k: int|
        #![trigger list[j], list[k]]
        0 <= j < k < list.len() implies list[j].0 < list[k].0 by {
        assert(ones(s)[j] < ones(s)[k]);
    }
}

/// The validators that changes are for.
pub open spec fn changed(list: Seq<(ValidatorIndex, SpamSlotChange)>) -> Seq<ValidatorIndex> {
    list.map_values(|c: (ValidatorIndex, SpamSlotChange)| c.0)
}

proof fn lemma_changes_listed(s: Seq<bool>, change: SpamSlotChange)
    requires
        s.len() <= u32::MAX,
    ensures
        names(changed(changes(s, change)), voters(s)),
        forall|k: int|
            0 <= k < changes(s, change).len() ==> (#[trigger] changes(s, change)[k]).1 == change,
{
    law_listed(s);
    assert(changed(changes(s, change)) =~= indices(s));
}

/// A vote sets the bit of its validator on its own side, and no other. It is
/// refused where that side has no such bit or has it set. The validator is new if the other
/// side has its bit cleared.
pub proof fn law_vote<BlockNumber>(
    import: Import<BlockNumber>,
    validator: ValidatorIndex,
    valid: bool,
)
    ensures
        ({
            let i = validator.0 as int;
            let votes_for = import.state.validators_for;
            let votes_against = import.state.validators_against;
            let own = if valid {
                votes_for
            } else {
                votes_against
            };
            let other = if valid {
                votes_against
            } else {
                votes_for
            };
            let new = import.new_participants;
            match import.vote(validator, valid) {
                Err(VoteImportError::DuplicateStatement) => i < own.len() && own[i],
                Err(VoteImportError::ValidatorIndexOutOfBounds) => i >= own.len() || (!own[i] && i
                    >= new.len()),
                Ok(after) => {
                    &&& i < own.len() && !own[i] && i < new.len()
                    &&& after.state.validators_for.len() == votes_for.len()
                    &&& after.state.validators_against.len() == votes_against.len()
                    &&& after.new_participants.len() == new.len()
                    &&& voters(after.state.validators_for) =~= if valid {
                        voters(votes_for).insert(i)
                    } else {
                        voters(votes_for)
                    }
                    &&& voters(after.state.validators_against) =~= if valid {
                        voters(votes_against)
                    } else {
                        voters(votes_against).insert(i)
                    }
                    &&& voters(after.new_participants) =~= if i < other.len() && !other[i] {
                        voters(new).insert(i)
                    } else {
                        voters(new)
                    }
                    &&& after.state.start == import.state.start
                    &&& after.state.concluded_at == import.state.concluded_at
                    &&& after.now == import.now
                    &&& after.pre_flags == import.pre_flags
                },
            }
        }),
{
}

/// A statement of any kind that a candidate is valid is a vote for it, and one of
/// any kind that it is invalid is a vote against it. A statement of nobody, or
/// that is not signed, is refused.
pub proof fn law_statement<BlockNumber>(
    import: Import<BlockNumber>,
    n_validators: nat,
    statement: DisputeStatement,
    validator: ValidatorIndex,
    verified: bool,
)
    ensures
        ({
            let result = import.statement(n_validators, statement, validator, verified);
            let vote = match statement {
                DisputeStatement::Valid(_) => import.vote(validator, true),
                DisputeStatement::Invalid(_) => import.vote(validator, false),
            };
            match result {
                Ok(after) => validator.0 < n_validators && verified && vote == Ok::<
                    Import<BlockNumber>,
                    VoteImportError,
                >(after),
                Err(Error::ValidatorIndexOutOfBounds) => validator.0 >= n_validators || (verified
                    && vote == Err::<Import<BlockNumber>, VoteImportError>(
                    VoteImportError::ValidatorIndexOutOfBounds,
                )),
                Err(Error::InvalidSignature) => validator.0 < n_validators && !verified,
                Err(Error::DuplicateStatement) => validator.0 < n_validators && verified && vote
                    == Err::<Import<BlockNumber>, VoteImportError>(
                    VoteImportError::DuplicateStatement,
                ),
                Err(_) => false,
            }
        }),
{
}

/// An import begins without votes of its own, and with the milestones that the
/// dispute has reached.
pub proof fn law_import_begins<BlockNumber>(dispute: Dispute<BlockNumber>, now: BlockNumber)
    ensures
        ({
            let import = Import::start(dispute, now);
            &&& import.state == dispute
            &&& import.now == now
            &&& import.new_participants.len() == dispute.validators_for.len()
            &&& voters(import.new_participants) =~= Set::empty()
            &&& import.pre_flags == dispute.flags()
        }),
{
}

/// When an import ends:
/// - a milestone is new if it is reached and was not before;
/// - a new supermajority concludes a dispute that has not concluded, and has everyone
///   on the other side slashed;
/// - once a dispute is confirmed, those who voted before the import have a spam
///   slot back; while it is not, those who are new to it occupy one.
pub proof fn law_import_ends<BlockNumber>(import: Import<BlockNumber>)
    requires
        import.state.validators_for.len() <= u32::MAX,
        import.state.validators_against.len() <= u32::MAX,
        import.new_participants.len() <= u32::MAX,
    ensures
        ({
            let before = import.state;
            let n = before.validators_for.len();
            let had = import.pre_flags;
            let confirmed = n > 0 && a_third(taking_part(before), n);
            let won = !had.for_supermajority && (n == 0 || over_two_thirds(
                voters(before.validators_for),
                n,
            ));
            let lost = !had.against_supermajority && (n == 0 || over_two_thirds(
                voters(before.validators_against),
                n,
            ));
            let summary = import.summary();
            &&& summary.new_flags.confirmed == (confirmed && !had.confirmed)
            &&& summary.new_flags.for_supermajority == won
            &&& summary.new_flags.against_supermajority == lost
            &&& summary.state.validators_for == before.validators_for
            &&& summary.state.validators_against == before.validators_against
            &&& summary.state.start == before.start
            &&& before.concluded_at is Some ==> summary.state.concluded_at == before.concluded_at
            &&& before.concluded_at is None ==> summary.state.concluded_at == (if won || lost {
                Some(import.now)
            } else {
                None
            })
            &&& summary.new_participants == import.new_participants
            &&& names(
                summary.slash_against,
                if won {
                    voters(before.validators_against)
                } else {
                    Set::empty()
                },
            )
            &&& names(
                summary.slash_for,
                if lost {
                    voters(before.validators_for)
                } else {
                    Set::empty()
                },
            )
            &&& names(
                changed(summary.spam_slot_changes),
                if had.confirmed {
                    Set::empty()
                } else if confirmed {
                    taking_part(before).difference(
                        Set::new(
                            |i: int|
                                i >= import.new_participants.len() || import.new_participants[i],
                        ),
                    )
                } else {
                    voters(import.new_participants)
                },
            )
            &&& forall|k: int|
                0 <= k < summary.spam_slot_changes.len() ==> (
                #[trigger] summary.spam_slot_changes[k]).1 == (if confirmed {
                    SpamSlotChange::Dec
                } else {
                    SpamSlotChange::Inc
                })
        }),
{
    let before = import.state;
    let summary = import.summary();
    law_milestones(before);
    law_listed(before.validators_against);
    law_listed(before.validators_for);
    lemma_changes_listed(import.previous_participants(), SpamSlotChange::Dec);
    lemma_changes_listed(import.new_participants, SpamSlotChange::Inc);
    assert(voters(import.previous_participants()) =~= taking_part(before).difference(
        Set::new(|i: int| i >= import.new_participants.len() || import.new_participants[i]),
    ));
    assert(changed(Seq::<(ValidatorIndex, SpamSlotChange)>::empty()).len() == 0);
}

/// Changes to spam slots are made one after the other. One more is refused at the
/// limit, and one less stops at none.
pub proof fn law_slot_changes(
    slots: Seq<u32>,
    first: Seq<(ValidatorIndex, SpamSlotChange)>,
    validator: ValidatorIndex,
    change: SpamSlotChange,
    limit: u32,
)
    requires
        validator.0 < slots.len(),
    ensures
        changed_slots(slots, Seq::empty(), limit) == Ok::<Seq<u32>, Error>(slots),
        ({
            let before = changed_slots(slots, first, limit);
            let after = changed_slots(slots, first.push((validator, change)), limit);
            let i = validator.0 as int;
            match before {
                Err(e) => after == Err::<Seq<u32>, Error>(e),
                Ok(had) => match after {
                    Err(e) => e == Error::PotentialSpam && change is Inc && had[i] >= limit,
                    Ok(has) => had.len() == slots.len() ==> {
                        &&& has.len() == had.len()
                        &&& forall|j: int|
                            0 <= j < had.len() && j != i ==> #[trigger] has[j] == had[j]
                        &&& change is Inc ==> had[i] < limit && has[i] == had[i] + 1
                        &&& change is Dec ==> has[i] == (if had[i] == 0 {
                            0
                        } else {
                            had[i] - 1
                        })
                    },
                },
            }
        }),
{
    let all = first.push((validator, change));
    assert(all.drop_last() =~= first);
}

/// Spam slots are released for exactly those who take part in a dispute, unless
/// they are a third of all validators, or more.
pub proof fn law_release<BlockNumber>(slots: Seq<u32>, dispute: Dispute<BlockNumber>)
    ensures
        ({
            let after = decremented(slots, dispute);
            &&& after.len() == slots.len()
            &&& forall|i: int|
                0 <= i < slots.len() ==> #[trigger] after[i] == (if slots[i] > 0
                    && !a_third(taking_part(dispute), slots.len()) && taking_part(
                    dispute,
                ).contains(i) {
                    slots[i] - 1
                } else {
                    slots[i] as int
                })
        }),
{
    law_count_is_voters(dispute.participants());
    assert(voters(dispute.participants()) =~= taking_part(dispute));
}

/// Everyone who has a bit set on either side takes part.
pub proof fn law_participants<BlockNumber>(dispute: Dispute<BlockNumber>)
    ensures
        dispute.participants().len() == dispute.validators_for.len(),
        voters(dispute.participants()) =~= taking_part(dispute),
{
}

} // verus!
