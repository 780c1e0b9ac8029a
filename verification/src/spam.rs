//! Spam slots: per validator of a session, the number of unconfirmed disputes
//! on candidates that the chain has not included.
use crate::bits::{count, lemma_ones, ones, VoteBits};
use crate::errors::Error;
use crate::importer::SpamSlotChange;
use crate::primitives::{Dispute, DisputeState, ValidatorIndex};
use crate::thresholds::{byzantine_threshold, faulty_bound};
use vstd::prelude::*;

verus! {

/// One slot less, if any is occupied.
pub open spec fn one_less(slot: u32) -> u32 {
    if slot == 0 {
        0
    } else {
        (slot - 1) as u32
    }
}

/// The slots with one less for everyone whose bit is set.
pub open spec fn released(slots: Seq<u32>, who: Seq<bool>) -> Seq<u32> {
    Seq::new(
        slots.len(),
        |i: int|
            if i < who.len() && who[i] {
                one_less(slots[i])
            } else {
                slots[i]
            },
    )
}

/// The slots after an unconfirmed dispute has stopped to count as spam; a
/// confirmed one occupies none.
pub open spec fn decremented<BlockNumber>(slots: Seq<u32>, dispute: Dispute<BlockNumber>) -> Seq<
    u32,
> {
    if count(dispute.participants()) <= faulty_bound(slots.len()) {
        released(slots, dispute.participants())
    } else {
        slots
    }
}

/// If the dispute had not enough validators to confirm, decrements spam slots for
/// all the participating validators.
///
/// Returns the participating validators.
pub fn decrement_spam<BlockNumber>(
    spam_slots: &mut [u32],
    dispute: &DisputeState<BlockNumber>,
) -> (participating: VoteBits)
    ensures
        participating@ == dispute@.participants(),
        final(spam_slots)@ == decremented(old(spam_slots)@, dispute@),
{
    let byzantine_threshold: usize = byzantine_threshold(spam_slots.len());
    let mut participating = dispute.validators_for.clone();
    participating.or_assign(&dispute.validators_against);
    if participating.count_ones() <= byzantine_threshold {
        let positions = participating.iter_ones();
        let ghost who = participating@;
        let ghost before = spam_slots@;
        proof {
            lemma_ones(who);
            assert(positions@.map_values(|i: usize| i as int).len() == positions.len());
        }
        let mut k: usize = 0;
        while k < positions.len()
            invariant
                k <= positions.len(),
                positions@.map_values(|i: usize| i as int) == ones(who),
                ones(who).len() == positions.len(),
                forall|j: int, k: int|
                    0 <= j < k < ones(who).len() ==> ones(who)[j] < ones(who)[k],
                spam_slots@.len() == before.len(),
                forall|i: int| #![trigger spam_slots@[i]]
                    0 <= i < before.len() ==> spam_slots@[i] == (if ones(who).take(
                        k as int,
                    ).contains(i) {
                        one_less(before[i])
                    } else {
                        before[i]
                    }),
            decreases positions.len() - k,
        {
            let validator: usize = positions[k];
            let ghost done = ones(who).take(k as int);
            let ghost next = ones(who).take(k + 1);
            assert(ones(who)[k as int] == validator) by {
                assert(positions@.map_values(|i: usize| i as int)[k as int] == validator);
            }
            assert(next =~= done.push(validator as int));
            assert(!done.contains(validator as int));
            if validator < spam_slots.len() {
                spam_slots[validator] = spam_slots[validator].saturating_sub(1);
            }
            assert forall|i: int| #![trigger spam_slots@[i]] 0 <= i < before.len() implies spam_slots@[i]
                == (if next.contains(i) {
                one_less(before[i])
            } else {
                before[i]
            }) by {
                assert(next[k as int] == validator);
                if done.contains(i) {
                    let j = choose|j: int| 0 <= j < done.len() && done[j] == i;
                    assert(next[j] == i);
                }
            }
            k = k + 1;
        }
        proof {
            assert(ones(who).take(positions.len() as int) =~= ones(who));
            assert forall|i: int| 0 <= i < before.len() implies spam_slots@[i] == released(
                before,
                who,
            )[i] by {
                if i < who.len() && who[i] {
                    assert(ones(who).contains(i));
                }
            }
        }
    }
    participating
}

/// The slots after one change, or the refusal where the limit is reached.
pub open spec fn change_slot(
    slots: Seq<u32>,
    change: (ValidatorIndex, SpamSlotChange),
    limit: u32,
) -> Result<Seq<u32>, Error> {
    let i = change.0.0 as int;
    match change.1 {
        SpamSlotChange::Inc => if slots[i] < limit {
            Ok(slots.update(i, (slots[i] + 1) as u32))
        } else {
            Err(Error::PotentialSpam)
        },
        SpamSlotChange::Dec => Ok(slots.update(i, one_less(slots[i]))),
    }
}

/// The slots after all changes, made in order, or the first refusal.
pub open spec fn changed_slots(
    slots: Seq<u32>,
    changes: Seq<(ValidatorIndex, SpamSlotChange)>,
    limit: u32,
) -> Result<Seq<u32>, Error>
    decreases changes.len(),
{
    if changes.len() == 0 {
        Ok(slots)
    } else {
        match changed_slots(slots, changes.drop_last(), limit) {
            Ok(s) => change_slot(s, changes.last(), limit),
            Err(e) => Err(e),
        }
    }
}

proof fn lemma_changed_slots_prefix(
    slots: Seq<u32>,
    changes: Seq<(ValidatorIndex, SpamSlotChange)>,
    limit: u32,
    k: int,
)
    requires
        0 <= k <= changes.len(),
        changed_slots(slots, changes.take(k), limit) is Err,
    ensures
        changed_slots(slots, changes, limit) == changed_slots(slots, changes.take(k), limit),
    decreases changes.len(),
{
    if k == changes.len() {
        assert(changes.take(k) =~= changes);
    } else {
        assert(changes.drop_last().take(k) =~= changes.take(k));
        lemma_changed_slots_prefix(slots, changes.drop_last(), limit, k);
    }
}

/// Applies changes to spam slots. Stops early if some validator would occupy too
/// many.
pub fn apply_spam_slot_changes(
    spam_slots: Vec<u32>,
    changes: &Vec<(ValidatorIndex, SpamSlotChange)>,
    limit: u32,
) -> (r: Result<Vec<u32>, Error>)
    requires
        forall|k: int|
            0 <= k < changes.len() ==> (#[trigger] changes@[k]).0.0 < spam_slots.len(),
    ensures
        match changed_slots(spam_slots@, changes@, limit) {
            Ok(slots) => r matches Ok(v) && v@ == slots,
            Err(e) => r == Err::<Vec<u32>, Error>(e),
        },
{
    let ghost before = spam_slots@;
    let mut slots = spam_slots;
    let mut k: usize = 0;
    while k < changes.len()
        invariant
            k <= changes.len(),
            before == spam_slots@,
            slots@.len() == before.len(),
            forall|k: int|
                0 <= k < changes.len() ==> (#[trigger] changes@[k]).0.0 < before.len(),
            changed_slots(before, changes@.take(k as int), limit) == Ok::<Seq<u32>, Error>(
                slots@,
            ),
        decreases changes.len() - k,
    {
        assert(changes@.take(k + 1).drop_last() =~= changes@.take(k as int));
        assert(changes@.take(k + 1).last() == changes@[k as int]);
        let (validator_index, spam_slot_change) = changes[k];
        let i: usize = validator_index.0 as usize;
        let slot: u32 = slots[i];
        match spam_slot_change {
            SpamSlotChange::Inc => {
                if slot >= limit {
                    proof {
                        assert(changed_slots(before, changes@.take(k + 1), limit) is Err);
                        lemma_changed_slots_prefix(before, changes@, limit, k + 1);
                    }
                    return Err(Error::PotentialSpam);
                }
                slots[i] = slot + 1;
            },
            SpamSlotChange::Dec => {
                slots[i] = slot.saturating_sub(1);
            },
        }
        k = k + 1;
    }
    assert(changes@.take(changes.len() as int) =~= changes@);
    Ok(slots)
}

} // verus!
