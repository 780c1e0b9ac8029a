//! The law of spam slots: they count the potentially-spam disputes of each
//! validator, whatever happens to the docket.
use crate::docket::{target_of, verdicts, Docket};
use crate::docket_facts::{
    lemma_changed_slots_len, lemma_statements_shape, lemma_summary_in_bounds,
};
use crate::errors::Error;
use crate::importer::{changes, Import, SpamSlotChange};
use crate::primitives::{
    BlockNumberLike, CandidateHash, DisputeStatementSet, HostConfiguration, SessionIndex,
    ValidatorId,
};
use crate::spam::{changed_slots, one_less};
use crate::storage::Target;
use crate::vote_laws::{law_new_participants, law_supermajority_confirms, law_votes_accumulate};
use vstd::prelude::*;

verus! {

impl<BlockNumber: BlockNumberLike> Docket<BlockNumber> {
    /// Whether a dispute is potentially spam: its candidate was not included,
    /// not enough validators take part to have one honest among them, and it
    /// still goes on.
    pub open spec fn potential_spam(self, target: Target) -> bool {
        &&& self.disputes.contains_key(target)
        &&& !self.included.contains_key(target)
        &&& !self.disputes[target].confirmed()
        &&& self.disputes[target].concluded_at is None
    }

    /// Whether a dispute has concluded although it is on a candidate that was
    /// not included and too few take part: it has timed out.
    pub open spec fn abandoned(self, target: Target) -> bool {
        &&& self.disputes.contains_key(target)
        &&& !self.included.contains_key(target)
        &&& !self.disputes[target].confirmed()
        &&& self.disputes[target].concluded_at is Some
    }

    /// Whether a dispute is potentially spam that the validator takes part in.
    pub open spec fn spammed_by(self, target: Target, validator: int) -> bool {
        &&& self.potential_spam(target)
        &&& 0 <= validator < self.disputes[target].participants().len()
        &&& self.disputes[target].participants()[validator]
    }

    /// The potentially-spam disputes of a session that the validator takes part
    /// in.
    pub open spec fn spam_of(self, session: SessionIndex, validator: int) -> Set<Target> {
        self.disputes.dom().filter(|t: Target| t.0 == session && self.spammed_by(t, validator))
    }

    /// The number of spam slots that a validator occupies.
    pub open spec fn occupied(self, session: SessionIndex, validator: int) -> nat {
        if self.spam_slots.contains_key(session) && 0 <= validator
            < self.spam_slots[session].len() {
            self.spam_slots[session][validator] as nat
        } else {
            0
        }
    }

    /// Whether the records of each session are of one length.
    pub open spec fn aligned(self) -> bool {
        forall|t: Target| #[trigger]
            self.disputes.contains_key(t) ==> {
                &&& self.disputes[t].validators_for.len() == self.disputes[t].validators_against.len()
                &&& self.spam_slots.contains_key(t.0) ==> self.spam_slots[t.0].len()
                    == self.disputes[t].size()
            }
    }

    /// Whether each validator occupies one spam slot for each potentially-spam
    /// dispute that it takes part in, and none besides.
    pub open spec fn counts_spam(self) -> bool {
        &&& self.disputes.dom().finite()
        &&& self.aligned()
        &&& forall|session: SessionIndex, validator: int| #[trigger]
            self.occupied(session, validator) == self.spam_of(session, validator).len()
    }

    /// Whether all records have room for the validators of the sessions.
    pub open spec fn fits_all(self, sessions: Map<SessionIndex, Seq<ValidatorId>>) -> bool {
        forall|s: SessionIndex| #[trigger]
            sessions.contains_key(s) ==> self.fits(s, sessions[s].len())
    }
}

/// What the same change for each of some validators makes of the slots.
pub proof fn lemma_changed_slots(slots: Seq<u32>, who: Seq<bool>, change: SpamSlotChange, limit: u32)
    requires
        who.len() <= slots.len(),
        who.len() <= u32::MAX,
    ensures
        change is Dec ==> changed_slots(slots, changes(who, change), limit) is Ok,
        change is Inc ==> changed_slots(slots, changes(who, change), limit) is Ok == forall|i: int|
            0 <= i < who.len() && #[trigger] who[i] ==> slots[i] < limit,
        changed_slots(slots, changes(who, change), limit) matches Err(e) ==> e
            == Error::PotentialSpam,
        changed_slots(slots, changes(who, change), limit) matches Ok(after) ==> {
            &&& after.len() == slots.len()
            &&& forall|i: int|
                0 <= i < slots.len() ==> #[trigger] after[i] == (if i < who.len() && who[i] {
                    match change {
                        SpamSlotChange::Inc => slots[i] + 1,
                        SpamSlotChange::Dec => one_less(slots[i]) as int,
                    }
                } else {
                    slots[i] as int
                })
            &&& forall|i: int|
                change is Inc && 0 <= i < who.len() && who[i] ==> #[trigger] after[i] <= limit
        },
    decreases who.len(),
{
    if who.len() > 0 {
        let fewer = who.drop_last();
        lemma_changed_slots(slots, fewer, change, limit);
        let all = changes(who, change);
        if who.last() {
            assert(all.drop_last() =~= changes(fewer, change));
            assert(all.last().0.0 == who.len() - 1);
            assert(who[who.len() - 1]);
        } else {
            assert(all =~= changes(fewer, change));
        }
        if forall|i: int| 0 <= i < who.len() && #[trigger] who[i] ==> slots[i] < limit {
            assert forall|i: int| 0 <= i < fewer.len() && #[trigger] fewer[i] implies slots[i]
                < limit by {
                assert(who[i]);
            }
        }
        if forall|i: int| 0 <= i < fewer.len() && #[trigger] fewer[i] ==> slots[i] < limit {
            assert forall|i: int| 0 <= i < fewer.len() && #[trigger] who[i] implies slots[i]
                < limit by {
                assert(fewer[i]);
            }
        }
    }
}

/// The spam of a validator changes by what a single dispute contributes.
proof fn lemma_spam_of_changes_by<BlockNumber: BlockNumberLike>(
    before: Docket<BlockNumber>,
    after: Docket<BlockNumber>,
    target: Target,
    session: SessionIndex,
    validator: int,
)
    requires
        before.disputes.dom().finite(),
        after.disputes.dom().finite(),
        forall|t: Target|
            t != target ==> #[trigger] before.spammed_by(t, validator) == after.spammed_by(
                t,
                validator,
            ),
    ensures
        before.spam_of(session, validator).len() - (if session == target.0 && before.spammed_by(
            target,
            validator,
        ) {
            1int
        } else {
            0int
        }) == after.spam_of(session, validator).len() - (if session == target.0
            && after.spammed_by(target, validator) {
            1int
        } else {
            0int
        }),
{
    let a = before.spam_of(session, validator);
    let b = after.spam_of(session, validator);
    assert(a.finite() && b.finite());
    assert(a.contains(target) == (session == target.0 && before.spammed_by(target, validator)));
    assert(b.contains(target) == (session == target.0 && after.spammed_by(target, validator)));
    assert(a.remove(target) =~= b.remove(target)) by {
        assert forall|t: Target| t != target implies a.contains(t) == b.contains(t) by {
            assert(before.spammed_by(t, validator) == after.spammed_by(t, validator));
        }
    }
    assert(a.remove(target).len() == b.remove(target).len());
}

/// An operation on one dispute keeps the count if it changes the slots by what
/// the dispute contributes.
proof fn lemma_recount<BlockNumber: BlockNumberLike>(
    before: Docket<BlockNumber>,
    after: Docket<BlockNumber>,
    target: Target,
)
    requires
        before.counts_spam(),
        after.disputes.dom().finite(),
        after.aligned(),
        forall|t: Target|
            #![trigger before.disputes.contains_key(t)]
            #![trigger after.disputes.contains_key(t)]
            t != target ==> {
                &&& before.disputes.contains_key(t) == after.disputes.contains_key(t)
                &&& before.disputes[t] == after.disputes[t]
                &&& before.included.contains_key(t) == after.included.contains_key(t)
            },
        forall|s: SessionIndex, i: int|
            s != target.0 ==> #[trigger] after.occupied(s, i) == before.occupied(s, i),
        forall|i: int| #[trigger]
            after.occupied(target.0, i) - (if after.spammed_by(target, i) {
                1int
            } else {
                0int
            }) == before.occupied(target.0, i) - (if before.spammed_by(target, i) {
                1int
            } else {
                0int
            }),
    ensures
        after.counts_spam(),
{
    assert forall|session: SessionIndex, validator: int| #[trigger]
        after.occupied(session, validator) == after.spam_of(session, validator).len() by {
        assert forall|t: Target| t != target implies #[trigger] before.spammed_by(t, validator)
            == after.spammed_by(t, validator) by {
            assert(before.disputes.contains_key(t) == after.disputes.contains_key(t));
        }
        lemma_spam_of_changes_by(before, after, target, session, validator);
        assert(before.occupied(session, validator) == before.spam_of(session, validator).len());
    }
}

/// Whoever takes part in a potentially-spam dispute occupies a slot.
proof fn lemma_spam_is_occupied<BlockNumber: BlockNumberLike>(
    docket: Docket<BlockNumber>,
    target: Target,
    validator: int,
)
    requires
        docket.counts_spam(),
        docket.spammed_by(target, validator),
    ensures
        docket.occupied(target.0, validator) >= 1,
{
    let spam = docket.spam_of(target.0, validator);
    assert(spam.finite());
    assert(spam.contains(target));
    assert(spam.len() > 0) by {
        if spam.len() == 0 {
            assert(spam =~= Set::empty());
        }
    }
    assert(docket.occupied(target.0, validator) == spam.len());
}

/// An empty docket counts no spam.
pub proof fn law_empty_counts_spam<BlockNumber: BlockNumberLike>()
    ensures
        Docket::<BlockNumber>::empty().counts_spam(),
{
    let empty = Docket::<BlockNumber>::empty();
    assert forall|session: SessionIndex, validator: int| #[trigger]
        empty.occupied(session, validator) == empty.spam_of(session, validator).len() by {
        assert(empty.spam_of(session, validator) =~= Set::empty());
    }
}

proof fn lemma_provided_aligned<BlockNumber: BlockNumberLike>(
    docket: Docket<BlockNumber>,
    config: HostConfiguration<BlockNumber>,
    now: BlockNumber,
    sessions: Map<SessionIndex, Seq<ValidatorId>>,
    set: DisputeStatementSet,
    verdicts: Seq<bool>,
)
    requires
        docket.aligned(),
        docket.fits_all(sessions),
        docket.provided(config, now, sessions, set, verdicts) is Ok,
    ensures
        (docket.provided(config, now, sessions, set, verdicts)->Ok_0).0.aligned(),
        (docket.provided(config, now, sessions, set, verdicts)->Ok_0).0.fits_all(sessions),
{
    let after = (docket.provided(config, now, sessions, set, verdicts)->Ok_0).0;
    let n = sessions[set.session].len();
    let target = target_of(set);
    assert(docket.fits(set.session, n));
    let (fresh, dispute) = docket.opened(config, now, n, target)->Ok_0;
    assert(dispute.validators_for.len() == n && dispute.validators_against.len() == n) by {
        if !fresh {
            assert(dispute == docket.disputes[(set.session, set.candidate_hash)]);
        }
    }
    let start = Import::start(dispute, now);
    let import = start.statements(n, set.statements@, verdicts)->Ok_0;
    lemma_statements_shape(start, n, set.statements@, verdicts);
    lemma_summary_in_bounds(import);
    lemma_changed_slots_len(
        docket.slots(set.session, n),
        import.summary().spam_slot_changes,
        config.dispute_max_spam_slots,
    );
    assert(after.spam_slots.contains_key(set.session) ==> after.spam_slots[set.session].len()
        == n);
    assert forall|t: Target| #[trigger] after.disputes.contains_key(t) implies {
        &&& after.disputes[t].validators_for.len() == after.disputes[t].validators_against.len()
        &&& after.spam_slots.contains_key(t.0) ==> after.spam_slots[t.0].len()
            == after.disputes[t].size()
    } by {
        if t != target {
            assert(docket.disputes.contains_key(t));
            if t.0 == set.session {
                assert(docket.disputes[(set.session, t.1)].size() == n);
            }
        }
    }
    assert forall|s: SessionIndex| #[trigger] sessions.contains_key(s) implies after.fits(
        s,
        sessions[s].len(),
    ) by {
        assert(docket.fits(s, sessions[s].len()));
        assert forall|h: CandidateHash|
            #![trigger after.disputes[(s, h)]]
            after.disputes.contains_key((s, h)) implies {
            &&& after.disputes[(s, h)].validators_for.len() == sessions[s].len()
            &&& after.disputes[(s, h)].validators_against.len() == sessions[s].len()
        } by {
            if (s, h) != target {
                assert(after.disputes[(s, h)] == docket.disputes[(s, h)]);
            }
        }
    }
}

/// A set of statements that is accepted keeps the count of spam, unless it is
/// about an abandoned dispute.
pub proof fn law_provided_counts_spam<BlockNumber: BlockNumberLike>(
    docket: Docket<BlockNumber>,
    config: HostConfiguration<BlockNumber>,
    now: BlockNumber,
    sessions: Map<SessionIndex, Seq<ValidatorId>>,
    set: DisputeStatementSet,
    verdicts: Seq<bool>,
)
    requires
        docket.counts_spam(),
        docket.fits_all(sessions),
        sessions[set.session].len() <= u32::MAX,
        !docket.abandoned(target_of(set)),
        docket.provided(config, now, sessions, set, verdicts) is Ok,
    ensures
        ({
            let after = (docket.provided(config, now, sessions, set, verdicts)->Ok_0).0;
            &&& after.counts_spam()
            &&& after.fits_all(sessions)
            &&& forall|t: Target| #[trigger] after.abandoned(t) == docket.abandoned(t)
        }),
{
    let after = (docket.provided(config, now, sessions, set, verdicts)->Ok_0).0;
    let n = sessions[set.session].len();
    let target = target_of(set);
    lemma_provided_aligned(docket, config, now, sessions, set, verdicts);
    assert(docket.fits(set.session, n));
    let (fresh, dispute) = docket.opened(config, now, n, target)->Ok_0;
    assert(dispute.validators_for.len() == n && dispute.validators_against.len() == n) by {
        if !fresh {
            assert(dispute == docket.disputes[(set.session, set.candidate_hash)]);
        }
    }
    let start = Import::start(dispute, now);
    let import = start.statements(n, set.statements@, verdicts)->Ok_0;
    lemma_statements_shape(start, n, set.statements@, verdicts);
    law_votes_accumulate(start, n, set.statements@, verdicts);
    law_new_participants(dispute, now, n, set.statements@, verdicts);
    let summary = import.summary();
    if !import.state.confirmed() {
        if n > 0 {
            if import.state.flags().for_supermajority || import.state.flags().against_supermajority {
                law_supermajority_confirms(import.state);
            }
        }
        assert(summary.state.concluded_at == dispute.concluded_at);
    }
    let slots = docket.slots(set.session, n);
    let limit = config.dispute_max_spam_slots;
    lemma_changed_slots(slots, import.previous_participants(), SpamSlotChange::Dec, limit);
    lemma_changed_slots(slots, import.new_participants, SpamSlotChange::Inc, limit);
    assert(after.disputes == docket.disputes.insert(target, summary.state));
    assert(after.included == docket.included);
    assert(summary.state.participants() == import.state.participants());
    assert(summary.state.confirmed() == import.state.confirmed());
    assert forall|i: int| #[trigger] after.occupied(target.0, i) - (if after.spammed_by(target, i) {
        1int
    } else {
        0int
    }) == docket.occupied(target.0, i) - (if docket.spammed_by(target, i) {
        1int
    } else {
        0int
    }) by {
        if docket.spammed_by(target, i) {
            lemma_spam_is_occupied(docket, target, i);
        }
        if 0 <= i < n {
            assert(dispute.validators_for[i] ==> import.state.validators_for[i]);
            assert(dispute.validators_against[i] ==> import.state.validators_against[i]);
            assert(docket.occupied(target.0, i) == slots[i]);
            assert(import.new_participants[i] == (import.state.participants()[i]
                && !dispute.participants()[i]));
        }
    }
    lemma_recount(docket, after, target);
}

/// Sets of statements keep the count of spam, up to the first that is refused,
/// unless one is about an abandoned dispute.
pub proof fn law_provided_all_counts_spam<BlockNumber: BlockNumberLike>(
    docket: Docket<BlockNumber>,
    config: HostConfiguration<BlockNumber>,
    now: BlockNumber,
    sessions: Map<SessionIndex, Seq<ValidatorId>>,
    sets: Seq<DisputeStatementSet>,
)
    requires
        docket.counts_spam(),
        docket.fits_all(sessions),
        forall|s: SessionIndex| #[trigger]
            sessions.contains_key(s) ==> sessions[s].len() <= u32::MAX,
        forall|i: int|
            0 <= i < sets.len() ==> !#[trigger] docket.abandoned(target_of(sets[i])),
    ensures
        ({
            let after = docket.provided_all(config, now, sessions, sets).0;
            &&& after.counts_spam()
            &&& after.fits_all(sessions)
            &&& forall|t: Target| #[trigger] after.abandoned(t) == docket.abandoned(t)
        }),
    decreases sets.len(),
{
    if sets.len() > 0 {
        let fewer = sets.drop_last();
        let set = sets.last();
        assert forall|i: int| 0 <= i < fewer.len() implies !#[trigger] docket.abandoned(
            target_of(fewer[i]),
        ) by {
            assert(fewer[i] == sets[i]);
        }
        law_provided_all_counts_spam(docket, config, now, sessions, fewer);
        let (current, fresh) = docket.provided_all(config, now, sessions, fewer);
        let holds = verdicts(sessions[set.session], set);
        assert(set == sets[sets.len() - 1]);
        assert(!docket.abandoned(target_of(sets[sets.len() - 1])));
        assert(!current.abandoned(target_of(set)));
        if fresh is Ok && current.provided(config, now, sessions, set, holds) is Ok {
            assert(sessions.contains_key(set.session));
            law_provided_counts_spam(current, config, now, sessions, set, holds);
        }
    }
}

/// The inclusion of a candidate keeps the count of spam, unless the candidate
/// has an unconfirmed dispute and it is abandoned or the candidate was included
/// before.
pub proof fn law_included_counts_spam<BlockNumber: BlockNumberLike>(
    docket: Docket<BlockNumber>,
    target: Target,
    included_in: BlockNumber,
)
    requires
        docket.counts_spam(),
        docket.disputes.contains_key(target) && !docket.disputes[target].confirmed()
            ==> docket.potential_spam(target),
    ensures
        docket.noted_included(target, included_in).counts_spam(),
{
    let after = docket.noted_included(target, included_in);
    if included_in.number() != 0 {
        lemma_released(docket, after, target);
    }
}

/// A block keeps the count of spam.
pub proof fn law_timed_out_counts_spam<BlockNumber: BlockNumberLike>(
    docket: Docket<BlockNumber>,
    config: HostConfiguration<BlockNumber>,
    now: BlockNumber,
    targets: Seq<Target>,
)
    requires
        docket.counts_spam(),
        targets.to_set() == docket.disputes.dom(),
    ensures
        docket.timed_out_all(config, now, targets).counts_spam(),
{
    assert forall|i: int| 0 <= i < targets.len() implies #[trigger] docket.disputes.contains_key(
        targets[i],
    ) by {
        assert(targets.to_set().contains(targets[i]));
    }
    lemma_timed_out_counts_spam(docket, config, now, targets);
}

proof fn lemma_timed_out_counts_spam<BlockNumber: BlockNumberLike>(
    docket: Docket<BlockNumber>,
    config: HostConfiguration<BlockNumber>,
    now: BlockNumber,
    targets: Seq<Target>,
)
    requires
        docket.counts_spam(),
        forall|i: int|
            0 <= i < targets.len() ==> #[trigger] docket.disputes.contains_key(targets[i]),
    ensures
        docket.timed_out_all(config, now, targets).counts_spam(),
        docket.timed_out_all(config, now, targets).disputes.dom() == docket.disputes.dom(),
    decreases targets.len(),
{
    if targets.len() > 0 {
        let fewer = targets.drop_last();
        let target = targets.last();
        lemma_timed_out_counts_spam(docket, config, now, fewer);
        let current = docket.timed_out_all(config, now, fewer);
        let after = current.timed_out(config, now, target);
        assert(docket.disputes.contains_key(targets[targets.len() - 1]));
        assert(current.disputes.contains_key(target));
        if current.overdue(config, now, target) {
            assert(after.disputes.dom() =~= current.disputes.dom());
            lemma_released(current, after, target);
        }
    }
}

/// A dispute that stops to count as spam has its slots released.
proof fn lemma_released<BlockNumber: BlockNumberLike>(
    before: Docket<BlockNumber>,
    after: Docket<BlockNumber>,
    target: Target,
)
    requires
        before.counts_spam(),
        !after.potential_spam(target),
        after.disputes.dom() == before.disputes.dom(),
        forall|t: Target|
            #![trigger before.disputes.contains_key(t)]
            #![trigger after.disputes.contains_key(t)]
            t != target ==> {
                &&& before.disputes.contains_key(t) == after.disputes.contains_key(t)
                &&& before.disputes[t] == after.disputes[t]
                &&& before.included.contains_key(t) == after.included.contains_key(t)
            },
        before.disputes.contains_key(target) ==> {
            &&& after.disputes[target].validators_for == before.disputes[target].validators_for
            &&& after.disputes[target].validators_against
                == before.disputes[target].validators_against
        },
        after.spam_slots == before.spam_slots || after.spam_slots == before.released(
            target.0,
            after.disputes[target],
        ),
        before.potential_spam(target) ==> after.spam_slots == before.released(
            target.0,
            after.disputes[target],
        ),
        after.spam_slots != before.spam_slots ==> before.disputes.contains_key(target) && (
        before.potential_spam(target) || before.disputes[target].confirmed()),
    ensures
        after.counts_spam(),
{
    if before.disputes.contains_key(target) {
        assert(after.disputes[target].participants() == before.disputes[target].participants());
    }
    assert forall|t: Target| #[trigger] after.disputes.contains_key(t) implies {
        &&& after.disputes[t].validators_for.len() == after.disputes[t].validators_against.len()
        &&& after.spam_slots.contains_key(t.0) ==> after.spam_slots[t.0].len()
            == after.disputes[t].size()
    } by {
        assert(before.disputes.contains_key(t));
    }
    assert forall|i: int| #[trigger] after.occupied(target.0, i) - (if after.spammed_by(target, i) {
        1int
    } else {
        0int
    }) == before.occupied(target.0, i) - (if before.spammed_by(target, i) {
        1int
    } else {
        0int
    }) by {
        if before.spammed_by(target, i) {
            lemma_spam_is_occupied(before, target, i);
        }
    }
    lemma_recount(before, after, target);
}

/// A new session keeps the count of spam.
pub proof fn law_pruned_counts_spam<BlockNumber: BlockNumberLike>(
    docket: Docket<BlockNumber>,
    config: HostConfiguration<BlockNumber>,
    session_index: SessionIndex,
)
    requires
        docket.counts_spam(),
    ensures
        docket.pruned(config, session_index).counts_spam(),
{
    let after = docket.pruned(config, session_index);
    if session_index > config.dispute_period + 1 {
        let pruning_target = (session_index - config.dispute_period - 1) as SessionIndex;
        let first = docket.first_pruned(pruning_target);
        assert forall|t: Target| #[trigger] after.disputes.contains_key(t) implies {
            &&& after.disputes[t].validators_for.len() == after.disputes[t].validators_against.len()
            &&& after.spam_slots.contains_key(t.0) ==> after.spam_slots[t.0].len()
                == after.disputes[t].size()
        } by {
            assert(docket.disputes.contains_key(t));
        }
        assert(after.disputes.dom().subset_of(docket.disputes.dom()));
        assert(after.disputes.dom() =~= docket.disputes.dom().intersect(after.disputes.dom()));
        assert forall|session: SessionIndex, validator: int| #[trigger]
            after.occupied(session, validator) == after.spam_of(session, validator).len() by {
            assert(docket.occupied(session, validator) == docket.spam_of(session, validator).len());
            if first <= session <= pruning_target {
                assert(after.spam_of(session, validator) =~= Set::empty());
            } else {
                assert(after.spam_of(session, validator) =~= docket.spam_of(session, validator));
            }
        }
    }
}

/// Statements leave no validator with more spam slots than are allowed, unless
/// it had more before; those on an included candidate leave all slots alone.
pub proof fn law_spam_limit<BlockNumber: BlockNumberLike>(
    docket: Docket<BlockNumber>,
    config: HostConfiguration<BlockNumber>,
    now: BlockNumber,
    sessions: Map<SessionIndex, Seq<ValidatorId>>,
    set: DisputeStatementSet,
    verdicts: Seq<bool>,
)
    requires
        docket.fits_all(sessions),
        sessions[set.session].len() <= u32::MAX,
        docket.provided(config, now, sessions, set, verdicts) is Ok,
    ensures
        ({
            let after = (docket.provided(config, now, sessions, set, verdicts)->Ok_0).0;
            &&& forall|session: SessionIndex, validator: int| #[trigger]
                after.occupied(session, validator) <= docket.occupied(session, validator)
                    || after.occupied(session, validator) <= config.dispute_max_spam_slots
            &&& docket.included.contains_key(target_of(set)) ==> after.spam_slots
                == docket.spam_slots
        }),
{
    let after = (docket.provided(config, now, sessions, set, verdicts)->Ok_0).0;
    let n = sessions[set.session].len();
    let target = target_of(set);
    assert(docket.fits(set.session, n));
    let (fresh, dispute) = docket.opened(config, now, n, target)->Ok_0;
    assert(dispute.validators_for.len() == n && dispute.validators_against.len() == n) by {
        if !fresh {
            assert(dispute == docket.disputes[(set.session, set.candidate_hash)]);
        }
    }
    let start = Import::start(dispute, now);
    let import = start.statements(n, set.statements@, verdicts)->Ok_0;
    lemma_statements_shape(start, n, set.statements@, verdicts);
    let slots = docket.slots(set.session, n);
    let limit = config.dispute_max_spam_slots;
    lemma_changed_slots(slots, import.previous_participants(), SpamSlotChange::Dec, limit);
    lemma_changed_slots(slots, import.new_participants, SpamSlotChange::Inc, limit);
    assert forall|session: SessionIndex, validator: int| #[trigger]
        after.occupied(session, validator) <= docket.occupied(session, validator)
            || after.occupied(session, validator) <= limit by {
        if session == set.session && 0 <= validator < n {
            assert(docket.occupied(session, validator) == slots[validator]);
        }
    }
}

} // verus!
