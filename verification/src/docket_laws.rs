//! Laws of the docket as a whole.
use crate::bits::{count, lemma_count_monotone, zeros};
use crate::docket::{target_of, verdicts, Docket};
use crate::docket_facts::lemma_statements_shape;
use crate::hooks::{Action, DisputeResult, Event};
use crate::importer::Import;
use crate::primitives::{
    BlockNumberLike, CandidateHash, Dispute, DisputeStatementSet, HostConfiguration,
    SessionIndex, ValidatorId,
};
use crate::storage::Target;
use crate::vote_laws::law_votes_accumulate;
use vstd::prelude::*;

verus! {

/// The number of times that the chain is asked to revert.
pub open spec fn reversions(actions: Seq<Action>) -> nat
    decreases actions.len(),
{
    if actions.len() == 0 {
        0
    } else {
        reversions(actions.drop_last()) + (if actions.last() is Log {
            1nat
        } else {
            0nat
        })
    }
}

proof fn lemma_no_reversion(before: Seq<Action>, added: Seq<Action>)
    requires
        forall|i: int| 0 <= i < added.len() ==> !(#[trigger] added[i] is Log),
    ensures
        reversions(before + added) == reversions(before),
    decreases added.len(),
{
    if added.len() == 0 {
        assert(before + added =~= before);
    } else {
        assert((before + added).drop_last() =~= before + added.drop_last());
        assert((before + added).last() == added[added.len() - 1]);
        lemma_no_reversion(before, added.drop_last());
    }
}

impl<BlockNumber: BlockNumberLike> Docket<BlockNumber> {
    /// Whether `after` differs in that the chain was asked to revert exactly if
    /// it was frozen, which happens at most once and is not undone.
    pub open spec fn reverts_as_it_freezes(self, after: Docket<BlockNumber>) -> bool {
        &&& self.frozen ==> after.frozen
        &&& reversions(after.effects) == reversions(self.effects) + (if after.frozen
            && !self.frozen {
            1nat
        } else {
            0nat
        })
    }

    /// Whether the chain is frozen if an included candidate was found invalid.
    pub open spec fn freezes_on_loss(self) -> bool {
        forall|t: Target| #[trigger]
            self.disputes.contains_key(t) && self.included.contains_key(t)
                && self.disputes[t].validators_against.len() > 0
                && self.disputes[t].supermajority_against() ==> self.frozen
    }

    /// Whether nothing is left of the sessions up to one.
    pub open spec fn nothing_up_to(self, session: SessionIndex) -> bool {
        &&& forall|t: Target| #[trigger] self.disputes.contains_key(t) ==> t.0 > session
        &&& forall|t: Target| #[trigger] self.included.contains_key(t) ==> t.0 > session
        &&& forall|s: SessionIndex| #[trigger] self.spam_slots.contains_key(s) ==> s > session
    }
}

/// To revert freezes the chain, and asks it to revert only if it was not frozen.
pub proof fn law_reverted_once<BlockNumber: BlockNumberLike>(
    docket: Docket<BlockNumber>,
    revert_to: BlockNumber,
)
    ensures
        docket.reverted(revert_to).frozen,
        docket.reverts_as_it_freezes(docket.reverted(revert_to)),
        docket.reverted(revert_to).reverted(revert_to) == docket.reverted(revert_to),
{
    if !docket.frozen {
        assert(docket.reverted(revert_to).effects.drop_last() =~= docket.effects);
    }
}

/// A set of statements has the chain revert only as it freezes it.
pub proof fn law_provided_reverts_once<BlockNumber: BlockNumberLike>(
    docket: Docket<BlockNumber>,
    config: HostConfiguration<BlockNumber>,
    now: BlockNumber,
    sessions: Map<SessionIndex, Seq<ValidatorId>>,
    set: DisputeStatementSet,
    verdicts: Seq<bool>,
)
    requires
        docket.provided(config, now, sessions, set, verdicts) is Ok,
    ensures
        docket.reverts_as_it_freezes(
            (docket.provided(config, now, sessions, set, verdicts)->Ok_0).0,
        ),
{
    let target = target_of(set);
    let n = sessions[set.session].len();
    let (fresh, dispute) = docket.opened(config, now, n, target)->Ok_0;
    let import = Import::start(dispute, now).statements(n, set.statements@, verdicts)->Ok_0;
    let summary = import.summary();
    let added = docket.import_actions(target, fresh, summary);
    lemma_no_reversion(docket.effects, added);
    let after = (docket.provided(config, now, sessions, set, verdicts)->Ok_0).0;
    if summary.new_flags.against_supermajority && docket.included.contains_key(target) {
        if !docket.frozen {
            assert(after.effects.drop_last() =~= docket.effects + added);
        }
    }
}

/// The inclusion of a candidate has the chain revert only as it freezes it.
pub proof fn law_included_reverts_once<BlockNumber: BlockNumberLike>(
    docket: Docket<BlockNumber>,
    target: Target,
    included_in: BlockNumber,
)
    ensures
        docket.reverts_as_it_freezes(docket.noted_included(target, included_in)),
{
    let after = docket.noted_included(target, included_in);
    if after.frozen && !docket.frozen {
        assert(after.effects.drop_last() =~= docket.effects);
    }
}

/// A block does not freeze the chain, nor have it revert.
pub proof fn law_timed_out_reverts_nothing<BlockNumber: BlockNumberLike>(
    docket: Docket<BlockNumber>,
    config: HostConfiguration<BlockNumber>,
    now: BlockNumber,
    targets: Seq<Target>,
)
    ensures
        docket.timed_out_all(config, now, targets).frozen == docket.frozen,
        reversions(docket.timed_out_all(config, now, targets).effects) == reversions(
            docket.effects,
        ),
    decreases targets.len(),
{
    if targets.len() > 0 {
        law_timed_out_reverts_nothing(docket, config, now, targets.drop_last());
        let current = docket.timed_out_all(config, now, targets.drop_last());
        let target = targets.last();
        if current.overdue(config, now, target) {
            let after = current.timed_out(config, now, target);
            let added = after.effects.skip(current.effects.len() as int);
            assert(after.effects =~= current.effects + added);
            lemma_no_reversion(current.effects, added);
        }
    }
}

/// A new session does not freeze the chain, nor have it revert.
pub proof fn law_pruned_reverts_nothing<BlockNumber: BlockNumberLike>(
    docket: Docket<BlockNumber>,
    config: HostConfiguration<BlockNumber>,
    session_index: SessionIndex,
)
    ensures
        docket.pruned(config, session_index).frozen == docket.frozen,
        docket.pruned(config, session_index).effects == docket.effects,
{
}

proof fn lemma_count_zeros(n: nat)
    ensures
        count(zeros(n)) == 0,
    decreases n,
{
    if n > 0 {
        lemma_count_zeros((n - 1) as nat);
        assert(zeros(n).drop_last() =~= zeros((n - 1) as nat));
    }
}

/// The chain is frozen once statements have found an included candidate
/// invalid.
pub proof fn law_provided_freezes_on_loss<BlockNumber: BlockNumberLike>(
    docket: Docket<BlockNumber>,
    config: HostConfiguration<BlockNumber>,
    now: BlockNumber,
    sessions: Map<SessionIndex, Seq<ValidatorId>>,
    set: DisputeStatementSet,
    verdicts: Seq<bool>,
)
    requires
        docket.freezes_on_loss(),
        docket.fits_all(sessions),
        docket.provided(config, now, sessions, set, verdicts) is Ok,
    ensures
        (docket.provided(config, now, sessions, set, verdicts)->Ok_0).0.freezes_on_loss(),
{
    let target = target_of(set);
    let n = sessions[set.session].len();
    assert(docket.fits(set.session, n));
    let (fresh, dispute) = docket.opened(config, now, n, target)->Ok_0;
    assert(dispute.validators_for.len() == n && dispute.validators_against.len() == n) by {
        if !fresh {
            assert(dispute == docket.disputes[(set.session, set.candidate_hash)]);
        }
    }
    lemma_count_zeros(n);
    lemma_statements_shape(Import::start(dispute, now), n, set.statements@, verdicts);
    let after = (docket.provided(config, now, sessions, set, verdicts)->Ok_0).0;
    assert forall|t: Target| #[trigger]
        after.disputes.contains_key(t) && after.included.contains_key(t)
            && after.disputes[t].validators_against.len() > 0
            && after.disputes[t].supermajority_against() implies after.frozen by {
        assert(t != target ==> docket.disputes.contains_key(t));
        if t == target && !fresh {
            assert(docket.disputes.contains_key(t));
        }
    }
}

/// The chain is frozen once an invalid candidate is included.
pub proof fn law_included_freezes_on_loss<BlockNumber: BlockNumberLike>(
    docket: Docket<BlockNumber>,
    target: Target,
    included_in: BlockNumber,
)
    requires
        docket.freezes_on_loss(),
    ensures
        docket.noted_included(target, included_in).freezes_on_loss(),
{
    let after = docket.noted_included(target, included_in);
    assert forall|t: Target| #[trigger]
        after.disputes.contains_key(t) && after.included.contains_key(t)
            && after.disputes[t].validators_against.len() > 0
            && after.disputes[t].supermajority_against() implies after.frozen by {
        assert(docket.disputes.contains_key(t));
    }
}

/// Neither a block nor a new session leave an included candidate that was found
/// invalid on a chain that is not frozen.
pub proof fn law_passing_time_freezes_on_loss<BlockNumber: BlockNumberLike>(
    docket: Docket<BlockNumber>,
    config: HostConfiguration<BlockNumber>,
    now: BlockNumber,
    targets: Seq<Target>,
    session_index: SessionIndex,
)
    requires
        docket.freezes_on_loss(),
        targets.no_duplicates(),
        targets.to_set() == docket.disputes.dom(),
    ensures
        docket.timed_out_all(config, now, targets).freezes_on_loss(),
        docket.pruned(config, session_index).freezes_on_loss(),
{
    law_timed_out_reverts_nothing(docket, config, now, targets);
    law_time_outs(docket, config, now, targets);
    let after = docket.timed_out_all(config, now, targets);
    assert forall|t: Target| #[trigger]
        after.disputes.contains_key(t) && after.included.contains_key(t)
            && after.disputes[t].validators_against.len() > 0
            && after.disputes[t].supermajority_against() implies after.frozen by {
        assert(docket.disputes.contains_key(t));
    }
    let kept = docket.pruned(config, session_index);
    assert forall|t: Target| #[trigger]
        kept.disputes.contains_key(t) && kept.included.contains_key(t)
            && kept.disputes[t].validators_against.len() > 0
            && kept.disputes[t].supermajority_against() implies kept.frozen by {
        assert(docket.disputes.contains_key(t));
    }
}

/// A block concludes exactly the disputes that have gone on for too long, and
/// changes none otherwise. So none is left that has, and the same block changes
/// nothing more.
pub proof fn law_time_outs<BlockNumber: BlockNumberLike>(
    docket: Docket<BlockNumber>,
    config: HostConfiguration<BlockNumber>,
    now: BlockNumber,
    targets: Seq<Target>,
)
    requires
        targets.no_duplicates(),
        targets.to_set() == docket.disputes.dom(),
    ensures
        ({
            let after = docket.timed_out_all(config, now, targets);
            &&& after.disputes.dom() == docket.disputes.dom()
            &&& after.included == docket.included
            &&& after.last_pruned_session == docket.last_pruned_session
            &&& forall|t: Target| #[trigger]
                docket.disputes.contains_key(t) ==> {
                    &&& after.disputes[t] == (if docket.overdue(config, now, t) {
                        Dispute { concluded_at: Some(now), ..docket.disputes[t] }
                    } else {
                        docket.disputes[t]
                    })
                    &&& !after.overdue(config, now, t)
                }
            &&& after.timed_out_all(config, now, targets) == after
        }),
{
    assert forall|i: int| 0 <= i < targets.len() implies #[trigger] docket.disputes.contains_key(
        targets[i],
    ) by {
        assert(targets.to_set().contains(targets[i]));
    }
    lemma_time_outs(docket, config, now, targets);
    let after = docket.timed_out_all(config, now, targets);
    assert forall|t: Target| #[trigger] docket.disputes.contains_key(t) implies {
        &&& after.disputes[t] == (if docket.overdue(config, now, t) {
            Dispute { concluded_at: Some(now), ..docket.disputes[t] }
        } else {
            docket.disputes[t]
        })
        &&& !after.overdue(config, now, t)
    } by {
        assert(targets.to_set().contains(t));
    }
    assert forall|i: int| 0 <= i < targets.len() implies !after.overdue(
        config,
        now,
        #[trigger] targets[i],
    ) by {
        assert(docket.disputes.contains_key(targets[i]));
    }
    lemma_nothing_overdue(after, config, now, targets);
}

proof fn lemma_time_outs<BlockNumber: BlockNumberLike>(
    docket: Docket<BlockNumber>,
    config: HostConfiguration<BlockNumber>,
    now: BlockNumber,
    targets: Seq<Target>,
)
    requires
        targets.no_duplicates(),
        forall|i: int|
            0 <= i < targets.len() ==> #[trigger] docket.disputes.contains_key(targets[i]),
    ensures
        ({
            let after = docket.timed_out_all(config, now, targets);
            &&& after.disputes.dom() == docket.disputes.dom()
            &&& after.included == docket.included
            &&& after.last_pruned_session == docket.last_pruned_session
            &&& forall|t: Target| #[trigger]
                docket.disputes.contains_key(t) ==> after.disputes[t] == (if targets.contains(t)
                    && docket.overdue(config, now, t) {
                    Dispute { concluded_at: Some(now), ..docket.disputes[t] }
                } else {
                    docket.disputes[t]
                })
        }),
    decreases targets.len(),
{
    if targets.len() > 0 {
        let fewer = targets.drop_last();
        let target = targets.last();
        lemma_time_outs(docket, config, now, fewer);
        let after = docket.timed_out_all(config, now, targets);
        assert(docket.disputes.contains_key(targets[targets.len() - 1]));
        assert(!fewer.contains(target));
        assert(after.disputes.dom() =~= docket.disputes.dom());
        assert(targets =~= fewer.push(target));
        assert forall|t: Target| #[trigger] docket.disputes.contains_key(t) implies after.disputes[t]
            == (if targets.contains(t) && docket.overdue(config, now, t) {
            Dispute { concluded_at: Some(now), ..docket.disputes[t] }
        } else {
            docket.disputes[t]
        }) by {
            if fewer.contains(t) {
                let i = choose|i: int| 0 <= i < fewer.len() && fewer[i] == t;
                assert(targets[i] == t);
            }
            if t == target {
                assert(targets[targets.len() - 1] == t);
            }
        }
    }
}

proof fn lemma_nothing_overdue<BlockNumber: BlockNumberLike>(
    docket: Docket<BlockNumber>,
    config: HostConfiguration<BlockNumber>,
    now: BlockNumber,
    targets: Seq<Target>,
)
    requires
        forall|i: int|
            0 <= i < targets.len() ==> !docket.overdue(config, now, #[trigger] targets[i]),
    ensures
        docket.timed_out_all(config, now, targets) == docket,
    decreases targets.len(),
{
    if targets.len() > 0 {
        let fewer = targets.drop_last();
        assert forall|i: int| 0 <= i < fewer.len() implies !docket.overdue(
            config,
            now,
            #[trigger] fewer[i],
        ) by {
            assert(fewer[i] == targets[i]);
        }
        lemma_nothing_overdue(docket, config, now, fewer);
        assert(targets.last() == targets[targets.len() - 1]);
    }
}

/// A new session drops what is left of the sessions that fell out of the dispute
/// period, if all before them were pruned, and keeps everything about later ones.
pub proof fn law_pruning<BlockNumber: BlockNumberLike>(
    docket: Docket<BlockNumber>,
    config: HostConfiguration<BlockNumber>,
    session_index: SessionIndex,
)
    requires
        session_index > config.dispute_period + 1,
        docket.last_pruned_session matches Some(last) && docket.nothing_up_to(last),
    ensures
        ({
            let oldest_kept = session_index - config.dispute_period;
            let after = docket.pruned(config, session_index);
            &&& after.nothing_up_to((oldest_kept - 1) as SessionIndex)
            &&& forall|t: Target|
                #![trigger after.disputes.contains_key(t)]
                t.0 >= oldest_kept ==> {
                    &&& after.disputes.contains_key(t) == docket.disputes.contains_key(t)
                    &&& after.disputes.contains_key(t) ==> after.disputes[t] == docket.disputes[t]
                }
            &&& forall|t: Target|
                #![trigger after.included.contains_key(t)]
                t.0 >= oldest_kept ==> {
                    &&& after.included.contains_key(t) == docket.included.contains_key(t)
                    &&& after.included.contains_key(t) ==> after.included[t] == docket.included[t]
                }
            &&& forall|s: SessionIndex|
                #![trigger after.spam_slots.contains_key(s)]
                s >= oldest_kept ==> {
                    &&& after.spam_slots.contains_key(s) == docket.spam_slots.contains_key(s)
                    &&& after.spam_slots.contains_key(s) ==> after.spam_slots[s]
                        == docket.spam_slots[s]
                }
            &&& after.last_pruned_session == Some((oldest_kept - 1) as SessionIndex)
        }),
{
    let after = docket.pruned(config, session_index);
    assert forall|t: Target| #[trigger] after.disputes.contains_key(t) implies t.0
        > session_index - config.dispute_period - 1 by {
        assert(docket.disputes.contains_key(t));
    }
    assert forall|t: Target| #[trigger] after.included.contains_key(t) implies t.0
        > session_index - config.dispute_period - 1 by {
        assert(docket.included.contains_key(t));
    }
    assert forall|s: SessionIndex| #[trigger] after.spam_slots.contains_key(s) implies s
        > session_index - config.dispute_period - 1 by {
        assert(docket.spam_slots.contains_key(s));
    }
}

/// What a set of statements asks of the chain is added behind what it was asked
/// before, and says that a dispute concludes for a side exactly if that side has
/// just reached a supermajority.
proof fn lemma_added<BlockNumber: BlockNumberLike>(
    docket: Docket<BlockNumber>,
    config: HostConfiguration<BlockNumber>,
    now: BlockNumber,
    sessions: Map<SessionIndex, Seq<ValidatorId>>,
    set: DisputeStatementSet,
    verdicts: Seq<bool>,
    valid: bool,
)
    requires
        docket.provided(config, now, sessions, set, verdicts) is Ok,
        docket.disputes.contains_key(target_of(set)),
    ensures
        ({
            let after = (docket.provided(config, now, sessions, set, verdicts)->Ok_0).0;
            let announced = announces(docket, after, conclusion(target_of(set), valid));
            let reached = after.disputes[target_of(set)].flags().without(
                docket.disputes[target_of(set)].flags(),
            );
            announced == if valid {
                reached.for_supermajority
            } else {
                reached.against_supermajority
            }
        }),
{
    let target = target_of(set);
    let n = sessions[set.session].len();
    let (fresh, dispute) = docket.opened(config, now, n, target)->Ok_0;
    let start = Import::start(dispute, now);
    lemma_statements_shape(start, n, set.statements@, verdicts);
    let import = start.statements(n, set.statements@, verdicts)->Ok_0;
    let summary = import.summary();
    let after = (docket.provided(config, now, sessions, set, verdicts)->Ok_0).0;
    let actions = docket.import_actions(target, fresh, summary);
    let added = after.effects.skip(docket.effects.len() as int);
    assert(after.disputes[target].flags() == import.state.flags());
    assert(!fresh);
    if after.frozen && !docket.frozen {
        assert(added =~= actions.push(after.effects.last()));
        assert(after.effects.last() is Log);
    } else {
        assert(added =~= actions);
    }
    if summary.new_flags.for_supermajority {
        assert(added[0] == conclusion(target, true));
    }
    if summary.new_flags.against_supermajority {
        let at: int = if summary.new_flags.for_supermajority {
            1
        } else {
            0
        };
        assert(added[at] == conclusion(target, false));
    }
}

/// The announcement that a dispute has concluded for a side.
pub open spec fn conclusion(target: Target, valid: bool) -> Action {
    Action::Event(
        Event::DisputeConcluded(
            target.1,
            if valid {
                DisputeResult::Valid
            } else {
                DisputeResult::Invalid
            },
        ),
    )
}

/// Whether an operation asks something of the chain.
pub open spec fn announces<BlockNumber>(
    before: Docket<BlockNumber>,
    after: Docket<BlockNumber>,
    action: Action,
) -> bool {
    after.effects.skip(before.effects.len() as int).contains(action)
}

/// A dispute concludes at most once in each direction: it does so exactly as
/// that side reaches a supermajority, and what it has reached it keeps.
pub proof fn law_concludes_once_per_side<BlockNumber: BlockNumberLike>(
    docket: Docket<BlockNumber>,
    config: HostConfiguration<BlockNumber>,
    now: BlockNumber,
    sessions: Map<SessionIndex, Seq<ValidatorId>>,
    set: DisputeStatementSet,
    verdicts: Seq<bool>,
)
    requires
        docket.provided(config, now, sessions, set, verdicts) is Ok,
        docket.disputes.contains_key(target_of(set)),
    ensures
        ({
            let target = target_of(set);
            let after = (docket.provided(config, now, sessions, set, verdicts)->Ok_0).0;
            let had = docket.disputes[target].flags();
            let has = after.disputes[target].flags();
            &&& had.for_supermajority ==> has.for_supermajority
            &&& had.against_supermajority ==> has.against_supermajority
            &&& announces(docket, after, conclusion(target, true)) == (has.for_supermajority
                && !had.for_supermajority)
            &&& announces(docket, after, conclusion(target, false)) == (has.against_supermajority
                && !had.against_supermajority)
        }),
{
    let target = target_of(set);
    let n = sessions[set.session].len();
    let dispute = docket.disputes[target];
    law_votes_accumulate(Import::start(dispute, now), n, set.statements@, verdicts);
    lemma_added(docket, config, now, sessions, set, verdicts, true);
    lemma_added(docket, config, now, sessions, set, verdicts, false);
}

/// Statements do not move the block in which a dispute began, nor the one in
/// which it concluded. They conclude it exactly if a side reaches a supermajority,
/// and touch no other dispute.
pub proof fn law_conclusion_is_final<BlockNumber: BlockNumberLike>(
    docket: Docket<BlockNumber>,
    config: HostConfiguration<BlockNumber>,
    now: BlockNumber,
    sessions: Map<SessionIndex, Seq<ValidatorId>>,
    set: DisputeStatementSet,
    verdicts: Seq<bool>,
)
    requires
        docket.provided(config, now, sessions, set, verdicts) is Ok,
    ensures
        ({
            let target = target_of(set);
            let after = (docket.provided(config, now, sessions, set, verdicts)->Ok_0).0;
            &&& forall|t: Target|
                #![trigger after.disputes[t]]
                t != target && docket.disputes.contains_key(t) ==> after.disputes.contains_key(t)
                    && after.disputes[t] == docket.disputes[t]
            &&& docket.disputes.contains_key(target) ==> {
                let had = docket.disputes[target].flags();
                let has = after.disputes[target].flags();
                &&& after.disputes[target].start == docket.disputes[target].start
                &&& after.disputes[target].concluded_at == (
                if docket.disputes[target].concluded_at is Some {
                    docket.disputes[target].concluded_at
                } else if (has.for_supermajority && !had.for_supermajority) || (
                has.against_supermajority && !had.against_supermajority) {
                    Some(now)
                } else {
                    None
                })
            }
        }),
{
    let target = target_of(set);
    let n = sessions[set.session].len();
    let (fresh, dispute) = docket.opened(config, now, n, target)->Ok_0;
    let start = Import::start(dispute, now);
    lemma_statements_shape(start, n, set.statements@, verdicts);
    let import = start.statements(n, set.statements@, verdicts)->Ok_0;
    assert(import.summary().state.flags() == import.state.flags());
}

/// Sets of statements that are all accepted leave a dispute on each candidate
/// that they are about, and those on others as they were. The fresh ones are those that
/// there was no dispute on before, each once.
pub proof fn law_fresh_disputes<BlockNumber: BlockNumberLike>(
    docket: Docket<BlockNumber>,
    config: HostConfiguration<BlockNumber>,
    now: BlockNumber,
    sessions: Map<SessionIndex, Seq<ValidatorId>>,
    sets: Seq<DisputeStatementSet>,
)
    requires
        docket.provided_all(config, now, sessions, sets).1 is Ok,
    ensures
        ({
            let (after, result) = docket.provided_all(config, now, sessions, sets);
            let fresh = result->Ok_0;
            &&& fresh.no_duplicates()
            &&& docket.disputes.dom().disjoint(fresh.to_set())
            &&& after.disputes.dom() =~= docket.disputes.dom().union(fresh.to_set())
            &&& forall|i: int|
                0 <= i < sets.len() ==> #[trigger] after.disputes.contains_key(target_of(sets[i]))
            &&& forall|t: Target| #[trigger]
                docket.disputes.contains_key(t) && (forall|i: int|
                    0 <= i < sets.len() ==> target_of(#[trigger] sets[i]) != t)
                    ==> after.disputes[t] == docket.disputes[t]
        }),
    decreases sets.len(),
{
    let (after, result) = docket.provided_all(config, now, sessions, sets);
    let fresh = result->Ok_0;
    if sets.len() == 0 {
        assert(fresh.to_set() =~= Set::empty());
    } else {
        let fewer = sets.drop_last();
        let set = sets.last();
        let target = target_of(set);
        law_fresh_disputes(docket, config, now, sessions, fewer);
        let (current, earlier) = docket.provided_all(config, now, sessions, fewer);
        let known = earlier->Ok_0;
        assert(after.disputes.dom() =~= current.disputes.dom().insert(target));
        if !current.disputes.contains_key(target) {
            assert(fresh == known.push(target));
            assert(fresh.to_set() =~= known.to_set().insert(target)) by {
                assert forall|t: Target| fresh.to_set().contains(t) == known.to_set().insert(
                    target,
                ).contains(t) by {
                    if known.contains(t) {
                        let i = choose|i: int| 0 <= i < known.len() && known[i] == t;
                        assert(fresh[i] == t);
                    }
                    assert(fresh[known.len() as int] == target);
                }
            }
            assert(!known.contains(target)) by {
                assert(known.to_set().contains(target) == known.contains(target));
            }
        } else {
            assert(fresh == known);
        }
        assert forall|i: int| 0 <= i < sets.len() implies #[trigger] after.disputes.contains_key(
            target_of(sets[i]),
        ) by {
            if i < fewer.len() {
                assert(fewer[i] == sets[i]);
                assert(current.disputes.contains_key(target_of(fewer[i])));
            }
        }
        assert forall|t: Target| #[trigger]
            docket.disputes.contains_key(t) && (forall|i: int|
                0 <= i < sets.len() ==> target_of(#[trigger] sets[i]) != t) implies after.disputes[t]
            == docket.disputes[t] by {
            assert(target_of(sets[sets.len() - 1]) != t);
            assert forall|i: int| 0 <= i < fewer.len() implies target_of(#[trigger] fewer[i])
                != t by {
                assert(fewer[i] == sets[i]);
            }
            assert(current.disputes[t] == docket.disputes[t]);
        }
    }
}

/// A candidate that was found invalid stays suspect, whatever is stated after
/// that, and one without a dispute is not suspect.
pub proof fn law_lost_stays_suspect<BlockNumber: BlockNumberLike>(
    docket: Docket<BlockNumber>,
    config: HostConfiguration<BlockNumber>,
    now: BlockNumber,
    sessions: Map<SessionIndex, Seq<ValidatorId>>,
    set: DisputeStatementSet,
    verdicts: Seq<bool>,
    target: Target,
)
    requires
        docket.provided(config, now, sessions, set, verdicts) is Ok,
    ensures
        ({
            let after = (docket.provided(config, now, sessions, set, verdicts)->Ok_0).0;
            &&& docket.disputes.contains_key(target)
                && docket.disputes[target].supermajority_against() ==> docket.could_be_invalid(
                target,
            ) && after.could_be_invalid(target)
            &&& !docket.disputes.contains_key(target) ==> !docket.could_be_invalid(target)
        }),
{
    if docket.disputes.contains_key(target) && target == target_of(set) {
        let n = sessions[set.session].len();
        let start = Import::start(docket.disputes[target], now);
        law_votes_accumulate(start, n, set.statements@, verdicts);
        let after = start.statements(n, set.statements@, verdicts)->Ok_0;
        lemma_count_monotone(
            docket.disputes[target].validators_against,
            after.state.validators_against,
        );
    }
}

/// The inclusion of a candidate leaves a spam slot for everyone who had one.
pub proof fn law_included_covers<BlockNumber: BlockNumberLike>(
    docket: Docket<BlockNumber>,
    target: Target,
    included_in: BlockNumber,
    session: SessionIndex,
    n_validators: nat,
)
    requires
        docket.covers(session, n_validators),
    ensures
        docket.noted_included(target, included_in).covers(session, n_validators),
{
    let after = docket.noted_included(target, included_in);
    lemma_covers(docket, after, session, n_validators);
}

/// A block leaves a spam slot for everyone who had one.
pub proof fn law_timed_out_covers<BlockNumber: BlockNumberLike>(
    docket: Docket<BlockNumber>,
    config: HostConfiguration<BlockNumber>,
    now: BlockNumber,
    targets: Seq<Target>,
    session: SessionIndex,
    n_validators: nat,
)
    requires
        docket.covers(session, n_validators),
        targets.to_set() == docket.disputes.dom(),
    ensures
        docket.timed_out_all(config, now, targets).covers(session, n_validators),
{
    assert forall|i: int| 0 <= i < targets.len() implies #[trigger] docket.disputes.contains_key(
        targets[i],
    ) by {
        assert(targets.to_set().contains(targets[i]));
    }
    lemma_timed_out_covers(docket, config, now, targets, session, n_validators);
}

proof fn lemma_timed_out_covers<BlockNumber: BlockNumberLike>(
    docket: Docket<BlockNumber>,
    config: HostConfiguration<BlockNumber>,
    now: BlockNumber,
    targets: Seq<Target>,
    session: SessionIndex,
    n_validators: nat,
)
    requires
        docket.covers(session, n_validators),
        forall|i: int|
            0 <= i < targets.len() ==> #[trigger] docket.disputes.contains_key(targets[i]),
    ensures
        docket.timed_out_all(config, now, targets).covers(session, n_validators),
        docket.timed_out_all(config, now, targets).disputes.dom() == docket.disputes.dom(),
    decreases targets.len(),
{
    if targets.len() > 0 {
        let fewer = targets.drop_last();
        let target = targets.last();
        lemma_timed_out_covers(docket, config, now, fewer, session, n_validators);
        let current = docket.timed_out_all(config, now, fewer);
        let after = docket.timed_out_all(config, now, targets);
        assert(docket.disputes.contains_key(targets[targets.len() - 1]));
        assert(current.disputes.contains_key(target));
        assert(after.disputes.dom() =~= current.disputes.dom());
        lemma_covers(current, after, session, n_validators);
    }
}

/// A new session leaves a spam slot for everyone whose session it keeps.
pub proof fn law_pruned_covers<BlockNumber: BlockNumberLike>(
    docket: Docket<BlockNumber>,
    config: HostConfiguration<BlockNumber>,
    session_index: SessionIndex,
    session: SessionIndex,
    n_validators: nat,
)
    requires
        docket.covers(session, n_validators),
    ensures
        docket.pruned(config, session_index).covers(session, n_validators),
{
    let after = docket.pruned(config, session_index);
    assert forall|h: CandidateHash|
        #![trigger after.disputes[(session, h)]]
        after.disputes.contains_key((session, h)) implies after.disputes[(session, h)].size()
        <= after.slots(session, n_validators).len() by {
        assert(docket.disputes[(session, h)] == after.disputes[(session, h)]);
    }
}

proof fn lemma_covers<BlockNumber: BlockNumberLike>(
    before: Docket<BlockNumber>,
    after: Docket<BlockNumber>,
    session: SessionIndex,
    n_validators: nat,
)
    requires
        before.covers(session, n_validators),
        after.slots(session, n_validators).len() == before.slots(session, n_validators).len(),
        forall|t: Target| #[trigger]
            after.disputes.contains_key(t) ==> before.disputes.contains_key(t)
                && after.disputes[t].size() == before.disputes[t].size(),
    ensures
        after.covers(session, n_validators),
{
    assert forall|h: CandidateHash|
        #![trigger after.disputes[(session, h)]]
        after.disputes.contains_key((session, h)) implies after.disputes[(session, h)].size()
        <= after.slots(session, n_validators).len() by {
        assert(before.disputes[(session, h)].size() <= before.slots(session, n_validators).len());
    }
}

} // verus!
