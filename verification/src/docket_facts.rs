//! Facts about the docket that its operations rely on.
use crate::bits::{lemma_ones, ones};
use crate::docket::{target_of, Docket};
use crate::importer::{changes, Import, SpamSlotChange};
use crate::primitives::{
    BlockNumberLike, CandidateHash, DisputeStatementSet, HostConfiguration, SessionIndex,
    SignedStatement, ValidatorId, ValidatorIndex,
};
use crate::spam::changed_slots;
use vstd::prelude::*;

verus! {

/// Statements change nothing but the vote records, and not their lengths.
pub proof fn lemma_statements_shape<BlockNumber>(
    import: Import<BlockNumber>,
    n_validators: nat,
    statements: Seq<SignedStatement>,
    verdicts: Seq<bool>,
)
    ensures
        import.statements(n_validators, statements, verdicts) matches Ok(after) ==> {
            &&& after.state.validators_for.len() == import.state.validators_for.len()
            &&& after.state.validators_against.len() == import.state.validators_against.len()
            &&& after.new_participants.len() == import.new_participants.len()
            &&& after.state.start == import.state.start
            &&& after.state.concluded_at == import.state.concluded_at
            &&& after.now == import.now
            &&& after.pre_flags == import.pre_flags
        },
    decreases statements.len(),
{
    if statements.len() > 0 {
        lemma_statements_shape(import, n_validators, statements.drop_last(), verdicts);
    }
}

/// Once a statement is refused, those behind it do not matter.
pub proof fn lemma_statements_refused<BlockNumber>(
    import: Import<BlockNumber>,
    n_validators: nat,
    statements: Seq<SignedStatement>,
    verdicts: Seq<bool>,
    k: int,
)
    requires
        0 <= k <= statements.len(),
        import.statements(n_validators, statements.take(k), verdicts) is Err,
    ensures
        import.statements(n_validators, statements, verdicts) == import.statements(
            n_validators,
            statements.take(k),
            verdicts,
        ),
    decreases statements.len(),
{
    if k == statements.len() {
        assert(statements.take(k) =~= statements);
    } else {
        assert(statements.drop_last().take(k) =~= statements.take(k));
        lemma_statements_refused(import, n_validators, statements.drop_last(), verdicts, k);
    }
}

proof fn lemma_changes_in_bounds(s: Seq<bool>, change: SpamSlotChange)
    ensures
        forall|k: int|
            0 <= k < changes(s, change).len() ==> (#[trigger] changes(s, change)[k]).0.0 < s.len(),
{
    lemma_ones(s);
    assert forall|k: int| 0 <= k < changes(s, change).len() implies (#[trigger] changes(
        s,
        change,
    )[k]).0.0 < s.len() by {
        assert(0 <= ones(s)[k] < s.len());
    }
}

/// Spam slots change only for validators that the dispute has a bit for.
pub proof fn lemma_summary_in_bounds<BlockNumber>(import: Import<BlockNumber>)
    requires
        import.new_participants.len() == import.state.size(),
    ensures
        forall|k: int|
            0 <= k < import.summary().spam_slot_changes.len() ==> (
            #[trigger] import.summary().spam_slot_changes[k]).0.0 < import.state.size(),
{
    lemma_changes_in_bounds(import.previous_participants(), SpamSlotChange::Dec);
    lemma_changes_in_bounds(import.new_participants, SpamSlotChange::Inc);
}

pub proof fn lemma_changed_slots_len(
    slots: Seq<u32>,
    changes: Seq<(ValidatorIndex, SpamSlotChange)>,
    limit: u32,
)
    requires
        forall|k: int| 0 <= k < changes.len() ==> (#[trigger] changes[k]).0.0 < slots.len(),
    ensures
        changed_slots(slots, changes, limit) matches Ok(s) ==> s.len() == slots.len(),
    decreases changes.len(),
{
    if changes.len() > 0 {
        assert(changes.last() == changes[changes.len() - 1]);
        assert forall|k: int| 0 <= k < changes.drop_last().len() implies (
        #[trigger] changes.drop_last()[k]).0.0 < slots.len() by {
            assert(changes.drop_last()[k] == changes[k]);
        }
        lemma_changed_slots_len(slots, changes.drop_last(), limit);
    }
}

/// A set that is accepted leaves a spam slot for everyone who needs one.
pub proof fn lemma_provided_covers<BlockNumber: BlockNumberLike>(
    docket: Docket<BlockNumber>,
    config: HostConfiguration<BlockNumber>,
    now: BlockNumber,
    sessions: Map<SessionIndex, Seq<ValidatorId>>,
    set: DisputeStatementSet,
    verdicts: Seq<bool>,
)
    requires
        docket.covers_all(sessions),
    ensures
        docket.provided(config, now, sessions, set, verdicts) matches Ok((after, _)) ==> {
            after.covers_all(sessions)
        },
{
    let result = docket.provided(config, now, sessions, set, verdicts);
    if result is Ok {
        let after = (result->Ok_0).0;
        let n = sessions[set.session].len();
        let target = target_of(set);
        assert(docket.covers(set.session, n));
        let (fresh, dispute) = docket.opened(config, now, n, target)->Ok_0;
        assert(dispute.size() <= docket.slots(set.session, n).len()) by {
            if !fresh {
                assert(dispute == docket.disputes[(set.session, set.candidate_hash)]);
            }
        }
        let start = Import::start(dispute, now);
        lemma_statements_shape(start, n, set.statements@, verdicts);
        let import = start.statements(n, set.statements@, verdicts)->Ok_0;
        lemma_summary_in_bounds(import);
        lemma_changed_slots_len(
            docket.slots(set.session, n),
            import.summary().spam_slot_changes,
            config.dispute_max_spam_slots,
        );
        assert forall|s: SessionIndex| #[trigger] sessions.contains_key(s) implies after.covers(
            s,
            sessions[s].len(),
        ) by {
            assert(docket.covers(s, sessions[s].len()));
            assert(after.slots(s, sessions[s].len()).len() == docket.slots(
                s,
                sessions[s].len(),
            ).len());
            assert forall|h: CandidateHash|
                #![trigger after.disputes[(s, h)]]
                after.disputes.contains_key((s, h)) implies after.disputes[(s, h)].size()
                <= after.slots(s, sessions[s].len()).len() by {
                if (s, h) != target {
                    assert(after.disputes[(s, h)] == docket.disputes[(s, h)]);
                }
            }
        }
    }
}

/// Once a set is refused, those behind it do not matter.
pub proof fn lemma_provided_all_refused<BlockNumber: BlockNumberLike>(
    docket: Docket<BlockNumber>,
    config: HostConfiguration<BlockNumber>,
    now: BlockNumber,
    sessions: Map<SessionIndex, Seq<ValidatorId>>,
    sets: Seq<DisputeStatementSet>,
    k: int,
)
    requires
        0 <= k <= sets.len(),
        docket.provided_all(config, now, sessions, sets.take(k)).1 is Err,
    ensures
        docket.provided_all(config, now, sessions, sets) == docket.provided_all(
            config,
            now,
            sessions,
            sets.take(k),
        ),
    decreases sets.len(),
{
    if k == sets.len() {
        assert(sets.take(k) =~= sets);
    } else {
        assert(sets.drop_last().take(k) =~= sets.take(k));
        lemma_provided_all_refused(docket, config, now, sessions, sets.drop_last(), k);
    }
}

} // verus!
