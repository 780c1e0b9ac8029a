//! What becomes of statements that are provided, in terms of who said what.
use crate::ballot_laws::{
    a_third, law_import_ends, law_listed, law_milestones, law_statement,
    law_vote, names, over_two_thirds, taking_part, voters,
};
use crate::docket::{has_duplicates, target_of, verdicts, Docket};
use crate::docket_facts::lemma_statements_shape;
use crate::errors::Error;
use crate::hooks::{Action, ConsensusLog, DisputeLocation, DisputeResult, Event};
use crate::importer::{changes, indices, Import, SpamSlotChange, Summary};
use crate::payload::payload;
use crate::primitives::{
    BlockNumberLike, Dispute, DisputeStatement, DisputeStatementSet, HostConfiguration,
    SessionIndex, SignedStatement, ValidatorId, ValidatorIndex,
};
use crate::signature::sr25519_valid;
use crate::spam::changed_slots;
use crate::spam_laws::lemma_changed_slots;
use crate::storage::Target;
use crate::vote_laws::{law_new_participants, law_votes_accumulate};
use vstd::prelude::*;

verus! {

/// Those who state that the candidate is valid, in whatever way.
pub open spec fn said_valid(statements: Seq<SignedStatement>) -> Set<int> {
    Set::new(
        |i: int|
            exists|k: int|
                0 <= k < statements.len() && (#[trigger] statements[k]).1.0 == i
                    && statements[k].0 matches DisputeStatement::Valid(_),
    )
}

/// Those who state that the candidate is invalid, in whatever way.
pub open spec fn said_invalid(statements: Seq<SignedStatement>) -> Set<int> {
    Set::new(
        |i: int|
            exists|k: int|
                0 <= k < statements.len() && (#[trigger] statements[k]).1.0 == i
                    && statements[k].0 matches DisputeStatement::Invalid(_),
    )
}

/// Whether a statement can be taken after those before it: it is of a validator,
/// signed, and neither was the same said before the statements nor among them.
pub open spec fn acceptable(
    held_valid: Set<int>,
    held_invalid: Set<int>,
    n_validators: nat,
    statements: Seq<SignedStatement>,
    verdicts: Seq<bool>,
    k: int,
) -> bool {
    let i = statements[k].1.0 as int;
    let earlier = statements.take(k);
    &&& i < n_validators
    &&& verdicts[k]
    &&& statements[k].0 matches DisputeStatement::Valid(_) ==> !held_valid.contains(i)
        && !said_valid(earlier).contains(i)
    &&& statements[k].0 matches DisputeStatement::Invalid(_) ==> !held_invalid.contains(i)
        && !said_invalid(earlier).contains(i)
}

/// Why a statement that is not acceptable is refused.
pub open spec fn reason(
    n_validators: nat,
    statements: Seq<SignedStatement>,
    verdicts: Seq<bool>,
    k: int,
) -> Error {
    if statements[k].1.0 >= n_validators {
        Error::ValidatorIndexOutOfBounds
    } else if !verdicts[k] {
        Error::InvalidSignature
    } else {
        Error::DuplicateStatement
    }
}

/// Whether the k'th statement is the first that is not acceptable.
pub open spec fn refused_at(
    held_valid: Set<int>,
    held_invalid: Set<int>,
    n_validators: nat,
    statements: Seq<SignedStatement>,
    verdicts: Seq<bool>,
    k: int,
) -> bool {
    &&& 0 <= k < statements.len()
    &&& !acceptable(held_valid, held_invalid, n_validators, statements, verdicts, k)
    &&& forall|j: int|
        0 <= j < k ==> #[trigger] acceptable(
            held_valid,
            held_invalid,
            n_validators,
            statements,
            verdicts,
            j,
        )
}

proof fn lemma_said_more(statements: Seq<SignedStatement>)
    requires
        statements.len() > 0,
    ensures
        said_valid(statements) == (match statements.last().0 {
            DisputeStatement::Valid(_) => said_valid(statements.drop_last()).insert(
                statements.last().1.0 as int,
            ),
            DisputeStatement::Invalid(_) => said_valid(statements.drop_last()),
        }),
        said_invalid(statements) == (match statements.last().0 {
            DisputeStatement::Valid(_) => said_invalid(statements.drop_last()),
            DisputeStatement::Invalid(_) => said_invalid(statements.drop_last()).insert(
                statements.last().1.0 as int,
            ),
        }),
{
    let fewer = statements.drop_last();
    let last = statements.last();
    assert(statements[statements.len() - 1] == last);
    assert forall|i: int| said_valid(statements).contains(i) == (said_valid(fewer).contains(i) || (
    last.1.0 == i && last.0 is Valid)) by {
        if said_valid(fewer).contains(i) {
            let k = choose|k: int|
                0 <= k < fewer.len() && (#[trigger] fewer[k]).1.0 == i
                    && fewer[k].0 matches DisputeStatement::Valid(_);
            assert(statements[k] == fewer[k]);
        }
        if said_valid(statements).contains(i) {
            let k = choose|k: int|
                0 <= k < statements.len() && (#[trigger] statements[k]).1.0 == i
                    && statements[k].0 matches DisputeStatement::Valid(_);
            if k < fewer.len() {
                assert(statements[k] == fewer[k]);
            }
        }
    }
    assert forall|i: int| said_invalid(statements).contains(i) == (said_invalid(fewer).contains(i)
        || (last.1.0 == i && last.0 is Invalid)) by {
        if said_invalid(fewer).contains(i) {
            let k = choose|k: int|
                0 <= k < fewer.len() && (#[trigger] fewer[k]).1.0 == i
                    && fewer[k].0 matches DisputeStatement::Invalid(_);
            assert(statements[k] == fewer[k]);
        }
        if said_invalid(statements).contains(i) {
            let k = choose|k: int|
                0 <= k < statements.len() && (#[trigger] statements[k]).1.0 == i
                    && statements[k].0 matches DisputeStatement::Invalid(_);
            if k < fewer.len() {
                assert(statements[k] == fewer[k]);
            }
        }
    }
    assert(said_valid(statements) =~= match last.0 {
        DisputeStatement::Valid(_) => said_valid(fewer).insert(last.1.0 as int),
        DisputeStatement::Invalid(_) => said_valid(fewer),
    });
    assert(said_invalid(statements) =~= match last.0 {
        DisputeStatement::Valid(_) => said_invalid(fewer),
        DisputeStatement::Invalid(_) => said_invalid(fewer).insert(last.1.0 as int),
    });
}

/// Statements that are taken are recorded, each on its side: whoever states in
/// any way that the candidate is valid is a voter for it, and whoever states that it is invalid
/// is a voter against it. Nobody else becomes one, and nobody ceases to be one.
pub proof fn law_sides<BlockNumber>(
    import: Import<BlockNumber>,
    n_validators: nat,
    statements: Seq<SignedStatement>,
    verdicts: Seq<bool>,
)
    requires
        import.statements(n_validators, statements, verdicts) is Ok,
    ensures
        ({
            let before = import.state;
            let after = (import.statements(n_validators, statements, verdicts)->Ok_0).state;
            &&& after.validators_for.len() == before.validators_for.len()
            &&& after.validators_against.len() == before.validators_against.len()
            &&& voters(after.validators_for) =~= voters(before.validators_for).union(
                said_valid(statements),
            )
            &&& voters(after.validators_against) =~= voters(before.validators_against).union(
                said_invalid(statements),
            )
        }),
    decreases statements.len(),
{
    if statements.len() == 0 {
        assert(said_valid(statements) =~= Set::empty());
        assert(said_invalid(statements) =~= Set::empty());
    } else {
        let fewer = statements.drop_last();
        let last = statements.last();
        law_sides(import, n_validators, fewer, verdicts);
        lemma_said_more(statements);
        let earlier = import.statements(n_validators, fewer, verdicts)->Ok_0;
        law_statement(earlier, n_validators, last.0, last.1, verdicts[statements.len() - 1]);
        law_vote(earlier, last.1, true);
        law_vote(earlier, last.1, false);
    }
}

/// Statements are taken one after the other, each with the verdict on it and with
/// what those before it have left. The first that is refused is the last that is looked at.
pub proof fn law_statements_in_turn<BlockNumber>(
    import: Import<BlockNumber>,
    n_validators: nat,
    statements: Seq<SignedStatement>,
    statement: SignedStatement,
    verdicts: Seq<bool>,
)
    ensures
        import.statements(n_validators, Seq::empty(), verdicts) == Ok::<
            Import<BlockNumber>,
            Error,
        >(import),
        import.statements(n_validators, statements.push(statement), verdicts) == (
        match import.statements(n_validators, statements, verdicts) {
            Ok(current) => current.statement(
                n_validators,
                statement.0,
                statement.1,
                verdicts[statements.len() as int],
            ),
            Err(e) => Err(e),
        }),
{
    assert(statements.push(statement).drop_last() =~= statements);
}

/// Statements are taken if all are acceptable. Else the first that is not is the
/// reason why they are refused.
pub proof fn law_first_refusal<BlockNumber>(
    import: Import<BlockNumber>,
    n_validators: nat,
    statements: Seq<SignedStatement>,
    verdicts: Seq<bool>,
)
    requires
        import.state.validators_for.len() == n_validators,
        import.state.validators_against.len() == n_validators,
        import.new_participants.len() == n_validators,
    ensures
        ({
            let result = import.statements(n_validators, statements, verdicts);
            let held_valid = voters(import.state.validators_for);
            let held_invalid = voters(import.state.validators_against);
            &&& result is Ok == forall|k: int|
                0 <= k < statements.len() ==> #[trigger] acceptable(
                    held_valid,
                    held_invalid,
                    n_validators,
                    statements,
                    verdicts,
                    k,
                )
            &&& forall|k: int| #[trigger]
                refused_at(held_valid, held_invalid, n_validators, statements, verdicts, k)
                    ==> result == Err::<Import<BlockNumber>, Error>(
                    reason(n_validators, statements, verdicts, k),
                )
        }),
    decreases statements.len(),
{
    let result = import.statements(n_validators, statements, verdicts);
    let a = voters(import.state.validators_for);
    let b = voters(import.state.validators_against);
    if statements.len() > 0 {
        let fewer = statements.drop_last();
        let last = statements.last();
        let end = statements.len() - 1;
        law_first_refusal(import, n_validators, fewer, verdicts);
        assert forall|k: int| 0 <= k < fewer.len() implies #[trigger] acceptable(
            a,
            b,
            n_validators,
            statements,
            verdicts,
            k,
        ) == acceptable(a, b, n_validators, fewer, verdicts, k) by {
            assert(fewer[k] == statements[k]);
            assert(fewer.take(k) =~= statements.take(k));
        }
        assert(statements.take(end) =~= fewer);
        let earlier = import.statements(n_validators, fewer, verdicts);
        if earlier is Ok {
            let at = earlier->Ok_0;
            lemma_statements_shape(import, n_validators, fewer, verdicts);
            law_sides(import, n_validators, fewer, verdicts);
            law_statement(at, n_validators, last.0, last.1, verdicts[end]);
            law_vote(at, last.1, true);
            law_vote(at, last.1, false);
            let i = last.1.0 as int;
            assert(voters(at.state.validators_for).contains(i) == (0 <= i < n_validators
                && at.state.validators_for[i]));
            assert(voters(at.state.validators_against).contains(i) == (0 <= i < n_validators
                && at.state.validators_against[i]));
            assert(result is Ok == acceptable(a, b, n_validators, statements, verdicts, end));
            assert(forall|k: int|
                0 <= k < fewer.len() ==> #[trigger] acceptable(
                    a,
                    b,
                    n_validators,
                    fewer,
                    verdicts,
                    k,
                ));
            assert forall|k: int| #[trigger]
                refused_at(a, b, n_validators, statements, verdicts, k) implies result == Err::<
                Import<BlockNumber>,
                Error,
            >(reason(n_validators, statements, verdicts, k)) by {
                if k < fewer.len() {
                    assert(acceptable(a, b, n_validators, fewer, verdicts, k));
                }
                assert(k == end);
            }
            if result is Ok {
                assert forall|k: int| 0 <= k < statements.len() implies #[trigger] acceptable(
                    a,
                    b,
                    n_validators,
                    statements,
                    verdicts,
                    k,
                ) by {
                    if k < fewer.len() {
                        assert(acceptable(a, b, n_validators, fewer, verdicts, k));
                    }
                }
            }
        } else {
            let bad = choose|k: int|
                0 <= k < fewer.len() && !#[trigger] acceptable(
                    a,
                    b,
                    n_validators,
                    fewer,
                    verdicts,
                    k,
                );
            assert(!acceptable(a, b, n_validators, statements, verdicts, bad));
            assert forall|k: int| #[trigger]
                refused_at(a, b, n_validators, statements, verdicts, k) implies result == Err::<
                Import<BlockNumber>,
                Error,
            >(reason(n_validators, statements, verdicts, k)) by {
                assert(k < fewer.len()) by {
                    if k == end {
                        assert(acceptable(a, b, n_validators, statements, verdicts, bad));
                    }
                }
                assert(refused_at(a, b, n_validators, fewer, verdicts, k)) by {
                    assert forall|j: int| 0 <= j < k implies #[trigger] acceptable(
                        a,
                        b,
                        n_validators,
                        fewer,
                        verdicts,
                        j,
                    ) by {
                        assert(acceptable(a, b, n_validators, statements, verdicts, j));
                    }
                }
                assert(reason(n_validators, fewer, verdicts, k) == reason(
                    n_validators,
                    statements,
                    verdicts,
                    k,
                ));
            }
        }
    }
}

/// A statement counts as signed if its signature is valid for its payload under
/// the key of the validator that it names.
pub proof fn law_verdicts(validators: Seq<ValidatorId>, set: DisputeStatementSet)
    ensures
        verdicts(validators, set).len() == set.statements@.len(),
        forall|k: int|
            0 <= k < set.statements@.len() ==> #[trigger] verdicts(validators, set)[k] == {
                let (statement, validator, signature) = set.statements@[k];
                validator.0 < validators.len() && sr25519_valid(
                    signature.0@,
                    payload(statement, set.candidate_hash, set.session),
                    validators[validator.0 as int].0@,
                )
            },
{
}

/// Sets of statements are duplicates if two are of one session and one candidate.
pub proof fn law_duplicates(sets: Seq<DisputeStatementSet>)
    ensures
        has_duplicates(sets) == exists|i: int, j: int|
            #![trigger sets[i], sets[j]]
            0 <= i < j < sets.len() && sets[i].session == sets[j].session
                && sets[i].candidate_hash == sets[j].candidate_hash,
{
    if has_duplicates(sets) {
        let (i, j) = choose|i: int, j: int|
            #![trigger sets[i], sets[j]]
            0 <= i < j < sets.len() && target_of(sets[i])
                == target_of(sets[j]);
        assert(sets[i].session == sets[j].session);
    }
    if exists|i: int, j: int|
        #![trigger sets[i], sets[j]]
        0 <= i < j < sets.len() && sets[i].session == sets[j].session && sets[i].candidate_hash
            == sets[j].candidate_hash {
        let (i, j) = choose|i: int, j: int|
            #![trigger sets[i], sets[j]]
            0 <= i < j < sets.len() && sets[i].session == sets[j].session
                && sets[i].candidate_hash == sets[j].candidate_hash;
        assert(target_of(sets[i]) == target_of(sets[j]));
    }
}

/// Those who have voted for the candidate, if it is disputed.
pub open spec fn held_valid<BlockNumber>(docket: Docket<BlockNumber>, target: Target) -> Set<int> {
    if docket.disputes.contains_key(target) {
        voters(docket.disputes[target].validators_for)
    } else {
        Set::empty()
    }
}

/// Those who have voted against the candidate, if it is disputed.
pub open spec fn held_invalid<BlockNumber>(docket: Docket<BlockNumber>, target: Target) -> Set<
    int,
> {
    if docket.disputes.contains_key(target) {
        voters(docket.disputes[target].validators_against)
    } else {
        Set::empty()
    }
}

/// The spam slots that a validator has been counted, if any are recorded.
pub open spec fn slot<BlockNumber>(
    docket: Docket<BlockNumber>,
    session: SessionIndex,
    i: int,
) -> int {
    if docket.spam_slots.contains_key(session) {
        docket.spam_slots[session][i] as int
    } else {
        0
    }
}

/// Whether a dispute has concluded too long ago to take statements.
pub open spec fn closed<BlockNumber: BlockNumberLike>(
    docket: Docket<BlockNumber>,
    config: HostConfiguration<BlockNumber>,
    now: BlockNumber,
    target: Target,
) -> bool {
    &&& docket.disputes.contains_key(target)
    &&& docket.disputes[target].concluded_at matches Some(at) && at.number()
        + config.dispute_post_conclusion_acceptance_period.number() < now.number()
}

/// Statements go into the dispute on a candidate, unless it is closed. Where there is none,
/// they open one in the current block, with no votes.
pub proof fn law_opened<BlockNumber: BlockNumberLike>(
    docket: Docket<BlockNumber>,
    config: HostConfiguration<BlockNumber>,
    now: BlockNumber,
    n_validators: nat,
    target: Target,
)
    ensures
        match docket.opened(config, now, n_validators, target) {
            Err(e) => e == Error::AncientDisputeStatement && closed(docket, config, now, target),
            Ok((fresh, dispute)) => {
                &&& !closed(docket, config, now, target)
                &&& fresh == !docket.disputes.contains_key(target)
                &&& voters(dispute.validators_for) =~= held_valid(docket, target)
                &&& voters(dispute.validators_against) =~= held_invalid(docket, target)
                &&& !fresh ==> dispute == docket.disputes[target]
                &&& fresh ==> {
                    &&& dispute.validators_for.len() == n_validators
                    &&& dispute.validators_against.len() == n_validators
                    &&& dispute.start == now
                    &&& dispute.concluded_at is None
                }
            },
        },
{
}

/// The outcome of an import is announced in this order: that the dispute is
/// fresh, that it was won, that it was lost. Then come the reward of those who
/// are new, the punishment of those against and the punishment of those for the
/// candidate, whether it was included or not. A loss reverts and freezes the
/// chain, if the candidate was included and the chain was not frozen.
pub proof fn law_outcome<BlockNumber: BlockNumberLike>(
    docket: Docket<BlockNumber>,
    config: HostConfiguration<BlockNumber>,
    n_validators: nat,
    target: Target,
    fresh: bool,
    summary: Summary<BlockNumber>,
) -> (rewarded: Seq<ValidatorIndex>)
    requires
        summary.new_participants.len() <= u32::MAX,
    ensures
        names(rewarded, voters(summary.new_participants)),
        ({
            let included = docket.included.contains_key(target);
            let had = if docket.spam_slots.contains_key(target.0) {
                docket.spam_slots[target.0]
            } else {
                Seq::new(n_validators, |i: int| 0u32)
            };
            let slots = changed_slots(
                had,
                summary.spam_slot_changes,
                config.dispute_max_spam_slots,
            );
            let won = summary.new_flags.for_supermajority;
            let lost = summary.new_flags.against_supermajority;
            match docket.concluded(config, n_validators, target, fresh, summary) {
                Err(e) => !included && slots == Err::<Seq<u32>, Error>(e),
                Ok(after) => {
                    &&& included ==> after.spam_slots == docket.spam_slots
                    &&& !included ==> slots is Ok && after.spam_slots == docket.spam_slots.insert(
                        target.0,
                        slots->Ok_0,
                    )
                    &&& after.disputes == docket.disputes.insert(target, summary.state)
                    &&& after.included == docket.included
                    &&& after.last_pruned_session == docket.last_pruned_session
                    &&& after.frozen == (docket.frozen || (lost && included))
                    &&& after.effects =~= docket.effects + announced(
                        target,
                        included,
                        fresh,
                        won,
                        lost,
                    ) + seq![
                        Action::RewardDisputeStatement(target.0, rewarded),
                        Action::PunishAgainstValid(target.0, summary.slash_against),
                        Action::PunishForInvalid(target.0, summary.slash_for),
                    ] + (if lost && included && !docket.frozen {
                        reversion(docket.included[target].number())
                    } else {
                        Seq::empty()
                    })
                },
            }
        }),
{
    law_listed(summary.new_participants);
    indices(summary.new_participants)
}

/// The announcements of an import.
pub open spec fn announced(
    target: Target,
    included: bool,
    fresh: bool,
    won: bool,
    lost: bool,
) -> Seq<Action> {
    let location = if included {
        DisputeLocation::Local
    } else {
        DisputeLocation::Remote
    };
    (if fresh {
        seq![Action::Event(Event::DisputeInitiated(target.1, location))]
    } else {
        Seq::empty()
    }) + (if won {
        seq![Action::Event(Event::DisputeConcluded(target.1, DisputeResult::Valid))]
    } else {
        Seq::empty()
    }) + (if lost {
        seq![Action::Event(Event::DisputeConcluded(target.1, DisputeResult::Invalid))]
    } else {
        Seq::empty()
    })
}

/// The log that has the chain go back to a block, at the bound of `u32` where it
/// does not fit.
pub open spec fn reversion(block: nat) -> Seq<Action> {
    seq![
        Action::Log(
            ConsensusLog::RevertTo(
                if block <= u32::MAX {
                    block as u32
                } else {
                    u32::MAX
                },
            ),
        ),
    ]
}

/// Statements that are accepted make their authors voters, each for the side that
/// it states: whoever states in any way that the candidate is valid is for it from then on, and
/// whoever states that it is invalid is against it. No other vote of the
/// candidate changes, nor any other dispute.
pub proof fn law_accepted_votes<BlockNumber: BlockNumberLike>(
    docket: Docket<BlockNumber>,
    config: HostConfiguration<BlockNumber>,
    now: BlockNumber,
    sessions: Map<SessionIndex, Seq<ValidatorId>>,
    set: DisputeStatementSet,
    verdicts: Seq<bool>,
)
    requires
        docket.provided(config, now, sessions, set, verdicts) is Ok,
    ensures
        ({
            let target = (set.session, set.candidate_hash);
            let (after, fresh) = docket.provided(config, now, sessions, set, verdicts)->Ok_0;
            let dispute = after.disputes[target];
            &&& fresh == !docket.disputes.contains_key(target)
            &&& after.disputes.dom() =~= docket.disputes.dom().insert(target)
            &&& forall|t: Target|
                #![trigger after.disputes[t]]
                docket.disputes.contains_key(t) && t != target ==> after.disputes[t]
                    == docket.disputes[t]
            &&& voters(dispute.validators_for) =~= held_valid(docket, target).union(
                said_valid(set.statements@),
            )
            &&& voters(dispute.validators_against) =~= held_invalid(docket, target).union(
                said_invalid(set.statements@),
            )
            &&& fresh ==> {
                &&& dispute.validators_for.len() == sessions[set.session].len()
                &&& dispute.validators_against.len() == sessions[set.session].len()
                &&& dispute.start == now
            }
            &&& !fresh ==> {
                &&& dispute.validators_for.len() == docket.disputes[target].validators_for.len()
                &&& dispute.validators_against.len()
                    == docket.disputes[target].validators_against.len()
                &&& dispute.start == docket.disputes[target].start
            }
            &&& after.included == docket.included
            &&& after.last_pruned_session == docket.last_pruned_session
        }),
{
    let target = (set.session, set.candidate_hash);
    let n = sessions[set.session].len();
    law_opened(docket, config, now, n, target);
    let (fresh, dispute) = docket.opened(config, now, n, target)->Ok_0;
    let start = Import::start(dispute, now);
    law_sides(start, n, set.statements@, verdicts);
    lemma_statements_shape(start, n, set.statements@, verdicts);
}

/// What statements that are accepted lead to.
///
/// A side wins or loses as its votes come to exceed two thirds of the session,
/// which concludes the dispute, unless it has concluded. The dispute is announced
/// as it begins, is won and is lost. Those who had not voted are rewarded. If the
/// dispute is won, everyone who has voted against is punished; if it is lost, everyone who has
/// voted for; and nobody otherwise. A loss reverts and freezes the chain if the
/// candidate was included.
pub proof fn law_accepted_consequences<BlockNumber: BlockNumberLike>(
    docket: Docket<BlockNumber>,
    config: HostConfiguration<BlockNumber>,
    now: BlockNumber,
    sessions: Map<SessionIndex, Seq<ValidatorId>>,
    set: DisputeStatementSet,
    verdicts: Seq<bool>,
) -> (lists: (Seq<ValidatorIndex>, Seq<ValidatorIndex>, Seq<ValidatorIndex>))
    requires
        docket.provided(config, now, sessions, set, verdicts) is Ok,
        docket.fits(set.session, sessions[set.session].len()),
        sessions[set.session].len() <= u32::MAX,
    ensures
        ({
            let target = (set.session, set.candidate_hash);
            let n = sessions[set.session].len();
            let (after, fresh) = docket.provided(config, now, sessions, set, verdicts)->Ok_0;
            let dispute = after.disputes[target];
            let included = docket.included.contains_key(target);
            let won = n > 0 && over_two_thirds(voters(dispute.validators_for), n)
                && !over_two_thirds(held_valid(docket, target), n);
            let lost = n > 0 && over_two_thirds(voters(dispute.validators_against), n)
                && !over_two_thirds(held_invalid(docket, target), n);
            let had_concluded = docket.disputes.contains_key(target)
                && docket.disputes[target].concluded_at is Some;
            let (rewarded, against, in_favour) = lists;
            &&& had_concluded ==> dispute.concluded_at == docket.disputes[target].concluded_at
            &&& !had_concluded ==> dispute.concluded_at == (if won || lost {
                Some(now)
            } else {
                None
            })
            &&& after.frozen == (docket.frozen || (lost && included))
            &&& names(
                rewarded,
                said_valid(set.statements@).union(said_invalid(set.statements@)).difference(
                    held_valid(docket, target).union(held_invalid(docket, target)),
                ),
            )
            &&& names(
                against,
                if won {
                    voters(dispute.validators_against)
                } else {
                    Set::empty()
                },
            )
            &&& names(
                in_favour,
                if lost {
                    voters(dispute.validators_for)
                } else {
                    Set::empty()
                },
            )
            &&& after.effects =~= docket.effects + announced(
                target,
                included,
                fresh,
                won,
                lost,
            ) + seq![
                Action::RewardDisputeStatement(target.0, rewarded),
                Action::PunishAgainstValid(target.0, against),
                Action::PunishForInvalid(target.0, in_favour),
            ] + (if lost && included && !docket.frozen {
                reversion(docket.included[target].number())
            } else {
                Seq::empty()
            })
        }),
{
    let target = (set.session, set.candidate_hash);
    let n = sessions[set.session].len();
    law_accepted_votes(docket, config, now, sessions, set, verdicts);
    law_opened(docket, config, now, n, target);
    let (fresh, dispute) = docket.opened(config, now, n, target)->Ok_0;
    assert(dispute.validators_for.len() == n && dispute.validators_against.len() == n) by {
        if !fresh {
            assert(dispute == docket.disputes[(set.session, set.candidate_hash)]);
        }
    }
    let start = Import::start(dispute, now);
    lemma_statements_shape(start, n, set.statements@, verdicts);
    law_sides(start, n, set.statements@, verdicts);
    law_milestones(dispute);
    let import = start.statements(n, set.statements@, verdicts)->Ok_0;
    law_import_ends(import);
    let summary = import.summary();
    let rewarded = law_outcome(docket, config, n, target, fresh, summary);
    law_new_participants(dispute, now, n, set.statements@, verdicts);
    lemma_newcomers(docket, target, dispute, import, set.statements@);
    (rewarded, summary.slash_against, summary.slash_for)
}

proof fn lemma_newcomers<BlockNumber: BlockNumberLike>(
    docket: Docket<BlockNumber>,
    target: Target,
    dispute: Dispute<BlockNumber>,
    import: Import<BlockNumber>,
    statements: Seq<SignedStatement>,
)
    requires
        dispute.validators_for.len() == dispute.validators_against.len(),
        import.state.validators_for.len() == dispute.validators_for.len(),
        import.state.validators_against.len() == dispute.validators_for.len(),
        voters(dispute.validators_for) == held_valid(docket, target),
        voters(dispute.validators_against) == held_invalid(docket, target),
        voters(import.state.validators_for) == held_valid(docket, target).union(
            said_valid(statements),
        ),
        voters(import.state.validators_against) == held_invalid(docket, target).union(
            said_invalid(statements),
        ),
        import.new_participants == Seq::new(
            dispute.size(),
            |i: int| import.state.participants()[i] && !dispute.participants()[i],
        ),
    ensures
        voters(import.new_participants) == said_valid(statements).union(
            said_invalid(statements),
        ).difference(held_valid(docket, target).union(held_invalid(docket, target))),
        taking_part(import.state) == voters(import.state.validators_for).union(
            voters(import.state.validators_against),
        ),
        taking_part(dispute) == held_valid(docket, target).union(held_invalid(docket, target)),
{
    let new = voters(import.new_participants);
    let expected = said_valid(statements).union(said_invalid(statements)).difference(
        held_valid(docket, target).union(held_invalid(docket, target)),
    );
    assert(taking_part(import.state) =~= voters(import.state.validators_for).union(
        voters(import.state.validators_against),
    ));
    assert(taking_part(dispute) =~= held_valid(docket, target).union(
        held_invalid(docket, target),
    )) by {
        assert(taking_part(dispute) =~= voters(dispute.validators_for).union(
            voters(dispute.validators_against),
        ));
    }
    assert forall|i: int| new.contains(i) == expected.contains(i) by {
        assert(taking_part(import.state).contains(i) == (voters(
            import.state.validators_for,
        ).contains(i) || voters(import.state.validators_against).contains(i)));
        assert(taking_part(dispute).contains(i) == (held_valid(docket, target).contains(i)
            || held_invalid(docket, target).contains(i)));
        assert(voters(import.state.validators_for).contains(i) == (held_valid(
            docket,
            target,
        ).contains(i) || said_valid(statements).contains(i)));
        assert(voters(import.state.validators_against).contains(i) == (held_invalid(
            docket,
            target,
        ).contains(i) || said_invalid(statements).contains(i)));
        if 0 <= i < dispute.size() {
            assert(import.state.participants()[i] == taking_part(import.state).contains(i));
            assert(dispute.participants()[i] == taking_part(dispute).contains(i));
        }
    }
    assert(new =~= expected);
}

/// What statements that are accepted do to spam slots, unless the candidate was
/// included, in which case they do nothing.
///
/// While fewer than a third of the session has voted, whoever votes for the first
/// time occupies one slot more. As a third is reached, everyone who voted before
/// occupies one slot less. After that no slot changes, nor does any of another session.
pub proof fn law_accepted_spam<BlockNumber: BlockNumberLike>(
    docket: Docket<BlockNumber>,
    config: HostConfiguration<BlockNumber>,
    now: BlockNumber,
    sessions: Map<SessionIndex, Seq<ValidatorId>>,
    set: DisputeStatementSet,
    verdicts: Seq<bool>,
)
    requires
        docket.provided(config, now, sessions, set, verdicts) is Ok,
        docket.fits(set.session, sessions[set.session].len()),
        sessions[set.session].len() <= u32::MAX,
    ensures
        ({
            let target = (set.session, set.candidate_hash);
            let n = sessions[set.session].len();
            let after = (docket.provided(config, now, sessions, set, verdicts)->Ok_0).0;
            let had = held_valid(docket, target).union(held_invalid(docket, target));
            let has = held_valid(after, target).union(held_invalid(after, target));
            &&& docket.included.contains_key(target) ==> after.spam_slots == docket.spam_slots
            &&& !docket.included.contains_key(target) ==> {
                &&& after.spam_slots.dom() =~= docket.spam_slots.dom().insert(set.session)
                &&& forall|s: SessionIndex|
                    #![trigger after.spam_slots[s]]
                    docket.spam_slots.contains_key(s) && s != set.session ==> after.spam_slots[s]
                        == docket.spam_slots[s]
                &&& after.spam_slots[set.session].len() == n
                &&& forall|i: int|
                    0 <= i < n ==> #[trigger] after.spam_slots[set.session][i] == slot(
                        docket,
                        set.session,
                        i,
                    ) + (if a_third(had, n) {
                        0int
                    } else if !a_third(has, n) {
                        if has.contains(i) && !had.contains(i) {
                            1int
                        } else {
                            0int
                        }
                    } else if had.contains(i) && slot(docket, set.session, i) > 0 {
                        -1int
                    } else {
                        0int
                    })
            }
        }),
{
    let target = (set.session, set.candidate_hash);
    let n = sessions[set.session].len();
    let after = (docket.provided(config, now, sessions, set, verdicts)->Ok_0).0;
    law_accepted_votes(docket, config, now, sessions, set, verdicts);
    law_opened(docket, config, now, n, target);
    let (fresh, dispute) = docket.opened(config, now, n, target)->Ok_0;
    assert(dispute.validators_for.len() == n && dispute.validators_against.len() == n) by {
        if !fresh {
            assert(dispute == docket.disputes[(set.session, set.candidate_hash)]);
        }
    }
    let start = Import::start(dispute, now);
    lemma_statements_shape(start, n, set.statements@, verdicts);
    law_sides(start, n, set.statements@, verdicts);
    let import = start.statements(n, set.statements@, verdicts)->Ok_0;
    law_milestones(dispute);
    law_milestones(import.state);
    law_new_participants(dispute, now, n, set.statements@, verdicts);
    lemma_newcomers(docket, target, dispute, import, set.statements@);
    let had = held_valid(docket, target).union(held_invalid(docket, target));
    let has = held_valid(after, target).union(held_invalid(after, target));
    assert(has =~= taking_part(import.state));
    let slots = docket.slots(set.session, n);
    let limit = config.dispute_max_spam_slots;
    lemma_changed_slots(slots, import.previous_participants(), SpamSlotChange::Dec, limit);
    lemma_changed_slots(slots, import.new_participants, SpamSlotChange::Inc, limit);
    if !docket.included.contains_key(target) {
        assert forall|i: int| 0 <= i < n implies #[trigger] after.spam_slots[set.session][i]
            == slot(docket, set.session, i) + (if a_third(had, n) {
            0int
        } else if !a_third(has, n) {
            if has.contains(i) && !had.contains(i) {
                1int
            } else {
                0int
            }
        } else if had.contains(i) && slot(docket, set.session, i) > 0 {
            -1int
        } else {
            0int
        }) by {
            assert(slots[i] == slot(docket, set.session, i));
            assert(dispute.participants()[i] == had.contains(i)) by {
                assert(taking_part(dispute).contains(i) == dispute.participants()[i]);
            }
            assert(import.state.participants()[i] == has.contains(i)) by {
                assert(taking_part(import.state).contains(i) == import.state.participants()[i]);
            }
        }
    }
}

/// When statements are refused, and why.
///
/// They are ancient if the session is not known any more or the dispute is closed. Else
/// the first that is not acceptable is the reason. If there is none, they are
/// potential spam if the candidate was not included, fewer than a third of the session
/// would have voted, and someone who had not voted occupies all slots allowed.
/// In all other cases they are accepted.
pub proof fn law_refusals<BlockNumber: BlockNumberLike>(
    docket: Docket<BlockNumber>,
    config: HostConfiguration<BlockNumber>,
    now: BlockNumber,
    sessions: Map<SessionIndex, Seq<ValidatorId>>,
    set: DisputeStatementSet,
    verdicts: Seq<bool>,
)
    requires
        sessions.contains_key(set.session) ==> {
            &&& docket.fits(set.session, sessions[set.session].len())
            &&& sessions[set.session].len() <= u32::MAX
        },
    ensures
        ({
            let target = (set.session, set.candidate_hash);
            let n = sessions[set.session].len();
            let statements = set.statements@;
            let a = held_valid(docket, target);
            let b = held_invalid(docket, target);
            let new = said_valid(statements).union(said_invalid(statements)).difference(a.union(b));
            let result = docket.provided(config, now, sessions, set, verdicts);
            let ancient = !sessions.contains_key(set.session) || closed(
                docket,
                config,
                now,
                target,
            );
            let spam = !docket.included.contains_key(target) && !a_third(
                a.union(b).union(new),
                n,
            ) && exists|i: int| #[trigger]
                new.contains(i) && slot(docket, set.session, i) >= config.dispute_max_spam_slots;
            &&& ancient ==> result == Err::<(Docket<BlockNumber>, bool), Error>(
                Error::AncientDisputeStatement,
            )
            &&& !ancient ==> {
                &&& forall|k: int| #[trigger]
                    refused_at(a, b, n, statements, verdicts, k) ==> result == Err::<
                        (Docket<BlockNumber>, bool),
                        Error,
                    >(reason(n, statements, verdicts, k))
                &&& (forall|k: int|
                    0 <= k < statements.len() ==> #[trigger] acceptable(
                        a,
                        b,
                        n,
                        statements,
                        verdicts,
                        k,
                    )) ==> {
                    &&& spam ==> result == Err::<(Docket<BlockNumber>, bool), Error>(
                        Error::PotentialSpam,
                    )
                    &&& !spam ==> result is Ok
                }
            }
        }),
{
    let target = (set.session, set.candidate_hash);
    let n = sessions[set.session].len();
    let statements = set.statements@;
    let a = held_valid(docket, target);
    let b = held_invalid(docket, target);
    let new = said_valid(statements).union(said_invalid(statements)).difference(a.union(b));
    if sessions.contains_key(set.session) {
        law_opened(docket, config, now, n, target);
        if !closed(docket, config, now, target) {
            let (fresh, dispute) = docket.opened(config, now, n, target)->Ok_0;
            assert(dispute.validators_for.len() == n && dispute.validators_against.len() == n) by {
                if !fresh {
                    assert(dispute == docket.disputes[(set.session, set.candidate_hash)]);
                }
            }
            let start = Import::start(dispute, now);
            law_first_refusal(start, n, statements, verdicts);
            lemma_statements_shape(start, n, statements, verdicts);
            if start.statements(n, statements, verdicts) is Ok {
                law_sides(start, n, statements, verdicts);
                law_votes_accumulate(start, n, statements, verdicts);
                let import = start.statements(n, statements, verdicts)->Ok_0;
                law_milestones(dispute);
                law_milestones(import.state);
                law_new_participants(dispute, now, n, statements, verdicts);
                lemma_newcomers(docket, target, dispute, import, statements);
                assert(taking_part(import.state) =~= a.union(b).union(new));
                let slots = docket.slots(set.session, n);
                let limit = config.dispute_max_spam_slots;
                lemma_changed_slots(
                    slots,
                    import.previous_participants(),
                    SpamSlotChange::Dec,
                    limit,
                );
                lemma_changed_slots(slots, import.new_participants, SpamSlotChange::Inc, limit);
                assert forall|i: int| #[trigger] new.contains(i) implies 0 <= i < n
                    && import.new_participants[i] && slots[i] == slot(docket, set.session, i) by {
                    assert(voters(import.new_participants).contains(i));
                }
                assert forall|i: int| 0 <= i < n && #[trigger] import.new_participants[i] implies
                    new.contains(i) && slots[i] == slot(docket, set.session, i) by {
                    assert(voters(import.new_participants).contains(i));
                }
                if n > 0 && !a_third(taking_part(import.state), n) {
                    assert(import.summary().spam_slot_changes == changes(
                        import.new_participants,
                        SpamSlotChange::Inc,
                    ));
                }
            }
        }
    }
}

/// Sets of statements are taken one after the other, each with what those before
/// it have left. The first that is refused is the last that is looked at. Fresh
/// disputes are listed in the order of the sets.
pub proof fn law_sets_in_turn<BlockNumber: BlockNumberLike>(
    docket: Docket<BlockNumber>,
    config: HostConfiguration<BlockNumber>,
    now: BlockNumber,
    sessions: Map<SessionIndex, Seq<ValidatorId>>,
    sets: Seq<DisputeStatementSet>,
    set: DisputeStatementSet,
)
    ensures
        docket.provided_all(config, now, sessions, Seq::empty()) == (
            docket,
            Ok::<Seq<Target>, Error>(Seq::empty()),
        ),
        ({
            let (current, known) = docket.provided_all(config, now, sessions, sets);
            let result = docket.provided_all(config, now, sessions, sets.push(set));
            let next = current.provided(
                config,
                now,
                sessions,
                set,
                verdicts(sessions[set.session], set),
            );
            match known {
                Err(e) => result == (current, Err::<Seq<Target>, Error>(e)),
                Ok(fresh) => match next {
                    Err(e) => result == (current, Err::<Seq<Target>, Error>(e)),
                    Ok((after, is_fresh)) => result == (
                        after,
                        Ok::<Seq<Target>, Error>(
                            if is_fresh {
                                fresh.push((set.session, set.candidate_hash))
                            } else {
                                fresh
                            },
                        ),
                    ),
                },
            }
        }),
{
    assert(sets.push(set).drop_last() =~= sets);
}

} // verus!
