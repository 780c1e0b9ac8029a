//! What inclusions, blocks and sessions do to disputes, and who could be invalid.
use crate::ballot_laws::{
    a_third, law_listed, law_milestones, law_release, names, over_two_thirds, taking_part, voters,
};
use crate::docket::Docket;
use crate::hooks::{Action, Event};
use crate::importer::indices;
use crate::primitives::{BlockNumberLike, CandidateHash, HostConfiguration, SessionIndex};
use crate::spam::decremented;
use crate::statement_laws::reversion;
use crate::storage::Target;
use crate::weights::{saturated, DbWeight};
use vstd::prelude::*;

verus! {

/// A docket begins with nothing on it, on a chain that is not frozen.
pub proof fn law_empty_docket<BlockNumber: BlockNumberLike>()
    ensures
        ({
            let docket = Docket::<BlockNumber>::empty();
            &&& docket.last_pruned_session is None
            &&& docket.disputes.dom() =~= Set::empty()
            &&& docket.included.dom() =~= Set::empty()
            &&& docket.spam_slots.dom() =~= Set::empty()
            &&& !docket.frozen
            &&& docket.effects.len() == 0
        }),
{
}

/// A candidate could be invalid exactly if it has a dispute that has not
/// concluded, or more than two thirds are against it. Nothing else matters:
/// neither whether it was included nor who is for it.
pub proof fn law_suspects<BlockNumber: BlockNumberLike>(
    docket: Docket<BlockNumber>,
    target: Target,
)
    ensures
        !docket.disputes.contains_key(target) ==> !docket.could_be_invalid(target),
        docket.disputes.contains_key(target) ==> {
            let dispute = docket.disputes[target];
            let n = dispute.validators_against.len();
            &&& dispute.concluded_at is None ==> docket.could_be_invalid(target)
            &&& dispute.concluded_at is Some ==> docket.could_be_invalid(target) == (n == 0
                || over_two_thirds(voters(dispute.validators_against), n))
        },
{
    law_milestones(docket.disputes[target]);
}

/// A chain that is not frozen is frozen and told to go back to the block; nothing
/// happens to one that is.
pub proof fn law_reversion<BlockNumber: BlockNumberLike>(
    docket: Docket<BlockNumber>,
    revert_to: BlockNumber,
)
    ensures
        ({
            let after = docket.reverted(revert_to);
            &&& after.frozen
            &&& after.effects =~= docket.effects + (if docket.frozen {
                Seq::empty()
            } else {
                reversion(revert_to.number())
            })
            &&& after.disputes == docket.disputes
            &&& after.included == docket.included
            &&& after.spam_slots == docket.spam_slots
            &&& after.last_pruned_session == docket.last_pruned_session
        }),
{
}

/// The inclusion of a candidate in a block.
///
/// The block before is kept as the one to go back to. If more than two thirds are
/// against the candidate, the chain is frozen, and if it was not before it is told
/// to go back to that very block. If fewer than a third have voted on the candidate, each of
/// them occupies one spam slot less. The genesis block includes nothing.
pub proof fn law_inclusion<BlockNumber: BlockNumberLike>(
    docket: Docket<BlockNumber>,
    target: Target,
    included_in: BlockNumber,
)
    ensures
        included_in.number() == 0 ==> docket.noted_included(target, included_in) == docket,
        included_in.number() > 0 ==> {
            let after = docket.noted_included(target, included_in);
            let dispute = docket.disputes[target];
            let disputed = docket.disputes.contains_key(target);
            let n = dispute.validators_against.len();
            let lost = disputed && (n == 0 || over_two_thirds(
                voters(dispute.validators_against),
                n,
            ));
            &&& after.included.dom() =~= docket.included.dom().insert(target)
            &&& after.included[target].number() == included_in.number() - 1
            &&& forall|t: Target|
                #![trigger after.included[t]]
                docket.included.contains_key(t) && t != target ==> after.included[t]
                    == docket.included[t]
            &&& after.disputes == docket.disputes
            &&& after.last_pruned_session == docket.last_pruned_session
            &&& after.frozen == (docket.frozen || lost)
            &&& after.effects =~= docket.effects + (if lost && !docket.frozen {
                reversion((included_in.number() - 1) as nat)
            } else {
                Seq::empty()
            })
            &&& after.spam_slots.dom() =~= docket.spam_slots.dom()
            &&& forall|s: SessionIndex|
                #![trigger after.spam_slots[s]]
                docket.spam_slots.contains_key(s) ==> {
                    let had = docket.spam_slots[s];
                    &&& after.spam_slots[s].len() == had.len()
                    &&& forall|i: int|
                        0 <= i < had.len() ==> #[trigger] after.spam_slots[s][i] == (if s
                            == target.0 && disputed && !a_third(taking_part(dispute), had.len())
                            && taking_part(dispute).contains(i) && had[i] > 0 {
                            had[i] - 1
                        } else {
                            had[i] as int
                        })
                }
        },
{
    if included_in.number() > 0 {
        BlockNumber::lemma_of((included_in.number() - 1) as nat, included_in);
        let dispute = docket.disputes[target];
        law_milestones(dispute);
        law_release(docket.spam_slots[target.0], dispute);
        let after = docket.noted_included(target, included_in);
        assert forall|s: SessionIndex|
            #![trigger after.spam_slots[s]]
            docket.spam_slots.contains_key(s) implies {
            let had = docket.spam_slots[s];
            &&& after.spam_slots[s].len() == had.len()
            &&& forall|i: int|
                0 <= i < had.len() ==> #[trigger] after.spam_slots[s][i] == (if s == target.0
                    && docket.disputes.contains_key(target) && !a_third(
                    taking_part(dispute),
                    had.len(),
                ) && taking_part(dispute).contains(i) && had[i] > 0 {
                    had[i] - 1
                } else {
                    had[i] as int
                })
        } by {
            if s == target.0 && docket.disputes.contains_key(target) {
                assert(after.spam_slots[s] == decremented(docket.spam_slots[s], dispute));
            } else {
                assert(after.spam_slots[s] == docket.spam_slots[s]);
            }
        }
    }
}

/// Whether a dispute has not concluded in time.
pub open spec fn late<BlockNumber: BlockNumberLike>(
    docket: Docket<BlockNumber>,
    config: HostConfiguration<BlockNumber>,
    now: BlockNumber,
    target: Target,
) -> bool {
    &&& docket.disputes.contains_key(target)
    &&& docket.disputes[target].concluded_at is None
    &&& docket.disputes[target].start.number()
        + config.dispute_conclusion_by_time_out_period.number() < now.number()
}

/// Whether a dispute that is late gives back a spam slot of the validator: fewer
/// than a third have voted on its candidate, which was not included, and the validator has.
pub open spec fn gives_back<BlockNumber: BlockNumberLike>(
    docket: Docket<BlockNumber>,
    config: HostConfiguration<BlockNumber>,
    now: BlockNumber,
    target: Target,
    session: SessionIndex,
    validator: int,
) -> bool {
    &&& late(docket, config, now, target)
    &&& target.0 == session
    &&& !docket.included.contains_key(target)
    &&& taking_part(docket.disputes[target]).contains(validator)
    &&& !a_third(taking_part(docket.disputes[target]), docket.spam_slots[session].len())
}

/// Whether a block asks the right thing of the chain about one dispute: nothing
/// unless it is late; else that it has timed out and, if the candidate was not
/// included and spam is counted in the session, the punishment of everyone who has voted,
/// on either side.
pub open spec fn answers<BlockNumber: BlockNumberLike>(
    docket: Docket<BlockNumber>,
    config: HostConfiguration<BlockNumber>,
    now: BlockNumber,
    target: Target,
    part: Seq<Action>,
) -> bool {
    if !late(docket, config, now, target) {
        part.len() == 0
    } else if docket.included.contains_key(target) || !docket.spam_slots.contains_key(target.0) {
        part =~= seq![Action::Event(Event::DisputeTimedOut(target.1))]
    } else {
        &&& part.len() == 2
        &&& part[0] == Action::Event(Event::DisputeTimedOut(target.1))
        &&& part[1] matches Action::PunishInconclusive(session, punished) && session == target.0
            && names(punished, taking_part(docket.disputes[target]))
    }
}

/// What is left of a number of slots after some were given back.
pub open spec fn left(slots: u32, given_back: nat) -> int {
    if given_back >= slots {
        0
    } else {
        slots - given_back
    }
}

/// A block.
///
/// It concludes each dispute that is late, and changes no other, nor any vote.
/// Dispute by dispute it asks the right thing of the chain, in the order in which
/// it looks at them. A validator gets back one spam slot for each late dispute
/// that gives one back. The chain is not frozen by it.
pub proof fn law_block<BlockNumber: BlockNumberLike>(
    docket: Docket<BlockNumber>,
    config: HostConfiguration<BlockNumber>,
    now: BlockNumber,
    targets: Seq<Target>,
) -> (parts: Seq<Seq<Action>>)
    requires
        targets.no_duplicates(),
        targets.to_set() == docket.disputes.dom(),
        forall|t: Target| #[trigger]
            docket.disputes.contains_key(t) ==> docket.disputes[t].validators_for.len()
                <= u32::MAX,
    ensures
        ({
            let after = docket.timed_out_all(config, now, targets);
            &&& parts.len() == targets.len()
            &&& forall|k: int|
                #![trigger parts[k]]
                0 <= k < parts.len() ==> answers(docket, config, now, targets[k], parts[k])
            &&& after.effects =~= docket.effects + parts.flatten()
            &&& after.disputes.dom() =~= docket.disputes.dom()
            &&& forall|t: Target| #[trigger]
                docket.disputes.contains_key(t) ==> {
                    let had = docket.disputes[t];
                    let has = after.disputes[t];
                    &&& has.validators_for == had.validators_for
                    &&& has.validators_against == had.validators_against
                    &&& has.start == had.start
                    &&& has.concluded_at == (if late(docket, config, now, t) {
                        Some(now)
                    } else {
                        had.concluded_at
                    })
                }
            &&& after.spam_slots.dom() =~= docket.spam_slots.dom()
            &&& forall|s: SessionIndex|
                #![trigger after.spam_slots[s]]
                docket.spam_slots.contains_key(s) ==> {
                    &&& after.spam_slots[s].len() == docket.spam_slots[s].len()
                    &&& forall|i: int|
                        0 <= i < docket.spam_slots[s].len() ==> #[trigger] after.spam_slots[s][i]
                            == left(
                            docket.spam_slots[s][i],
                            Set::new(
                                |t: Target| gives_back(docket, config, now, t, s, i),
                            ).len(),
                        )
                }
            &&& after.included == docket.included
            &&& after.last_pruned_session == docket.last_pruned_session
            &&& after.frozen == docket.frozen
        }),
{
    assert forall|k: int| 0 <= k < targets.len() implies #[trigger] docket.disputes.contains_key(
        targets[k],
    ) by {
        assert(targets.to_set().contains(targets[k]));
    }
    let parts = lemma_block(docket, config, now, targets);
    parts.lemma_flatten_and_flatten_alt_are_equivalent();
    let after = docket.timed_out_all(config, now, targets);
    assert forall|t: Target| docket.disputes.contains_key(t) implies targets.contains(t) by {
        assert(targets.to_set().contains(t));
    }
    assert forall|s: SessionIndex|
        #![trigger after.spam_slots[s]]
        docket.spam_slots.contains_key(s) implies {
        &&& after.spam_slots[s].len() == docket.spam_slots[s].len()
        &&& forall|i: int|
            0 <= i < docket.spam_slots[s].len() ==> #[trigger] after.spam_slots[s][i] == left(
                docket.spam_slots[s][i],
                Set::new(|t: Target| gives_back(docket, config, now, t, s, i)).len(),
            )
    } by {
        assert forall|i: int| 0 <= i < docket.spam_slots[s].len() implies
            #[trigger] after.spam_slots[s][i] == left(
            docket.spam_slots[s][i],
            Set::new(|t: Target| gives_back(docket, config, now, t, s, i)).len(),
        ) by {
            assert(givers(docket, config, now, targets, s, i) =~= Set::new(
                |t: Target| gives_back(docket, config, now, t, s, i),
            ));
        }
    }
    parts
}

/// Those of some disputes that give back a slot of a validator.
spec fn givers<BlockNumber: BlockNumberLike>(
    docket: Docket<BlockNumber>,
    config: HostConfiguration<BlockNumber>,
    now: BlockNumber,
    targets: Seq<Target>,
    session: SessionIndex,
    validator: int,
) -> Set<Target> {
    Set::new(
        |t: Target|
            targets.contains(t) && gives_back(docket, config, now, t, session, validator),
    )
}

proof fn lemma_givers<BlockNumber: BlockNumberLike>(
    docket: Docket<BlockNumber>,
    config: HostConfiguration<BlockNumber>,
    now: BlockNumber,
    targets: Seq<Target>,
    target: Target,
    session: SessionIndex,
    validator: int,
)
    requires
        !targets.contains(target),
    ensures
        ({
            let fewer = givers(docket, config, now, targets, session, validator);
            let more = givers(docket, config, now, targets.push(target), session, validator);
            more.len() == fewer.len() + (if gives_back(
                docket,
                config,
                now,
                target,
                session,
                validator,
            ) {
                1nat
            } else {
                0nat
            })
        }),
{
    let fewer = givers(docket, config, now, targets, session, validator);
    vstd::seq_lib::seq_to_set_is_finite(targets);
    assert(fewer =~= targets.to_set().intersect(fewer));
    let more = givers(docket, config, now, targets.push(target), session, validator);
    assert forall|t: Target| targets.push(target).contains(t) == (targets.contains(t) || t
        == target) by {
        assert(targets.push(target)[targets.len() as int] == target);
        if targets.contains(t) {
            let k = choose|k: int| 0 <= k < targets.len() && targets[k] == t;
            assert(targets.push(target)[k] == t);
        }
    }
    if gives_back(docket, config, now, target, session, validator) {
        assert(more =~= fewer.insert(target));
    } else {
        assert(more =~= fewer);
    }
}

#[verifier::rlimit(40)]
proof fn lemma_block<BlockNumber: BlockNumberLike>(
    docket: Docket<BlockNumber>,
    config: HostConfiguration<BlockNumber>,
    now: BlockNumber,
    targets: Seq<Target>,
) -> (parts: Seq<Seq<Action>>)
    requires
        targets.no_duplicates(),
        forall|k: int|
            0 <= k < targets.len() ==> #[trigger] docket.disputes.contains_key(targets[k]),
        forall|t: Target| #[trigger]
            docket.disputes.contains_key(t) ==> docket.disputes[t].validators_for.len()
                <= u32::MAX,
    ensures
        ({
            let after = docket.timed_out_all(config, now, targets);
            &&& parts.len() == targets.len()
            &&& forall|k: int|
                #![trigger parts[k]]
                0 <= k < parts.len() ==> answers(docket, config, now, targets[k], parts[k])
            &&& after.effects =~= docket.effects + parts.flatten_alt()
            &&& after.disputes.dom() =~= docket.disputes.dom()
            &&& forall|t: Target| #[trigger]
                docket.disputes.contains_key(t) ==> {
                    let had = docket.disputes[t];
                    let has = after.disputes[t];
                    &&& has.validators_for == had.validators_for
                    &&& has.validators_against == had.validators_against
                    &&& has.start == had.start
                    &&& has.concluded_at == (if targets.contains(t) && late(
                        docket,
                        config,
                        now,
                        t,
                    ) {
                        Some(now)
                    } else {
                        had.concluded_at
                    })
                }
            &&& after.spam_slots.dom() =~= docket.spam_slots.dom()
            &&& forall|s: SessionIndex|
                #![trigger after.spam_slots[s]]
                docket.spam_slots.contains_key(s) ==> after.spam_slots[s].len()
                    == docket.spam_slots[s].len()
            &&& forall|s: SessionIndex, i: int|
                #![trigger after.spam_slots[s][i]]
                docket.spam_slots.contains_key(s) && 0 <= i < docket.spam_slots[s].len()
                    ==> after.spam_slots[s][i] == left(
                    docket.spam_slots[s][i],
                    givers(docket, config, now, targets, s, i).len(),
                )
            &&& after.included == docket.included
            &&& after.last_pruned_session == docket.last_pruned_session
            &&& after.frozen == docket.frozen
        }),
    decreases targets.len(),
{
    let after = docket.timed_out_all(config, now, targets);
    if targets.len() == 0 {
        assert forall|s: SessionIndex, i: int|
            #![trigger after.spam_slots[s][i]]
            docket.spam_slots.contains_key(s) && 0 <= i < docket.spam_slots[s].len() implies
            after.spam_slots[s][i] == left(
            docket.spam_slots[s][i],
            givers(docket, config, now, targets, s, i).len(),
        ) by {
            assert(givers(docket, config, now, targets, s, i) =~= Set::empty());
        }
        let parts: Seq<Seq<Action>> = Seq::empty();
        assert(docket.effects + parts.flatten_alt() =~= docket.effects);
        parts
    } else {
        let fewer = targets.drop_last();
        let target = targets.last();
        assert(targets =~= fewer.push(target));
        assert(docket.disputes.contains_key(targets[targets.len() - 1]));
        assert(!fewer.contains(target));
        let earlier = lemma_block(docket, config, now, fewer);
        let current = docket.timed_out_all(config, now, fewer);
        let dispute = current.disputes[target];
        assert(current.disputes.contains_key(target));
        assert(dispute.concluded_at == docket.disputes[target].concluded_at);
        assert(taking_part(dispute) =~= taking_part(docket.disputes[target]));
        let concluded = after.disputes[target];
        law_listed(dispute.participants());
        assert(voters(dispute.participants()) =~= taking_part(dispute));
        let part = after.effects.skip(current.effects.len() as int);
        let parts = earlier.push(part);
        assert(after.effects =~= current.effects + part);
        assert(answers(docket, config, now, target, part)) by {
            if late(docket, config, now, target) && !docket.included.contains_key(target)
                && docket.spam_slots.contains_key(target.0) {
                assert(concluded.participants() =~= dispute.participants());
                assert(part[1] == Action::PunishInconclusive(
                    target.0,
                    indices(dispute.participants()),
                ));
            }
        }
        assert(parts.drop_last() =~= earlier);
        assert(parts.flatten_alt() =~= earlier.flatten_alt() + part);
        assert forall|k: int|
            #![trigger parts[k]]
            0 <= k < parts.len() implies answers(docket, config, now, targets[k], parts[k]) by {
            if k < earlier.len() {
                assert(parts[k] == earlier[k]);
                assert(targets[k] == fewer[k]);
            }
        }
        assert forall|t: Target| #[trigger] docket.disputes.contains_key(t) implies {
            let had = docket.disputes[t];
            let has = after.disputes[t];
            &&& has.validators_for == had.validators_for
            &&& has.validators_against == had.validators_against
            &&& has.start == had.start
            &&& has.concluded_at == (if targets.contains(t) && late(docket, config, now, t) {
                Some(now)
            } else {
                had.concluded_at
            })
        } by {
            if fewer.contains(t) {
                let k = choose|k: int| 0 <= k < fewer.len() && fewer[k] == t;
                assert(targets[k] == t);
            }
            assert(targets[targets.len() - 1] == target);
        }
        assert(taking_part(concluded) =~= taking_part(dispute));
        law_release(current.spam_slots[target.0], concluded);
        assert forall|s: SessionIndex|
            #![trigger after.spam_slots[s]]
            docket.spam_slots.contains_key(s) implies after.spam_slots[s].len()
            == docket.spam_slots[s].len() by {
            assert(current.spam_slots[s].len() == docket.spam_slots[s].len());
        }
        assert forall|s: SessionIndex, i: int|
            #![trigger after.spam_slots[s][i]]
            docket.spam_slots.contains_key(s) && 0 <= i < docket.spam_slots[s].len() implies
            after.spam_slots[s][i] == left(
            docket.spam_slots[s][i],
            givers(docket, config, now, targets, s, i).len(),
        ) by {
            assert(current.spam_slots[s][i] == left(
                docket.spam_slots[s][i],
                givers(docket, config, now, fewer, s, i).len(),
            ));
            assert(current.spam_slots[s].len() == docket.spam_slots[s].len());
            lemma_givers(docket, config, now, fewer, target, s, i);
        }
        assert(after.effects =~= docket.effects + parts.flatten_alt());
        assert(after.disputes.dom() =~= docket.disputes.dom());
        assert(after.spam_slots.dom() =~= docket.spam_slots.dom());
        parts
    }
}

/// A new session.
///
/// Once the sessions before it exceed the dispute period by more than one, it drops
/// everything of each session after the last one pruned, up to the one that the
/// dispute period does not reach. The first time it drops that one alone. It keeps all
/// else, and remembers the session that it came to.
pub proof fn law_new_session<BlockNumber: BlockNumberLike>(
    docket: Docket<BlockNumber>,
    config: HostConfiguration<BlockNumber>,
    session_index: SessionIndex,
)
    ensures
        session_index <= config.dispute_period + 1 ==> docket.pruned(config, session_index)
            == docket,
        session_index > config.dispute_period + 1 ==> {
            let after = docket.pruned(config, session_index);
            let last = session_index - config.dispute_period - 1;
            let first = match docket.last_pruned_session {
                Some(pruned) => pruned + 1,
                None => last,
            };
            &&& after.last_pruned_session == Some(last as SessionIndex)
            &&& forall|t: Target|
                #![trigger after.disputes.contains_key(t)]
                {
                    &&& after.disputes.contains_key(t) == (docket.disputes.contains_key(t) && !(first
                        <= t.0 <= last))
                    &&& after.disputes.contains_key(t) ==> after.disputes[t] == docket.disputes[t]
                }
            &&& forall|t: Target|
                #![trigger after.included.contains_key(t)]
                {
                    &&& after.included.contains_key(t) == (docket.included.contains_key(t) && !(first
                        <= t.0 <= last))
                    &&& after.included.contains_key(t) ==> after.included[t] == docket.included[t]
                }
            &&& forall|s: SessionIndex|
                #![trigger after.spam_slots.contains_key(s)]
                {
                    &&& after.spam_slots.contains_key(s) == (docket.spam_slots.contains_key(s)
                        && !(first <= s <= last))
                    &&& after.spam_slots.contains_key(s) ==> after.spam_slots[s]
                        == docket.spam_slots[s]
                }
            &&& after.frozen == docket.frozen
            &&& after.effects == docket.effects
        },
{
}

/// There are spam slots enough for a session if each vote record of it and its validator
/// set is at most as long as they are; where none are recorded, there are as many
/// as validators.
pub proof fn law_enough_slots<BlockNumber: BlockNumberLike>(
    docket: Docket<BlockNumber>,
    session: SessionIndex,
    n_validators: nat,
)
    ensures
        docket.covers(session, n_validators) == ({
            let n_slots = if docket.spam_slots.contains_key(session) {
                docket.spam_slots[session].len()
            } else {
                n_validators
            };
            &&& n_validators <= n_slots
            &&& forall|h: CandidateHash|
                #![trigger docket.disputes[(session, h)]]
                docket.disputes.contains_key((session, h)) ==> docket.disputes[(
                    session,
                    h,
                )].validators_for.len() <= n_slots
        }),
{
    if docket.covers(session, n_validators) {
        assert forall|h: CandidateHash|
            #![trigger docket.disputes[(session, h)]]
            docket.disputes.contains_key((session, h)) implies docket.disputes[(
            session,
            h,
        )].validators_for.len() <= docket.slots(session, n_validators).len() by {
            assert(docket.disputes[(session, h)].size() <= docket.slots(
                session,
                n_validators,
            ).len());
        }
    }
}

/// The late disputes among some, on candidates that were included or that were not.
pub open spec fn late_among<BlockNumber: BlockNumberLike>(
    docket: Docket<BlockNumber>,
    config: HostConfiguration<BlockNumber>,
    now: BlockNumber,
    targets: Seq<Target>,
    included: bool,
) -> Set<Target> {
    Set::new(
        |t: Target|
            targets.contains(t) && late(docket, config, now, t) && docket.included.contains_key(t)
                == included,
    )
}

/// The weight of a block: a read for each dispute; a read and a write more for each
/// that is late on an included candidate; two reads and two writes more for each
/// that is late on another. It stops at the bound of `u64`.
pub proof fn law_weight<BlockNumber: BlockNumberLike>(
    docket: Docket<BlockNumber>,
    config: HostConfiguration<BlockNumber>,
    db_weight: DbWeight,
    now: BlockNumber,
    targets: Seq<Target>,
)
    requires
        targets.no_duplicates(),
        targets.to_set() == docket.disputes.dom(),
    ensures
        ({
            let local = late_among(docket, config, now, targets, true).len();
            let remote = late_among(docket, config, now, targets, false).len();
            let total = db_weight.read * targets.len() + (db_weight.read + db_weight.write) * local
                + (db_weight.read + db_weight.write) * (2 * remote);
            saturated(docket.time_out_weight_all(config, db_weight, now, targets)) == (if total
                > u64::MAX {
                u64::MAX as int
            } else {
                total
            })
        }),
{
    assert forall|k: int| 0 <= k < targets.len() implies #[trigger] docket.disputes.contains_key(
        targets[k],
    ) by {
        assert(targets.to_set().contains(targets[k]));
    }
    lemma_weight(docket, config, db_weight, now, targets);
}

proof fn lemma_late_among<BlockNumber: BlockNumberLike>(
    docket: Docket<BlockNumber>,
    config: HostConfiguration<BlockNumber>,
    now: BlockNumber,
    targets: Seq<Target>,
    target: Target,
    included: bool,
)
    requires
        !targets.contains(target),
    ensures
        late_among(docket, config, now, targets.push(target), included).len() == late_among(
            docket,
            config,
            now,
            targets,
            included,
        ).len() + (if late(docket, config, now, target) && docket.included.contains_key(target)
            == included {
            1nat
        } else {
            0nat
        }),
{
    let fewer = late_among(docket, config, now, targets, included);
    let more = late_among(docket, config, now, targets.push(target), included);
    vstd::seq_lib::seq_to_set_is_finite(targets);
    assert(fewer =~= targets.to_set().intersect(fewer));
    assert forall|t: Target| targets.push(target).contains(t) == (targets.contains(t) || t
        == target) by {
        assert(targets.push(target)[targets.len() as int] == target);
        if targets.contains(t) {
            let k = choose|k: int| 0 <= k < targets.len() && targets[k] == t;
            assert(targets.push(target)[k] == t);
        }
    }
    if late(docket, config, now, target) && docket.included.contains_key(target) == included {
        assert(more =~= fewer.insert(target));
    } else {
        assert(more =~= fewer);
    }
}

proof fn lemma_weight<BlockNumber: BlockNumberLike>(
    docket: Docket<BlockNumber>,
    config: HostConfiguration<BlockNumber>,
    db_weight: DbWeight,
    now: BlockNumber,
    targets: Seq<Target>,
)
    requires
        targets.no_duplicates(),
        forall|k: int|
            0 <= k < targets.len() ==> #[trigger] docket.disputes.contains_key(targets[k]),
    ensures
        ({
            let local = late_among(docket, config, now, targets, true).len();
            let remote = late_among(docket, config, now, targets, false).len();
            let total = db_weight.read * targets.len() + (db_weight.read + db_weight.write) * local
                + (db_weight.read + db_weight.write) * (2 * remote);
            let weight = docket.time_out_weight_all(config, db_weight, now, targets);
            weight == total || (weight >= u64::MAX && total >= u64::MAX)
        }),
    decreases targets.len(),
{
    let local = late_among(docket, config, now, targets, true).len() as int;
    let remote = late_among(docket, config, now, targets, false).len() as int;
    let read = db_weight.read as int;
    let both = db_weight.read + db_weight.write;
    let n = targets.len() as int;
    if targets.len() == 0 {
        assert(late_among(docket, config, now, targets, true) =~= Set::empty());
        assert(late_among(docket, config, now, targets, false) =~= Set::empty());
        assert(read * 0 == 0 && both * 0 == 0) by (nonlinear_arith);
    } else {
        let fewer = targets.drop_last();
        let target = targets.last();
        assert(targets =~= fewer.push(target));
        assert(docket.disputes.contains_key(targets[targets.len() - 1]));
        assert(!fewer.contains(target));
        lemma_weight(docket, config, db_weight, now, fewer);
        lemma_late_among(docket, config, now, fewer, target, true);
        lemma_late_among(docket, config, now, fewer, target, false);
        let fewer_local = late_among(docket, config, now, fewer, true).len() as int;
        let fewer_remote = late_among(docket, config, now, fewer, false).len() as int;
        assert(read * n == read * (n - 1) + read) by (nonlinear_arith);
        assert(both * (fewer_local + 1) == both * fewer_local + both) by (nonlinear_arith);
        assert(both * (2 * (fewer_remote + 1)) == both * (2 * fewer_remote) + 2 * both)
            by (nonlinear_arith);
        assert(db_weight.read * 1 == read && db_weight.read * 2 == 2 * read);
        assert(db_weight.write * 0 == 0 && db_weight.write * 1 == db_weight.write
            && db_weight.write * 2 == 2 * db_weight.write);
        assert(read * (n - 1) >= 0 && both * fewer_local >= 0 && both * (2 * fewer_remote) >= 0)
            by (nonlinear_arith)
            requires
                read >= 0,
                both >= 0,
                n >= 1,
                fewer_local >= 0,
                fewer_remote >= 0,
        ;
    }
}

} // verus!
