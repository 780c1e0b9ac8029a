//! The state of all disputes as a mathematical value, and what each operation
//! makes of it.
use crate::bits::zeros;
use crate::errors::Error;
use crate::hooks::{Action, ConsensusLog, DisputeLocation, DisputeResult, Event};
use crate::importer::{indices, Import, Summary};
use crate::primitives::{
    BlockNumberLike, CandidateHash, Dispute, DisputeStatement, DisputeStatementSet,
    HostConfiguration, SessionIndex, SignedStatement, ValidatorId, ValidatorIndex,
};
use crate::signature::signed;
use crate::spam::{changed_slots, decremented};
use crate::storage::Target;
use crate::weights::{database_weight, DbWeight};
use vstd::prelude::*;

verus! {

/// All that is known of disputes.
#[verifier::ext_equal]
pub struct Docket<BlockNumber> {
    /// The last pruned session, if any.
    pub last_pruned_session: Option<SessionIndex>,
    /// All ongoing or concluded disputes for the last several sessions.
    pub disputes: Map<Target, Dispute<BlockNumber>>,
    /// All included candidates, with the block to revert to if they turn out to
    /// be invalid.
    pub included: Map<Target, BlockNumber>,
    /// Per session and validator, the number of potentially-spam disputes.
    pub spam_slots: Map<SessionIndex, Seq<u32>>,
    /// Whether the chain is frozen.
    pub frozen: bool,
    /// What the chain was asked to do so far, in order.
    pub effects: Seq<Action>,
}

/// Whether a statement speaks for the candidate.
pub open spec fn speaks_for(statement: DisputeStatement) -> bool {
    statement is Valid
}

/// The candidate that a set of statements is about.
pub open spec fn target_of(set: DisputeStatementSet) -> Target {
    (set.session, set.candidate_hash)
}

/// Whether two sets are about one candidate.
pub open spec fn has_duplicates(sets: Seq<DisputeStatementSet>) -> bool {
    exists|i: int, j: int|
        #![trigger sets[i], sets[j]]
        0 <= i < j < sets.len() && target_of(sets[i]) == target_of(sets[j])
}

/// For each statement of a set, whether its validator has signed it.
pub open spec fn verdicts(validators: Seq<ValidatorId>, set: DisputeStatementSet) -> Seq<bool> {
    Seq::new(
        set.statements@.len(),
        |i: int|
            {
                let (statement, validator_index, signature) = set.statements@[i];
                &&& validator_index.0 < validators.len()
                &&& signed(
                    validators[validator_index.0 as int],
                    set.candidate_hash,
                    set.session,
                    statement,
                    signature,
                )
            },
    )
}

impl<BlockNumber> Import<BlockNumber> {
    /// What a statement makes of the import, given whether its signature holds,
    /// or why it is refused.
    pub open spec fn statement(
        self,
        n_validators: nat,
        statement: DisputeStatement,
        validator_index: ValidatorIndex,
        verified: bool,
    ) -> Result<Import<BlockNumber>, Error> {
        if validator_index.0 >= n_validators {
            Err(Error::ValidatorIndexOutOfBounds)
        } else if !verified {
            Err(Error::InvalidSignature)
        } else {
            match self.vote(validator_index, speaks_for(statement)) {
                Ok(import) => Ok(import),
                Err(e) => Err(Error::of_vote(e)),
            }
        }
    }

    /// What statements make of the import, one after the other, or the first
    /// refusal.
    pub open spec fn statements(
        self,
        n_validators: nat,
        statements: Seq<SignedStatement>,
        verdicts: Seq<bool>,
    ) -> Result<Import<BlockNumber>, Error>
        decreases statements.len(),
    {
        if statements.len() == 0 {
            Ok(self)
        } else {
            match self.statements(n_validators, statements.drop_last(), verdicts) {
                Ok(import) => import.statement(
                    n_validators,
                    statements.last().0,
                    statements.last().1,
                    verdicts[statements.len() - 1],
                ),
                Err(e) => Err(e),
            }
        }
    }
}

impl<BlockNumber: BlockNumberLike> Docket<BlockNumber> {
    /// With nothing on it.
    pub open spec fn empty() -> Docket<BlockNumber> {
        Docket {
            last_pruned_session: None,
            disputes: Map::empty(),
            included: Map::empty(),
            spam_slots: Map::empty(),
            frozen: false,
            effects: Seq::empty(),
        }
    }

    /// The spam slots of a session; none is occupied unless recorded.
    pub open spec fn slots(self, session: SessionIndex, n_validators: nat) -> Seq<u32> {
        if self.spam_slots.contains_key(session) {
            self.spam_slots[session]
        } else {
            Seq::new(n_validators, |i: int| 0u32)
        }
    }

    /// Whether all records of a session have room for that many validators.
    pub open spec fn fits(self, session: SessionIndex, n_validators: nat) -> bool {
        &&& forall|h: CandidateHash|
            #![trigger self.disputes[(session, h)]]
            self.disputes.contains_key((session, h)) ==> {
                &&& self.disputes[(session, h)].validators_for.len() == n_validators
                &&& self.disputes[(session, h)].validators_against.len() == n_validators
            }
        &&& self.spam_slots.contains_key(session) ==> self.spam_slots[session].len()
            == n_validators
    }

    /// Whether each vote of a session has a spam slot, and so has each of that
    /// many validators.
    pub open spec fn covers(self, session: SessionIndex, n_validators: nat) -> bool {
        &&& n_validators <= self.slots(session, n_validators).len()
        &&& forall|h: CandidateHash|
            #![trigger self.disputes[(session, h)]]
            self.disputes.contains_key((session, h)) ==> self.disputes[(session, h)].size()
                <= self.slots(session, n_validators).len()
    }

    /// Whether the spam slots suffice for the validator sets of the sessions.
    pub open spec fn covers_all(self, sessions: Map<SessionIndex, Seq<ValidatorId>>) -> bool {
        forall|s: SessionIndex| #[trigger]
            sessions.contains_key(s) ==> self.covers(s, sessions[s].len())
    }

    /// The dispute on a candidate that statements are imported into, and whether
    /// it is fresh. A dispute that concluded too long ago takes no more.
    pub open spec fn opened(
        self,
        config: HostConfiguration<BlockNumber>,
        now: BlockNumber,
        n_validators: nat,
        target: Target,
    ) -> Result<(bool, Dispute<BlockNumber>), Error> {
        if self.disputes.contains_key(target) {
            let dispute = self.disputes[target];
            if dispute.concluded_at is Some && dispute.concluded_at->0.number()
                + config.dispute_post_conclusion_acceptance_period.number() < now.number() {
                Err(Error::AncientDisputeStatement)
            } else {
                Ok((false, dispute))
            }
        } else {
            Ok(
                (
                    true,
                    Dispute {
                        validators_for: zeros(n_validators),
                        validators_against: zeros(n_validators),
                        start: now,
                        concluded_at: None,
                    },
                ),
            )
        }
    }

    /// What an import asks of the chain.
    pub open spec fn import_actions(
        self,
        target: Target,
        fresh: bool,
        summary: Summary<BlockNumber>,
    ) -> Seq<Action> {
        let location = if self.included.contains_key(target) {
            DisputeLocation::Local
        } else {
            DisputeLocation::Remote
        };
        let initiated = if fresh {
            seq![Action::Event(Event::DisputeInitiated(target.1, location))]
        } else {
            Seq::empty()
        };
        let concluded_for = if summary.new_flags.for_supermajority {
            seq![Action::Event(Event::DisputeConcluded(target.1, DisputeResult::Valid))]
        } else {
            Seq::empty()
        };
        let concluded_against = if summary.new_flags.against_supermajority {
            seq![Action::Event(Event::DisputeConcluded(target.1, DisputeResult::Invalid))]
        } else {
            Seq::empty()
        };
        initiated + concluded_for + concluded_against + seq![
            Action::RewardDisputeStatement(target.0, indices(summary.new_participants)),
            Action::PunishAgainstValid(target.0, summary.slash_against),
            Action::PunishForInvalid(target.0, summary.slash_for),
        ]
    }

    /// What the outcome of an import makes of the docket, or why it is refused.
    ///
    /// A dispute on an included candidate does not count towards spam. One that
    /// is newly lost freezes the chain, if its candidate was included.
    pub open spec fn concluded(
        self,
        config: HostConfiguration<BlockNumber>,
        n_validators: nat,
        target: Target,
        fresh: bool,
        summary: Summary<BlockNumber>,
    ) -> Result<Docket<BlockNumber>, Error> {
        let is_local = self.included.contains_key(target);
        let slots = changed_slots(
            self.slots(target.0, n_validators),
            summary.spam_slot_changes,
            config.dispute_max_spam_slots,
        );
        if !is_local && slots is Err {
            Err(slots->Err_0)
        } else {
            let imported = Docket {
                disputes: self.disputes.insert(target, summary.state),
                spam_slots: if is_local {
                    self.spam_slots
                } else {
                    self.spam_slots.insert(target.0, slots->Ok_0)
                },
                effects: self.effects + self.import_actions(target, fresh, summary),
                ..self
            };
            if summary.new_flags.against_supermajority && is_local {
                Ok(imported.reverted(self.included[target]))
            } else {
                Ok(imported)
            }
        }
    }

    /// What a set of statements makes of the docket, given which signatures
    /// hold, and whether the dispute is fresh; or why the set is refused.
    pub open spec fn provided(
        self,
        config: HostConfiguration<BlockNumber>,
        now: BlockNumber,
        sessions: Map<SessionIndex, Seq<ValidatorId>>,
        set: DisputeStatementSet,
        verdicts: Seq<bool>,
    ) -> Result<(Docket<BlockNumber>, bool), Error> {
        if !sessions.contains_key(set.session) {
            Err(Error::AncientDisputeStatement)
        } else {
            let n = sessions[set.session].len();
            match self.opened(config, now, n, target_of(set)) {
                Err(e) => Err(e),
                Ok((fresh, dispute)) => match Import::start(dispute, now).statements(
                    n,
                    set.statements@,
                    verdicts,
                ) {
                    Err(e) => Err(e),
                    Ok(import) => match self.concluded(
                        config,
                        n,
                        target_of(set),
                        fresh,
                        import.summary(),
                    ) {
                        Err(e) => Err(e),
                        Ok(docket) => Ok((docket, fresh)),
                    },
                },
            }
        }
    }

    /// What several sets make of the docket, one after the other up to the first
    /// refusal, with the fresh disputes in order.
    pub open spec fn provided_all(
        self,
        config: HostConfiguration<BlockNumber>,
        now: BlockNumber,
        sessions: Map<SessionIndex, Seq<ValidatorId>>,
        sets: Seq<DisputeStatementSet>,
    ) -> (Docket<BlockNumber>, Result<Seq<Target>, Error>)
        decreases sets.len(),
    {
        if sets.len() == 0 {
            (self, Ok(Seq::empty()))
        } else {
            let (docket, fresh_targets) = self.provided_all(
                config,
                now,
                sessions,
                sets.drop_last(),
            );
            let set = sets.last();
            match fresh_targets {
                Err(e) => (docket, Err(e)),
                Ok(targets) => match docket.provided(
                    config,
                    now,
                    sessions,
                    set,
                    verdicts(sessions[set.session], set),
                ) {
                    Err(e) => (docket, Err(e)),
                    Ok((next, fresh)) => (
                        next,
                        Ok(
                            if fresh {
                                targets.push(target_of(set))
                            } else {
                                targets
                            },
                        ),
                    ),
                },
            }
        }
    }

    /// Freezes the chain and has it reverted, unless it is frozen already.
    pub open spec fn reverted(self, revert_to: BlockNumber) -> Docket<BlockNumber> {
        if self.frozen {
            self
        } else {
            let block = if revert_to.number() <= u32::MAX {
                revert_to.number() as u32
            } else {
                u32::MAX
            };
            Docket {
                frozen: true,
                effects: self.effects.push(Action::Log(ConsensusLog::RevertTo(block))),
                ..self
            }
        }
    }

    /// The spam slots after an unconfirmed dispute stops to count as spam.
    pub open spec fn released(self, session: SessionIndex, dispute: Dispute<BlockNumber>) -> Map<
        SessionIndex,
        Seq<u32>,
    > {
        if self.spam_slots.contains_key(session) {
            self.spam_slots.insert(session, decremented(self.spam_slots[session], dispute))
        } else {
            self.spam_slots
        }
    }

    /// Notes that a candidate was included in a block; the genesis block
    /// includes none.
    pub open spec fn noted_included(
        self,
        target: Target,
        included_in: BlockNumber,
    ) -> Docket<BlockNumber> {
        if included_in.number() == 0 {
            self
        } else {
            let revert_to = BlockNumber::of((included_in.number() - 1) as nat);
            let included = Docket { included: self.included.insert(target, revert_to), ..self };
            if self.disputes.contains_key(target) {
                let dispute = self.disputes[target];
                let counted = Docket { spam_slots: self.released(target.0, dispute), ..included };
                if dispute.supermajority_against() {
                    counted.reverted(revert_to)
                } else {
                    counted
                }
            } else {
                included
            }
        }
    }

    /// Whether a candidate has a dispute that is ongoing, or was lost.
    pub open spec fn could_be_invalid(self, target: Target) -> bool {
        self.disputes.contains_key(target) && (self.disputes[target].concluded_at is None
            || self.disputes[target].supermajority_against())
    }

    /// Whether a dispute has gone on for too long.
    pub open spec fn overdue(
        self,
        config: HostConfiguration<BlockNumber>,
        now: BlockNumber,
        target: Target,
    ) -> bool {
        &&& self.disputes[target].concluded_at is None
        &&& self.disputes[target].start.number()
            + config.dispute_conclusion_by_time_out_period.number() < now.number()
    }

    /// What a block makes of one dispute.
    ///
    /// One that has gone on for too long concludes. If its candidate was not
    /// included, it stops to count as spam, and those involved are mildly
    /// punished.
    pub open spec fn timed_out(
        self,
        config: HostConfiguration<BlockNumber>,
        now: BlockNumber,
        target: Target,
    ) -> Docket<BlockNumber> {
        if !self.overdue(config, now, target) {
            self
        } else {
            let dispute = Dispute { concluded_at: Some(now), ..self.disputes[target] };
            let concluded = Docket {
                disputes: self.disputes.insert(target, dispute),
                effects: self.effects.push(Action::Event(Event::DisputeTimedOut(target.1))),
                ..self
            };
            if !self.included.contains_key(target) && self.spam_slots.contains_key(target.0) {
                Docket {
                    spam_slots: self.released(target.0, dispute),
                    effects: concluded.effects.push(
                        Action::PunishInconclusive(target.0, indices(dispute.participants())),
                    ),
                    ..concluded
                }
            } else {
                concluded
            }
        }
    }

    /// What a block makes of several disputes, one after the other.
    pub open spec fn timed_out_all(
        self,
        config: HostConfiguration<BlockNumber>,
        now: BlockNumber,
        targets: Seq<Target>,
    ) -> Docket<BlockNumber>
        decreases targets.len(),
    {
        if targets.len() == 0 {
            self
        } else {
            self.timed_out_all(config, now, targets.drop_last()).timed_out(
                config,
                now,
                targets.last(),
            )
        }
    }

    /// The weight of looking at one dispute.
    pub open spec fn time_out_weight(
        self,
        config: HostConfiguration<BlockNumber>,
        db_weight: DbWeight,
        now: BlockNumber,
        target: Target,
    ) -> nat {
        let looked = database_weight(db_weight, 1, 0) as nat;
        if !self.overdue(config, now, target) {
            looked
        } else if self.included.contains_key(target) {
            looked + database_weight(db_weight, 1, 1) as nat
        } else {
            looked + database_weight(db_weight, 2, 2) as nat
        }
    }

    /// The weight of looking at several disputes.
    pub open spec fn time_out_weight_all(
        self,
        config: HostConfiguration<BlockNumber>,
        db_weight: DbWeight,
        now: BlockNumber,
        targets: Seq<Target>,
    ) -> nat
        decreases targets.len(),
    {
        if targets.len() == 0 {
            0
        } else {
            self.time_out_weight_all(config, db_weight, now, targets.drop_last())
                + self.time_out_weight(config, db_weight, now, targets.last())
        }
    }

    /// The first session that a new session prunes.
    pub open spec fn first_pruned(self, pruning_target: SessionIndex) -> int {
        match self.last_pruned_session {
            Some(last) => last + 1,
            None => pruning_target as int,
        }
    }

    /// What a new session makes of the docket: sessions from the one after the
    /// last pruned up to the one that fell out of the dispute period are dropped.
    pub open spec fn pruned(
        self,
        config: HostConfiguration<BlockNumber>,
        session_index: SessionIndex,
    ) -> Docket<BlockNumber> {
        if session_index <= config.dispute_period + 1 {
            self
        } else {
            let pruning_target = (session_index - config.dispute_period - 1) as SessionIndex;
            let first = self.first_pruned(pruning_target);
            Docket {
                last_pruned_session: Some(pruning_target),
                disputes: self.disputes.remove_keys(
                    Set::new(|t: Target| first <= t.0 <= pruning_target),
                ),
                included: self.included.remove_keys(
                    Set::new(|t: Target| first <= t.0 <= pruning_target),
                ),
                spam_slots: self.spam_slots.remove_keys(
                    Set::new(|s: SessionIndex| first <= s <= pruning_target),
                ),
                ..self
            }
        }
    }
}

} // verus!
