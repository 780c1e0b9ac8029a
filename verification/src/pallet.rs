//! Runtime component for handling disputes of parachain candidates.
use crate::bits::VoteBits;
use crate::docket::{has_duplicates, target_of, verdicts, Docket};
use crate::docket_facts::{
    lemma_provided_covers, lemma_provided_all_refused, lemma_statements_refused,
    lemma_statements_shape, lemma_summary_in_bounds,
};
use crate::errors::Error;
use crate::flags::has_supermajority_against;
use crate::hooks::{Config, ConsensusLog, DisputeLocation, DisputeResult, Effect, Event};
use crate::importer::{set_validators, DisputeStateImporter, Import, ImportSummary};
use crate::primitives::{
    same_hash, BlockNumberLike, CandidateHash, DisputeState, DisputeStatement,
    DisputeStatementSet, HostConfiguration, MultiDisputeStatementSet, SessionChangeNotification,
    SessionIndex, SessionInfo, ValidatorId, ValidatorIndex,
};
use crate::signature::check_signature;
use crate::spam::{apply_spam_slot_changes, decrement_spam};
use crate::storage::{in_storage_order, DoubleMap, Target};
use crate::weights::{reads_writes, saturated, DbWeight};
use std::collections::BTreeMap;
use vstd::prelude::*;

verus! {

/// The disputes of a chain.
#[derive(PartialEq, Eq, Debug)]
pub struct Pallet<T: Config> {
    /// The last pruned session, if any. All data stored by this module
    /// references sessions.
    pub last_pruned_session: Option<SessionIndex>,
    /// All ongoing or concluded disputes for the last several sessions.
    pub disputes: DoubleMap<DisputeState<T::BlockNumber>>,
    /// All included blocks on the chain, as well as the block number in this chain that
    /// should be reverted back to if the candidate is disputed and determined to be invalid.
    pub included: DoubleMap<T::BlockNumber>,
    /// Maps session indices to a vector indicating the number of potentially-spam disputes
    /// each validator is participating in. Potentially-spam disputes are remote disputes which have
    /// fewer than `byzantine_threshold + 1` validators.
    ///
    /// The i'th entry of the vector corresponds to the i'th validator in the session.
    pub spam_slots: BTreeMap<SessionIndex, Vec<u32>>,
    /// Whether the chain is frozen or not. Starts as `false`. When this is `true`,
    /// the chain will not accept any new parachain blocks for backing or inclusion.
    /// It can only be set back to `false` by governance intervention.
    pub frozen: bool,
    /// What the chain was asked to do and has not been told to forget, in order.
    pub effects: Vec<Effect>,
}

/// The validators of each session.
pub open spec fn validator_sets(sessions: Map<SessionIndex, SessionInfo>) -> Map<
    SessionIndex,
    Seq<ValidatorId>,
> {
    sessions.map_values(|info: SessionInfo| info.validators@)
}

/// Whether a vote record can have a bit for each validator of any session.
pub open spec fn recordable(sessions: Map<SessionIndex, SessionInfo>) -> bool {
    forall|s: SessionIndex| #[trigger]
        sessions.contains_key(s) ==> sessions[s].validators.len() <= usize::MAX / 8
}

impl<T: Config> View for Pallet<T> {
    type V = Docket<T::BlockNumber>;

    open spec fn view(&self) -> Docket<T::BlockNumber> {
        Docket {
            last_pruned_session: self.last_pruned_session,
            disputes: self.disputes@.map_values(|d: DisputeState<T::BlockNumber>| d@),
            included: self.included@,
            spam_slots: self.spam_slots@.map_values(|v: Vec<u32>| v@),
            frozen: self.frozen,
            effects: self.effects@.map_values(|e: Effect| e@),
        }
    }
}

impl<BlockNumber> DisputeStateImporter<BlockNumber> {
    /// Imports one statement, given whether its signature holds.
    pub fn import_statement(
        &mut self,
        n_validators: usize,
        statement: &DisputeStatement,
        validator_index: ValidatorIndex,
        verified: bool,
    ) -> (r: Result<(), Error>)
        ensures
            match old(self)@.statement(n_validators as nat, *statement, validator_index, verified) {
                Ok(import) => r is Ok && final(self)@ == import,
                Err(e) => r == Err::<(), Error>(e) && final(self)@ == old(self)@,
            },
    {
        if validator_index.0 as usize >= n_validators {
            return Err(Error::ValidatorIndexOutOfBounds);
        }
        if !verified {
            return Err(Error::InvalidSignature);
        }
        let valid: bool = match statement {
            DisputeStatement::Valid(_) => true,
            DisputeStatement::Invalid(_) => false,
        };
        match self.import(validator_index, valid) {
            Ok(()) => Ok(()),
            Err(e) => Err(Error::from(e)),
        }
    }
}

impl<T: Config> Pallet<T> {
    /// The stored maps are in order, and the last pruned session has a successor.
    pub open spec fn wf(&self) -> bool {
        &&& self.disputes.wf()
        &&& self.included.wf()
        &&& self.last_pruned_session != Some(SessionIndex::MAX)
    }

    /// Without disputes.
    pub fn new() -> (r: Pallet<T>)
        ensures
            r.wf(),
            r@ == Docket::<T::BlockNumber>::empty(),
    {
        let r = Pallet {
            last_pruned_session: None,
            disputes: DoubleMap::new(),
            included: DoubleMap::new(),
            spam_slots: BTreeMap::new(),
            frozen: false,
            effects: Vec::new(),
        };
        assert(r@ =~= Docket::<T::BlockNumber>::empty());
        r
    }

    /// Asks something of the chain.
    fn request(&mut self, effect: Effect)
        requires
            old(self).wf(),
        ensures
            final(self).wf(),
            final(self).disputes == old(self).disputes,
            final(self)@ == (Docket { effects: old(self)@.effects.push(effect@), ..old(self)@ }),
    {
        let ghost before = self@;
        let ghost added = effect@;
        self.effects.push(effect);
        assert(self@.effects =~= before.effects.push(added));
    }

    /// Whether the chain is frozen.
    pub fn is_frozen(&self) -> (r: bool)
        ensures
            r == self@.frozen,
    {
        self.frozen
    }

    /// Reverts the chain to a block and freezes it, unless it is frozen.
    pub fn revert_and_freeze(&mut self, revert_to: T::BlockNumber)
        requires
            old(self).wf(),
        ensures
            final(self).wf(),
            final(self)@ == old(self)@.reverted(revert_to),
    {
        if self.is_frozen() {
            return;
        }
        let block: u32 = revert_to.saturated_into_u32();
        self.request(Effect::Log(ConsensusLog::RevertTo(block)));
        self.frozen = true;
    }

    /// Whether a candidate could be invalid: it has a dispute that is ongoing or
    /// has concluded with supermajority-against.
    pub fn could_be_invalid(&self, session: SessionIndex, candidate_hash: CandidateHash) -> (r:
        bool)
        requires
            self.wf(),
        ensures
            r == self@.could_be_invalid((session, candidate_hash)),
    {
        match self.disputes.get(session, &candidate_hash) {
            Some(dispute) => dispute.concluded_at.is_none() || has_supermajority_against(dispute),
            None => false,
        }
    }

    /// All disputes, in storage order.
    pub fn disputes(&self) -> (r: Vec<(SessionIndex, CandidateHash, DisputeState<T::BlockNumber>)>)
        requires
            self.wf(),
        ensures
            in_storage_order(
                r@.map_values(
                    |e: (SessionIndex, CandidateHash, DisputeState<T::BlockNumber>)| (e.0, e.1),
                ),
                self@.disputes.dom(),
            ),
            forall|i: int|
                0 <= i < r.len() ==> (#[trigger] r@[i]).2@ == self@.disputes[(
                    r@[i].0,
                    r@[i].1,
                )],
    {
        let mut r: Vec<(SessionIndex, CandidateHash, DisputeState<T::BlockNumber>)> = Vec::new();
        let n: usize = self.disputes.len();
        let mut i: usize = 0;
        while i < n
            invariant
                self.wf(),
                i <= n,
                n == self.disputes.targets().len(),
                r.len() == i,
                forall|j: int| 0 <= j < i ==> {
                    &&& ((#[trigger] r@[j]).0, r@[j].1) == self.disputes.targets()[j]
                    &&& r@[j].2@ == self@.disputes[(r@[j].0, r@[j].1)]
                },
            decreases n - i,
        {
            let (session, candidate_hash, dispute) = self.disputes.entry(i);
            r.push((session, candidate_hash, dispute.clone()));
            i = i + 1;
        }
        assert(r@.map_values(
            |e: (SessionIndex, CandidateHash, DisputeState<T::BlockNumber>)| (e.0, e.1),
        ) =~= self.disputes.targets());
        proof {
            self.disputes.lemma_targets();
            assert(self@.disputes.dom() =~= self.disputes@.dom());
        }
        r
    }

    /// Releases the spam slots of an unconfirmed dispute.
    fn release_spam_slots(
        &mut self,
        session: SessionIndex,
        dispute: &DisputeState<T::BlockNumber>,
    ) -> (r: Option<VoteBits>)
        requires
            old(self).wf(),
        ensures
            final(self).wf(),
            final(self).disputes == old(self).disputes,
            final(self)@ == (Docket {
                spam_slots: old(self)@.released(session, dispute@),
                ..old(self)@
            }),
            match r {
                Some(v) => old(self)@.spam_slots.contains_key(session) && v@
                    == dispute@.participants(),
                None => !old(self)@.spam_slots.contains_key(session),
            },
    {
        let ghost before = self@;
        match self.spam_slots.remove(&session) {
            Some(slots) => {
                let mut slots = slots;
                let participating = decrement_spam(slots.as_mut_slice(), dispute);
                self.spam_slots.insert(session, slots);
                assert(self@.spam_slots =~= before.released(session, dispute@));
                Some(participating)
            },
            None => {
                assert(self@.spam_slots =~= before.spam_slots);
                None
            },
        }
    }

    /// Notes that a candidate was included in a block.
    pub fn note_included(
        &mut self,
        session: SessionIndex,
        candidate_hash: CandidateHash,
        included_in: T::BlockNumber,
    )
        requires
            old(self).wf(),
        ensures
            final(self).wf(),
            final(self)@ == old(self)@.noted_included((session, candidate_hash), included_in),
    {
        if included_in.is_zero() {
            return;
        }
        let revert_to = included_in.predecessor();
        proof {
            T::BlockNumber::lemma_number(revert_to);
        }
        let ghost before = self@;
        self.included.insert(session, candidate_hash, revert_to);
        assert(self@.disputes == before.disputes);

        // If we just included a block locally which has a live dispute, decrement spam slots
        // for any involved validators, if the dispute is not already confirmed by f + 1.
        let state: Option<DisputeState<T::BlockNumber>> = match self.disputes.get(
            session,
            &candidate_hash,
        ) {
            Some(state) => Some(state.clone()),
            None => None,
        };
        if let Some(state) = state {
            let _participating = self.release_spam_slots(session, &state);
            if has_supermajority_against(&state) {
                self.revert_and_freeze(revert_to);
            }
        }
    }

    /// Whether each vote of a session has a spam slot, and so has each of that
    /// many validators.
    pub fn covers(&self, session: SessionIndex, n_validators: usize) -> (r: bool)
        requires
            self.wf(),
        ensures
            r == self@.covers(session, n_validators as nat),
    {
        let n_slots: usize = match self.spam_slots.get(&session) {
            Some(slots) => slots.len(),
            None => n_validators,
        };
        assert(n_slots == self@.slots(session, n_validators as nat).len());
        if n_slots < n_validators {
            return false;
        }
        proof {
            self.disputes.lemma_targets();
        }
        let n: usize = self.disputes.len();
        let mut i: usize = 0;
        while i < n
            invariant
                self.wf(),
                i <= n,
                n == self.disputes.targets().len(),
                n_slots == self@.slots(session, n_validators as nat).len(),
                forall|j: int|
                    #![trigger self.disputes.targets()[j]]
                    0 <= j < i && self.disputes.targets()[j].0 == session
                        ==> self@.disputes[self.disputes.targets()[j]].size() <= n_slots,
            decreases n - i,
        {
            let (entry_session, candidate_hash, dispute) = self.disputes.entry(i);
            if entry_session == session && dispute.validators_for.size() > n_slots {
                assert(self@.disputes.contains_key((session, candidate_hash)));
                assert(self@.disputes[(session, candidate_hash)] == dispute@);
                return false;
            }
            i = i + 1;
        }
        proof {
            assert forall|h: CandidateHash|
                #![trigger self@.disputes[(session, h)]]
                self@.disputes.contains_key((session, h)) implies self@.disputes[(
                session,
                h,
            )].size() <= n_slots by {
                assert(self.disputes@.dom().contains((session, h)));
                assert(self.disputes.targets().contains((session, h)));
                let j = self.disputes.targets().index_of((session, h));
                assert(self.disputes.targets()[j] == (session, h));
            }
        }
        true
    }

    /// The dispute on a candidate that statements are imported into, and whether
    /// it is fresh.
    ///
    /// Dispute statement sets on any dispute which concluded too long ago are to be
    /// rejected.
    pub fn open_dispute(
        &self,
        config: &HostConfiguration<T::BlockNumber>,
        now: T::BlockNumber,
        n_validators: usize,
        session: SessionIndex,
        candidate_hash: &CandidateHash,
    ) -> (r: Result<(bool, DisputeState<T::BlockNumber>), Error>)
        requires
            self.wf(),
            n_validators <= usize::MAX / 8,
        ensures
            match self@.opened(*config, now, n_validators as nat, (session, *candidate_hash)) {
                Ok((fresh, dispute)) => r matches Ok(v) && v.0 == fresh && v.1@ == dispute,
                Err(e) => r == Err::<(bool, DisputeState<T::BlockNumber>), Error>(e),
            },
    {
        let oldest_accepted = now.saturating_minus(
            config.dispute_post_conclusion_acceptance_period,
        );
        match self.disputes.get(session, candidate_hash) {
            Some(dispute) => {
                if let Some(concluded_at) = dispute.concluded_at {
                    if concluded_at.less_than(oldest_accepted) {
                        return Err(Error::AncientDisputeStatement);
                    }
                }
                Ok((false, dispute.clone()))
            },
            None => Ok(
                (
                    true,
                    DisputeState {
                        validators_for: VoteBits::repeat_cleared(n_validators),
                        validators_against: VoteBits::repeat_cleared(n_validators),
                        start: now,
                        concluded_at: None,
                    },
                ),
            ),
        }
    }

    /// Records the outcome of an import.
    ///
    /// Fails, and changes nothing, if some validator would occupy too many spam
    /// slots.
    pub fn conclude_import(
        &mut self,
        config: &HostConfiguration<T::BlockNumber>,
        n_validators: usize,
        session: SessionIndex,
        candidate_hash: CandidateHash,
        fresh: bool,
        summary: ImportSummary<T::BlockNumber>,
    ) -> (r: Result<(), Error>)
        requires
            old(self).wf(),
            old(self)@.included.contains_key((session, candidate_hash)) || forall|k: int|
                0 <= k < summary.spam_slot_changes.len() ==> (
                #[trigger] summary.spam_slot_changes@[k]).0.0 < old(self)@.slots(
                    session,
                    n_validators as nat,
                ).len(),
        ensures
            final(self).wf(),
            match old(self)@.concluded(
                *config,
                n_validators as nat,
                (session, candidate_hash),
                fresh,
                summary@,
            ) {
                Ok(docket) => r is Ok && final(self)@ == docket,
                Err(e) => r == Err::<(), Error>(e) && final(self)@ == old(self)@,
            },
    {
        let ghost before = self@;
        let ghost target: Target = (session, candidate_hash);
        let ghost outcome = summary@;

        // Apply spam slot changes. Bail early if too many occupied.
        let revert_to: Option<T::BlockNumber> = match self.included.get(session, &candidate_hash) {
            Some(revert_to) => Some(*revert_to),
            None => None,
        };
        let is_local: bool = revert_to.is_some();
        if !is_local {
            let spam_slots: Vec<u32> = match self.spam_slots.get(&session) {
                Some(slots) => slots.clone(),
                None => vec![0u32; n_validators],
            };
            assert(spam_slots@ =~= before.slots(session, n_validators as nat));
            match apply_spam_slot_changes(
                spam_slots,
                &summary.spam_slot_changes,
                config.dispute_max_spam_slots,
            ) {
                Ok(slots) => {
                    let ghost new_slots = slots@;
                    self.spam_slots.insert(session, slots);
                    assert(self@.spam_slots =~= before.spam_slots.insert(session, new_slots));
                },
                Err(e) => {
                    return Err(e);
                },
            }
        }
        if fresh {
            let location = if is_local {
                DisputeLocation::Local
            } else {
                DisputeLocation::Remote
            };
            self.request(Effect::Event(Event::DisputeInitiated(candidate_hash, location)));
        }
        if summary.new_flags.for_supermajority {
            self.request(
                Effect::Event(Event::DisputeConcluded(candidate_hash, DisputeResult::Valid)),
            );
        }
        // It is possible, although unexpected, for a dispute to conclude twice.
        // This would require f+1 validators to vote in both directions.
        // A dispute cannot conclude more than once in each direction.

        if summary.new_flags.against_supermajority {
            self.request(
                Effect::Event(Event::DisputeConcluded(candidate_hash, DisputeResult::Invalid)),
            );
        }
        // Reward statements.

        let rewarded = set_validators(&summary.new_participants);
        self.request(Effect::RewardDisputeStatement(session, rewarded));

        // Slash participants on a losing side.
        // a valid candidate, according to 2/3. Punish those on the 'against' side.
        self.request(Effect::PunishAgainstValid(session, summary.slash_against));
        // an invalid candidate, according to 2/3. Punish those on the 'for' side.
        self.request(Effect::PunishForInvalid(session, summary.slash_for));
        proof {
            assert(self@.effects =~= before.effects + before.import_actions(
                target,
                fresh,
                outcome,
            ));
        }
        self.disputes.insert(session, candidate_hash, summary.state);
        assert(self@.disputes =~= before.disputes.insert(target, outcome.state));

        // Freeze if just concluded against some local candidate
        if summary.new_flags.against_supermajority {
            if let Some(revert_to) = revert_to {
                self.revert_and_freeze(revert_to);
            }
        }
        Ok(())
    }

    /// Handle a set of dispute statements corresponding to a single candidate.
    ///
    /// Fails if the dispute data is invalid. Returns a bool indicating whether the
    /// dispute is fresh.
    pub fn provide_dispute_data(
        &mut self,
        config: &HostConfiguration<T::BlockNumber>,
        now: T::BlockNumber,
        sessions: &BTreeMap<SessionIndex, SessionInfo>,
        set: &DisputeStatementSet,
    ) -> (r: Result<bool, Error>)
        requires
            old(self).wf(),
            old(self)@.covers_all(validator_sets(sessions@)),
            recordable(sessions@),
        ensures
            final(self).wf(),
            final(self)@.covers_all(validator_sets(sessions@)),
            match old(self)@.provided(
                *config,
                now,
                validator_sets(sessions@),
                *set,
                verdicts(validator_sets(sessions@)[set.session], *set),
            ) {
                Ok((docket, fresh)) => r == Ok::<bool, Error>(fresh) && final(self)@ == docket,
                Err(e) => r == Err::<bool, Error>(e) && final(self)@ == old(self)@,
            },
    {
        let ghost before = self@;
        let ghost sets = validator_sets(sessions@);
        let ghost holds = verdicts(sets[set.session], *set);
        proof {
            lemma_provided_covers(before, *config, now, sets, *set, holds);
        }
        // Load session info to access validators
        let session_info = match sessions.get(&set.session) {
            Some(s) => s,
            None => {
                return Err(Error::AncientDisputeStatement);
            },
        };
        let n_validators: usize = session_info.validators.len();
        let ghost n = n_validators as nat;
        assert(sets[set.session] == session_info.validators@);
        assert(sets.contains_key(set.session));
        assert(before.covers(set.session, n));

        // Check for ancient.
        let (fresh, dispute_state) = match self.open_dispute(
            config,
            now,
            n_validators,
            set.session,
            &set.candidate_hash,
        ) {
            Ok(opened) => opened,
            Err(e) => {
                return Err(e);
            },
        };

        // Check and import all votes.
        let ghost start = Import::start(dispute_state@, now);
        let mut importer = DisputeStateImporter::new(dispute_state, now);
        let mut i: usize = 0;
        assert(set.statements@.take(0) =~= Seq::empty());
        while i < set.statements.len()
            invariant
                i <= set.statements.len(),
                self@ == before,
                self.wf(),
                before.covers_all(sets),
                sets == validator_sets(sessions@),
                sets.contains_key(set.session),
                sets[set.session] == session_info.validators@,
                n_validators == session_info.validators.len(),
                n == n_validators,
                holds == verdicts(session_info.validators@, *set),
                before.opened(*config, now, n, target_of(*set)) matches Ok((_, d)) && start
                    == Import::start(d, now),
                start.statements(n, set.statements@.take(i as int), holds) == Ok::<
                    Import<T::BlockNumber>,
                    Error,
                >(importer@),
            decreases set.statements.len() - i,
        {
            let (statement, validator_index, signature) = set.statements[i];
            assert(set.statements@.take(i + 1).drop_last() =~= set.statements@.take(i as int));
            assert(set.statements@.take(i + 1).last() == set.statements@[i as int]);

            // Check signature before importing.
            let at: usize = validator_index.0 as usize;
            let verified: bool = if at < n_validators {
                check_signature(
                    &session_info.validators[at],
                    set.candidate_hash,
                    set.session,
                    &statement,
                    &signature,
                ).is_ok()
            } else {
                false
            };
            assert(verified == holds[i as int]);
            match importer.import_statement(n_validators, &statement, validator_index, verified) {
                Ok(()) => {},
                Err(e) => {
                    proof {
                        lemma_statements_refused(start, n, set.statements@, holds, i + 1);
                    }
                    return Err(e);
                },
            }
            i = i + 1;
        }
        assert(set.statements@.take(set.statements.len() as int) =~= set.statements@);
        proof {
            assert(before.covers(set.session, n));
            assert(before.disputes.contains_key(target_of(*set)) ==> before.disputes[(
                set.session,
                set.candidate_hash,
            )].size() <= before.slots(set.session, n).len());
            lemma_statements_shape(start, n, set.statements@, holds);
            lemma_summary_in_bounds(importer@);
        }
        let summary = importer.finish();
        match self.conclude_import(
            config,
            n_validators,
            set.session,
            set.candidate_hash,
            fresh,
            summary,
        ) {
            Ok(()) => Ok(fresh),
            Err(e) => Err(e),
        }
    }

    /// Handle sets of dispute statements corresponding to 0 or more candidates.
    /// Returns a vector of freshly created disputes.
    ///
    /// # Warning
    ///
    /// This functions modifies the state when failing. It is expected to be called in inherent,
    /// and to fail the extrinsic on error. As invalid inherents are not allowed, the dirty state
    /// is not commited.
    pub fn provide_multi_dispute_data(
        &mut self,
        config: &HostConfiguration<T::BlockNumber>,
        now: T::BlockNumber,
        sessions: &BTreeMap<SessionIndex, SessionInfo>,
        statement_sets: MultiDisputeStatementSet,
    ) -> (r: Result<Vec<(SessionIndex, CandidateHash)>, Error>)
        requires
            old(self).wf(),
            old(self)@.covers_all(validator_sets(sessions@)),
            recordable(sessions@),
        ensures
            final(self).wf(),
            final(self)@.covers_all(validator_sets(sessions@)),
            has_duplicates(statement_sets@) ==> {
                &&& r == Err::<Vec<(SessionIndex, CandidateHash)>, Error>(
                    Error::DuplicateDisputeStatementSets,
                )
                &&& final(self)@ == old(self)@
            },
            !has_duplicates(statement_sets@) ==> {
                let (docket, fresh) = old(self)@.provided_all(
                    *config,
                    now,
                    validator_sets(sessions@),
                    statement_sets@,
                );
                &&& final(self)@ == docket
                &&& match fresh {
                    Ok(targets) => r matches Ok(v) && v@ == targets,
                    Err(e) => r == Err::<Vec<(SessionIndex, CandidateHash)>, Error>(e),
                }
            },
    {
        let ghost before = self@;
        let ghost sets = validator_sets(sessions@);
        if contains_duplicates(&statement_sets) {
            return Err(Error::DuplicateDisputeStatementSets);
        }
        let mut fresh: Vec<(SessionIndex, CandidateHash)> = Vec::new();
        let mut i: usize = 0;
        assert(statement_sets@.take(0) =~= Seq::empty());
        assert(fresh@ =~= Seq::empty());
        while i < statement_sets.len()
            invariant
                i <= statement_sets.len(),
                self.wf(),
                sets == validator_sets(sessions@),
                self@.covers_all(sets),
                recordable(sessions@),
                !has_duplicates(statement_sets@),
                before == old(self)@,
                before.provided_all(*config, now, sets, statement_sets@.take(i as int)) == (
                    self@,
                    Ok::<Seq<Target>, Error>(fresh@),
                ),
            decreases statement_sets.len() - i,
        {
            let statement_set = &statement_sets[i];
            assert(statement_sets@.take(i + 1).drop_last() =~= statement_sets@.take(i as int));
            assert(statement_sets@.take(i + 1).last() == statement_sets@[i as int]);
            match self.provide_dispute_data(config, now, sessions, statement_set) {
                Ok(is_fresh) => {
                    if is_fresh {
                        fresh.push((statement_set.session, statement_set.candidate_hash));
                    }
                },
                Err(e) => {
                    proof {
                        lemma_provided_all_refused(
                            before,
                            *config,
                            now,
                            sets,
                            statement_sets@,
                            i + 1,
                        );
                    }
                    return Err(e);
                },
            }
            i = i + 1;
        }
        assert(statement_sets@.take(statement_sets.len() as int) =~= statement_sets@);
        Ok(fresh)
    }

    /// Called by the initalizer to initialize the disputes module: concludes the
    /// disputes that have gone on for too long, in storage order.
    ///
    /// Returns the weight of the database accesses.
    pub fn initializer_initialize(
        &mut self,
        config: &HostConfiguration<T::BlockNumber>,
        db_weight: DbWeight,
        now: T::BlockNumber,
    ) -> (weight: u64)
        requires
            old(self).wf(),
        ensures
            final(self).wf(),
            in_storage_order(old(self).disputes.targets(), old(self)@.disputes.dom()),
            final(self).disputes.targets() == old(self).disputes.targets(),
            final(self)@ == old(self)@.timed_out_all(*config, now, old(self).disputes.targets()),
            weight == saturated(
                old(self)@.time_out_weight_all(
                    *config,
                    db_weight,
                    now,
                    old(self).disputes.targets(),
                ),
            ),
    {
        let ghost before = self@;
        let ghost targets = self.disputes.targets();
        let mut weight: u64 = 0;
        let n: usize = self.disputes.len();
        let mut i: usize = 0;
        proof {
            self.disputes.lemma_targets();
            assert(self@.disputes.dom() =~= self.disputes@.dom());
            assert(targets.take(0) =~= Seq::empty());
        }
        while i < n
            invariant
                i <= n,
                n == targets.len(),
                self.wf(),
                self.disputes.targets() == targets,
                targets.no_duplicates(),
                before == old(self)@,
                forall|j: int|
                    #![trigger targets[j]]
                    i <= j < n ==> before.disputes.contains_key(targets[j])
                        && self@.disputes.contains_key(targets[j]) && self@.disputes[targets[j]]
                        == before.disputes[targets[j]],
                self@.included == before.included,
                self@ == before.timed_out_all(*config, now, targets.take(i as int)),
                weight == saturated(
                    before.time_out_weight_all(*config, db_weight, now, targets.take(i as int)),
                ),
            decreases n - i,
        {
            let ghost current = self@;
            let ghost target = targets[i as int];
            proof {
                assert(targets.take(i + 1).drop_last() =~= targets.take(i as int));
                assert(targets.take(i + 1).last() == target);
            }
            let (session_index, candidate_hash, stored) = self.disputes.entry(i);
            let looked: u64 = reads_writes(db_weight, 1, 0);
            weight = weight.saturating_add(looked);
            if stored.concluded_at.is_none()
                && config.dispute_conclusion_by_time_out_period.less_than(
                now.saturating_minus(stored.start),
            ) {
                let mut dispute = stored.clone();
                self.request(Effect::Event(Event::DisputeTimedOut(candidate_hash)));
                dispute.concluded_at = Some(now);
                self.disputes.insert(session_index, candidate_hash, dispute.clone());
                assert(self@.disputes =~= current.disputes.insert(target, dispute@));
                if self.included.contains_key(session_index, &candidate_hash) {
                    // Local disputes don't count towards spam.
                    let concluded: u64 = reads_writes(db_weight, 1, 1);
                    weight = weight.saturating_add(concluded);
                } else {
                    // also reduce spam slots for all validators involved, if the dispute was unconfirmed.
                    // this does open us up to more spam, but only for validators who are willing
                    // to be punished more.
                    //
                    // it would be unexpected for any change here to occur when the dispute has not concluded
                    // in time, as a dispute guaranteed to have at least one honest participant should
                    // conclude quickly.
                    match self.release_spam_slots(session_index, &dispute) {
                        Some(participating) => {
                            // Slight punishment as these validators have failed to make data available to
                            // others in a timely manner.
                            let punished = set_validators(&participating);
                            self.request(Effect::PunishInconclusive(session_index, punished));
                        },
                        None => {},
                    }
                    let concluded: u64 = reads_writes(db_weight, 2, 2);
                    weight = weight.saturating_add(concluded);
                }
            }
            assert(self@ =~= current.timed_out(*config, now, target));
            i = i + 1;
        }
        assert(targets.take(n as int) =~= targets);
        weight
    }

    /// Called by the initalizer to finalize the disputes module.
    pub fn initializer_finalize(&mut self)
        ensures
            *final(self) == *old(self),
    {
    }

    /// Called by the initalizer to note a new session in the disputes module.
    pub fn initializer_on_new_session(
        &mut self,
        config: &HostConfiguration<T::BlockNumber>,
        notification: &SessionChangeNotification,
    )
        requires
            old(self).wf(),
        ensures
            final(self).wf(),
            final(self)@ == old(self)@.pruned(*config, notification.session_index),
    {
        if config.dispute_period == SessionIndex::MAX || notification.session_index
            <= config.dispute_period + 1 {
            return;
        }
        let ghost before = self@;
        let pruning_target: SessionIndex = notification.session_index - config.dispute_period - 1;
        let first: SessionIndex = match self.last_pruned_session {
            Some(last_pruned) => last_pruned + 1,
            None => pruning_target,
        };
        let mut to_prune: SessionIndex = first;
        while to_prune <= pruning_target
            invariant
                self.wf(),
                first <= to_prune,
                pruning_target < SessionIndex::MAX,
                to_prune <= pruning_target + 1 || to_prune == first,
                self@.last_pruned_session == before.last_pruned_session,
                self@.frozen == before.frozen,
                self@.effects == before.effects,
                self@.disputes == before.disputes.remove_keys(
                    Set::new(|t: Target| first <= t.0 < to_prune),
                ),
                self@.included == before.included.remove_keys(
                    Set::new(|t: Target| first <= t.0 < to_prune),
                ),
                self@.spam_slots == before.spam_slots.remove_keys(
                    Set::new(|s: SessionIndex| first <= s < to_prune),
                ),
            decreases pruning_target + 1 - to_prune,
        {
            let ghost current = self@;
            self.disputes.remove_prefix(to_prune);
            self.included.remove_prefix(to_prune);
            let _slots = self.spam_slots.remove(&to_prune);
            proof {
                let next = to_prune + 1;
                assert(self@.disputes =~= current.disputes.remove_keys(
                    Set::new(|t: Target| t.0 == to_prune),
                ));
                assert(self@.spam_slots =~= current.spam_slots.remove(to_prune));
                assert(self@.disputes =~= before.disputes.remove_keys(
                    Set::new(|t: Target| first <= t.0 < next),
                ));
                assert(self@.included =~= before.included.remove_keys(
                    Set::new(|t: Target| first <= t.0 < next),
                ));
                assert(self@.spam_slots =~= before.spam_slots.remove_keys(
                    Set::new(|s: SessionIndex| first <= s < next),
                ));
            }
            to_prune = to_prune + 1;
        }
        self.last_pruned_session = Some(pruning_target);
        proof {
            let gone = Set::new(|t: Target| first <= t.0 <= pruning_target);
            assert(self@.disputes =~= before.disputes.remove_keys(gone));
            assert(self@.included =~= before.included.remove_keys(gone));
            assert(self@.spam_slots =~= before.spam_slots.remove_keys(
                Set::new(|s: SessionIndex| first <= s <= pruning_target),
            ));
        }
    }
}

/// Whether two sets of statements are about one candidate.
fn contains_duplicates(sets: &Vec<DisputeStatementSet>) -> (r: bool)
    ensures
        r == has_duplicates(sets@),
{
    let mut j: usize = 0;
    while j < sets.len()
        invariant
            j <= sets.len(),
            forall|a: int, b: int|
                #![trigger sets@[a], sets@[b]]
                0 <= a < b < j ==> target_of(sets@[a]) != target_of(sets@[b]),
        decreases sets.len() - j,
    {
        let mut i: usize = 0;
        while i < j
            invariant
                i <= j,
                j < sets.len(),
                forall|a: int|
                    #![trigger sets@[a]]
                    0 <= a < i ==> target_of(sets@[a]) != target_of(sets@[j as int]),
            decreases j - i,
        {
            if sets[i].session == sets[j].session && same_hash(
                &sets[i].candidate_hash.0,
                &sets[j].candidate_hash.0,
            ) {
                assert(target_of(sets@[i as int]) == target_of(sets@[j as int]));
                return true;
            }
            i = i + 1;
        }
        j = j + 1;
    }
    false
}

/// The disputes of a chain are read field by field.
pub proof fn law_docket_fields<T: Config>(pallet: Pallet<T>)
    ensures
        pallet@.last_pruned_session == pallet.last_pruned_session,
        pallet@.disputes.dom() =~= pallet.disputes@.dom(),
        forall|t: Target| #[trigger]
            pallet.disputes@.contains_key(t) ==> pallet@.disputes[t] == pallet.disputes@[t]@,
        pallet@.included == pallet.included@,
        pallet@.spam_slots.dom() =~= pallet.spam_slots@.dom(),
        forall|s: SessionIndex| #[trigger]
            pallet.spam_slots@.contains_key(s) ==> pallet@.spam_slots[s]
                == pallet.spam_slots@[s]@,
        pallet@.frozen == pallet.frozen,
        pallet@.effects.len() == pallet.effects.len(),
        forall|k: int|
            0 <= k < pallet.effects.len() ==> #[trigger] pallet@.effects[k]
                == pallet.effects@[k]@,
{
}

/// The validator set of a session is what is known of it.
pub proof fn law_validator_sets(sessions: Map<SessionIndex, SessionInfo>)
    ensures
        validator_sets(sessions).dom() =~= sessions.dom(),
        forall|s: SessionIndex| #[trigger]
            sessions.contains_key(s) ==> validator_sets(sessions)[s] == sessions[s].validators@,
{
}

} // verus!
