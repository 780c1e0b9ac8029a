//! What the chain around the disputes is asked to do.
use crate::primitives::{BlockNumberLike, CandidateHash, SessionIndex, ValidatorIndex};
use vstd::prelude::*;

verus! {

/// Whereas the dispute is local or remote.
#[derive(Clone, Copy, PartialEq, Eq, Debug, Structural)]
pub enum DisputeLocation {
    Local,
    Remote,
}

/// The result of a dispute, whether the candidate is deemed valid (for) or invalid (against).
#[derive(Clone, Copy, PartialEq, Eq, Debug, Structural)]
pub enum DisputeResult {
    Valid,
    Invalid,
}

/// What the chain records of a dispute.
#[derive(Clone, Copy, PartialEq, Eq, Debug)]
pub enum Event {
    /// A dispute has been initiated. \[candidate hash, dispute location\]
    DisputeInitiated(CandidateHash, DisputeLocation),
    /// A dispute has concluded for or against a candidate.
    /// \[candidate hash, dispute result\]
    DisputeConcluded(CandidateHash, DisputeResult),
    /// A dispute has timed out due to insufficient participation.
    /// \[candidate hash\]
    DisputeTimedOut(CandidateHash),
}

/// An entry in the digest of a block.
#[derive(Clone, Copy, PartialEq, Eq, Debug, Structural)]
pub enum ConsensusLog {
    /// The chain is to be reverted back to the block of this number.
    RevertTo(u32),
}

/// Something that the chain is asked to do.
#[derive(PartialEq, Eq, Debug)]
pub enum Effect {
    /// Deposit an event.
    Event(Event),
    /// Deposit a log in the digest of the block.
    Log(ConsensusLog),
    /// Reward validators for taking part in a dispute.
    RewardDisputeStatement(SessionIndex, Vec<ValidatorIndex>),
    /// Punish validators who were for an invalid candidate.
    PunishForInvalid(SessionIndex, Vec<ValidatorIndex>),
    /// Punish validators who were against a valid candidate.
    PunishAgainstValid(SessionIndex, Vec<ValidatorIndex>),
    /// Punish validators who were part of a dispute which never concluded.
    PunishInconclusive(SessionIndex, Vec<ValidatorIndex>),
}

/// An [`Effect`], its validators read as a sequence.
pub enum Action {
    Event(Event),
    Log(ConsensusLog),
    RewardDisputeStatement(SessionIndex, Seq<ValidatorIndex>),
    PunishForInvalid(SessionIndex, Seq<ValidatorIndex>),
    PunishAgainstValid(SessionIndex, Seq<ValidatorIndex>),
    PunishInconclusive(SessionIndex, Seq<ValidatorIndex>),
}

impl View for Effect {
    type V = Action;

    open spec fn view(&self) -> Action {
        match self {
            Effect::Event(e) => Action::Event(*e),
            Effect::Log(l) => Action::Log(*l),
            Effect::RewardDisputeStatement(s, v) => Action::RewardDisputeStatement(*s, v@),
            Effect::PunishForInvalid(s, v) => Action::PunishForInvalid(*s, v@),
            Effect::PunishAgainstValid(s, v) => Action::PunishAgainstValid(*s, v@),
            Effect::PunishInconclusive(s, v) => Action::PunishInconclusive(*s, v@),
        }
    }
}

/// Reward hooks for disputes.
pub trait RewardValidators: Sized {
    /// What a reward may make of the hook's own state: anything, unless a hook says
    /// more.
    open spec fn rewarded(
        pre: Self,
        session: SessionIndex,
        validators: Seq<ValidatorIndex>,
        post: Self,
    ) -> bool {
        true
    }

    /// Give each validator a reward, likely small, for participating in the dispute.
    fn reward_dispute_statement(&mut self, session: SessionIndex, validators: Vec<ValidatorIndex>)
        ensures
            Self::rewarded(*old(self), session, validators@, *final(self)),
    ;
}

/// Gives no rewards.
impl RewardValidators for () {
    open spec fn rewarded(
        pre: Self,
        session: SessionIndex,
        validators: Seq<ValidatorIndex>,
        post: Self,
    ) -> bool {
        post == pre
    }

    fn reward_dispute_statement(&mut self, session: SessionIndex, validators: Vec<ValidatorIndex>) {
    }
}

/// Punishment hooks for disputes.
pub trait PunishValidators: Sized {
    /// What a punishment for invalid may make of the hook's own state: anything, unless a
    /// hook says more.
    open spec fn punished_for_invalid(
        pre: Self,
        session: SessionIndex,
        validators: Seq<ValidatorIndex>,
        post: Self,
    ) -> bool {
        true
    }

    /// What a punishment against valid may make of the hook's own state: anything, unless a
    /// hook says more.
    open spec fn punished_against_valid(
        pre: Self,
        session: SessionIndex,
        validators: Seq<ValidatorIndex>,
        post: Self,
    ) -> bool {
        true
    }

    /// What a punishment for an inconclusive dispute may make of the hook's own
    /// state: anything, unless a hook says more.
    open spec fn punished_inconclusive(
        pre: Self,
        session: SessionIndex,
        validators: Seq<ValidatorIndex>,
        post: Self,
    ) -> bool {
        true
    }

    /// Punish a series of validators who were for an invalid parablock. This is expected to be a major
    /// punishment.
    fn punish_for_invalid(&mut self, session: SessionIndex, validators: Vec<ValidatorIndex>)
        ensures
            Self::punished_for_invalid(*old(self), session, validators@, *final(self)),
    ;

    /// Punish a series of validators who were against a valid parablock. This is expected to be a minor
    /// punishment.
    fn punish_against_valid(&mut self, session: SessionIndex, validators: Vec<ValidatorIndex>)
        ensures
            Self::punished_against_valid(*old(self), session, validators@, *final(self)),
    ;

    /// Punish a series of validators who were part of a dispute which never concluded. This is expected
    /// to be a minor punishment.
    fn punish_inconclusive(&mut self, session: SessionIndex, validators: Vec<ValidatorIndex>)
        ensures
            Self::punished_inconclusive(*old(self), session, validators@, *final(self)),
    ;
}

/// The chain that disputes are held on.
pub trait Config: Sized {
    /// The block numbers of the chain.
    type BlockNumber: BlockNumberLike;

    /// How the chain rewards validators.
    type RewardValidators: RewardValidators;

    /// How the chain punishes validators.
    type PunishValidators: PunishValidators;
}

/// Something that only the chain itself can record.
#[derive(Clone, Copy, PartialEq, Eq, Debug)]
pub enum Deposit {
    /// An event.
    Event(Event),
    /// A log in the digest of the block.
    Log(ConsensusLog),
}

/// Carries out an effect: hands rewards and punishments to the hooks, and
/// returns what is to be recorded.
pub fn perform<T: Config>(
    effect: Effect,
    rewards: &mut T::RewardValidators,
    punishments: &mut T::PunishValidators,
) -> (r: Option<Deposit>)
    ensures
        match effect {
            Effect::Event(e) => {
                &&& r == Some(Deposit::Event(e))
                &&& *final(rewards) == *old(rewards)
                &&& *final(punishments) == *old(punishments)
            },
            Effect::Log(l) => {
                &&& r == Some(Deposit::Log(l))
                &&& *final(rewards) == *old(rewards)
                &&& *final(punishments) == *old(punishments)
            },
            Effect::RewardDisputeStatement(s, v) => {
                &&& r is None
                &&& T::RewardValidators::rewarded(*old(rewards), s, v@, *final(rewards))
                &&& *final(punishments) == *old(punishments)
            },
            Effect::PunishForInvalid(s, v) => {
                &&& r is None
                &&& *final(rewards) == *old(rewards)
                &&& T::PunishValidators::punished_for_invalid(
                    *old(punishments),
                    s,
                    v@,
                    *final(punishments),
                )
            },
            Effect::PunishAgainstValid(s, v) => {
                &&& r is None
                &&& *final(rewards) == *old(rewards)
                &&& T::PunishValidators::punished_against_valid(
                    *old(punishments),
                    s,
                    v@,
                    *final(punishments),
                )
            },
            Effect::PunishInconclusive(s, v) => {
                &&& r is None
                &&& *final(rewards) == *old(rewards)
                &&& T::PunishValidators::punished_inconclusive(
                    *old(punishments),
                    s,
                    v@,
                    *final(punishments),
                )
            },
        },
{
    match effect {
        Effect::Event(e) => Some(Deposit::Event(e)),
        Effect::Log(l) => Some(Deposit::Log(l)),
        Effect::RewardDisputeStatement(s, v) => {
            rewards.reward_dispute_statement(s, v);
            None
        },
        Effect::PunishForInvalid(s, v) => {
            punishments.punish_for_invalid(s, v);
            None
        },
        Effect::PunishAgainstValid(s, v) => {
            punishments.punish_against_valid(s, v);
            None
        },
        Effect::PunishInconclusive(s, v) => {
            punishments.punish_inconclusive(s, v);
            None
        },
    }
}

/// An effect is read as the action of the same name.
pub proof fn law_effect_names(
    event: Event,
    log: ConsensusLog,
    session: SessionIndex,
    validators: Vec<ValidatorIndex>,
)
    ensures
        Effect::Event(event)@ == Action::Event(event),
        Effect::Log(log)@ == Action::Log(log),
        Effect::RewardDisputeStatement(session, validators)@ == Action::RewardDisputeStatement(
            session,
            validators@,
        ),
        Effect::PunishForInvalid(session, validators)@ == Action::PunishForInvalid(
            session,
            validators@,
        ),
        Effect::PunishAgainstValid(session, validators)@ == Action::PunishAgainstValid(
            session,
            validators@,
        ),
        Effect::PunishInconclusive(session, validators)@ == Action::PunishInconclusive(
            session,
            validators@,
        ),
{
}

} // verus!
