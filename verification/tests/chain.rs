//! Disputes on a chain that runs from block to block.
use disputes::bits::VoteBits;
use disputes::errors::Error;
use disputes::hooks::{Config, ConsensusLog, Effect, PunishValidators};
use disputes::pallet::Pallet;
use disputes::payload::ExplicitDisputeStatement;
use disputes::primitives::{
    CandidateHash, DisputeState, DisputeStatement, DisputeStatementSet, HostConfiguration,
    InvalidDisputeStatementKind, SessionChangeNotification, SessionIndex, SessionInfo,
    SignedStatement, ValidDisputeStatementKind, ValidatorId, ValidatorIndex, ValidatorSignature,
};
use disputes::weights::DbWeight;
use sp_core::sr25519::Pair;
use sp_core::Pair as PairTrait;
use std::collections::BTreeMap;

#[derive(PartialEq, Eq, Debug)]
struct Test;

struct NoPunishments;

impl PunishValidators for NoPunishments {
    fn punish_for_invalid(&mut self, _: SessionIndex, _: Vec<ValidatorIndex>) {}
    fn punish_against_valid(&mut self, _: SessionIndex, _: Vec<ValidatorIndex>) {}
    fn punish_inconclusive(&mut self, _: SessionIndex, _: Vec<ValidatorIndex>) {}
}

impl Config for Test {
    type BlockNumber = u32;
    type RewardValidators = ();
    type PunishValidators = NoPunishments;
}

fn default_config() -> HostConfiguration<u32> {
    HostConfiguration {
        dispute_period: 6,
        dispute_post_conclusion_acceptance_period: 100,
        dispute_max_spam_slots: 2,
        dispute_conclusion_by_time_out_period: 200,
    }
}

// A chain with its disputes. A new session is announced within a block and
// takes effect at the block's end.
struct Chain {
    pallet: Pallet<Test>,
    config: HostConfiguration<u32>,
    sessions: BTreeMap<SessionIndex, SessionInfo>,
    block_number: u32,
    announced: Option<(SessionIndex, SessionInfo)>,
}

impl Chain {
    fn new(config: HostConfiguration<u32>) -> Chain {
        Chain {
            pallet: Pallet::new(),
            config,
            sessions: BTreeMap::new(),
            block_number: 0,
            announced: None,
        }
    }

    fn run_to_block(
        &mut self,
        to: u32,
        new_session: impl Fn(u32) -> Option<(SessionIndex, Vec<ValidatorId>)>,
    ) {
        while self.block_number < to {
            if let Some((session_index, info)) = self.announced.take() {
                self.sessions.insert(session_index, info);
                self.pallet.initializer_on_new_session(
                    &self.config,
                    &SessionChangeNotification { session_index },
                );
            }
            self.pallet.initializer_finalize();
            self.block_number += 1;
            let db_weight = DbWeight { read: 0, write: 0 };
            self.pallet.initializer_initialize(&self.config, db_weight, self.block_number);
            if let Some((session_index, validators)) = new_session(self.block_number) {
                self.announced = Some((session_index, SessionInfo { validators }));
            }
        }
    }

    fn provide_multi_dispute_data(
        &mut self,
        sets: Vec<DisputeStatementSet>,
    ) -> Result<Vec<(SessionIndex, CandidateHash)>, Error> {
        self.pallet.provide_multi_dispute_data(
            &self.config,
            self.block_number,
            &self.sessions,
            sets,
        )
    }

    fn note_included(&mut self, session: SessionIndex, hash: CandidateHash, included_in: u32) {
        self.pallet.note_included(session, hash, included_in);
    }

    fn spam_slots(&self, session: SessionIndex) -> Option<Vec<u32>> {
        self.pallet.spam_slots.get(&session).cloned()
    }

    fn included_in_session(&self, session: SessionIndex) -> usize {
        (0..self.pallet.included.len())
            .filter(|i| self.pallet.included.entry(*i).0 == session)
            .count()
    }

    fn rewards(&self) -> Vec<(SessionIndex, Vec<ValidatorIndex>)> {
        let mut r = Vec::new();
        for e in &self.pallet.effects {
            if let Effect::RewardDisputeStatement(s, v) = e {
                r.push((*s, v.clone()));
            }
        }
        r
    }

    fn punished_against(&self) -> Vec<(SessionIndex, Vec<ValidatorIndex>)> {
        let mut r = Vec::new();
        for e in &self.pallet.effects {
            if let Effect::PunishAgainstValid(s, v) = e {
                r.push((*s, v.clone()));
            }
        }
        r
    }

    fn punished_for(&self) -> Vec<(SessionIndex, Vec<ValidatorIndex>)> {
        let mut r = Vec::new();
        for e in &self.pallet.effects {
            if let Effect::PunishForInvalid(s, v) = e {
                r.push((*s, v.clone()));
            }
        }
        r
    }

    fn punished_inconclusive(&self) -> Vec<(SessionIndex, Vec<ValidatorIndex>)> {
        let mut r = Vec::new();
        for e in &self.pallet.effects {
            if let Effect::PunishInconclusive(s, v) = e {
                r.push((*s, v.clone()));
            }
        }
        r
    }
}

fn bits(of: &[u8]) -> VoteBits {
    VoteBits::from_bools(&of.iter().map(|b| *b == 1).collect())
}

fn id(pair: &Pair) -> ValidatorId {
    ValidatorId(pair.public().0)
}

fn explicit(
    pair: &Pair,
    index: u32,
    valid: bool,
    candidate_hash: CandidateHash,
    session: SessionIndex,
) -> SignedStatement {
    let payload = ExplicitDisputeStatement { valid, candidate_hash, session }.signing_payload();
    let statement = if valid {
        DisputeStatement::Valid(ValidDisputeStatementKind::Explicit)
    } else {
        DisputeStatement::Invalid(InvalidDisputeStatementKind::Explicit)
    };
    (statement, ValidatorIndex(index), ValidatorSignature(pair.sign(&payload[..]).0))
}

// Test that punish_inconclusive is correctly called.
#[test]
fn test_initializer_initialize() {
    let dispute_conclusion_by_time_out_period = 3;
    let start = 10;
    let mut chain = Chain::new(HostConfiguration {
        dispute_conclusion_by_time_out_period,
        ..default_config()
    });
    let v0 = Pair::generate().0;
    let v1 = Pair::generate().0;
    let v2 = Pair::generate().0;
    let v3 = Pair::generate().0;

    // NOTE: v0 index will be 0
    // NOTE: v1 index will be 3
    // NOTE: v2 index will be 2
    // NOTE: v3 index will be 1

    // a new session at each block
    chain.run_to_block(start, |b| Some((b, vec![id(&v0), id(&v3), id(&v2), id(&v1)])));

    let candidate_hash = CandidateHash([1u8; 32]);

    // v0 votes for 3
    let stmts = vec![DisputeStatementSet {
        candidate_hash,
        session: start - 1,
        statements: vec![explicit(&v0, 0, true, candidate_hash, start - 1)],
    }];
    assert_eq!(chain.provide_multi_dispute_data(stmts), Ok(vec![(9, candidate_hash)]));
    assert_eq!(chain.spam_slots(start - 1), Some(vec![1, 0, 0, 0]));

    // Run to timeout period
    chain.run_to_block(start + dispute_conclusion_by_time_out_period, |_| None);
    assert_eq!(chain.spam_slots(start - 1), Some(vec![1, 0, 0, 0]));

    // Run to timeout + 1 in order to executive on_finalize(timeout)
    chain.run_to_block(start + dispute_conclusion_by_time_out_period + 1, |_| None);
    assert_eq!(chain.spam_slots(start - 1), Some(vec![0, 0, 0, 0]));
    assert_eq!(chain.punished_inconclusive()[0], (9, vec![ValidatorIndex(0)]));
}

// Test prunning works
#[test]
fn test_initializer_on_new_session() {
    let dispute_period = 3;
    let mut chain = Chain::new(HostConfiguration { dispute_period, ..default_config() });
    let v0 = Pair::generate().0;

    let candidate_hash = CandidateHash([1u8; 32]);
    chain.note_included(0, candidate_hash, 0);
    chain.note_included(1, candidate_hash, 1);
    chain.note_included(2, candidate_hash, 2);
    chain.note_included(3, candidate_hash, 3);
    chain.note_included(4, candidate_hash, 4);
    chain.note_included(5, candidate_hash, 5);
    chain.note_included(6, candidate_hash, 5);

    // a new session at each block
    chain.run_to_block(7, |b| Some((b, vec![id(&v0)])));

    // current session is 7,
    // we keep for dispute_period + 1 session and we remove in on_finalize
    // thus we keep info for session 3, 4, 5, 6, 7.
    assert_eq!(chain.included_in_session(0), 0);
    assert_eq!(chain.included_in_session(1), 0);
    assert_eq!(chain.included_in_session(2), 0);
    assert_eq!(chain.included_in_session(3), 1);
    assert_eq!(chain.included_in_session(4), 1);
    assert_eq!(chain.included_in_session(5), 1);
    assert_eq!(chain.included_in_session(6), 1);
}

#[test]
fn test_provide_multi_dispute_data_duplicate_error() {
    let mut chain = Chain::new(default_config());
    let candidate_hash_1 = CandidateHash([1u8; 32]);
    let candidate_hash_2 = CandidateHash([2u8; 32]);

    let stmts = vec![
        DisputeStatementSet { candidate_hash: candidate_hash_2, session: 2, statements: vec![] },
        DisputeStatementSet { candidate_hash: candidate_hash_1, session: 1, statements: vec![] },
        DisputeStatementSet { candidate_hash: candidate_hash_2, session: 2, statements: vec![] },
    ];

    assert_eq!(
        chain.provide_multi_dispute_data(stmts),
        Err(Error::DuplicateDisputeStatementSets),
    );
}

// Test:
// * wrong signature fails
// * signature is checked for correct validator
#[test]
fn test_provide_multi_dispute_is_checking_signature_correctly() {
    let mut chain = Chain::new(default_config());
    let v0 = Pair::generate().0;
    let v1 = Pair::generate().0;

    // a new session at each block
    chain.run_to_block(3, |b| {
        if b == 1 {
            Some((b, vec![id(&v0)]))
        } else {
            Some((b, vec![id(&v1)]))
        }
    });

    let candidate_hash = CandidateHash([1u8; 32]);
    let stmts = vec![DisputeStatementSet {
        candidate_hash,
        session: 1,
        statements: vec![explicit(&v0, 0, true, candidate_hash, 1)],
    }];
    assert_eq!(chain.provide_multi_dispute_data(stmts), Ok(vec![(1, candidate_hash)]));

    let candidate_hash = CandidateHash([1u8; 32]);
    let stmts = vec![DisputeStatementSet {
        candidate_hash,
        session: 2,
        statements: vec![explicit(&v0, 0, true, candidate_hash, 2)],
    }];
    let disputes = chain.pallet.disputes();
    let spam_slots = chain.pallet.spam_slots.clone();
    let effects = chain.pallet.effects.len();
    assert_eq!(chain.provide_multi_dispute_data(stmts), Err(Error::InvalidSignature));
    assert_eq!(chain.pallet.disputes(), disputes);
    assert_eq!(chain.pallet.spam_slots, spam_slots);
    assert_eq!(chain.pallet.effects.len(), effects);
    assert_eq!(chain.pallet.included.len(), 0);
    assert!(!chain.pallet.is_frozen());
}

#[test]
fn test_freeze_on_note_included() {
    let mut chain = Chain::new(default_config());
    let v0 = Pair::generate().0;

    // a new session at each block
    chain.run_to_block(6, |b| Some((b, vec![id(&v0)])));

    let candidate_hash = CandidateHash([1u8; 32]);

    // v0 votes for 3
    let stmts = vec![DisputeStatementSet {
        candidate_hash,
        session: 3,
        statements: vec![explicit(&v0, 0, false, candidate_hash, 3)],
    }];
    assert!(chain.provide_multi_dispute_data(stmts).is_ok());

    chain.note_included(3, candidate_hash, 3);
    assert_eq!(chain.pallet.is_frozen(), true);
}

#[test]
fn test_freeze_provided_against_supermajority_for_included() {
    let mut chain = Chain::new(default_config());
    let v0 = Pair::generate().0;

    // a new session at each block
    chain.run_to_block(6, |b| Some((b, vec![id(&v0)])));

    let candidate_hash = CandidateHash([1u8; 32]);
    chain.note_included(3, candidate_hash, 3);

    // v0 votes for 3
    let stmts = vec![DisputeStatementSet {
        candidate_hash,
        session: 3,
        statements: vec![explicit(&v0, 0, false, candidate_hash, 3)],
    }];
    assert!(chain.provide_multi_dispute_data(stmts).is_ok());

    assert_eq!(chain.pallet.is_frozen(), true);
}

// tests for:
// * provide_multi_dispute: with success scenario
// * disputes: correctness of datas
// * could_be_invalid: correctness of datas
// * note_included: decrement spam correctly
// * spam slots: correctly incremented and decremented
// * ensure rewards and punishment are correctly called.
#[test]
fn test_provide_multi_dispute_success_and_other() {
    let mut chain = Chain::new(default_config());
    let v0 = Pair::generate().0;
    let v1 = Pair::generate().0;
    let v2 = Pair::generate().0;
    let v3 = Pair::generate().0;

    // NOTE: v0 index will be 0
    // NOTE: v1 index will be 3
    // NOTE: v2 index will be 2
    // NOTE: v3 index will be 1

    // a new session at each block
    chain.run_to_block(6, |b| Some((b, vec![id(&v0), id(&v3), id(&v2), id(&v1)])));

    let candidate_hash = CandidateHash([1u8; 32]);

    // v0 votes for 3
    let stmts = vec![DisputeStatementSet {
        candidate_hash,
        session: 3,
        statements: vec![explicit(&v0, 0, true, candidate_hash, 3)],
    }];
    assert_eq!(chain.provide_multi_dispute_data(stmts), Ok(vec![(3, candidate_hash)]));
    assert_eq!(chain.spam_slots(3), Some(vec![1, 0, 0, 0]));

    // v1 votes for 4 and for 3
    let stmts = vec![
        DisputeStatementSet {
            candidate_hash,
            session: 4,
            statements: vec![explicit(&v1, 3, true, candidate_hash, 4)],
        },
        DisputeStatementSet {
            candidate_hash,
            session: 3,
            statements: vec![explicit(&v1, 3, true, candidate_hash, 3)],
        },
    ];
    assert_eq!(chain.provide_multi_dispute_data(stmts), Ok(vec![(4, candidate_hash)]));
    assert_eq!(chain.spam_slots(3), Some(vec![0, 0, 0, 0])); // Confirmed as no longer spam
    assert_eq!(chain.spam_slots(4), Some(vec![0, 0, 0, 1]));

    // v3 votes against 3 and for 5
    let stmts = vec![
        DisputeStatementSet {
            candidate_hash,
            session: 3,
            statements: vec![explicit(&v3, 1, false, candidate_hash, 3)],
        },
        DisputeStatementSet {
            candidate_hash,
            session: 5,
            statements: vec![explicit(&v3, 1, true, candidate_hash, 5)],
        },
    ];
    assert_eq!(chain.provide_multi_dispute_data(stmts), Ok(vec![(5, candidate_hash)]));
    assert_eq!(chain.spam_slots(3), Some(vec![0, 0, 0, 0]));
    assert_eq!(chain.spam_slots(4), Some(vec![0, 0, 0, 1]));
    assert_eq!(chain.spam_slots(5), Some(vec![0, 1, 0, 0]));

    // v2 votes for 3 and againt 5
    let stmts = vec![
        DisputeStatementSet {
            candidate_hash,
            session: 3,
            statements: vec![explicit(&v2, 2, true, candidate_hash, 3)],
        },
        DisputeStatementSet {
            candidate_hash,
            session: 5,
            statements: vec![explicit(&v2, 2, false, candidate_hash, 5)],
        },
    ];
    assert_eq!(chain.provide_multi_dispute_data(stmts), Ok(vec![]));
    assert_eq!(chain.spam_slots(3), Some(vec![0, 0, 0, 0]));
    assert_eq!(chain.spam_slots(4), Some(vec![0, 0, 0, 1]));
    assert_eq!(chain.spam_slots(5), Some(vec![0, 0, 0, 0]));

    // v0 votes for 5
    let stmts = vec![DisputeStatementSet {
        candidate_hash,
        session: 5,
        statements: vec![explicit(&v0, 0, false, candidate_hash, 5)],
    }];
    assert_eq!(chain.provide_multi_dispute_data(stmts), Ok(vec![]));
    assert_eq!(chain.spam_slots(3), Some(vec![0, 0, 0, 0]));
    assert_eq!(chain.spam_slots(4), Some(vec![0, 0, 0, 1]));
    assert_eq!(chain.spam_slots(5), Some(vec![0, 0, 0, 0]));

    // v1 votes for 5
    let stmts = vec![DisputeStatementSet {
        candidate_hash,
        session: 5,
        statements: vec![explicit(&v1, 3, false, candidate_hash, 5)],
    }];
    assert_eq!(chain.provide_multi_dispute_data(stmts), Ok(vec![]));
    assert_eq!(chain.spam_slots(3), Some(vec![0, 0, 0, 0]));
    assert_eq!(chain.spam_slots(4), Some(vec![0, 0, 0, 1]));
    assert_eq!(chain.spam_slots(5), Some(vec![0, 0, 0, 0]));

    assert_eq!(
        chain.pallet.disputes(),
        vec![
            (
                5,
                candidate_hash,
                DisputeState {
                    validators_for: bits(&[0, 1, 0, 0]),
                    validators_against: bits(&[1, 0, 1, 1]),
                    start: 6,
                    concluded_at: Some(6), // 3 vote against
                },
            ),
            (
                3,
                candidate_hash,
                DisputeState {
                    validators_for: bits(&[1, 0, 1, 1]),
                    validators_against: bits(&[0, 1, 0, 0]),
                    start: 6,
                    concluded_at: Some(6), // 3 vote for
                },
            ),
            (
                4,
                candidate_hash,
                DisputeState {
                    validators_for: bits(&[0, 0, 0, 1]),
                    validators_against: bits(&[0, 0, 0, 0]),
                    start: 6,
                    concluded_at: None,
                },
            ),
        ],
    );

    assert_eq!(chain.pallet.could_be_invalid(3, candidate_hash), false); // It has 3 votes for
    assert_eq!(chain.pallet.could_be_invalid(4, candidate_hash), true);
    assert_eq!(chain.pallet.could_be_invalid(5, candidate_hash), true);

    // Ensure inclusion removes spam slots
    assert_eq!(chain.spam_slots(4), Some(vec![0, 0, 0, 1]));
    chain.note_included(4, candidate_hash, 4);
    assert_eq!(chain.spam_slots(4), Some(vec![0, 0, 0, 0]));

    // Ensure the reward_validator function was correctly called
    assert_eq!(
        chain.rewards(),
        vec![
            (3, vec![ValidatorIndex(0)]),
            (4, vec![ValidatorIndex(3)]),
            (3, vec![ValidatorIndex(3)]),
            (3, vec![ValidatorIndex(1)]),
            (5, vec![ValidatorIndex(1)]),
            (3, vec![ValidatorIndex(2)]),
            (5, vec![ValidatorIndex(2)]),
            (5, vec![ValidatorIndex(0)]),
            (5, vec![ValidatorIndex(3)]),
        ],
    );

    // Ensure punishment against is called
    assert_eq!(
        chain.punished_against(),
        vec![
            (3, vec![]),
            (4, vec![]),
            (3, vec![]),
            (3, vec![]),
            (5, vec![]),
            (3, vec![ValidatorIndex(1)]),
            (5, vec![]),
            (5, vec![]),
            (5, vec![]),
        ],
    );

    // Ensure punishment for is called
    assert_eq!(
        chain.punished_for(),
        vec![
            (3, vec![]),
            (4, vec![]),
            (3, vec![]),
            (3, vec![]),
            (5, vec![]),
            (3, vec![]),
            (5, vec![]),
            (5, vec![]),
            (5, vec![ValidatorIndex(1)]),
        ],
    );
}

#[test]
fn test_revert_and_freeze() {
    let mut pallet: Pallet<Test> = Pallet::new();
    pallet.frozen = true;
    pallet.revert_and_freeze(0);
    assert_eq!(pallet, Pallet { frozen: true, ..Pallet::new() });

    pallet.frozen = false;
    pallet.revert_and_freeze(0);
    assert_eq!(pallet.is_frozen(), true);
    assert_eq!(pallet.effects, vec![Effect::Log(ConsensusLog::RevertTo(0))]);
}
