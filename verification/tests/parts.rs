//! Payloads, storage order, effects and block numbers.
use disputes::bits::VoteBits;
use disputes::errors::{Error, VoteImportError};
use disputes::flags::DisputeStateFlags;
use disputes::hooks::{
    perform, Config, ConsensusLog, Deposit, Effect, Event, PunishValidators, RewardValidators,
};
use disputes::importer::SpamSlotChange;
use disputes::pallet::Pallet;
use disputes::payload::statement_payload;
use disputes::primitives::{
    same_hash, BlockNumberLike, CandidateHash, DisputeStatement, InvalidDisputeStatementKind,
    SessionIndex, ValidDisputeStatementKind, ValidatorIndex,
};
use disputes::spam::apply_spam_slot_changes;
use disputes::storage::DoubleMap;
use frame_support::Hashable;

type Calls = Vec<(&'static str, SessionIndex, Vec<ValidatorIndex>)>;

#[derive(Default)]
struct Rewards(Calls);

impl RewardValidators for Rewards {
    fn reward_dispute_statement(&mut self, session: SessionIndex, validators: Vec<ValidatorIndex>) {
        self.0.push(("reward", session, validators));
    }
}

#[derive(Default)]
struct Punishments(Calls);

impl PunishValidators for Punishments {
    fn punish_for_invalid(&mut self, session: SessionIndex, validators: Vec<ValidatorIndex>) {
        self.0.push(("for invalid", session, validators));
    }
    fn punish_against_valid(&mut self, session: SessionIndex, validators: Vec<ValidatorIndex>) {
        self.0.push(("against valid", session, validators));
    }
    fn punish_inconclusive(&mut self, session: SessionIndex, validators: Vec<ValidatorIndex>) {
        self.0.push(("inconclusive", session, validators));
    }
}

#[derive(PartialEq, Eq, Debug)]
struct Wide;

impl Config for Wide {
    type BlockNumber = u64;
    type RewardValidators = Rewards;
    type PunishValidators = Punishments;
}

#[test]
fn effects_reach_the_hooks() {
    let mut r = Rewards::default();
    let mut p = Punishments::default();
    let v = vec![ValidatorIndex(1)];
    let event = Event::DisputeTimedOut(CandidateHash([1; 32]));
    let mut run = |e: Effect| perform::<Wide>(e, &mut r, &mut p);
    assert_eq!(run(Effect::RewardDisputeStatement(3, v.clone())), None);
    assert_eq!(run(Effect::PunishForInvalid(4, v.clone())), None);
    assert_eq!(run(Effect::PunishAgainstValid(5, v.clone())), None);
    assert_eq!(run(Effect::PunishInconclusive(6, v.clone())), None);
    assert_eq!(run(Effect::Event(event)), Some(Deposit::Event(event)));
    let log = ConsensusLog::RevertTo(2);
    assert_eq!(run(Effect::Log(log)), Some(Deposit::Log(log)));
    assert_eq!(r.0, vec![("reward", 3, v.clone())]);
    assert_eq!(
        p.0,
        vec![
            ("for invalid", 4, v.clone()),
            ("against valid", 5, v.clone()),
            ("inconclusive", 6, v.clone()),
        ],
    );
}

#[test]
fn nobody_is_rewarded_by_default() {
    let mut nothing = ();
    nothing.reward_dispute_statement(1, vec![ValidatorIndex(1)]);
    assert_eq!(nothing, ());
}

#[test]
fn wide_block_numbers_revert_to_what_fits() {
    let mut pallet: Pallet<Wide> = Pallet::new();
    pallet.revert_and_freeze(1u64 << 40);
    assert_eq!(pallet.effects, vec![Effect::Log(ConsensusLog::RevertTo(u32::MAX))]);
    let mut pallet: Pallet<Wide> = Pallet::new();
    pallet.revert_and_freeze(41);
    assert_eq!(pallet.effects, vec![Effect::Log(ConsensusLog::RevertTo(41))]);
}

#[test]
fn block_numbers() {
    assert!(3u32.less_than(4) && !4u32.less_than(4));
    assert_eq!(3u32.saturating_minus(5), 0);
    assert_eq!(8u64.saturating_minus(5), 3);
    assert!(0u64.is_zero() && !1u32.is_zero());
    assert_eq!(9u32.predecessor(), 8);
    assert_eq!(u64::MAX.saturated_into_u32(), u32::MAX);
    assert_eq!(7u32.saturated_into_u32(), 7);
}

#[test]
fn payloads_byte_by_byte() {
    let candidate = CandidateHash([0xaa; 32]);
    let session = 0x0403_0201;
    let parent = [0xbb; 32];
    let body = |tag: &[u8], byte: Option<u8>, parent: &[u8]| -> Vec<u8> {
        let mut r = tag.to_vec();
        r.extend(byte);
        r.extend([0xaa; 32]);
        r.extend([1, 2, 3, 4]);
        r.extend(parent);
        r
    };
    let valid = DisputeStatement::Valid;
    assert_eq!(
        statement_payload(&valid(ValidDisputeStatementKind::Explicit), candidate, session),
        body(b"DISP", Some(1), &[]),
    );
    assert_eq!(
        statement_payload(
            &DisputeStatement::Invalid(InvalidDisputeStatementKind::Explicit),
            candidate,
            session,
        ),
        body(b"DISP", Some(0), &[]),
    );
    assert_eq!(
        statement_payload(
            &valid(ValidDisputeStatementKind::BackingSeconded(parent)),
            candidate,
            session,
        ),
        body(b"BKNG", Some(1), &parent),
    );
    assert_eq!(
        statement_payload(
            &valid(ValidDisputeStatementKind::BackingValid(parent)),
            candidate,
            session,
        ),
        body(b"BKNG", Some(2), &parent),
    );
    assert_eq!(
        statement_payload(&valid(ValidDisputeStatementKind::ApprovalChecking), candidate, session),
        body(b"APPR", None, &[]),
    );
}

#[test]
fn statements_have_different_payloads() {
    let mut payloads = Vec::new();
    for session in [1, 256] {
        for candidate in [[1; 32], [2; 32]] {
            for statement in [
                DisputeStatement::Valid(ValidDisputeStatementKind::Explicit),
                DisputeStatement::Valid(ValidDisputeStatementKind::BackingSeconded([1; 32])),
                DisputeStatement::Valid(ValidDisputeStatementKind::BackingSeconded([2; 32])),
                DisputeStatement::Valid(ValidDisputeStatementKind::BackingValid([1; 32])),
                DisputeStatement::Valid(ValidDisputeStatementKind::ApprovalChecking),
                DisputeStatement::Invalid(InvalidDisputeStatementKind::Explicit),
            ] {
                payloads.push(statement_payload(&statement, CandidateHash(candidate), session));
            }
        }
    }
    let n = payloads.len();
    payloads.sort();
    payloads.dedup();
    assert_eq!(payloads.len(), n);
}

#[test]
fn maps_hold_what_was_inserted() {
    let mut map: DoubleMap<u32> = DoubleMap::new();
    let hash = |i: u8| CandidateHash([i; 32]);
    for session in 0..6 {
        for i in 0..4 {
            map.insert(session, hash(i), session * 10 + i as u32);
        }
    }
    map.insert(2, hash(3), 99);
    assert_eq!(map.len(), 24);
    assert_eq!(map.get(2, &hash(3)), Some(&99));
    assert_eq!(map.get(5, &hash(1)), Some(&51));
    assert_eq!(map.get(6, &hash(1)), None);
    assert!(map.contains_key(0, &hash(0)) && !map.contains_key(0, &hash(4)));
    map.remove_prefix(2);
    assert_eq!(map.len(), 20);
    assert_eq!(map.get(2, &hash(3)), None);
    for i in 0..map.len() {
        let (session, candidate, value) = map.entry(i);
        assert_ne!(session, 2);
        assert_eq!(*value, session * 10 + candidate.0[0] as u32);
    }
}

#[test]
fn maps_are_walked_by_the_hash_of_the_session() {
    let mut map: DoubleMap<()> = DoubleMap::new();
    for session in 0..6 {
        map.insert(session, CandidateHash([1; 32]), ());
    }
    let walked: Vec<SessionIndex> = (0..6).map(|i| map.entry(i).0).collect();
    assert_ne!(walked, vec![0, 1, 2, 3, 4, 5]);
    let mut expected: Vec<SessionIndex> = (0..6).collect();
    expected.sort_by_key(|s| s.twox_64_concat());
    assert_eq!(walked, expected);
}

#[test]
fn candidates_of_a_session_are_walked_by_their_hash() {
    let mut map: DoubleMap<()> = DoubleMap::new();
    for i in 0..8 {
        map.insert(7, CandidateHash([i; 32]), ());
    }
    let walked: Vec<u8> = (0..8).map(|i| map.entry(i).1 .0[0]).collect();
    let mut expected: Vec<u8> = (0..8).collect();
    expected.sort_by_key(|i| [*i; 32].blake2_128());
    assert_eq!(walked, expected);
    assert_ne!(walked, vec![0, 1, 2, 3, 4, 5, 6, 7]);
}

#[test]
fn spam_slots_change_one_by_one() {
    let inc = |i: u32| (ValidatorIndex(i), SpamSlotChange::Inc);
    let dec = |i: u32| (ValidatorIndex(i), SpamSlotChange::Dec);
    assert_eq!(
        apply_spam_slot_changes(vec![0, 1, 2], &vec![inc(0), dec(1), dec(1), inc(1)], 3),
        Ok(vec![1, 1, 2]),
    );
    assert_eq!(
        apply_spam_slot_changes(vec![0, 2], &vec![inc(0), inc(1)], 2),
        Err(Error::PotentialSpam),
    );
    assert_eq!(apply_spam_slot_changes(vec![5], &vec![dec(0)], 2), Ok(vec![4]));
}

#[test]
fn refused_votes_become_errors() {
    assert_eq!(
        Error::from(VoteImportError::ValidatorIndexOutOfBounds),
        Error::ValidatorIndexOutOfBounds,
    );
    assert_eq!(Error::from(VoteImportError::DuplicateStatement), Error::DuplicateStatement);
}

#[test]
fn flags_that_are_new() {
    let all = DisputeStateFlags {
        confirmed: true,
        for_supermajority: true,
        against_supermajority: true,
    };
    let some = DisputeStateFlags { for_supermajority: true, ..DisputeStateFlags::default() };
    assert_eq!(
        all.difference(some),
        DisputeStateFlags { for_supermajority: false, ..all },
    );
    assert_eq!(some.difference(all), DisputeStateFlags::default());
}

#[test]
fn records_of_votes() {
    for n in [0usize, 1, 7, 8, 9, 70] {
        let source: Vec<bool> = (0..n).map(|i| i % 3 == 0).collect();
        let record = VoteBits::from_bools(&source);
        assert_eq!(record.to_bools(), source);
        assert_eq!(record.clone(), record);
    }
}

#[test]
fn hashes_are_compared_to_the_last_byte() {
    let a = [7u8; 32];
    let mut b = a;
    assert!(same_hash(&a, &b));
    b[31] = 8;
    assert!(!same_hash(&a, &b));
}
