//! What holds of disputes whatever happens, on concrete values.
use disputes::bits::VoteBits;
use disputes::errors::{Error, VoteImportError};
use disputes::flags::DisputeStateFlags;
use disputes::hooks::{
    Config, ConsensusLog, DisputeLocation, DisputeResult, Effect, Event, PunishValidators,
};
use disputes::importer::DisputeStateImporter;
use disputes::pallet::Pallet;
use disputes::payload::statement_payload;
use disputes::primitives::{
    CandidateHash, DisputeState, DisputeStatement, DisputeStatementSet, HostConfiguration,
    InvalidDisputeStatementKind, SessionChangeNotification, SessionIndex, SessionInfo,
    SignedStatement, ValidDisputeStatementKind, ValidatorId, ValidatorIndex, ValidatorSignature,
};
use disputes::thresholds::{byzantine_threshold, supermajority_threshold};
use disputes::weights::DbWeight;
use sp_core::sr25519::Pair;
use sp_core::Pair as PairTrait;
use std::collections::BTreeMap;

#[derive(PartialEq, Eq, Debug)]
struct Test;

struct NoPunishments;

impl PunishValidators for NoPunishments {
    fn punish_for_invalid(&mut self, _: SessionIndex, _: Vec<ValidatorIndex>) {}
    fn punish_against_valid(&mut self, _: SessionIndex, _: Vec<ValidatorIndex>) {}
    fn punish_inconclusive(&mut self, _: SessionIndex, _: Vec<ValidatorIndex>) {}
}

impl Config for Test {
    type BlockNumber = u32;
    type RewardValidators = ();
    type PunishValidators = NoPunishments;
}

const FREE: DbWeight = DbWeight { read: 0, write: 0 };

fn config() -> HostConfiguration<u32> {
    HostConfiguration {
        dispute_period: 6,
        dispute_post_conclusion_acceptance_period: 100,
        dispute_max_spam_slots: 2,
        dispute_conclusion_by_time_out_period: 200,
    }
}

fn bits(of: &[u8]) -> VoteBits {
    VoteBits::from_bools(&of.iter().map(|b| *b == 1).collect())
}

fn dispute(votes_for: &[u8], votes_against: &[u8]) -> DisputeState<u32> {
    DisputeState {
        validators_for: bits(votes_for),
        validators_against: bits(votes_against),
        start: 0,
        concluded_at: None,
    }
}

fn hash(of: u8) -> CandidateHash {
    CandidateHash([of; 32])
}

fn validators(n: usize) -> Vec<Pair> {
    (0..n).map(|_| Pair::generate().0).collect()
}

fn session(pairs: &[Pair]) -> SessionInfo {
    SessionInfo { validators: pairs.iter().map(|p| ValidatorId(p.public().0)).collect() }
}

fn vote(pairs: &[Pair], by: usize, valid: bool, of: u8, session: SessionIndex) -> SignedStatement {
    let statement = if valid {
        DisputeStatement::Valid(ValidDisputeStatementKind::Explicit)
    } else {
        DisputeStatement::Invalid(InvalidDisputeStatementKind::Explicit)
    };
    let payload = statement_payload(&statement, hash(of), session);
    (statement, ValidatorIndex(by as u32), ValidatorSignature(pairs[by].sign(&payload[..]).0))
}

fn votes(
    pairs: &[Pair],
    of: u8,
    session: SessionIndex,
    by: &[(usize, bool)],
) -> DisputeStatementSet {
    DisputeStatementSet {
        candidate_hash: hash(of),
        session,
        statements: by.iter().map(|(i, valid)| vote(pairs, *i, *valid, of, session)).collect(),
    }
}

// Whether each validator occupies one slot for each dispute that is on a
// candidate not included, not confirmed and not concluded.
fn counts_spam(pallet: &Pallet<Test>, session: SessionIndex, n: usize) -> bool {
    let mut expected = vec![0u32; n];
    for (s, h, d) in pallet.disputes() {
        let confirmed = DisputeStateFlags::from_state(&d).confirmed;
        if s == session
            && !confirmed
            && d.concluded_at.is_none()
            && !pallet.included.contains_key(s, &h)
        {
            let votes_for = d.validators_for.to_bools();
            let votes_against = d.validators_against.to_bools();
            for i in 0..n {
                if votes_for[i] || votes_against[i] {
                    expected[i] += 1;
                }
            }
        }
    }
    match pallet.spam_slots.get(&session) {
        Some(slots) => *slots == expected,
        None => expected.iter().all(|e| *e == 0),
    }
}

fn conclusions(pallet: &Pallet<Test>, result: DisputeResult) -> usize {
    pallet
        .effects
        .iter()
        .filter(|e| match e {
            Effect::Event(Event::DisputeConcluded(_, r)) => *r == result,
            _ => false,
        })
        .count()
}

fn reversions(pallet: &Pallet<Test>) -> Vec<ConsensusLog> {
    let mut r = Vec::new();
    for e in &pallet.effects {
        if let Effect::Log(l) = e {
            r.push(*l);
        }
    }
    r
}

#[test]
fn a_third_at_most_may_be_faulty() {
    for n in 1..200usize {
        let f = byzantine_threshold(n);
        assert!((1..=3).contains(&(n - 3 * f)));
        assert!(3 * supermajority_threshold(n) > 2 * n);
        assert_eq!(supermajority_threshold(n) + f, n);
    }
}

#[test]
fn two_conclusions_need_votes_both_ways() {
    let both = dispute(&[1, 1, 1, 1, 1, 0, 0], &[0, 0, 1, 1, 1, 1, 1]);
    let flags = DisputeStateFlags::from_state(&both);
    assert!(flags.for_supermajority && flags.against_supermajority && flags.confirmed);
    let overlap = both
        .validators_for
        .to_bools()
        .iter()
        .zip(both.validators_against.to_bools())
        .filter(|(a, b)| **a && *b)
        .count();
    assert_eq!(overlap, byzantine_threshold(7) + 1);
}

#[test]
fn an_empty_validator_set_has_reached_everything_but_confirmation() {
    let flags = DisputeStateFlags::from_state(&dispute(&[], &[]));
    assert!(flags.for_supermajority && flags.against_supermajority && !flags.confirmed);
}

#[test]
fn records_of_different_lengths() {
    // The against side counts only as far as the for side reaches.
    let flags = DisputeStateFlags::from_state(&dispute(&[1, 0, 0, 0], &[0, 1]));
    assert!(flags.confirmed);
    let flags = DisputeStateFlags::from_state(&dispute(&[1], &[0, 1, 1, 1]));
    assert!(flags.confirmed && flags.for_supermajority && flags.against_supermajority);

    // The other side has no bit: the vote counts, but not as a new participant.
    let mut importer = DisputeStateImporter::new(dispute(&[0, 0], &[0]), 1);
    assert_eq!(importer.import(ValidatorIndex(1), true), Ok(()));
    let summary = importer.finish();
    assert_eq!(summary.new_participants.to_bools(), vec![false, false]);

    // No room among the new participants.
    let mut importer = DisputeStateImporter::new(dispute(&[0], &[0, 0]), 1);
    assert_eq!(
        importer.import(ValidatorIndex(1), false),
        Err(VoteImportError::ValidatorIndexOutOfBounds),
    );
}

#[test]
fn a_vote_is_taken_once() {
    let mut importer = DisputeStateImporter::new(dispute(&[0, 0], &[0, 0]), 1);
    assert_eq!(importer.import(ValidatorIndex(1), true), Ok(()));
    assert_eq!(
        importer.import(ValidatorIndex(1), true),
        Err(VoteImportError::DuplicateStatement),
    );
    assert_eq!(importer.import(ValidatorIndex(1), false), Ok(()));
    let summary = importer.finish();
    assert_eq!(summary.new_participants.to_bools(), vec![false, true]);
    assert_eq!(summary.state, DisputeState { start: 0, ..dispute(&[0, 1], &[0, 1]) });
}

#[test]
fn votes_are_recorded_and_rewarded_once() {
    let v = validators(4);
    let sessions = BTreeMap::from([(1, session(&v))]);
    let mut pallet: Pallet<Test> = Pallet::new();
    let set = votes(&v, 1, 1, &[(0, true), (3, false)]);
    assert_eq!(pallet.provide_dispute_data(&config(), 5, &sessions, &set), Ok(true));
    let set = votes(&v, 1, 1, &[(0, false), (1, false)]);
    assert_eq!(pallet.provide_dispute_data(&config(), 6, &sessions, &set), Ok(false));

    let stored = pallet.disputes.get(1, &hash(1)).unwrap();
    assert_eq!(stored.validators_for.to_bools(), vec![true, false, false, false]);
    assert_eq!(stored.validators_against.to_bools(), vec![true, true, false, true]);
    assert_eq!(stored.start, 5);
    assert_eq!(stored.concluded_at, Some(6));
    assert_eq!(
        pallet.effects,
        vec![
            Effect::Event(Event::DisputeInitiated(hash(1), DisputeLocation::Remote)),
            Effect::RewardDisputeStatement(1, vec![ValidatorIndex(0), ValidatorIndex(3)]),
            Effect::PunishAgainstValid(1, vec![]),
            Effect::PunishForInvalid(1, vec![]),
            Effect::Event(Event::DisputeConcluded(hash(1), DisputeResult::Invalid)),
            Effect::RewardDisputeStatement(1, vec![ValidatorIndex(1)]),
            Effect::PunishAgainstValid(1, vec![]),
            Effect::PunishForInvalid(1, vec![ValidatorIndex(0)]),
        ],
    );
}

#[test]
fn a_dispute_concludes_once_in_each_direction() {
    let v = validators(4);
    let sessions = BTreeMap::from([(1, session(&v))]);
    let mut pallet: Pallet<Test> = Pallet::new();
    let provide = |pallet: &mut Pallet<Test>, now: u32, by: &[(usize, bool)]| {
        pallet.provide_dispute_data(&config(), now, &sessions, &votes(&v, 1, 1, by))
    };
    assert_eq!(provide(&mut pallet, 1, &[(0, true), (1, true), (2, true)]), Ok(true));
    assert_eq!(conclusions(&pallet, DisputeResult::Valid), 1);
    assert_eq!(provide(&mut pallet, 2, &[(3, true)]), Ok(false));
    assert_eq!(conclusions(&pallet, DisputeResult::Valid), 1);
    assert_eq!(provide(&mut pallet, 3, &[(0, false), (1, false)]), Ok(false));
    assert_eq!(conclusions(&pallet, DisputeResult::Invalid), 0);
    assert_eq!(provide(&mut pallet, 4, &[(2, false), (3, false)]), Ok(false));
    assert_eq!(conclusions(&pallet, DisputeResult::Valid), 1);
    assert_eq!(conclusions(&pallet, DisputeResult::Invalid), 1);
    // The first conclusion stands.
    assert_eq!(pallet.disputes.get(1, &hash(1)).unwrap().concluded_at, Some(1));
}

#[test]
fn spam_slots_count_potential_spam() {
    let v = validators(7);
    let sessions = BTreeMap::from([(1, session(&v)), (2, session(&v))]);
    let mut pallet: Pallet<Test> = Pallet::new();
    let mut provide = |pallet: &mut Pallet<Test>, set: DisputeStatementSet| {
        assert!(pallet.provide_dispute_data(&config(), 1, &sessions, &set).is_ok());
        assert!(counts_spam(pallet, 1, 7));
        assert!(counts_spam(pallet, 2, 7));
    };
    provide(&mut pallet, votes(&v, 1, 1, &[(0, true), (1, false)]));
    assert_eq!(pallet.spam_slots[&1], vec![1, 1, 0, 0, 0, 0, 0]);
    provide(&mut pallet, votes(&v, 2, 1, &[(1, true)]));
    assert_eq!(pallet.spam_slots[&1], vec![1, 2, 0, 0, 0, 0, 0]);
    provide(&mut pallet, votes(&v, 1, 2, &[(1, true)]));
    // A voter who changes sides occupies no further slot.
    provide(&mut pallet, votes(&v, 1, 1, &[(0, false)]));
    assert_eq!(pallet.spam_slots[&1], vec![1, 2, 0, 0, 0, 0, 0]);
    // A third participant confirms the dispute.
    provide(&mut pallet, votes(&v, 1, 1, &[(5, false)]));
    assert_eq!(pallet.spam_slots[&1], vec![0, 1, 0, 0, 0, 0, 0]);
    // Inclusion makes a dispute local.
    pallet.note_included(1, hash(2), 1);
    assert!(counts_spam(&pallet, 1, 7));
    assert_eq!(pallet.spam_slots[&1], vec![0, 0, 0, 0, 0, 0, 0]);
    provide(&mut pallet, votes(&v, 2, 1, &[(4, true)]));
    assert_eq!(pallet.spam_slots[&1], vec![0, 0, 0, 0, 0, 0, 0]);
    // Time runs out for the last one.
    assert_eq!(pallet.spam_slots[&2], vec![0, 1, 0, 0, 0, 0, 0]);
    pallet.initializer_initialize(&config(), FREE, 202);
    assert!(counts_spam(&pallet, 1, 7) && counts_spam(&pallet, 2, 7));
    assert_eq!(pallet.spam_slots[&2], vec![0, 0, 0, 0, 0, 0, 0]);
    // Sessions are dropped.
    pallet.initializer_on_new_session(
        &config(),
        &SessionChangeNotification { session_index: 8 },
    );
    assert!(pallet.spam_slots.get(&1).is_none());
    assert!(counts_spam(&pallet, 1, 7) && counts_spam(&pallet, 2, 7));
}

#[test]
fn spam_slots_are_limited() {
    let v = validators(4);
    let sessions = BTreeMap::from([(1, session(&v))]);
    let mut pallet: Pallet<Test> = Pallet::new();
    for of in 1..=2 {
        let set = votes(&v, of, 1, &[(2, true)]);
        assert_eq!(pallet.provide_dispute_data(&config(), 1, &sessions, &set), Ok(true));
    }
    let set = votes(&v, 3, 1, &[(2, true)]);
    let effects = pallet.effects.len();
    assert_eq!(
        pallet.provide_dispute_data(&config(), 1, &sessions, &set),
        Err(Error::PotentialSpam),
    );
    assert_eq!(pallet.spam_slots[&1], vec![0, 0, 2, 0]);
    assert_eq!(pallet.disputes.len(), 2);
    assert_eq!(pallet.effects.len(), effects);
    // An included candidate does not count.
    pallet.note_included(1, hash(3), 1);
    assert_eq!(pallet.provide_dispute_data(&config(), 1, &sessions, &set), Ok(true));
    assert_eq!(pallet.spam_slots[&1], vec![0, 0, 2, 0]);
}

#[test]
fn the_chain_reverts_once() {
    let v = validators(1);
    let sessions = BTreeMap::from([(1, session(&v))]);
    let mut pallet: Pallet<Test> = Pallet::new();
    pallet.note_included(1, hash(1), 8);
    pallet.note_included(1, hash(2), 9);
    let set = votes(&v, 1, 1, &[(0, false)]);
    assert_eq!(pallet.provide_dispute_data(&config(), 10, &sessions, &set), Ok(true));
    assert!(pallet.is_frozen());
    assert_eq!(reversions(&pallet), vec![ConsensusLog::RevertTo(7)]);
    let set = votes(&v, 2, 1, &[(0, false)]);
    assert_eq!(pallet.provide_dispute_data(&config(), 10, &sessions, &set), Ok(true));
    pallet.note_included(1, hash(2), 9);
    pallet.initializer_initialize(&config(), FREE, 1000);
    pallet.initializer_on_new_session(
        &config(),
        &SessionChangeNotification { session_index: 8 },
    );
    pallet.initializer_finalize();
    assert!(pallet.is_frozen());
    assert_eq!(reversions(&pallet), vec![ConsensusLog::RevertTo(7)]);
}

#[test]
fn the_genesis_block_includes_nothing() {
    let mut pallet: Pallet<Test> = Pallet::new();
    pallet.note_included(1, hash(1), 0);
    assert_eq!(pallet.included.len(), 0);
    pallet.note_included(1, hash(1), 1);
    assert_eq!(pallet.included.get(1, &hash(1)), Some(&0));
}

#[test]
fn blocks_conclude_what_is_overdue() {
    let mut pallet: Pallet<Test> = Pallet::new();
    let started = |start: u32| DisputeState { start, ..dispute(&[1, 0, 0, 0], &[0, 0, 0, 0]) };
    pallet.disputes.insert(1, hash(1), started(9));
    pallet.disputes.insert(1, hash(2), started(10));
    pallet.disputes.insert(
        1,
        hash(3),
        DisputeState { concluded_at: Some(3), ..started(1) },
    );
    pallet.initializer_initialize(&config(), FREE, 210);
    assert_eq!(pallet.disputes.get(1, &hash(1)).unwrap().concluded_at, Some(210));
    assert_eq!(pallet.disputes.get(1, &hash(2)).unwrap().concluded_at, None);
    assert_eq!(pallet.disputes.get(1, &hash(3)).unwrap().concluded_at, Some(3));
    // No spam slots are recorded, so nobody is punished.
    assert_eq!(pallet.effects, vec![Effect::Event(Event::DisputeTimedOut(hash(1)))]);
    pallet.initializer_initialize(&config(), FREE, 210);
    assert_eq!(pallet.effects.len(), 1);
}

#[test]
fn blocks_weigh_their_database_accesses() {
    let weight = DbWeight { read: 10, write: 100 };
    let mut pallet: Pallet<Test> = Pallet::new();
    assert_eq!(pallet.initializer_initialize(&config(), weight, 300), 0);
    pallet.disputes.insert(1, hash(1), dispute(&[1], &[0]));
    assert_eq!(pallet.initializer_initialize(&config(), weight, 200), 10);
    assert_eq!(pallet.initializer_initialize(&config(), weight, 201), 10 + 220);
    assert_eq!(pallet.initializer_initialize(&config(), weight, 202), 10);
    pallet.disputes.insert(1, hash(2), dispute(&[1], &[0]));
    pallet.note_included(1, hash(2), 1);
    assert_eq!(pallet.initializer_initialize(&config(), weight, 203), 10 + 10 + 110);
    let heavy = DbWeight { read: u64::MAX, write: 1 };
    assert_eq!(pallet.initializer_initialize(&config(), heavy, 204), u64::MAX);
}

#[test]
fn sessions_are_pruned_one_after_the_other() {
    let mut pallet: Pallet<Test> = Pallet::new();
    for s in 0..10 {
        pallet.disputes.insert(s, hash(1), dispute(&[1], &[0]));
        pallet.note_included(s, hash(1), 1);
        pallet.spam_slots.insert(s, vec![0]);
    }
    let config = HostConfiguration { dispute_period: 2, ..config() };
    let to = |session_index: SessionIndex| SessionChangeNotification { session_index };
    let kept = |pallet: &Pallet<Test>| -> Vec<SessionIndex> {
        assert_eq!(pallet.disputes.len(), pallet.included.len());
        assert_eq!(pallet.disputes.len(), pallet.spam_slots.len());
        pallet.spam_slots.keys().cloned().collect()
    };
    pallet.initializer_on_new_session(&config, &to(3));
    assert_eq!(kept(&pallet), vec![0, 1, 2, 3, 4, 5, 6, 7, 8, 9]);
    assert_eq!(pallet.last_pruned_session, None);
    // The first time, a single session goes.
    pallet.initializer_on_new_session(&config, &to(4));
    assert_eq!(kept(&pallet), vec![0, 2, 3, 4, 5, 6, 7, 8, 9]);
    assert_eq!(pallet.last_pruned_session, Some(1));
    // Sessions that were skipped go as well.
    pallet.initializer_on_new_session(&config, &to(7));
    assert_eq!(kept(&pallet), vec![0, 5, 6, 7, 8, 9]);
    assert_eq!(pallet.last_pruned_session, Some(4));
    let endless = HostConfiguration { dispute_period: SessionIndex::MAX, ..config };
    pallet.initializer_on_new_session(&endless, &to(SessionIndex::MAX));
    assert_eq!(kept(&pallet), vec![0, 5, 6, 7, 8, 9]);
}

#[test]
fn fresh_disputes_are_those_without_one() {
    let v = validators(4);
    let sessions = BTreeMap::from([(1, session(&v)), (2, session(&v))]);
    let mut pallet: Pallet<Test> = Pallet::new();
    let sets = vec![votes(&v, 1, 1, &[(0, true)]), votes(&v, 1, 2, &[(0, true)])];
    assert_eq!(
        pallet.provide_multi_dispute_data(&config(), 1, &sessions, sets),
        Ok(vec![(1, hash(1)), (2, hash(1))]),
    );
    let sets = vec![
        votes(&v, 2, 1, &[(1, true)]),
        votes(&v, 1, 1, &[(1, true)]),
        votes(&v, 2, 2, &[]),
    ];
    assert_eq!(
        pallet.provide_multi_dispute_data(&config(), 1, &sessions, sets),
        Ok(vec![(1, hash(2)), (2, hash(2))]),
    );
    assert_eq!(pallet.disputes.len(), 4);
}

#[test]
fn a_refused_set_stops_those_behind_it() {
    let v = validators(4);
    let sessions = BTreeMap::from([(1, session(&v))]);
    let mut pallet: Pallet<Test> = Pallet::new();
    let sets = vec![
        votes(&v, 1, 1, &[(0, true)]),
        votes(&v, 2, 1, &[(0, true), (0, true)]),
        votes(&v, 3, 1, &[(0, true)]),
    ];
    assert_eq!(
        pallet.provide_multi_dispute_data(&config(), 1, &sessions, sets),
        Err(Error::DuplicateStatement),
    );
    assert!(pallet.disputes.contains_key(1, &hash(1)));
    assert!(!pallet.disputes.contains_key(1, &hash(2)));
    assert!(!pallet.disputes.contains_key(1, &hash(3)));
}

#[test]
fn statements_are_refused_with_a_reason() {
    let v = validators(2);
    let sessions = BTreeMap::from([(1, session(&v))]);
    let mut pallet: Pallet<Test> = Pallet::new();
    let no_session = votes(&v, 1, 2, &[(0, true)]);
    assert_eq!(
        pallet.provide_dispute_data(&config(), 1, &sessions, &no_session),
        Err(Error::AncientDisputeStatement),
    );
    let mut out_of_bounds = votes(&v, 1, 1, &[(0, true)]);
    out_of_bounds.statements[0].1 = ValidatorIndex(2);
    assert_eq!(
        pallet.provide_dispute_data(&config(), 1, &sessions, &out_of_bounds),
        Err(Error::ValidatorIndexOutOfBounds),
    );
    let mut forged = votes(&v, 1, 1, &[(0, true)]);
    forged.statements[0].1 = ValidatorIndex(1);
    assert_eq!(
        pallet.provide_dispute_data(&config(), 1, &sessions, &forged),
        Err(Error::InvalidSignature),
    );
    let mut other_side = votes(&v, 1, 1, &[(0, true)]);
    other_side.statements[0].0 = DisputeStatement::Invalid(InvalidDisputeStatementKind::Explicit);
    assert_eq!(
        pallet.provide_dispute_data(&config(), 1, &sessions, &other_side),
        Err(Error::InvalidSignature),
    );
    assert_eq!(pallet, Pallet::new());
}

#[test]
fn old_conclusions_take_no_more_statements() {
    let v = validators(2);
    let sessions = BTreeMap::from([(1, session(&v))]);
    let concluded = || DisputeState { concluded_at: Some(50), ..dispute(&[0, 0], &[0, 0]) };
    let set = votes(&v, 1, 1, &[(0, true)]);
    let mut pallet: Pallet<Test> = Pallet::new();
    pallet.disputes.insert(1, hash(1), concluded());
    assert_eq!(
        pallet.provide_dispute_data(&config(), 151, &sessions, &set),
        Err(Error::AncientDisputeStatement),
    );
    assert_eq!(pallet.provide_dispute_data(&config(), 150, &sessions, &set), Ok(false));
    let mut young: Pallet<Test> = Pallet::new();
    young.disputes.insert(1, hash(1), concluded());
    assert_eq!(young.provide_dispute_data(&config(), 3, &sessions, &set), Ok(false));
}

#[test]
fn a_spam_slot_for_each_vote() {
    let mut pallet: Pallet<Test> = Pallet::new();
    assert!(pallet.covers(1, 3));
    pallet.disputes.insert(1, hash(1), dispute(&[0, 0, 0], &[0, 0, 0]));
    assert!(pallet.covers(1, 3));
    assert!(!pallet.covers(1, 2));
    pallet.spam_slots.insert(1, vec![0, 0]);
    assert!(!pallet.covers(1, 2));
    pallet.spam_slots.insert(1, vec![0, 0, 0]);
    assert!(pallet.covers(1, 2) && pallet.covers(1, 3) && !pallet.covers(1, 4));
}

#[test]
fn a_lost_candidate_stays_suspect() {
    let v = validators(4);
    let sessions = BTreeMap::from([(1, session(&v))]);
    let mut pallet: Pallet<Test> = Pallet::new();
    assert!(!pallet.could_be_invalid(1, hash(1)));
    let lost = votes(&v, 1, 1, &[(0, false), (1, false), (2, false)]);
    assert_eq!(pallet.provide_dispute_data(&config(), 1, &sessions, &lost), Ok(true));
    assert!(pallet.could_be_invalid(1, hash(1)));
    let defended = votes(&v, 1, 1, &[(0, true), (1, true), (2, true), (3, true)]);
    assert_eq!(pallet.provide_dispute_data(&config(), 2, &sessions, &defended), Ok(false));
    assert!(pallet.could_be_invalid(1, hash(1)));
    // One that has timed out is not suspect any more.
    let ongoing = votes(&v, 2, 1, &[(0, false)]);
    assert_eq!(pallet.provide_dispute_data(&config(), 2, &sessions, &ongoing), Ok(true));
    assert!(pallet.could_be_invalid(1, hash(2)));
    pallet.initializer_initialize(&config(), FREE, 203);
    assert!(!pallet.could_be_invalid(1, hash(2)));
}

#[test]
fn operations_leave_a_slot_for_everyone() {
    let v = validators(4);
    let sessions = BTreeMap::from([(1, session(&v))]);
    let mut pallet: Pallet<Test> = Pallet::new();
    let set = votes(&v, 1, 1, &[(0, true)]);
    assert_eq!(pallet.provide_dispute_data(&config(), 1, &sessions, &set), Ok(true));
    assert!(pallet.covers(1, 4) && !pallet.covers(1, 5));
    pallet.note_included(1, hash(1), 1);
    assert!(pallet.covers(1, 4) && !pallet.covers(1, 5));
    pallet.initializer_initialize(&config(), FREE, 300);
    assert!(pallet.covers(1, 4) && !pallet.covers(1, 5));
    pallet.initializer_on_new_session(
        &config(),
        &SessionChangeNotification { session_index: 8 },
    );
    assert!(pallet.covers(1, 4) && pallet.covers(1, 5));
}
