//! Thresholds, flags, the import of votes, spam slots and signatures.
use disputes::bits::VoteBits;
use disputes::errors::VoteImportError;
use disputes::flags::{has_supermajority_against, DisputeStateFlags};
use disputes::importer::{DisputeStateImporter, SpamSlotChange};
use disputes::payload::{
    ApprovalVote, CompactStatement, ExplicitDisputeStatement, SigningContext,
};
use disputes::primitives::{
    CandidateHash, DisputeState, DisputeStatement, InvalidDisputeStatementKind,
    ValidDisputeStatementKind, ValidatorId, ValidatorIndex, ValidatorSignature,
};
use disputes::signature::check_signature;
use disputes::spam::decrement_spam;
use disputes::thresholds::{byzantine_threshold, supermajority_threshold};
use sp_core::sr25519::Pair;
use sp_core::Pair as PairTrait;

fn bits(of: &[u8]) -> VoteBits {
    VoteBits::from_bools(&of.iter().map(|b| *b == 1).collect())
}

fn flags(
    confirmed: bool,
    for_supermajority: bool,
    against_supermajority: bool,
) -> DisputeStateFlags {
    DisputeStateFlags { confirmed, for_supermajority, against_supermajority }
}

fn id(pair: &Pair) -> ValidatorId {
    ValidatorId(pair.public().0)
}

fn sign(pair: &Pair, payload: &Vec<u8>) -> ValidatorSignature {
    ValidatorSignature(pair.sign(&payload[..]).0)
}

#[test]
fn test_byzantine_threshold() {
    assert_eq!(byzantine_threshold(0), 0);
    assert_eq!(byzantine_threshold(1), 0);
    assert_eq!(byzantine_threshold(2), 0);
    assert_eq!(byzantine_threshold(3), 0);
    assert_eq!(byzantine_threshold(4), 1);
    assert_eq!(byzantine_threshold(5), 1);
    assert_eq!(byzantine_threshold(6), 1);
    assert_eq!(byzantine_threshold(7), 2);
}

#[test]
fn test_supermajority_threshold() {
    assert_eq!(supermajority_threshold(0), 0);
    assert_eq!(supermajority_threshold(1), 1);
    assert_eq!(supermajority_threshold(2), 2);
    assert_eq!(supermajority_threshold(3), 3);
    assert_eq!(supermajority_threshold(4), 3);
    assert_eq!(supermajority_threshold(5), 4);
    assert_eq!(supermajority_threshold(6), 5);
    assert_eq!(supermajority_threshold(7), 5);
}

#[test]
fn test_dispute_state_flag_from_state() {
    assert_eq!(
        DisputeStateFlags::from_state(&DisputeState {
            validators_for: bits(&[0, 0, 0, 0, 0, 0, 0, 0]),
            validators_against: bits(&[0, 0, 0, 0, 0, 0, 0, 0]),
            start: 0,
            concluded_at: None,
        }),
        DisputeStateFlags::default(),
    );

    assert_eq!(
        DisputeStateFlags::from_state(&DisputeState {
            validators_for: bits(&[1, 1, 1, 1, 1, 0, 0]),
            validators_against: bits(&[0, 0, 0, 0, 0, 0, 0]),
            start: 0,
            concluded_at: None,
        }),
        flags(true, true, false),
    );

    assert_eq!(
        DisputeStateFlags::from_state(&DisputeState {
            validators_for: bits(&[0, 0, 0, 0, 0, 0, 0]),
            validators_against: bits(&[1, 1, 1, 1, 1, 0, 0]),
            start: 0,
            concluded_at: None,
        }),
        flags(true, false, true),
    );
}

#[test]
fn test_import_new_participant_spam_inc() {
    let mut importer = DisputeStateImporter::new(
        DisputeState {
            validators_for: bits(&[1, 0, 0, 0, 0, 0, 0, 0]),
            validators_against: bits(&[0, 0, 0, 0, 0, 0, 0, 0]),
            start: 0,
            concluded_at: None,
        },
        0,
    );

    assert_eq!(importer.import(ValidatorIndex(9), true), Err(VoteImportError::ValidatorIndexOutOfBounds));

    assert_eq!(importer.import(ValidatorIndex(0), true), Err(VoteImportError::DuplicateStatement));
    assert_eq!(importer.import(ValidatorIndex(0), false), Ok(()));

    assert_eq!(importer.import(ValidatorIndex(2), true), Ok(()));
    assert_eq!(importer.import(ValidatorIndex(2), true), Err(VoteImportError::DuplicateStatement));

    assert_eq!(importer.import(ValidatorIndex(2), false), Ok(()));
    assert_eq!(importer.import(ValidatorIndex(2), false), Err(VoteImportError::DuplicateStatement));

    let summary = importer.finish();
    assert_eq!(summary.new_flags, DisputeStateFlags::default());
    assert_eq!(
        summary.state,
        DisputeState {
            validators_for: bits(&[1, 0, 1, 0, 0, 0, 0, 0]),
            validators_against: bits(&[1, 0, 1, 0, 0, 0, 0, 0]),
            start: 0,
            concluded_at: None,
        },
    );
    assert_eq!(
        summary.spam_slot_changes,
        vec![(ValidatorIndex(2), SpamSlotChange::Inc)],
    );
    assert!(summary.slash_for.is_empty());
    assert!(summary.slash_against.is_empty());
    assert_eq!(summary.new_participants, bits(&[0, 0, 1, 0, 0, 0, 0, 0]));
}

#[test]
fn test_import_prev_participant_spam_dec_confirmed() {
    let mut importer = DisputeStateImporter::new(
        DisputeState {
            validators_for: bits(&[1, 0, 0, 0, 0, 0, 0, 0]),
            validators_against: bits(&[0, 1, 0, 0, 0, 0, 0, 0]),
            start: 0,
            concluded_at: None,
        },
        0,
    );

    assert_eq!(importer.import(ValidatorIndex(2), true), Ok(()));

    let summary = importer.finish();
    assert_eq!(
        summary.state,
        DisputeState {
            validators_for: bits(&[1, 0, 1, 0, 0, 0, 0, 0]),
            validators_against: bits(&[0, 1, 0, 0, 0, 0, 0, 0]),
            start: 0,
            concluded_at: None,
        },
    );
    assert_eq!(
        summary.spam_slot_changes,
        vec![
            (ValidatorIndex(0), SpamSlotChange::Dec),
            (ValidatorIndex(1), SpamSlotChange::Dec),
        ],
    );
    assert!(summary.slash_for.is_empty());
    assert!(summary.slash_against.is_empty());
    assert_eq!(summary.new_participants, bits(&[0, 0, 1, 0, 0, 0, 0, 0]));
    assert_eq!(summary.new_flags, flags(true, false, false));
}

#[test]
fn test_import_prev_participant_spam_dec_confirmed_slash_for() {
    let mut importer = DisputeStateImporter::new(
        DisputeState {
            validators_for: bits(&[1, 0, 0, 0, 0, 0, 0, 0]),
            validators_against: bits(&[0, 1, 0, 0, 0, 0, 0, 0]),
            start: 0,
            concluded_at: None,
        },
        0,
    );

    assert_eq!(importer.import(ValidatorIndex(2), true), Ok(()));
    assert_eq!(importer.import(ValidatorIndex(2), false), Ok(()));
    assert_eq!(importer.import(ValidatorIndex(3), false), Ok(()));
    assert_eq!(importer.import(ValidatorIndex(4), false), Ok(()));
    assert_eq!(importer.import(ValidatorIndex(5), false), Ok(()));
    assert_eq!(importer.import(ValidatorIndex(6), false), Ok(()));

    let summary = importer.finish();
    assert_eq!(
        summary.state,
        DisputeState {
            validators_for: bits(&[1, 0, 1, 0, 0, 0, 0, 0]),
            validators_against: bits(&[0, 1, 1, 1, 1, 1, 1, 0]),
            start: 0,
            concluded_at: Some(0),
        },
    );
    assert_eq!(
        summary.spam_slot_changes,
        vec![
            (ValidatorIndex(0), SpamSlotChange::Dec),
            (ValidatorIndex(1), SpamSlotChange::Dec),
        ],
    );
    assert_eq!(summary.slash_for, vec![ValidatorIndex(0), ValidatorIndex(2)]);
    assert!(summary.slash_against.is_empty());
    assert_eq!(summary.new_participants, bits(&[0, 0, 1, 1, 1, 1, 1, 0]));
    assert_eq!(
        summary.new_flags,
        flags(true, false, true),
    );
}

#[test]
fn test_import_slash_against() {
    let mut importer = DisputeStateImporter::new(
        DisputeState {
            validators_for: bits(&[1, 0, 1, 0, 0, 0, 0, 0]),
            validators_against: bits(&[0, 1, 0, 0, 0, 0, 0, 0]),
            start: 0,
            concluded_at: None,
        },
        0,
    );

    assert_eq!(importer.import(ValidatorIndex(3), true), Ok(()));
    assert_eq!(importer.import(ValidatorIndex(4), true), Ok(()));
    assert_eq!(importer.import(ValidatorIndex(5), false), Ok(()));
    assert_eq!(importer.import(ValidatorIndex(6), true), Ok(()));
    assert_eq!(importer.import(ValidatorIndex(7), true), Ok(()));

    let summary = importer.finish();
    assert_eq!(
        summary.state,
        DisputeState {
            validators_for: bits(&[1, 0, 1, 1, 1, 0, 1, 1]),
            validators_against: bits(&[0, 1, 0, 0, 0, 1, 0, 0]),
            start: 0,
            concluded_at: Some(0),
        },
    );
    assert!(summary.spam_slot_changes.is_empty());
    assert!(summary.slash_for.is_empty());
    assert_eq!(summary.slash_against, vec![ValidatorIndex(1), ValidatorIndex(5)]);
    assert_eq!(summary.new_participants, bits(&[0, 0, 0, 1, 1, 1, 1, 1]));
    assert_eq!(summary.new_flags, flags(false, true, false));
}

#[test]
fn test_has_supermajority_against() {
    assert_eq!(
        has_supermajority_against(&DisputeState {
            validators_for: bits(&[1, 1, 0, 0, 0, 0, 0, 0]),
            validators_against: bits(&[1, 1, 1, 1, 1, 0, 0, 0]),
            start: 0,
            concluded_at: None,
        }),
        false,
    );

    assert_eq!(
        has_supermajority_against(&DisputeState {
            validators_for: bits(&[1, 1, 0, 0, 0, 0, 0, 0]),
            validators_against: bits(&[1, 1, 1, 1, 1, 1, 0, 0]),
            start: 0,
            concluded_at: None,
        }),
        true,
    );
}

#[test]
fn test_decrement_spam() {
    let original_spam_slots = vec![0, 1, 2, 3, 4, 5, 6, 7];

    // Test confirm is no-op
    let mut spam_slots = original_spam_slots.clone();
    let dispute_state_confirm = DisputeState {
        validators_for: bits(&[1, 1, 0, 0, 0, 0, 0, 0]),
        validators_against: bits(&[1, 0, 1, 0, 0, 0, 0, 0]),
        start: 0,
        concluded_at: None,
    };
    assert_eq!(
        DisputeStateFlags::from_state(&dispute_state_confirm),
        flags(true, false, false)
    );
    assert_eq!(
        decrement_spam(spam_slots.as_mut(), &dispute_state_confirm),
        bits(&[1, 1, 1, 0, 0, 0, 0, 0]),
    );
    assert_eq!(spam_slots, original_spam_slots);

    // Test not confirm is decreasing spam
    let mut spam_slots = original_spam_slots.clone();
    let dispute_state_no_confirm = DisputeState {
        validators_for: bits(&[1, 0, 0, 0, 0, 0, 0, 0]),
        validators_against: bits(&[1, 0, 1, 0, 0, 0, 0, 0]),
        start: 0,
        concluded_at: None,
    };
    assert_eq!(
        DisputeStateFlags::from_state(&dispute_state_no_confirm),
        DisputeStateFlags::default()
    );
    assert_eq!(
        decrement_spam(spam_slots.as_mut(), &dispute_state_no_confirm),
        bits(&[1, 0, 1, 0, 0, 0, 0, 0]),
    );
    assert_eq!(spam_slots, vec![0, 1, 1, 3, 4, 5, 6, 7]);
}

#[test]
fn test_check_signature() {
    let validator_id = Pair::generate().0;
    let wrong_validator_id = Pair::generate().0;

    let session = 0;
    let wrong_session = 1;
    let candidate_hash = CandidateHash([1u8; 32]);
    let wrong_candidate_hash = CandidateHash([2u8; 32]);
    let inclusion_parent = [3u8; 32];
    let wrong_inclusion_parent = [4u8; 32];

    let statement_1 = DisputeStatement::Valid(ValidDisputeStatementKind::Explicit);
    let statement_2 = DisputeStatement::Valid(
        ValidDisputeStatementKind::BackingSeconded(inclusion_parent.clone())
    );
    let wrong_statement_2 = DisputeStatement::Valid(
        ValidDisputeStatementKind::BackingSeconded(wrong_inclusion_parent.clone())
    );
    let statement_3 = DisputeStatement::Valid(
        ValidDisputeStatementKind::BackingValid(inclusion_parent.clone())
    );
    let wrong_statement_3 = DisputeStatement::Valid(
        ValidDisputeStatementKind::BackingValid(wrong_inclusion_parent.clone())
    );
    let statement_4 = DisputeStatement::Valid(ValidDisputeStatementKind::ApprovalChecking);
    let statement_5 = DisputeStatement::Invalid(InvalidDisputeStatementKind::Explicit);

    let signed_1 = sign(&validator_id,
        &ExplicitDisputeStatement {
            valid: true,
            candidate_hash: candidate_hash.clone(),
            session,
        }.signing_payload()
    );
    let signed_2 = sign(&validator_id,
        &CompactStatement::Seconded(candidate_hash.clone())
            .signing_payload(&SigningContext {
                session_index: session,
                parent_hash: inclusion_parent.clone()
            })
    );
    let signed_3 = sign(&validator_id,
        &CompactStatement::Valid(candidate_hash.clone())
            .signing_payload(&SigningContext {
                session_index: session,
                parent_hash: inclusion_parent.clone()
            })
    );
    let signed_4 = sign(&validator_id,
        &ApprovalVote(candidate_hash.clone()).signing_payload(session)
    );
    let signed_5 = sign(&validator_id,
        &ExplicitDisputeStatement {
            valid: false,
            candidate_hash: candidate_hash.clone(),
            session,
        }.signing_payload()
    );

    assert!(check_signature(&id(&validator_id), candidate_hash, session, &statement_1, &signed_1).is_ok());
    assert!(check_signature(&id(&wrong_validator_id), candidate_hash, session, &statement_1, &signed_1).is_err());
    assert!(check_signature(&id(&validator_id), wrong_candidate_hash, session, &statement_1, &signed_1).is_err());
    assert!(check_signature(&id(&validator_id), candidate_hash, wrong_session, &statement_1, &signed_1).is_err());
    assert!(check_signature(&id(&validator_id), candidate_hash, session, &statement_2, &signed_1).is_err());
    assert!(check_signature(&id(&validator_id), candidate_hash, session, &statement_3, &signed_1).is_err());
    assert!(check_signature(&id(&validator_id), candidate_hash, session, &statement_4, &signed_1).is_err());
    assert!(check_signature(&id(&validator_id), candidate_hash, session, &statement_5, &signed_1).is_err());

    assert!(check_signature(&id(&validator_id), candidate_hash, session, &statement_2, &signed_2).is_ok());
    assert!(check_signature(&id(&wrong_validator_id), candidate_hash, session, &statement_2, &signed_2).is_err());
    assert!(check_signature(&id(&validator_id), wrong_candidate_hash, session, &statement_2, &signed_2).is_err());
    assert!(check_signature(&id(&validator_id), candidate_hash, wrong_session, &statement_2, &signed_2).is_err());
    assert!(check_signature(&id(&validator_id), candidate_hash, session, &wrong_statement_2, &signed_2).is_err());
    assert!(check_signature(&id(&validator_id), candidate_hash, session, &statement_1, &signed_2).is_err());
    assert!(check_signature(&id(&validator_id), candidate_hash, session, &statement_3, &signed_2).is_err());
    assert!(check_signature(&id(&validator_id), candidate_hash, session, &statement_4, &signed_2).is_err());
    assert!(check_signature(&id(&validator_id), candidate_hash, session, &statement_5, &signed_2).is_err());

    assert!(check_signature(&id(&validator_id), candidate_hash, session, &statement_3, &signed_3).is_ok());
    assert!(check_signature(&id(&wrong_validator_id), candidate_hash, session, &statement_3, &signed_3).is_err());
    assert!(check_signature(&id(&validator_id), wrong_candidate_hash, session, &statement_3, &signed_3).is_err());
    assert!(check_signature(&id(&validator_id), candidate_hash, wrong_session, &statement_3, &signed_3).is_err());
    assert!(check_signature(&id(&validator_id), candidate_hash, session, &wrong_statement_3, &signed_3).is_err());
    assert!(check_signature(&id(&validator_id), candidate_hash, session, &statement_1, &signed_3).is_err());
    assert!(check_signature(&id(&validator_id), candidate_hash, session, &statement_2, &signed_3).is_err());
    assert!(check_signature(&id(&validator_id), candidate_hash, session, &statement_4, &signed_3).is_err());
    assert!(check_signature(&id(&validator_id), candidate_hash, session, &statement_5, &signed_3).is_err());

    assert!(check_signature(&id(&validator_id), candidate_hash, session, &statement_4, &signed_4).is_ok());
    assert!(check_signature(&id(&wrong_validator_id), candidate_hash, session, &statement_4, &signed_4).is_err());
    assert!(check_signature(&id(&validator_id), wrong_candidate_hash, session, &statement_4, &signed_4).is_err());
    assert!(check_signature(&id(&validator_id), candidate_hash, wrong_session, &statement_4, &signed_4).is_err());
    assert!(check_signature(&id(&validator_id), candidate_hash, session, &statement_1, &signed_4).is_err());
    assert!(check_signature(&id(&validator_id), candidate_hash, session, &statement_2, &signed_4).is_err());
    assert!(check_signature(&id(&validator_id), candidate_hash, session, &statement_3, &signed_4).is_err());
    assert!(check_signature(&id(&validator_id), candidate_hash, session, &statement_5, &signed_4).is_err());

    assert!(check_signature(&id(&validator_id), candidate_hash, session, &statement_5, &signed_5).is_ok());
    assert!(check_signature(&id(&wrong_validator_id), candidate_hash, session, &statement_5, &signed_5).is_err());
    assert!(check_signature(&id(&validator_id), wrong_candidate_hash, session, &statement_5, &signed_5).is_err());
    assert!(check_signature(&id(&validator_id), candidate_hash, wrong_session, &statement_5, &signed_5).is_err());
    assert!(check_signature(&id(&validator_id), candidate_hash, session, &statement_1, &signed_5).is_err());
    assert!(check_signature(&id(&validator_id), candidate_hash, session, &statement_2, &signed_5).is_err());
    assert!(check_signature(&id(&validator_id), candidate_hash, session, &statement_3, &signed_5).is_err());
    assert!(check_signature(&id(&validator_id), candidate_hash, session, &statement_4, &signed_5).is_err());
}
