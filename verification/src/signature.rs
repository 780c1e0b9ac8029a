//! Signatures on dispute statements.
use crate::payload::{payload, statement_payload};
use crate::primitives::{
    CandidateHash, DisputeStatement, SessionIndex, ValidatorId, ValidatorSignature,
};
use sp_core::sr25519::Public;
use sp_core::sr25519::Signature;
use sp_runtime::traits::Verify;
use vstd::prelude::*;

verus! {

/// Whether an sr25519 signature is valid for a message under a public key.
pub uninterp spec fn sr25519_valid(
    signature: Seq<u8>,
    message: Seq<u8>,
    public: Seq<u8>,
) -> bool;

/// `Verify::verify` of `sp_runtime` on an sr25519 signature: `true` if the
/// signature is valid for the message under the key. Which triples are valid is
/// not said.
#[verifier::external_body]
fn sr25519_verify(signature: &[u8; 64], message: &Vec<u8>, public: &[u8; 32]) -> (r: bool)
    ensures
        r == sr25519_valid(signature@, message@, public@),
{
    Signature::from_raw(*signature).verify(&message[..], &Public::from_raw(*public))
}

/// Whether a validator has signed a statement on a candidate of a session.
pub open spec fn signed(
    validator_public: ValidatorId,
    candidate_hash: CandidateHash,
    session: SessionIndex,
    statement: DisputeStatement,
    validator_signature: ValidatorSignature,
) -> bool {
    sr25519_valid(
        validator_signature.0@,
        payload(statement, candidate_hash, session),
        validator_public.0@,
    )
}

/// Checks the signature of a validator on a statement.
pub fn check_signature(
    validator_public: &ValidatorId,
    candidate_hash: CandidateHash,
    session: SessionIndex,
    statement: &DisputeStatement,
    validator_signature: &ValidatorSignature,
) -> (r: Result<(), ()>)
    ensures
        r is Ok <==> signed(
            *validator_public,
            candidate_hash,
            session,
            *statement,
            *validator_signature,
        ),
{
    let payload = statement_payload(statement, candidate_hash, session);
    if sr25519_verify(&validator_signature.0, &payload, &validator_public.0) {
        Ok(())
    } else {
        Err(())
    }
}

/// Every kind of statement is signed by a signature that is valid for its payload
/// under the key of the validator, and by no other.
pub proof fn law_signed(
    validator_public: ValidatorId,
    candidate_hash: CandidateHash,
    session: SessionIndex,
    statement: DisputeStatement,
    validator_signature: ValidatorSignature,
)
    ensures
        signed(validator_public, candidate_hash, session, statement, validator_signature)
            == sr25519_valid(
            validator_signature.0@,
            payload(statement, candidate_hash, session),
            validator_public.0@,
        ),
{
}

} // verus!
