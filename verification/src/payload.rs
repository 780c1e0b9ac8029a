//! The byte strings that validators sign.
//!
//! Every payload opens with a four-byte tag that tells the protocol phases
//! apart, followed by the fields in SCALE encoding.
use crate::primitives::{
    CandidateHash, DisputeStatement, H256, InvalidDisputeStatementKind, SessionIndex,
    ValidDisputeStatementKind,
};
use parity_scale_codec::Encode;
use vstd::prelude::*;

verus! {

/// The four bytes of a `u32`, the least significant first.
pub open spec fn le_bytes(x: u32) -> Seq<u8> {
    seq![
        (x % 256) as u8,
        (x / 256 % 256) as u8,
        (x / 65536 % 256) as u8,
        (x / 16777216) as u8,
    ]
}

/// `b"DISP"`, the tag of statements made within a dispute.
pub open spec fn dispute_magic() -> Seq<u8> {
    seq![0x44u8, 0x49u8, 0x53u8, 0x50u8]
}

/// `b"BKNG"`, the tag of statements from the backing phase.
pub open spec fn backing_magic() -> Seq<u8> {
    seq![0x42u8, 0x4bu8, 0x4eu8, 0x47u8]
}

/// `b"APPR"`, the tag of votes from the approval checking phase.
pub open spec fn approval_magic() -> Seq<u8> {
    seq![0x41u8, 0x50u8, 0x50u8, 0x52u8]
}

/// `Encode::encode` on a `u32`: its four bytes, the least significant first.
#[verifier::external_body]
pub(crate) fn encode_u32(x: u32) -> (r: Vec<u8>)
    ensures
        r@ == le_bytes(x),
{
    x.encode()
}

/// `Encode::encode` on a tuple of a byte array, a `bool`, a byte array and a
/// `u32`: the fields in order, arrays as they are, the `bool` as one byte.
#[verifier::external_body]
fn encode_explicit(magic: [u8; 4], valid: bool, candidate: H256, session: u32) -> (r: Vec<u8>)
    ensures
        r@ == magic@ + seq![
            if valid {
                1u8
            } else {
                0u8
            },
        ] + candidate@ + le_bytes(session),
{
    (magic, valid, candidate, session).encode()
}

/// `Encode::encode` on a tuple of a byte array, a byte, a byte array, a `u32` and
/// a byte array: the fields in order, arrays and the byte as they are.
#[verifier::external_body]
fn encode_backing(magic: [u8; 4], index: u8, candidate: H256, session: u32, parent: H256) -> (r:
    Vec<u8>)
    ensures
        r@ == magic@ + seq![index] + candidate@ + le_bytes(session) + parent@,
{
    (magic, index, candidate, session, parent).encode()
}

/// `Encode::encode` on a tuple of two byte arrays and a `u32`: the fields in
/// order, arrays as they are.
#[verifier::external_body]
fn encode_approval(magic: [u8; 4], candidate: H256, session: u32) -> (r: Vec<u8>)
    ensures
        r@ == magic@ + candidate@ + le_bytes(session),
{
    (magic, candidate, session).encode()
}

/// An explicit statement on a candidate issued as part of a dispute.
#[derive(Clone, Copy, PartialEq, Eq, Debug)]
pub struct ExplicitDisputeStatement {
    /// Whether the candidate is valid.
    pub valid: bool,
    /// The candidate hash.
    pub candidate_hash: CandidateHash,
    /// The session index of the candidate.
    pub session: SessionIndex,
}

impl ExplicitDisputeStatement {
    pub open spec fn payload(self) -> Seq<u8> {
        dispute_magic() + seq![
            if self.valid {
                1u8
            } else {
                0u8
            },
        ] + self.candidate_hash.0@ + le_bytes(self.session)
    }

    /// The payload used for signing this type of statement.
    pub fn signing_payload(&self) -> (r: Vec<u8>)
        ensures
            r@ == self.payload(),
    {
        let magic: [u8; 4] = [0x44u8, 0x49u8, 0x53u8, 0x50u8];
        assert(magic@ =~= dispute_magic());
        encode_explicit(magic, self.valid, self.candidate_hash.0, self.session)
    }
}

/// The context under which a backing statement is signed.
#[derive(Clone, Copy, PartialEq, Eq, Debug)]
pub struct SigningContext {
    /// Current session.
    pub session_index: SessionIndex,
    /// Hash of the parent.
    pub parent_hash: H256,
}

/// A statement from the backing phase, in the form that is signed.
#[derive(Clone, Copy, PartialEq, Eq, Debug)]
pub enum CompactStatement {
    /// Proposal of a parachain candidate.
    Seconded(CandidateHash),
    /// State that a parachain candidate is valid.
    Valid(CandidateHash),
}

impl CompactStatement {
    pub open spec fn payload(self, context: SigningContext) -> Seq<u8> {
        let (index, candidate) = match self {
            CompactStatement::Seconded(h) => (1u8, h.0@),
            CompactStatement::Valid(h) => (2u8, h.0@),
        };
        backing_magic() + seq![index] + candidate + le_bytes(context.session_index)
            + context.parent_hash@
    }

    /// The payload used for signing this type of statement.
    pub fn signing_payload(&self, context: &SigningContext) -> (r: Vec<u8>)
        ensures
            r@ == self.payload(*context),
    {
        let magic: [u8; 4] = [0x42u8, 0x4bu8, 0x4eu8, 0x47u8];
        assert(magic@ =~= backing_magic());
        match self {
            CompactStatement::Seconded(h) => encode_backing(
                magic,
                1,
                h.0,
                context.session_index,
                context.parent_hash,
            ),
            CompactStatement::Valid(h) => encode_backing(
                magic,
                2,
                h.0,
                context.session_index,
                context.parent_hash,
            ),
        }
    }
}

/// A vote of approval on a candidate.
#[derive(Clone, Copy, PartialEq, Eq, Debug)]
pub struct ApprovalVote(pub CandidateHash);

impl ApprovalVote {
    pub open spec fn payload(self, session: SessionIndex) -> Seq<u8> {
        approval_magic() + self.0.0@ + le_bytes(session)
    }

    /// The payload used for signing this type of vote.
    pub fn signing_payload(&self, session: SessionIndex) -> (r: Vec<u8>)
        ensures
            r@ == self.payload(session),
    {
        let magic: [u8; 4] = [0x41u8, 0x50u8, 0x50u8, 0x52u8];
        assert(magic@ =~= approval_magic());
        encode_approval(magic, self.0.0, session)
    }
}

/// What a validator signs to make a statement on a candidate of a session.
pub open spec fn payload(
    statement: DisputeStatement,
    candidate_hash: CandidateHash,
    session: SessionIndex,
) -> Seq<u8> {
    match statement {
        DisputeStatement::Valid(ValidDisputeStatementKind::Explicit) => (ExplicitDisputeStatement {
            valid: true,
            candidate_hash,
            session,
        }).payload(),
        DisputeStatement::Valid(ValidDisputeStatementKind::BackingSeconded(parent_hash)) => {
            CompactStatement::Seconded(candidate_hash).payload(
                SigningContext { session_index: session, parent_hash },
            )
        },
        DisputeStatement::Valid(ValidDisputeStatementKind::BackingValid(parent_hash)) => {
            CompactStatement::Valid(candidate_hash).payload(
                SigningContext { session_index: session, parent_hash },
            )
        },
        DisputeStatement::Valid(ValidDisputeStatementKind::ApprovalChecking) => ApprovalVote(
            candidate_hash,
        ).payload(session),
        DisputeStatement::Invalid(InvalidDisputeStatementKind::Explicit) => (
        ExplicitDisputeStatement { valid: false, candidate_hash, session }).payload(),
    }
}

/// The payload of a statement.
pub fn statement_payload(
    statement: &DisputeStatement,
    candidate_hash: CandidateHash,
    session: SessionIndex,
) -> (r: Vec<u8>)
    ensures
        r@ == payload(*statement, candidate_hash, session),
{
    match *statement {
        DisputeStatement::Valid(ValidDisputeStatementKind::Explicit) => {
            (ExplicitDisputeStatement { valid: true, candidate_hash, session }).signing_payload()
        },
        DisputeStatement::Valid(ValidDisputeStatementKind::BackingSeconded(parent_hash)) => {
            CompactStatement::Seconded(candidate_hash).signing_payload(
                &SigningContext { session_index: session, parent_hash },
            )
        },
        DisputeStatement::Valid(ValidDisputeStatementKind::BackingValid(parent_hash)) => {
            CompactStatement::Valid(candidate_hash).signing_payload(
                &SigningContext { session_index: session, parent_hash },
            )
        },
        DisputeStatement::Valid(ValidDisputeStatementKind::ApprovalChecking) => {
            ApprovalVote(candidate_hash).signing_payload(session)
        },
        DisputeStatement::Invalid(InvalidDisputeStatementKind::Explicit) => {
            (ExplicitDisputeStatement { valid: false, candidate_hash, session }).signing_payload()
        },
    }
}

pub proof fn lemma_le_bytes_injective(x: u32, y: u32)
    requires
        le_bytes(x) == le_bytes(y),
    ensures
        x == y,
{
    let a = le_bytes(x);
    let b = le_bytes(y);
    assert(a[0] == b[0] && a[1] == b[1] && a[2] == b[2] && a[3] == b[3]);
    assert(x == a[0] + 256 * a[1] + 65536 * a[2] + 16777216 * a[3]);
    assert(y == b[0] + 256 * b[1] + 65536 * b[2] + 16777216 * b[3]);
}

/// A payload stands for one statement: two statements that differ in side, kind,
/// inclusion parent, candidate or session are signed as different bytes.
pub proof fn law_payload_identifies_statement(
    statement: DisputeStatement,
    candidate_hash: CandidateHash,
    session: SessionIndex,
    other_statement: DisputeStatement,
    other_candidate_hash: CandidateHash,
    other_session: SessionIndex,
)
    requires
        payload(statement, candidate_hash, session) == payload(
            other_statement,
            other_candidate_hash,
            other_session,
        ),
    ensures
        statement == other_statement,
        candidate_hash == other_candidate_hash,
        session == other_session,
{
    let p = payload(statement, candidate_hash, session);
    let q = payload(other_statement, other_candidate_hash, other_session);
    let approval = approval_magic();
    let dispute = dispute_magic();
    let backing = backing_magic();
    assert(p[0] == q[0] && p[4] == q[4]);
    // An approval vote has the candidate right behind the tag, all others one
    // byte later.
    let start: int = if p[0] == approval[0] {
        4
    } else {
        5
    };
    assert(p[0] == approval[0] || p[0] == dispute[0] || p[0] == backing[0]);
    assert(p.subrange(start, start + 32) =~= candidate_hash.0@);
    assert(q.subrange(start, start + 32) =~= other_candidate_hash.0@);
    assert(candidate_hash.0 =~= other_candidate_hash.0);
    assert(p.subrange(start + 32, start + 36) =~= le_bytes(session));
    assert(q.subrange(start + 32, start + 36) =~= le_bytes(other_session));
    lemma_le_bytes_injective(session, other_session);
    if p[0] == backing[0] {
        let parent = match statement {
            DisputeStatement::Valid(ValidDisputeStatementKind::BackingSeconded(h)) => h,
            DisputeStatement::Valid(ValidDisputeStatementKind::BackingValid(h)) => h,
            _ => arbitrary(),
        };
        let other_parent = match other_statement {
            DisputeStatement::Valid(ValidDisputeStatementKind::BackingSeconded(h)) => h,
            DisputeStatement::Valid(ValidDisputeStatementKind::BackingValid(h)) => h,
            _ => arbitrary(),
        };
        assert(p.subrange(41, 73) =~= parent@);
        assert(q.subrange(41, 73) =~= other_parent@);
        assert(parent =~= other_parent);
    }
}

/// A number is encoded by its bytes, the least significant first.
pub proof fn law_le_bytes(x: u32)
    ensures
        le_bytes(x).len() == 4,
        x == le_bytes(x)[0] + 256 * le_bytes(x)[1] + 65536 * le_bytes(x)[2] + 16777216 * le_bytes(
            x,
        )[3],
{
}

/// What is signed for each kind of statement: the tag of its phase, what it says
/// of the candidate, the candidate and the session, and for a statement from the
/// backing phase the parent under which the candidate was to be included.
pub proof fn law_payload_layout(
    statement: DisputeStatement,
    candidate_hash: CandidateHash,
    session: SessionIndex,
)
    ensures
        payload(statement, candidate_hash, session) =~= match statement {
            DisputeStatement::Valid(ValidDisputeStatementKind::Explicit) => seq![
                0x44u8,
                0x49u8,
                0x53u8,
                0x50u8,
                1u8,
            ] + candidate_hash.0@ + le_bytes(session),
            DisputeStatement::Invalid(InvalidDisputeStatementKind::Explicit) => seq![
                0x44u8,
                0x49u8,
                0x53u8,
                0x50u8,
                0u8,
            ] + candidate_hash.0@ + le_bytes(session),
            DisputeStatement::Valid(ValidDisputeStatementKind::BackingSeconded(parent)) => seq![
                0x42u8,
                0x4bu8,
                0x4eu8,
                0x47u8,
                1u8,
            ] + candidate_hash.0@ + le_bytes(session) + parent@,
            DisputeStatement::Valid(ValidDisputeStatementKind::BackingValid(parent)) => seq![
                0x42u8,
                0x4bu8,
                0x4eu8,
                0x47u8,
                2u8,
            ] + candidate_hash.0@ + le_bytes(session) + parent@,
            DisputeStatement::Valid(ValidDisputeStatementKind::ApprovalChecking) => seq![
                0x41u8,
                0x50u8,
                0x50u8,
                0x52u8,
            ] + candidate_hash.0@ + le_bytes(session),
        },
{
}

} // verus!
