//! The plain values that disputes are made of.
use crate::bits::VoteBits;
use vstd::prelude::*;

verus! {

/// Index of a session, counted from genesis.
pub type SessionIndex = u32;

/// A 256-bit hash.
pub type H256 = [u8; 32];

/// The hash of a parachain candidate.
#[derive(Clone, Copy, PartialEq, Eq, Debug)]
pub struct CandidateHash(pub H256);

/// Index of a validator within the validator set of a session.
#[derive(Clone, Copy, PartialEq, Eq, Debug, Structural)]
pub struct ValidatorIndex(pub u32);

/// The sr25519 public key by which a validator signs statements.
#[derive(Clone, Copy, PartialEq, Eq, Debug)]
pub struct ValidatorId(pub [u8; 32]);

/// An sr25519 signature of a validator.
#[derive(Clone, Copy, PartialEq, Eq, Debug)]
pub struct ValidatorSignature(pub [u8; 64]);

/// The ways in which a validator can state that a candidate is valid.
#[derive(Clone, Copy, PartialEq, Eq, Debug)]
pub enum ValidDisputeStatementKind {
    /// An explicit statement issued as part of a dispute.
    Explicit,
    /// A seconded statement on a candidate from the backing phase.
    BackingSeconded(H256),
    /// A valid statement on a candidate from the backing phase.
    BackingValid(H256),
    /// An approval vote from the approval checking phase.
    ApprovalChecking,
}

/// The ways in which a validator can state that a candidate is invalid.
#[derive(Clone, Copy, PartialEq, Eq, Debug)]
pub enum InvalidDisputeStatementKind {
    /// An explicit statement issued as part of a dispute.
    Explicit,
}

/// A statement about a candidate, to be used within a dispute.
#[derive(Clone, Copy, PartialEq, Eq, Debug)]
pub enum DisputeStatement {
    /// A statement that the candidate is valid.
    Valid(ValidDisputeStatementKind),
    /// A statement that the candidate is invalid.
    Invalid(InvalidDisputeStatementKind),
}

/// One signed vote.
pub type SignedStatement = (DisputeStatement, ValidatorIndex, ValidatorSignature);

/// A set of statements about a specific candidate.
#[derive(Clone, PartialEq, Eq, Debug)]
pub struct DisputeStatementSet {
    /// The candidate referenced by this set.
    pub candidate_hash: CandidateHash,
    /// The session of the candidate.
    pub session: SessionIndex,
    /// Statements about the candidate.
    pub statements: Vec<SignedStatement>,
}

/// A set of dispute statement sets.
pub type MultiDisputeStatementSet = Vec<DisputeStatementSet>;

/// The entire state of a dispute.
#[derive(PartialEq, Eq, Debug)]
pub struct DisputeState<BlockNumber> {
    /// A record of all validators for the candidate.
    pub validators_for: VoteBits,
    /// A record of all validators against the candidate.
    pub validators_against: VoteBits,
    /// The block number at which the dispute started on-chain.
    pub start: BlockNumber,
    /// The block number at which the dispute concluded on-chain.
    pub concluded_at: Option<BlockNumber>,
}

/// A dispute, its vote records read as sequences of bits.
#[verifier::ext_equal]
pub struct Dispute<BlockNumber> {
    pub validators_for: Seq<bool>,
    pub validators_against: Seq<bool>,
    pub start: BlockNumber,
    pub concluded_at: Option<BlockNumber>,
}

impl<BlockNumber> View for DisputeState<BlockNumber> {
    type V = Dispute<BlockNumber>;

    open spec fn view(&self) -> Dispute<BlockNumber> {
        Dispute {
            validators_for: self.validators_for@,
            validators_against: self.validators_against@,
            start: self.start,
            concluded_at: self.concluded_at,
        }
    }
}

impl<BlockNumber: Copy> Clone for DisputeState<BlockNumber> {
    fn clone(&self) -> (r: DisputeState<BlockNumber>)
        ensures
            r@ == self@,
    {
        DisputeState {
            validators_for: self.validators_for.clone(),
            validators_against: self.validators_against.clone(),
            start: self.start,
            concluded_at: self.concluded_at,
        }
    }
}

/// What is known of a session: its validators, in index order.
#[derive(Clone, PartialEq, Eq, Debug)]
pub struct SessionInfo {
    pub validators: Vec<ValidatorId>,
}

/// Announces that a new session has begun.
#[derive(Clone, Copy, PartialEq, Eq, Debug)]
pub struct SessionChangeNotification {
    /// The index of the new session.
    pub session_index: SessionIndex,
}

/// The configuration parameters that govern disputes.
#[derive(Clone, Copy, PartialEq, Eq, Debug)]
pub struct HostConfiguration<BlockNumber> {
    /// The amount of sessions to keep for disputes.
    pub dispute_period: SessionIndex,
    /// How long after dispute conclusion to accept statements.
    pub dispute_post_conclusion_acceptance_period: BlockNumber,
    /// The maximum number of dispute spam slots.
    pub dispute_max_spam_slots: u32,
    /// How long it takes for a dispute to conclude by time-out, if no
    /// supermajority is reached.
    pub dispute_conclusion_by_time_out_period: BlockNumber,
}

/// A block number: an unsigned machine integer of at least 32 bits.
pub trait BlockNumberLike: Copy {
    /// The number itself.
    spec fn number(self) -> nat;

    /// The value that stands for a number.
    spec fn of(n: nat) -> Self;

    /// No two values stand for one number.
    proof fn lemma_number(a: Self)
        ensures
            Self::of(a.number()) == a,
    ;

    /// Each number up to one of the type is of the type.
    proof fn lemma_of(n: nat, a: Self)
        requires
            n <= a.number(),
        ensures
            Self::of(n).number() == n,
    ;

    fn less_than(self, other: Self) -> (r: bool)
        ensures
            r == (self.number() < other.number()),
    ;

    fn saturating_minus(self, other: Self) -> (r: Self)
        ensures
            r.number() == (if self.number() < other.number() {
                0
            } else {
                self.number() - other.number()
            }),
    ;

    fn is_zero(self) -> (r: bool)
        ensures
            r == (self.number() == 0),
    ;

    /// The number before this one.
    fn predecessor(self) -> (r: Self)
        requires
            self.number() > 0,
        ensures
            r.number() == self.number() - 1,
    ;

    /// The number as a `u32`, at its bound where it does not fit.
    fn saturated_into_u32(self) -> (r: u32)
        ensures
            r == (if self.number() <= u32::MAX {
                self.number()
            } else {
                u32::MAX as nat
            }),
    ;
}

impl BlockNumberLike for u32 {
    open spec fn number(self) -> nat {
        self as nat
    }

    open spec fn of(n: nat) -> Self {
        n as u32
    }

    proof fn lemma_number(a: Self) {
    }

    proof fn lemma_of(n: nat, a: Self) {
    }

    fn less_than(self, other: Self) -> (r: bool) {
        self < other
    }

    fn saturating_minus(self, other: Self) -> (r: Self) {
        self.saturating_sub(other)
    }

    fn is_zero(self) -> (r: bool) {
        self == 0
    }

    fn predecessor(self) -> (r: Self) {
        self - 1
    }

    fn saturated_into_u32(self) -> (r: u32) {
        self
    }
}

impl BlockNumberLike for u64 {
    open spec fn number(self) -> nat {
        self as nat
    }

    open spec fn of(n: nat) -> Self {
        n as u64
    }

    proof fn lemma_number(a: Self) {
    }

    proof fn lemma_of(n: nat, a: Self) {
    }

    fn less_than(self, other: Self) -> (r: bool) {
        self < other
    }

    fn saturating_minus(self, other: Self) -> (r: Self) {
        self.saturating_sub(other)
    }

    fn is_zero(self) -> (r: bool) {
        self == 0
    }

    fn predecessor(self) -> (r: Self) {
        self - 1
    }

    fn saturated_into_u32(self) -> (r: u32) {
        if self <= u32::MAX as u64 {
            self as u32
        } else {
            u32::MAX
        }
    }
}

/// Whether two hashes are the same.
pub fn same_hash(a: &H256, b: &H256) -> (r: bool)
    ensures
        r == (*a == *b),
{
    let mut i: usize = 0;
    while i < 32
        invariant
            i <= 32,
            forall|j: int| 0 <= j < i ==> a@[j] == b@[j],
        decreases 32 - i,
    {
        if a[i] != b[i] {
            return false;
        }
        i = i + 1;
    }
    assert(*a =~= *b);
    true
}

/// Block numbers stand for themselves.
pub proof fn law_block_numbers(a: u32, b: u64)
    ensures
        a.number() == a,
        b.number() == b,
        <u32 as BlockNumberLike>::of(a as nat) == a,
        <u64 as BlockNumberLike>::of(b as nat) == b,
{
}

/// A dispute is read field by field.
pub proof fn law_dispute_fields<BlockNumber>(dispute: DisputeState<BlockNumber>)
    ensures
        dispute@.validators_for == dispute.validators_for@,
        dispute@.validators_against == dispute.validators_against@,
        dispute@.start == dispute.start,
        dispute@.concluded_at == dispute.concluded_at,
{
}

} // verus!
