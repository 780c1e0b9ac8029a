//! Why votes and sets of votes are refused.
use vstd::prelude::*;

verus! {

/// Why a dispute statement set is refused.
#[derive(Clone, Copy, PartialEq, Eq, Debug, Structural)]
pub enum Error {
    /// Duplicate dispute statement sets provided.
    DuplicateDisputeStatementSets,
    /// Ancient dispute statement provided.
    AncientDisputeStatement,
    /// Validator index on statement is out of bounds for session.
    ValidatorIndexOutOfBounds,
    /// Invalid signature on statement.
    InvalidSignature,
    /// Validator vote submitted more than once to dispute.
    DuplicateStatement,
    /// Too many spam slots used by some specific validator.
    PotentialSpam,
}

/// Why a single vote is refused.
#[derive(Clone, Copy, PartialEq, Eq, Debug, Structural)]
pub enum VoteImportError {
    /// The session has no validator of that index.
    ValidatorIndexOutOfBounds,
    /// The validator has cast that vote before.
    DuplicateStatement,
}

impl Error {
    /// The refusal of a set that holds a refused vote.
    pub open spec fn of_vote(e: VoteImportError) -> Error {
        match e {
            VoteImportError::ValidatorIndexOutOfBounds => Error::ValidatorIndexOutOfBounds,
            VoteImportError::DuplicateStatement => Error::DuplicateStatement,
        }
    }
}

impl From<VoteImportError> for Error {
    fn from(e: VoteImportError) -> (r: Error) {
        match e {
            VoteImportError::ValidatorIndexOutOfBounds => Error::ValidatorIndexOutOfBounds,
            VoteImportError::DuplicateStatement => Error::DuplicateStatement,
        }
    }
}

impl vstd::std_specs::convert::FromSpecImpl<VoteImportError> for Error {
    open spec fn obeys_from_spec() -> bool {
        true
    }

    open spec fn from_spec(e: VoteImportError) -> Error {
        Error::of_vote(e)
    }
}

} // verus!
