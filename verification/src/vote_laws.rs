//! Laws of thresholds and votes.
use crate::bits::{
    count, intersection, lemma_count_bounded, lemma_count_monotone, lemma_count_overlap,
};
use crate::docket_facts::lemma_statements_shape;
use crate::errors::VoteImportError;
use crate::importer::Import;
use crate::primitives::{Dispute, SignedStatement, ValidatorIndex};
use crate::thresholds::{faulty_bound, supermajority};
use vstd::prelude::*;

verus! {

/// Any `n` validators are `3f + e` with `e` in `{ 1, 2, 3 }`, where `f` of them may be
/// faulty.
pub proof fn law_faulty_bound(n: nat)
    requires
        n > 0,
    ensures
        1 <= n - 3 * faulty_bound(n) <= 3,
{
}

/// A supermajority is more than two thirds of all validators, and what is left
/// of them when the faulty ones are taken out.
pub proof fn law_supermajority(n: nat)
    requires
        n > 0,
    ensures
        3 * supermajority(n) > 2 * n,
        supermajority(n) + faulty_bound(n) == n,
{
}

/// A dispute that has concluded in both directions has at least `f + 1`
/// validators who voted both ways.
pub proof fn law_double_conclusion<BlockNumber>(dispute: Dispute<BlockNumber>)
    requires
        dispute.size() > 0,
        dispute.validators_for.len() == dispute.validators_against.len(),
        dispute.flags().for_supermajority,
        dispute.flags().against_supermajority,
    ensures
        count(intersection(dispute.validators_for, dispute.validators_against)) >= faulty_bound(
            dispute.size(),
        ) + 1,
{
    lemma_count_overlap(dispute.validators_for, dispute.validators_against);
    lemma_count_bounded(dispute.participants());
}

/// A supermajority on either side confirms the dispute.
pub proof fn law_supermajority_confirms<BlockNumber>(dispute: Dispute<BlockNumber>)
    requires
        dispute.size() > 0,
        dispute.validators_for.len() == dispute.validators_against.len(),
        dispute.flags().for_supermajority || dispute.flags().against_supermajority,
    ensures
        dispute.confirmed(),
{
    lemma_count_monotone(dispute.validators_for, dispute.participants());
    lemma_count_monotone(dispute.validators_against, dispute.participants());
}

/// A vote is taken once: the same vote of the same validator is refused after
/// it, while the validator may still vote the other way, unless it has.
pub proof fn law_vote_once<BlockNumber>(
    import: Import<BlockNumber>,
    validator: ValidatorIndex,
    valid: bool,
)
    requires
        import.vote(validator, valid) is Ok,
    ensures
        (import.vote(validator, valid)->Ok_0).vote(validator, valid) == Err::<
            Import<BlockNumber>,
            VoteImportError,
        >(VoteImportError::DuplicateStatement),
        (import.vote(validator, valid)->Ok_0).vote(validator, !valid) is Ok == import.vote(
            validator,
            !valid,
        ) is Ok,
{
}

/// Whether every bit of `a` is set in `b` too.
pub open spec fn contained(a: Seq<bool>, b: Seq<bool>) -> bool {
    a.len() == b.len() && forall|i: int| 0 <= i < a.len() && #[trigger] a[i] ==> b[i]
}

/// Statements only add votes. So a milestone once reached stays reached.
pub proof fn law_votes_accumulate<BlockNumber>(
    import: Import<BlockNumber>,
    n_validators: nat,
    statements: Seq<SignedStatement>,
    verdicts: Seq<bool>,
)
    requires
        import.statements(n_validators, statements, verdicts) is Ok,
    ensures
        ({
            let before = import.state;
            let after = (import.statements(n_validators, statements, verdicts)->Ok_0).state;
            &&& contained(before.validators_for, after.validators_for)
            &&& contained(before.validators_against, after.validators_against)
            &&& before.flags().confirmed ==> after.flags().confirmed
            &&& before.flags().for_supermajority ==> after.flags().for_supermajority
            &&& before.flags().against_supermajority ==> after.flags().against_supermajority
        }),
    decreases statements.len(),
{
    let before = import.state;
    let after = (import.statements(n_validators, statements, verdicts)->Ok_0).state;
    if statements.len() > 0 {
        law_votes_accumulate(import, n_validators, statements.drop_last(), verdicts);
    }
    lemma_statements_shape(import, n_validators, statements, verdicts);
    lemma_count_monotone(before.validators_for, after.validators_for);
    lemma_count_monotone(before.validators_against, after.validators_against);
    lemma_count_monotone(before.participants(), after.participants());
}

/// The new participants of an import are those who voted in it, on either side,
/// and had not voted before. All others who voted are the previous participants.
pub proof fn law_new_participants<BlockNumber>(
    dispute: Dispute<BlockNumber>,
    now: BlockNumber,
    n_validators: nat,
    statements: Seq<SignedStatement>,
    verdicts: Seq<bool>,
)
    requires
        dispute.validators_for.len() == dispute.validators_against.len(),
        Import::start(dispute, now).statements(n_validators, statements, verdicts) is Ok,
    ensures
        ({
            let import = Import::start(dispute, now).statements(
                n_validators,
                statements,
                verdicts,
            )->Ok_0;
            &&& import.new_participants =~= Seq::new(
                dispute.size(),
                |i: int| import.state.participants()[i] && !dispute.participants()[i],
            )
            &&& import.previous_participants() =~= dispute.participants()
        }),
    decreases statements.len(),
{
    let start = Import::start(dispute, now);
    let import = start.statements(n_validators, statements, verdicts)->Ok_0;
    lemma_statements_shape(start, n_validators, statements, verdicts);
    law_votes_accumulate(start, n_validators, statements, verdicts);
    if statements.len() > 0 {
        law_new_participants(dispute, now, n_validators, statements.drop_last(), verdicts);
        let earlier = start.statements(n_validators, statements.drop_last(), verdicts)->Ok_0;
        lemma_statements_shape(start, n_validators, statements.drop_last(), verdicts);
        law_votes_accumulate(start, n_validators, statements.drop_last(), verdicts);
        assert forall|i: int| 0 <= i < dispute.size() implies import.new_participants[i] == (
        import.state.participants()[i] && !dispute.participants()[i]) by {
            assert(earlier.new_participants[i] == (earlier.state.participants()[i]
                && !dispute.participants()[i]));
            assert(dispute.validators_for[i] ==> earlier.state.validators_for[i]);
            assert(dispute.validators_against[i] ==> earlier.state.validators_against[i]);
        }
    }
    assert forall|i: int| 0 <= i < dispute.size() implies import.previous_participants()[i]
        == dispute.participants()[i] by {
        assert(dispute.validators_for[i] ==> import.state.validators_for[i]);
        assert(dispute.validators_against[i] ==> import.state.validators_against[i]);
    }
}

/// Whether a statement is a vote of the validator for that side.
pub open spec fn votes(statement: SignedStatement, validator: int, valid: bool) -> bool {
    statement.1.0 == validator && statement.0 is Valid == valid
}

/// Statements that are accepted are all signed by validators of the session, no
/// vote among them was cast before or occurs twice, and the votes of the dispute
/// afterwards are those before and those of the statements.
pub proof fn law_statements_recorded<BlockNumber>(
    import: Import<BlockNumber>,
    n_validators: nat,
    statements: Seq<SignedStatement>,
    verdicts: Seq<bool>,
)
    requires
        import.statements(n_validators, statements, verdicts) is Ok,
    ensures
        ({
            let before = import.state;
            let after = (import.statements(n_validators, statements, verdicts)->Ok_0).state;
            &&& forall|k: int|
                #![trigger statements[k]]
                0 <= k < statements.len() ==> {
                    let (statement, validator, signature) = statements[k];
                    &&& verdicts[k]
                    &&& validator.0 < n_validators
                    &&& validator.0 < before.side(statement is Valid).len()
                    &&& !before.side(statement is Valid)[validator.0 as int]
                    &&& after.side(statement is Valid)[validator.0 as int]
                }
            &&& forall|j: int, k: int|
                #![trigger statements[j], statements[k]]
                0 <= j < k < statements.len() ==> !votes(
                    statements[j],
                    statements[k].1.0 as int,
                    statements[k].0 is Valid,
                )
            &&& forall|valid: bool, i: int|
                #![trigger after.side(valid)[i]]
                0 <= i < before.side(valid).len() ==> after.side(valid)[i] == (before.side(
                    valid,
                )[i] || exists|k: int|
                    0 <= k < statements.len() && votes(#[trigger] statements[k], i, valid))
        }),
    decreases statements.len(),
{
    if statements.len() > 0 {
        let fewer = statements.drop_last();
        let last = statements.last();
        law_statements_recorded(import, n_validators, fewer, verdicts);
        lemma_statements_shape(import, n_validators, fewer, verdicts);
        let before = import.state;
        let earlier = (import.statements(n_validators, fewer, verdicts)->Ok_0).state;
        let after = (import.statements(n_validators, statements, verdicts)->Ok_0).state;
        let side = last.0 is Valid;
        let voter = last.1.0 as int;
        assert(after == earlier.with_vote(voter, side));
        assert(!earlier.side(side)[voter]);
        assert forall|k: int| #![trigger statements[k]] 0 <= k < statements.len() implies {
            let (statement, validator, signature) = statements[k];
            &&& verdicts[k]
            &&& validator.0 < n_validators
            &&& validator.0 < before.side(statement is Valid).len()
            &&& !before.side(statement is Valid)[validator.0 as int]
            &&& after.side(statement is Valid)[validator.0 as int]
        } by {
            if k < fewer.len() {
                assert(fewer[k] == statements[k]);
            }
        }
        assert forall|j: int, k: int|
            #![trigger statements[j], statements[k]]
            0 <= j < k < statements.len() implies !votes(
            statements[j],
            statements[k].1.0 as int,
            statements[k].0 is Valid,
        ) by {
            assert(fewer[j] == statements[j]);
            if k < fewer.len() {
                assert(fewer[k] == statements[k]);
            }
        }
        assert forall|valid: bool, i: int|
            #![trigger after.side(valid)[i]]
            0 <= i < before.side(valid).len() implies after.side(valid)[i] == (before.side(
            valid,
        )[i] || exists|k: int|
            0 <= k < statements.len() && votes(#[trigger] statements[k], i, valid)) by {
            assert(earlier.side(valid)[i] == (before.side(valid)[i] || exists|k: int|
                0 <= k < fewer.len() && votes(#[trigger] fewer[k], i, valid)));
            if exists|k: int| 0 <= k < fewer.len() && votes(#[trigger] fewer[k], i, valid) {
                let k = choose|k: int| 0 <= k < fewer.len() && votes(#[trigger] fewer[k], i, valid);
                assert(statements[k] == fewer[k]);
            }
            if exists|k: int|
                0 <= k < statements.len() && votes(#[trigger] statements[k], i, valid) {
                let k = choose|k: int|
                    0 <= k < statements.len() && votes(#[trigger] statements[k], i, valid);
                if k < fewer.len() {
                    assert(fewer[k] == statements[k]);
                }
            }
            if votes(last, i, valid) {
                assert(statements[statements.len() - 1] == last);
            }
        }
    }
}

} // verus!
