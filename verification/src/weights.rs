//! The cost of database accesses.
use frame_support::weights::RuntimeDbWeight;
use vstd::prelude::*;

verus! {

/// The weight of one read and of one write of the database.
#[derive(Clone, Copy, PartialEq, Eq, Debug, Structural)]
pub struct DbWeight {
    pub read: u64,
    pub write: u64,
}

/// A weight, at the bound of `u64` where it does not fit.
pub open spec fn saturated(weight: nat) -> u64 {
    if weight > u64::MAX {
        u64::MAX
    } else {
        weight as u64
    }
}

/// The weight of so many reads and writes; each product and the sum stop at the
/// bound of `u64`.
pub open spec fn database_weight(db_weight: DbWeight, reads: u64, writes: u64) -> u64 {
    saturated(
        saturated((db_weight.read * reads) as nat) as nat + saturated(
            (db_weight.write * writes) as nat,
        ) as nat,
    )
}

/// `RuntimeDbWeight::reads_writes` of `frame_support`, its reference time: the
/// weight of so many reads and writes, with saturating arithmetic.
#[verifier::external_body]
pub(crate) fn reads_writes(db_weight: DbWeight, reads: u64, writes: u64) -> (r: u64)
    ensures
        r == database_weight(db_weight, reads, writes),
{
    RuntimeDbWeight { read: db_weight.read, write: db_weight.write }.reads_writes(
        reads,
        writes,
    ).ref_time()
}

} // verus!
