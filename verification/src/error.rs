//! The errors with which an operation is rejected.

use vstd::prelude::*;

verus! {

/// Why an operation was rejected. A rejected operation leaves the ledger as it was.
#[derive(Debug, PartialEq, Eq)]
pub enum ContractError {
    /// The caller is not the owner, or the pool has no owner.
    Unauthorized {},
    /// A transfer of nothing was notified, or the request does not apply to this pool.
    InvalidInput {},
    /// The notifying token is neither the stake token nor the reward token.
    UnacceptableToken {},
    /// The caller has no reward to claim.
    NoReward {},
    /// The caller has nothing staked.
    NoStaked {},
    /// The pool holds less reward than the caller has accrued.
    InsufficientPoolReward {},
    /// The pool total is less than the caller's stake: the ledger is inconsistent.
    InsufficientPoolStake {},
    /// A stored record could not be read back while listing. The ledger keeps its
    /// records typed and never fails so; the variant belongs to those who persist it.
    PaginationDecodeFailed {},
    /// The stored state was written by a contract of another name.
    CannotMigrate { previous_contract: String },
}

} // verus!
