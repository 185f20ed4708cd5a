//! A token-staking reward ledger.
//!
//! Participants deposit a stake token into a shared pool and earn a share of a
//! reward token that the pool is funded with. The ledger keeps the pool totals,
//! one record per participant, and the times from which elapsed reward periods
//! are counted. Every operation is a function from the ledger before the call to
//! the ledger after it, and each one states that relation in its contract.
//!
//! - `address`: addresses and their order.
//! - `store`: the participants' records, kept in that order.
//! - `state`: the configuration, the ledger, and their mathematical models.
//! - `msg`: requests, answers, and what an operation reports.
//! - `error`: why a request is rejected.
//! - `accrual`: how elapsed time becomes reward, under either policy.
//! - `contract`: the operations themselves.
//! - `reach`: which records a request reads, for those who keep them elsewhere.
//! - `laws`: what holds of the ledger whatever is done with it.
//!
//! The ledger neither stores itself nor moves tokens. It is handed over, whole
//! or in the part that a request reads, changed and handed back, and where
//! tokens are to leave the pool it says so in what it reports.

pub mod accrual;
pub mod address;
pub mod contract;
pub mod error;
pub mod laws;
pub mod msg;
pub mod reach;
pub mod state;
pub mod store;
