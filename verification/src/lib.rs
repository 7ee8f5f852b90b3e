//! A verified batch ledger: per-client balances with deposits, withdrawals,
//! and a dispute / resolve / chargeback workflow over recorded transactions.
//!
//! All currency amounts are integer minor units; callers choose the scale.

pub mod args;
pub mod client;
pub mod ledger;
pub mod router;
pub mod transaction;
