//! A ledger engine: account balances driven by an ordered stream of
//! deposits, withdrawals, disputes, resolves and chargebacks.

pub mod account;
pub mod decimal;
pub mod ledger;
pub mod transaction;
