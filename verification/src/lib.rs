//! Verified core of a shared-expense ledger: computing net balances from a
//! sequence of expense events and settling them with a minimal list of
//! transfers, plus the line-record format of the ledger store and the
//! prefix completion used by the interactive prompts.

pub mod order;
pub mod balance;
pub mod event;
pub mod compute;
pub mod settle;
pub mod store;
pub mod complete;
