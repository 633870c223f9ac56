//! A minimal fungible-token ledger: owner-gated minting, transfers between
//! accounts, self-burning and read-only queries, with the conservation of
//! supply proved for every operation.

pub mod account;
pub mod decimal;
pub mod ledger;

pub use account::Account;
pub use ledger::{Ledger, TokenError, TokenInfo};
