//! Accounting and monetary-policy core of a multi-asset, algorithmically
//! pegged currency platform.
//!
//! The crate keeps a ledger of free/reserved/locked balances for one native
//! collateral asset and any number of pegged ("sett") currencies, together
//! with the per-asset total issuance, and drives a supply-rebalancing
//! controller (SERP) that mints or burns pegged supply against external price
//! quotes.  Every operation is specified by its contract and verified:
//! conservation of issuance (`total_issuance == Σ free + reserved`) is an
//! invariant of the state, and every multi-leg operation is all-or-nothing.

pub mod config;
pub mod ledger;
pub mod market;
pub mod quote;
pub mod types;

pub use config::Config;
pub use ledger::AssetBook;
pub use market::Pallet;
pub use types::BalanceStatus;
pub use types::Error;
pub use types::Event;
pub use types::Origin;
