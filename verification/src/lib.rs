//! A verified engine for a fixed-price sale of unique tokens.
//!
//! An issuer mints a pool of token identifiers, opens a sale with a price,
//! a deadline and a minimum number of units to sell, buyers reserve tokens
//! against attached funds, and once the window closes the backlog of
//! refunds (failed sale) or item deliveries and payout (successful sale)
//! is settled in bounded batches.  Every state transition is an ordinary
//! Rust function with a proved contract; the item registry, the fee/rates
//! collaborator and the block clock are external and enter only as plain
//! arguments and returned instructions.

pub mod contract;
pub mod error;
pub mod factory;
pub mod funds;
pub mod inventory;
pub mod keys;
pub mod laws;
pub mod ledger;
pub mod purchase;
pub mod seqs;
pub mod settlement;
pub mod state;
pub mod types;
