//! Configuration and per-sale state.

use vstd::prelude::*;

use crate::types::Coin;
use crate::types::Expiration;
use crate::types::Recipient;

verus! {

/// Deployment configuration, set once at instantiation.
pub struct Config {
    /// The external registry that mints, burns and transfers the tokens.
    pub token_address: String,
    /// Whether new inventory may be minted once a sale has been conducted.
    pub can_mint_after_sale: bool,
}

/// The state of the sale in progress; its absence means no sale is active.
pub struct State {
    /// When the sale window closes; never the `Never` sentinel.
    pub expiration: Expiration,
    /// The fixed price of one unit.
    pub price: Coin,
    /// Units that must sell for the sale to succeed.
    pub min_tokens_sold: u128,
    /// Units one wallet may hold at once.
    pub max_amount_per_wallet: u32,
    /// Units sold so far.
    pub amount_sold: u128,
    /// Proceeds accrued for the payout recipient and not yet paid.
    pub amount_to_send: u128,
    /// Units delivered to their buyers so far.
    pub amount_transferred: u128,
    /// Where the proceeds go on success.
    pub recipient: Recipient,
}

impl State {
    /// Field sanity that holds of every open sale.
    pub open spec fn wf(&self) -> bool {
        &&& !(self.expiration is Never)
        &&& self.amount_transferred <= self.amount_sold
    }
}

} // verus!
