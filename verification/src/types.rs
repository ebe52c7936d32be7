//! Plain data carried across the engine's boundary.
//!
//! The engine works on value types only: amounts are `u128` units of a named
//! currency, addresses and token identifiers are strings, and the block
//! clock is an explicit argument.  Instructions for the external item
//! registry, bank and payout router are returned as values and dispatched
//! by the caller.

use vstd::prelude::*;

verus! {

/// An amount of one fungible currency.
#[derive(Debug)]
pub struct Coin {
    pub denom: String,
    pub amount: u128,
}

impl Coin {
    /// A copy of this coin.
    pub fn duplicate(&self) -> (r: Coin)
        ensures
            r == *self,
    {
        Coin { denom: self.denom.clone(), amount: self.amount }
    }
}

/// The block clock, supplied by the environment on every call.
#[derive(Clone, Copy, Debug, PartialEq, Eq, Structural)]
pub struct BlockInfo {
    /// Current block height.
    pub height: u64,
    /// Current block time, in nanoseconds.
    pub time: u64,
}

/// One clock reading is no later than another.
pub open spec fn block_le(a: BlockInfo, b: BlockInfo) -> bool {
    a.height <= b.height && a.time <= b.time
}

/// An absolute point after which a sale is over.
#[derive(Clone, Copy, Debug, PartialEq, Eq, Structural)]
pub enum Expiration {
    /// Expires once the block height reaches this value.
    AtHeight(u64),
    /// Expires once the block time, in nanoseconds, reaches this value.
    AtTime(u64),
    /// Never expires; rejected when a sale is started.
    Never,
}

impl Expiration {
    /// Whether the deadline has passed at the given clock reading.
    pub open spec fn spec_is_expired(self, block: BlockInfo) -> bool {
        match self {
            Expiration::AtHeight(h) => block.height >= h,
            Expiration::AtTime(t) => block.time >= t,
            Expiration::Never => false,
        }
    }

    /// Checks the deadline against the clock.
    pub fn is_expired(&self, block: &BlockInfo) -> (r: bool)
        ensures
            r == self.spec_is_expired(*block),
    {
        match self {
            Expiration::AtHeight(h) => block.height >= *h,
            Expiration::AtTime(t) => block.time >= *t,
            Expiration::Never => false,
        }
    }
}

/// A deadline that has passed stays passed as the clock advances.
pub proof fn lemma_expiration_monotone(e: Expiration, a: BlockInfo, b: BlockInfo)
    requires
        block_le(a, b),
        e.spec_is_expired(a),
    ensures
        e.spec_is_expired(b),
{
}

/// Where the proceeds of a successful sale go.
///
/// The address is symbolic; resolving it is the router's business.  When a
/// forwarding payload is declared the payout is routed through the
/// messaging kernel instead of being sent directly.
#[derive(Debug)]
pub struct Recipient {
    pub address: String,
    pub msg: Option<Vec<u8>>,
}

/// A fee-disbursement instruction produced by the rates collaborator.
///
/// The engine stores it with the purchase it belongs to and emits it,
/// unread, when that purchase is delivered.
#[derive(Debug)]
pub struct FeeMsg {
    pub payload: Vec<u8>,
}

/// What the rates collaborator answered for one unit at the sale price.
///
/// It is consulted once per purchase call and its answer is applied
/// uniformly to every unit reserved in that call: `remaining_amount` is the
/// part of the unit price left for the payout recipient after deductions,
/// and `tax_amount` is owed by the buyer on top of the unit price.
#[derive(Debug)]
pub struct RateInfo {
    pub msgs: Vec<FeeMsg>,
    pub remaining_amount: u128,
    pub tax_amount: u128,
}

/// An instruction to the item registry to mint one token.
#[derive(Debug)]
pub struct MintMsg {
    pub token_id: String,
    pub owner: String,
    pub token_uri: Option<String>,
}

/// A request to mint one token, as a buyer-facing message.
#[derive(Debug)]
pub struct CrowdfundMintMsg {
    pub token_id: String,
    /// Defaults to the sale contract itself, which marks the token for sale.
    pub owner: Option<String>,
    pub token_uri: Option<String>,
}

/// An instruction to the item registry to burn one unsold token.
#[derive(Debug)]
pub struct BurnMsg {
    pub token_id: String,
}

/// An instruction to the item registry to deliver one token to its buyer.
#[derive(Debug)]
pub struct TransferMsg {
    pub recipient: String,
    pub token_id: String,
}

/// An instruction to the bank to send currency to an address.
#[derive(Debug)]
pub struct RefundMsg {
    pub to_address: String,
    pub denom: String,
    pub amount: u128,
}

/// What a purchase call hands back: the overpaid funds to return to the
/// buyer, all of them, or nothing when the attached funds were consumed to
/// the last whole coin of the sale currency.
#[derive(Debug)]
pub struct PurchaseResponse {
    pub refund: Vec<Coin>,
}

/// What one settlement call hands back for dispatch: refunds and burns on
/// the failure path; a payout, deliveries with their fee instructions, and
/// final burns on the success path.
#[derive(Debug)]
pub struct EndSaleResponse {
    pub refunds: Vec<RefundMsg>,
    pub burns: Vec<BurnMsg>,
    pub transfers: Vec<TransferMsg>,
    pub fee_msgs: Vec<FeeMsg>,
    pub payout: Option<PayoutMsg>,
}

/// How the proceeds of a successful sale are paid out.
#[derive(Debug)]
pub enum PayoutMsg {
    /// Sent directly to the recipient's address.
    Direct { to_address: String, denom: String, amount: u128 },
    /// Routed through the messaging kernel with the declared payload.
    Routed { address: String, msg: Vec<u8>, denom: String, amount: u128 },
}

} // verus!
