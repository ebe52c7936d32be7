//! The errors that the sale engine reports.
//!
//! Every error is surfaced synchronously to the caller of the operation
//! that triggered it; a failed operation leaves the engine unchanged.

use vstd::prelude::*;

verus! {

/// Why an operation was rejected.
#[derive(Clone, Copy, Debug, PartialEq, Eq, Structural)]
pub enum ContractError {
    /// The caller is not the contract owner.
    Unauthorized,
    /// A sale is already in progress.
    SaleStarted,
    /// The operation needs an active sale and there is none.
    NoOngoingSale,
    /// The sale has neither expired nor sold out.
    SaleNotEnded,
    /// The sale met its minimum, so refunds are not owed.
    MinSalesExceeded,
    /// The caller holds no unsettled purchases.
    NoPurchases,
    /// The buyer already holds the maximum number of units per wallet.
    PurchaseLimitReached,
    /// No token is left to reserve.
    AllTokensPurchased,
    /// The requested token is not available for sale.
    TokenNotAvailable,
    /// The attached funds do not cover the required payment.
    InsufficientFunds,
    /// The operation accepts no attached funds, or the payment is malformed.
    InvalidFunds,
    /// A sale must have a real deadline.
    ExpirationMustNotBeNever,
    /// The deadline has already passed.
    ExpirationInPast,
    /// The configuration forbids minting once a sale has been conducted.
    CannotMintAfterSaleConducted,
    /// A single call may mint at most this many tokens.
    TooManyMintMessages { limit: u32 },
    /// A settlement batch must process at least one unit of work.
    LimitMustNotBeZero,
}

} // verus!
