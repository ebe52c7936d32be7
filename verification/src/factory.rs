//! Message types of the companion token-factory service.
//!
//! The factory instantiates one registry contract per token symbol and
//! answers address lookups; the sale engine only ever needs these plain
//! message shapes, the factory itself stays outside the verified core.

use vstd::prelude::*;

verus! {

/// Instantiates the factory over a registry code identifier.
#[derive(Clone, Copy, Debug, PartialEq, Eq, Structural)]
pub struct InitMsg {
    pub token_code_id: u64,
}

/// Read-only queries the factory answers.
#[derive(Debug)]
pub enum QueryMsg {
    /// The registry address registered under a token symbol.
    GetAddress { symbol: String },
}

/// The factory's answer to an address lookup.
#[derive(Debug)]
pub struct AddressResponse {
    pub address: String,
}

} // verus!
