use vstd::prelude::*;

verus! {

/// Messages that a contract hands to the chain to manage fungible tokens.
#[derive(Clone, Debug)]
pub enum FungibleTokenMsg {
    /// Mints `initial_amount` of a new token called `symbol` to `recipient`.
    MsgIssueFungibleToken { symbol: String, recipient: String, initial_amount: u128 },
}

} // verus!
