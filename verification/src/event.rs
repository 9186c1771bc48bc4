//! What the stablecoin reports to its host.

use crate::bid::AccountId;
use crate::bond::BlockNumber;
use crate::perbill::Perbill;
use vstd::prelude::*;

verus! {

/// An event that an operation of the stablecoin leaves for the host.
#[derive(Clone, Copy, Debug, PartialEq, Eq, Structural)]
pub enum Event {
    /// The stablecoin was initialized by the account.
    Initialized(AccountId),
    /// Coins went from the first account to the second.
    Transfer(AccountId, AccountId, u64),
    /// The account bid for a bond at a price and for a quantity.
    NewBid(AccountId, Perbill, u64),
    /// The account got back what it had payed for a bid.
    RefundedBid(AccountId, u64),
    /// A bond was created for the account, with its payout and expiration.
    NewBond(AccountId, u64, BlockNumber),
    /// A bond of the account was payed out in full.
    BondFulfilled(AccountId, u64),
    /// A bond of the account was payed out in part; the payout that is left.
    BondPartiallyFulfilled(AccountId, u64),
    /// A bond of the account had expired and was discarded.
    BondExpired(AccountId, u64),
    /// The account cancelled its bids at or below a price.
    CancelledBidsBelow(AccountId, Perbill),
    /// The account cancelled all its bids.
    CancelledBids(AccountId),
    /// The supply was expanded by the amount.
    ExpandedSupply(u64),
    /// The supply was contracted by the amount.
    ContractedSupply(u64),
}

} // verus!
