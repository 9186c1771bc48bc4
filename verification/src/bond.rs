//! Bonds: claims on coins that a later expansion pays out.

use crate::bid::AccountId;
use crate::perbill::Coins;
use vstd::prelude::*;

verus! {

/// The number of a block.
pub type BlockNumber = u64;

/// A bond representing (potential) future payout of coins.
///
/// Expires at block `expiration` so it will be discarded if payed out after that block.
#[derive(Clone, Copy, Debug, PartialEq, Eq, PartialOrd, Ord, Structural)]
pub struct Bond {
    pub account: AccountId,
    pub payout: Coins,
    pub expiration: BlockNumber,
}

impl Default for Bond {
    fn default() -> (bond: Bond)
        ensures
            bond == (Bond { account: 0, payout: 0, expiration: 0 }),
    {
        Bond { account: 0, payout: 0, expiration: 0 }
    }
}

} // verus!
