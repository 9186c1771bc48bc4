//! The errors of the stablecoin.

use crate::bid::BidError;
use vstd::prelude::*;

verus! {

/// The possible errors returned by calls to this crate's functions.
#[derive(Clone, Copy, Debug, PartialEq, Eq, Structural)]
pub enum Error {
    /// The coin supply would exceed what a `u64` holds.
    CoinSupplyOverflow,
    /// The coin supply would fall below zero or below the minimum supply.
    CoinSupplyUnderflow,
    /// An account holds fewer coins than it is asked to give.
    InsufficientBalance,
    /// An account would hold more coins than a `u64` holds.
    BalanceOverflow,
    /// The price of the coin was reported as zero.
    ZeroPrice,
    /// The payout of a bid could not be computed.
    GenericOverflow,
    /// A bid holds less than is to be taken out of it.
    GenericUnderflow,
    /// Reserved for rounding that loses coins.
    RoundingError,
    /// The stablecoin can only be initialized once.
    AlreadyInitialized,
    /// An initialization needs at least one shareholder.
    NoShareholders,
    /// The price of a bid is not above the minimum bond price.
    PriceTooLow,
    /// The quantity of a bid is lower than the base unit.
    QuantityTooLow,
}

impl From<BidError> for Error {
    fn from(e: BidError) -> (r: Error) {
        match e {
            BidError::Overflow => Error::GenericOverflow,
            BidError::Underflow => Error::GenericUnderflow,
        }
    }
}

impl vstd::std_specs::convert::FromSpecImpl<BidError> for Error {
    open spec fn obeys_from_spec() -> bool {
        true
    }

    open spec fn from_spec(e: BidError) -> Error {
        match e {
            BidError::Overflow => Error::GenericOverflow,
            BidError::Underflow => Error::GenericUnderflow,
        }
    }
}

} // verus!
