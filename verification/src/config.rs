//! The configuration of a stablecoin and its price oracle.

use crate::bond::BlockNumber;
use crate::perbill::Coins;
use vstd::prelude::*;

verus! {

/// Expected price oracle interface. `fetch_price` must return the amount of coins exchanged for the tracked value.
pub trait FetchPrice<Balance> {
    /// Fetch the current price.
    fn fetch_price() -> Balance;
}

/// The configuration of the stablecoin, as constants of a type.
pub trait Trait {
    /// The amount of coins necessary to buy the tracked value.
    type CoinPrice: FetchPrice<Coins>;

    /// The expiration time of a bond.
    const EXPIRATION_PERIOD: BlockNumber;

    /// The maximum amount of bids allowed in the queue. Used to prevent the queue from growing forever.
    const MAXIMUM_BIDS: usize;

    /// The frequency of adjustments of the coin supply.
    const ADJUSTMENT_FREQUENCY: BlockNumber;

    /// The amount of Coins that are meant to track the value. Example: A value of 1000 when tracking
    /// Dollars means that the Stablecoin will try to maintain a price of 1000 Coins for 1$.
    const BASE_UNIT: Coins;

    /// The initial supply of Coins.
    const INITIAL_SUPPLY: Coins;

    /// The minimum amount of Coins in circulation.
    const MINIMUM_SUPPLY: Coins;
}

/// The configuration of the stablecoin, as values.
#[derive(Clone, Copy, Debug, PartialEq, Eq, Structural)]
pub struct Config {
    /// The expiration time of a bond.
    pub expiration_period: BlockNumber,
    /// The maximum amount of bids allowed in the queue.
    pub maximum_bids: usize,
    /// The frequency of adjustments of the coin supply.
    pub adjustment_frequency: BlockNumber,
    /// The amount of Coins that are meant to track the value.
    pub base_unit: Coins,
    /// The initial supply of Coins.
    pub initial_supply: Coins,
    /// The minimum amount of Coins in circulation.
    pub minimum_supply: Coins,
}

impl Config {
    /// A configuration that a stablecoin can run on: the initial supply is
    /// greater than the minimum, supply checks recur, and the peg is not zero.
    pub open spec fn valid(self) -> bool {
        &&& self.minimum_supply < self.initial_supply
        &&& self.adjustment_frequency > 0
        &&& self.base_unit > 0
    }

    /// Whether a stablecoin can run on this configuration.
    pub fn is_valid(&self) -> (r: bool)
        ensures
            r == self.valid(),
    {
        self.minimum_supply < self.initial_supply && self.adjustment_frequency > 0
            && self.base_unit > 0
    }

    /// The constants of `T` as values.
    ///
    /// Whether a stablecoin can run on them is for `is_valid` to say.
    pub fn of<T: Trait>() -> (config: Config)
        ensures
            config == (Config {
                expiration_period: T::EXPIRATION_PERIOD,
                maximum_bids: T::MAXIMUM_BIDS,
                adjustment_frequency: T::ADJUSTMENT_FREQUENCY,
                base_unit: T::BASE_UNIT,
                initial_supply: T::INITIAL_SUPPLY,
                minimum_supply: T::MINIMUM_SUPPLY,
            }),
    {
        Config {
            expiration_period: T::EXPIRATION_PERIOD,
            maximum_bids: T::MAXIMUM_BIDS,
            adjustment_frequency: T::ADJUSTMENT_FREQUENCY,
            base_unit: T::BASE_UNIT,
            initial_supply: T::INITIAL_SUPPLY,
            minimum_supply: T::MINIMUM_SUPPLY,
        }
    }
}

} // verus!
