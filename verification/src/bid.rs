//! Bids for bonds.

use crate::perbill::{Coins, Perbill, ACCURACY};
use num_rational::Ratio;
use sp_runtime::traits::CheckedMul;
use vstd::prelude::*;

verus! {

/// The identifier of an account.
pub type AccountId = u64;

/// A bid for a bond of the stablecoin at a certain price.
///
/// + `price` is a fraction of one coin.
/// + `quantity` is the amount of coins gained on payout of the corresponding bond.
#[derive(Clone, Copy, Debug, PartialEq, Eq, Structural)]
pub struct Bid {
    pub account: AccountId,
    pub price: Perbill,
    pub quantity: Coins,
}

/// Error returned from `remove_coins` if there is an over- or underflow.
#[derive(Clone, Copy, Debug, PartialEq, Eq, Structural)]
pub enum BidError {
    Overflow,
    Underflow,
}

/// What `num_rational` answers when the ratio of `numer` to `denom` is
/// multiplied by the whole number `factor` and the product is rounded
/// towards zero: `None` where the multiplication overflows on its way.
pub uninterp spec fn ratio_times_whole(numer: u64, denom: u64, factor: u64) -> Option<u64>;

/// Calls `Ratio::new`, `checked_mul` with `Ratio::from_integer` and
/// `to_integer` of `num_rational` on `u64`: the whole part of
/// `numer / denom * factor`.
///
/// The ratio and the factor are reduced before they are multiplied, so
/// the multiplication succeeds at least where the plain product of `numer`
/// and `factor` fits; what comes out is the quotient rounded towards zero.
/// `Ratio::new` panics on a denominator of zero.
#[verifier::external_body]
fn ratio_scale(numer: u64, denom: u64, factor: u64) -> (r: Option<u64>)
    requires
        denom != 0,
    ensures
        r == ratio_times_whole(numer, denom, factor),
        r matches Some(whole) ==> whole == (numer as int * factor as int) / denom as int,
        numer as int * factor as int <= u64::MAX ==> r is Some,
{
    match Ratio::new(numer, denom).checked_mul(&Ratio::from_integer(factor)) {
        Some(product) => Some(product.to_integer()),
        None => None,
    }
}

impl Default for Bid {
    /// A bid of nobody for nothing.
    fn default() -> (bid: Bid)
        ensures
            bid.account == 0,
            bid.price.parts() == 0,
            bid.quantity == 0,
    {
        Bid { account: 0, price: Perbill::from_parts(0), quantity: 0 }
    }
}

impl Bid {
    /// Create a new bid.
    pub fn new(account: AccountId, price: Perbill, quantity: Coins) -> (bid: Bid)
        ensures
            bid == (Bid { account, price, quantity }),
    {
        Bid { account, price, quantity }
    }

    /// The amount of coins that is paid for this bid.
    pub open spec fn payment_spec(self) -> Coins {
        self.price.times(self.quantity) as Coins
    }

    /// Return the amount of coins to be payed for this bid.
    pub fn payment(&self) -> (r: Coins)
        ensures
            r == self.payment_spec(),
            r == self.price.times(self.quantity),
            r <= self.quantity,
    {
        self.price.mul(self.quantity)
    }

    /// The bond payout that `coins` buy at the price of this bid: `coins`
    /// divided by the price and rounded towards zero, or `None` where the
    /// division overflowed on the way.
    pub open spec fn payout_for(self, coins: Coins) -> Option<Coins> {
        ratio_times_whole(ACCURACY as u64, self.price.parts() as u64, coins)
    }

    /// The bid after `payout` was taken out of its quantity, and the quantity
    /// taken; `payout` is `None` where it could not be computed.
    pub open spec fn without(self, payout: Option<Coins>) -> Result<(Bid, Coins), BidError> {
        match payout {
            None => Err(BidError::Overflow),
            Some(removed) => if removed > self.quantity {
                Err(BidError::Underflow)
            } else {
                Ok((Bid { quantity: (self.quantity - removed) as Coins, ..self }, removed))
            },
        }
    }

    /// Take `payout` out of the quantity of the bid.
    ///
    /// Fails with `Overflow` where `payout` is `None` and with `Underflow`
    /// where it is more than the bid holds; a bid that fails stays as it is.
    pub fn remove_quantity(&mut self, payout: Option<Coins>) -> (r: Result<Coins, BidError>)
        ensures
            match old(self).without(payout) {
                Ok((rest, removed)) => r == Ok::<Coins, BidError>(removed) && *final(self) == rest,
                Err(e) => r == Err::<Coins, BidError>(e) && *final(self) == *old(self),
            },
    {
        match payout {
            None => Err(BidError::Overflow),
            Some(removed) => {
                if removed > self.quantity {
                    Err(BidError::Underflow)
                } else {
                    self.quantity = self.quantity - removed;
                    Ok(removed)
                }
            },
        }
    }

    /// Remove `coins` amount of coins from the bid, mirroring the changes in quantity
    /// according to the price attached to the bid.
    ///
    /// The price converts bond payout into coins payed now, so the quantity
    /// that leaves is `coins` divided by the price. Returns that quantity.
    pub fn remove_coins(&mut self, coins: Coins) -> (r: Result<Coins, BidError>)
        requires
            old(self).price.parts() > 0,
        ensures
            match old(self).without(old(self).payout_for(coins)) {
                Ok((rest, removed)) => r == Ok::<Coins, BidError>(removed) && *final(self) == rest,
                Err(e) => r == Err::<Coins, BidError>(e) && *final(self) == *old(self),
            },
            coins as int * ACCURACY as int <= u64::MAX ==> old(self).payout_for(coins) == Some(
                ((coins as int * ACCURACY as int) / old(self).price.parts() as int) as Coins,
            ),
    {
        let payout = ratio_scale(ACCURACY as u64, self.price.deconstruct() as u64, coins);
        proof {
            if coins as int * ACCURACY as int <= u64::MAX {
                assert(ACCURACY as u64 as int * coins as int == coins as int * ACCURACY as int)
                    by (nonlinear_arith);
            }
        }
        self.remove_quantity(payout)
    }
}

} // verus!
