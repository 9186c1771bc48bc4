//! By how much the supply changes for a price: signed fixed-point numbers
//! with nine decimal digits.

use crate::perbill::Coins;
use sp_runtime::{FixedI64, FixedPointNumber};
use vstd::prelude::*;

verus! {

/// The fixed-point number one.
pub const FIXED_ONE: i64 = 1_000_000_000;

/// The fixed-point number nearest below `numer / denom`, held at the
/// largest fixed-point number.
pub open spec fn fixed_quotient(numer: u64, denom: u64) -> int {
    let quotient = (numer as int * FIXED_ONE as int) / denom as int;
    if quotient > i64::MAX {
        i64::MAX as int
    } else {
        quotient
    }
}

/// The whole number nearest below `amount` times the fixed-point number
/// `fixed`, held at the largest amount; nothing for a negative number.
pub open spec fn fixed_product(fixed: i64, amount: u64) -> int {
    let product = (fixed as int * amount as int) / FIXED_ONE as int;
    if fixed < 0 {
        0
    } else if product > u64::MAX {
        u64::MAX as int
    } else {
        product
    }
}

/// The part of `supply` by which `numer / denom` exceeds one.
pub open spec fn supply_change(numer: Coins, denom: Coins, supply: Coins) -> Coins {
    fixed_product((fixed_quotient(numer, denom) - FIXED_ONE) as i64, supply) as Coins
}

/// Calls `FixedI64::saturating_from_rational` of `sp_runtime` on two `u64`
/// and hands out the inner value: the quotient in billionths, rounded
/// towards zero, or the largest value where the quotient does not fit.
#[verifier::external_body]
fn fixed_from_rational(numer: u64, denom: u64) -> (fixed: i64)
    requires
        denom != 0,
    ensures
        fixed == fixed_quotient(numer, denom),
{
    FixedI64::saturating_from_rational(numer, denom).into_inner()
}

/// Calls `FixedI64::saturating_mul_int` of `sp_runtime` with a `u64` on the
/// number of inner value `fixed`: the product rounded towards zero, the
/// largest `u64` where it does not fit, and zero for a negative number.
#[verifier::external_body]
fn fixed_mul_int(fixed: i64, amount: u64) -> (product: u64)
    ensures
        product == fixed_product(fixed, amount),
{
    FixedI64::from_inner(fixed).saturating_mul_int(amount)
}

/// The part of `supply` by which the ratio of `numer` to `denom` exceeds one.
pub fn saturated_change(numer: Coins, denom: Coins, supply: Coins) -> (change: Coins)
    requires
        denom != 0,
    ensures
        change == supply_change(numer, denom, supply),
{
    let ratio: i64 = fixed_from_rational(numer, denom);
    assert(fixed_quotient(numer, denom) >= 0) by (nonlinear_arith)
        requires
            denom > 0,
    ;
    let fraction: i64 = ratio - FIXED_ONE;
    fixed_mul_int(fraction, supply)
}

} // verus!
