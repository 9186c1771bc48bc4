use stablecoin::fixed::saturated_change;
use stablecoin::{Bid, BidError, Bond, Error, Perbill};

#[test]
fn perbill_from_percent_counts_in_billionths() {
    assert_eq!(Perbill::from_percent(25).deconstruct(), 250_000_000);
    assert_eq!(Perbill::from_percent(100).deconstruct(), 1_000_000_000);
    assert_eq!(Perbill::from_percent(0).deconstruct(), 0);
    // more than the whole counts as the whole
    assert_eq!(Perbill::from_percent(101), Perbill::from_percent(100));
    assert_eq!(Perbill::from_parts(2_000_000_000).deconstruct(), 1_000_000_000);
    assert_eq!(Perbill::from_parts(123).deconstruct(), 123);
}

#[test]
fn default_values_are_empty() {
    assert_eq!(Perbill::default(), Perbill::from_parts(0));
    assert_eq!(Bid::default(), Bid::new(0, Perbill::from_percent(0), 0));
    assert_eq!(
        Bond::default(),
        Bond {
            account: 0,
            payout: 0,
            expiration: 0
        }
    );
}

#[test]
fn payment_is_price_times_quantity() {
    let bid = Bid::new(1, Perbill::from_percent(25), 1000);
    assert_eq!(bid.payment(), 250);
    let bid = Bid::new(1, Perbill::from_percent(80), 1250);
    assert_eq!(bid.payment(), 1000);
    let bid = Bid::new(1, Perbill::from_percent(75), 667);
    assert_eq!(bid.payment(), 500);
}

#[test]
fn payment_is_rounded_to_the_nearest_coin() {
    // 1.65 coins
    assert_eq!(Bid::new(1, Perbill::from_percent(33), 5).payment(), 2);
    // 3.75 coins
    assert_eq!(Bid::new(1, Perbill::from_percent(75), 5).payment(), 4);
    // 2.25 coins
    assert_eq!(Bid::new(1, Perbill::from_percent(75), 3).payment(), 2);
    // one half is rounded down
    assert_eq!(Bid::new(1, Perbill::from_percent(25), 2).payment(), 0);
    assert_eq!(Bid::new(1, Perbill::from_percent(50), 3).payment(), 1);
}

#[test]
fn payment_of_the_largest_quantity_does_not_overflow() {
    assert_eq!(
        Bid::new(1, Perbill::from_percent(100), u64::MAX).payment(),
        u64::MAX
    );
    // 18446744073 whole billions and 709551615 coins, half of each
    assert_eq!(
        Bid::new(1, Perbill::from_percent(50), u64::MAX).payment(),
        9_223_372_036_854_775_807
    );
    assert_eq!(Bid::new(1, Perbill::from_percent(0), u64::MAX).payment(), 0);
}

#[test]
fn mul_takes_the_fraction_of_an_amount() {
    assert_eq!(Perbill::from_percent(10).mul(1000), 100);
    assert_eq!(Perbill::from_parts(1).mul(1_000_000_000), 1);
    assert_eq!(Perbill::from_parts(1).mul(500_000_000), 0);
    assert_eq!(Perbill::from_parts(1).mul(500_000_001), 1);
}

#[test]
fn remove_coins_divides_by_the_price() {
    let mut bid = Bid::new(2, Perbill::from_percent(75), 2000);
    assert_eq!(bid.remove_coins(1000), Ok(1333));
    assert_eq!(bid, Bid::new(2, Perbill::from_percent(75), 667));
    let mut bid = Bid::new(2, Perbill::from_percent(25), 2000);
    assert_eq!(bid.remove_coins(500), Ok(2000));
    assert_eq!(bid.quantity, 0);
    let mut bid = Bid::new(2, Perbill::from_percent(100), 7);
    assert_eq!(bid.remove_coins(0), Ok(0));
    assert_eq!(bid.quantity, 7);
}

#[test]
fn remove_coins_rounds_the_quantity_down() {
    // 10 / 0.3 = 33.33
    let mut bid = Bid::new(2, Perbill::from_percent(30), 100);
    assert_eq!(bid.remove_coins(10), Ok(33));
    assert_eq!(bid.quantity, 67);
    // 2 / 0.3 = 6.67
    assert_eq!(bid.remove_coins(2), Ok(6));
    assert_eq!(bid.quantity, 61);
}

#[test]
fn remove_coins_fails_with_underflow_and_keeps_the_bid() {
    let mut bid = Bid::new(2, Perbill::from_percent(75), 667);
    assert_eq!(bid.remove_coins(1000), Err(BidError::Underflow));
    assert_eq!(bid, Bid::new(2, Perbill::from_percent(75), 667));
}

#[test]
fn remove_coins_fails_with_overflow_and_keeps_the_bid() {
    // a billion and 999999999 have no common divisor, so the product of a
    // billion and the coins has to fit
    let price = Perbill::from_parts(999_999_999);
    let mut bid = Bid::new(2, price, u64::MAX);
    assert_eq!(bid.remove_coins(100_000_000_000), Err(BidError::Overflow));
    assert_eq!(bid, Bid::new(2, price, u64::MAX));
    // at a price of one half the ratio is two, and the product fits
    let mut bid = Bid::new(2, Perbill::from_percent(50), u64::MAX);
    assert_eq!(
        bid.remove_coins(100_000_000_000),
        Ok(200_000_000_000)
    );
}

#[test]
fn remove_quantity_takes_what_it_is_given() {
    let mut bid = Bid::new(2, Perbill::from_percent(75), 10);
    assert_eq!(bid.remove_quantity(None), Err(BidError::Overflow));
    assert_eq!(bid.quantity, 10);
    assert_eq!(bid.remove_quantity(Some(11)), Err(BidError::Underflow));
    assert_eq!(bid.quantity, 10);
    assert_eq!(bid.remove_quantity(Some(10)), Ok(10));
    assert_eq!(bid.quantity, 0);
}

#[test]
fn bid_errors_become_generic_errors() {
    assert_eq!(Error::from(BidError::Overflow), Error::GenericOverflow);
    assert_eq!(Error::from(BidError::Underflow), Error::GenericUnderflow);
}

#[test]
fn saturated_change_is_the_excess_of_the_ratio_over_one() {
    // 1200 / 1000 - 1 = 0.2
    assert_eq!(saturated_change(1200, 1000, 100_000), 20_000);
    // 1000 / 800 - 1 = 0.25
    assert_eq!(saturated_change(1000, 800, 100_000), 25_000);
    // 1000 / 3 - 1 = 332.333333333
    assert_eq!(saturated_change(1000, 3, 100_000), 33_233_333);
    // 1001 / 1000 - 1 = 0.001, rounded down
    assert_eq!(saturated_change(1001, 1000, 999), 0);
    assert_eq!(saturated_change(1001, 1000, 1000), 1);
    // a ratio of one changes nothing, a ratio below one neither
    assert_eq!(saturated_change(1000, 1000, 100_000), 0);
    assert_eq!(saturated_change(500, 1000, 100_000), 0);
    assert_eq!(saturated_change(1200, 1000, 0), 0);
}

#[test]
fn saturated_change_stops_at_the_largest_values() {
    // twice the largest supply does not fit
    assert_eq!(saturated_change(3000, 1000, u64::MAX), u64::MAX);
    assert_eq!(saturated_change(2000, 1000, u64::MAX), u64::MAX);
    // the ratio stops at 9223372036.854775807
    assert_eq!(saturated_change(u64::MAX, 1, 5), 46_116_860_179);
}
