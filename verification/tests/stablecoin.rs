use itertools::Itertools;
use num_rational::Ratio;
use quickcheck::{QuickCheck, TestResult};
use rand::{thread_rng, Rng};
use sp_runtime::traits::CheckedMul;
use sp_runtime::{FixedI64, FixedPointNumber};
use stablecoin::fixed::saturated_change;
use stablecoin::{
    Bid, Bond, Coins, Config, Error, Event, FetchPrice, Module, Perbill, Trait,
};
use std::sync::atomic::{AtomicU64, Ordering};

const BASE_UNIT: u64 = 1000;
const EXPIRATION_PERIOD: u64 = 100;
const MAXIMUM_BIDS: usize = 10;
const INITIAL_SUPPLY: u64 = 100 * BASE_UNIT;

static LAST_PRICE: AtomicU64 = AtomicU64::new(BASE_UNIT);

pub struct RandomPrice;

impl FetchPrice<Coins> for RandomPrice {
    fn fetch_price() -> Coins {
        let prev = LAST_PRICE.load(Ordering::SeqCst);
        let random = thread_rng().gen_range(500, 1500);
        let ratio: Ratio<u64> = Ratio::new(random, 1000);
        let next = ratio
            .checked_mul(&prev.into())
            .map(|r| r.to_integer())
            .unwrap_or(prev);
        LAST_PRICE.store(next + 1, Ordering::SeqCst);
        prev
    }
}

pub struct Test;

impl Trait for Test {
    type CoinPrice = RandomPrice;

    // expire bonds quickly in tests
    const EXPIRATION_PERIOD: u64 = EXPIRATION_PERIOD;

    // allow few bids
    const MAXIMUM_BIDS: usize = MAXIMUM_BIDS;

    // adjust supply every second block
    const ADJUSTMENT_FREQUENCY: u64 = 2;

    const BASE_UNIT: u64 = BASE_UNIT;

    const INITIAL_SUPPLY: u64 = INITIAL_SUPPLY;

    const MINIMUM_SUPPLY: u64 = BASE_UNIT;
}

fn new_test_ext() -> Module {
    let config = Config::of::<Test>();
    assert!(
        config.is_valid(),
        "initial coin supply needs to be greater than the minimum"
    );
    Module::new(config)
}

// ------------------------------------------------------------
// utils

fn add_bond(coin: &mut Module, bond: Bond) {
    let bonds = coin.bonds_transient();
    bonds.push(bond);
    bonds.commit();
}

fn ten_shareholders() -> Vec<u64> {
    vec![1, 2, 3, 4, 5, 6, 7, 8, 9, 10]
}

// 1.2 * BaseUnit
fn payout_of_120_percent() -> u64 {
    FixedI64::saturating_from_rational(20u64, 100u64).saturating_mul_acc_int(BASE_UNIT)
}

// ------------------------------------------------------------
// init tests

#[test]
fn init_and_transfer() {
    let mut coin = new_test_ext();
    assert_eq!(coin.init(1), Ok(()));

    let amount = 42;
    assert_eq!(coin.transfer(1, 2, amount), Ok(()));

    assert_eq!(coin.get_balance(1), INITIAL_SUPPLY - amount);
    assert_eq!(coin.get_balance(2), amount);
}

#[test]
fn init_with_shareholders_test() {
    let mut coin = new_test_ext();
    assert_eq!(coin.init_with_shareholders(1, ten_shareholders()), Ok(()));

    let shares = coin.shares().clone();
    assert_eq!(
        shares,
        vec![
            (1, 1),
            (2, 1),
            (3, 1),
            (4, 1),
            (5, 1),
            (6, 1),
            (7, 1),
            (8, 1),
            (9, 1),
            (10, 1)
        ]
    );
    let share_supply: u64 = shares.iter().map(|(_a, s)| s).sum();
    assert_eq!(share_supply, 10);
}

// ------------------------------------------------------------
// bids
#[test]
fn bids_are_sorted_highest_to_lowest() {
    let mut coin = new_test_ext();
    assert_eq!(coin.init(1), Ok(()));

    let bid_amount = 5 * BASE_UNIT;
    coin.add_bid(Bid::new(1, Perbill::from_percent(25), bid_amount));
    coin.add_bid(Bid::new(1, Perbill::from_percent(33), bid_amount));
    coin.add_bid(Bid::new(1, Perbill::from_percent(50), bid_amount));

    let bids = coin.bond_bids().clone();
    let prices: Vec<_> = bids.into_iter().map(|Bid { price, .. }| price).collect();
    // largest bid is stored last so we can pop
    assert_eq!(
        prices,
        vec![
            Perbill::from_percent(25),
            Perbill::from_percent(33),
            Perbill::from_percent(50),
        ]
    );
}

#[test]
fn amount_of_bids_is_limited() {
    let mut coin = new_test_ext();
    assert_eq!(coin.init(1), Ok(()));

    let bid_amount = 5 * BASE_UNIT;
    for _i in 0..(2 * MAXIMUM_BIDS) {
        coin.add_bid(Bid::new(1, Perbill::from_percent(25), bid_amount));
    }

    assert_eq!(coin.bond_bids().len(), MAXIMUM_BIDS);
}

#[test]
fn truncated_bids_are_refunded() {
    let mut coin = new_test_ext();
    assert_eq!(coin.init(1), Ok(()));

    let price = Perbill::from_percent(25);
    let quantity = BASE_UNIT;
    for _i in 0..(MAXIMUM_BIDS + 1) {
        assert_eq!(coin.bid_for_bond(1, price, quantity), Ok(()));
    }

    assert_eq!(coin.bond_bids().len(), MAXIMUM_BIDS);
    let expected = INITIAL_SUPPLY - price.mul(quantity) * (MAXIMUM_BIDS as u64);
    assert_eq!(coin.get_balance(1), expected);
}

#[test]
fn cancel_all_bids_test() {
    let mut coin = new_test_ext();
    assert_eq!(coin.init(1), Ok(()));

    let bid_amount = 5 * BASE_UNIT;
    coin.add_bid(Bid::new(1, Perbill::from_percent(25), bid_amount));
    coin.add_bid(Bid::new(2, Perbill::from_percent(33), bid_amount));
    coin.add_bid(Bid::new(1, Perbill::from_percent(50), bid_amount));
    coin.add_bid(Bid::new(3, Perbill::from_percent(50), bid_amount));
    assert_eq!(coin.bond_bids().len(), 4);

    coin.cancel_all_bids(1);
    assert_eq!(coin.events().last(), Some(&Event::CancelledBids(1)));

    let bids = coin.bond_bids().clone();
    assert_eq!(bids.len(), 2);
    for bid in bids {
        assert!(bid.account != 1);
    }
}

#[test]
fn cancel_selected_bids_test() {
    let mut coin = new_test_ext();
    assert_eq!(coin.init(1), Ok(()));

    let bid_amount = 5 * BASE_UNIT;
    coin.add_bid(Bid::new(1, Perbill::from_percent(25), bid_amount));
    coin.add_bid(Bid::new(2, Perbill::from_percent(33), bid_amount));
    coin.add_bid(Bid::new(1, Perbill::from_percent(45), bid_amount));
    coin.add_bid(Bid::new(1, Perbill::from_percent(50), bid_amount));
    coin.add_bid(Bid::new(3, Perbill::from_percent(55), bid_amount));
    assert_eq!(coin.bond_bids().len(), 5);

    coin.cancel_bids_at_or_below(1, Perbill::from_percent(45));
    assert_eq!(
        coin.events().last(),
        Some(&Event::CancelledBidsBelow(1, Perbill::from_percent(45)))
    );

    let bids = coin.bond_bids().clone();
    assert_eq!(bids.len(), 3);
    let bids: Vec<(_, _)> = bids
        .into_iter()
        .map(|Bid { account, price, .. }| (account, price))
        .collect();
    // highest bid is last so we can pop
    assert_eq!(
        bids,
        vec![
            (2, Perbill::from_percent(33)),
            (1, Perbill::from_percent(50)),
            (3, Perbill::from_percent(55)),
        ]
    );
}

// ------------------------------------------------------------
// bonds
#[test]
fn adding_bonds() {
    let mut coin = new_test_ext();
    let block_number: u64 = 0;
    assert_eq!(coin.init(1), Ok(()));

    let payout = payout_of_120_percent();
    let bond = coin.new_bond(3, payout, block_number);
    add_bond(&mut coin, bond);

    let (start, end) = coin.bonds_range();
    // computing the length this way is fine because there was no overflow
    assert_eq!(end - start, 1);
    let bond = &coin.get_bond(start);
    assert_eq!(bond.expiration, block_number + EXPIRATION_PERIOD);
}

#[test]
fn expire_bonds() {
    let mut coin = new_test_ext();
    let mut block_number: u64 = 0;
    assert_eq!(coin.init(1), Ok(()));
    let acc = 3;
    let prev_acc_balance = coin.get_balance(acc);
    let payout = payout_of_120_percent();
    let bond = coin.new_bond(acc, payout, block_number);
    add_bond(&mut coin, bond);

    let (start, end) = coin.bonds_range();
    // computing the length this way is fine because there was no overflow
    assert_eq!(end - start, 1);
    let bond = &coin.get_bond(start);
    assert_eq!(bond.expiration, block_number + EXPIRATION_PERIOD);

    let prev_supply = coin.coin_supply();
    // set blocknumber past expiration time
    block_number = block_number + EXPIRATION_PERIOD;
    assert_eq!(coin.expand_supply(prev_supply, 42, block_number), Ok(()));
    let acc_balance = coin.get_balance(acc);
    assert_eq!(
        prev_acc_balance, acc_balance,
        "account balance should not change as the bond expired"
    );
    assert_eq!(
        prev_supply + 42,
        coin.coin_supply(),
        "coin supply should have increased"
    );
}

#[test]
fn expire_bonds_and_expand_supply() {
    let mut coin = new_test_ext();
    let mut block_number: u64 = 0;
    assert_eq!(coin.init(1), Ok(()));

    let first_acc = 3;
    let prev_first_acc_balance = coin.get_balance(first_acc);
    // 1.2 * BaseUnit
    let payout = payout_of_120_percent();
    let bond = coin.new_bond(first_acc, payout, block_number);
    add_bond(&mut coin, bond);

    let (start, end) = coin.bonds_range();
    // computing the length this way is fine because there was no overflow
    assert_eq!(end - start, 1);
    let bond = &coin.get_bond(start);
    assert_eq!(bond.expiration, block_number + EXPIRATION_PERIOD);

    let prev_supply = coin.coin_supply();
    let second_acc = first_acc + 1;
    let prev_second_acc_balance = coin.get_balance(second_acc);
    // set blocknumber to the block number right before the first bond's expiration block
    block_number = block_number + EXPIRATION_PERIOD - 1;
    // Add a new bond
    let bond = coin.new_bond(second_acc, payout, block_number);
    add_bond(&mut coin, bond);
    let bond = coin.new_bond(second_acc, payout, block_number);
    add_bond(&mut coin, bond);
    let bond = coin.new_bond(second_acc, payout, block_number);
    add_bond(&mut coin, bond);
    // Note: this one is from first_acc
    let bond = coin.new_bond(first_acc, payout, block_number);
    add_bond(&mut coin, bond);

    // check bonds length
    let (start, end) = coin.bonds_range();
    // computing the length this way is fine because there was no overflow
    assert_eq!(end - start, 5);
    // Increase block number by one so that we reach the first bond's expiration block number.
    block_number = block_number + 1;
    // expand the supply, only hitting the last bond that was added to the queue, but not fully filling it
    let new_coins = payout;
    let supply = coin.coin_supply();
    assert_eq!(coin.expand_supply(supply, new_coins, block_number), Ok(()));
    // make sure there are only three bonds left (the first one expired, the second one got consumed)
    let (start, end) = coin.bonds_range();
    // computing the length this way is fine because there was no overflow
    assert_eq!(end - start, 3);
    // make sure the first account's balance hasn't changed
    assert_eq!(prev_first_acc_balance, coin.get_balance(first_acc));
    // make sure the second account's balance has increased by `new_coins`
    let intermediate_second_acc_balance = prev_second_acc_balance + new_coins;
    assert_eq!(
        prev_second_acc_balance + new_coins,
        coin.get_balance(second_acc)
    );
    // make sure total supply increased by `new_coins`
    assert_eq!(prev_supply + new_coins, coin.coin_supply());

    let intermediate_supply = coin.coin_supply();
    // Set the block number to be *exactly equal* to the expiration date of all bonds that are left in the queue
    block_number = block_number + EXPIRATION_PERIOD - 1;

    // try to expand_supply, expected to do nothing because all bonds have expired
    let new_coins = 42;
    assert_eq!(
        coin.expand_supply(intermediate_supply, new_coins, block_number),
        Ok(())
    );

    // make sure there are no bonds left (they have all expired)
    let (start, end) = coin.bonds_range();
    // computing the length this way is fine because there was no overflow
    assert_eq!(end - start, 0);

    // make sure first and second's balances haven't changed
    assert_eq!(prev_first_acc_balance, coin.get_balance(first_acc));
    assert_eq!(
        intermediate_second_acc_balance,
        coin.get_balance(second_acc)
    );

    // Make sure coin supply has increased by `new_coins`
    assert_eq!(
        intermediate_supply + new_coins,
        coin.coin_supply(),
        "coin supply should not change as the bond expired"
    );
}

// ------------------------------------------------------------
// handout tests

#[test]
fn simple_handout_test() {
    let mut coin = new_test_ext();
    assert_eq!(coin.init_with_shareholders(1, ten_shareholders()), Ok(()));
    let balance_per_acc = INITIAL_SUPPLY / 10;
    assert_eq!(coin.get_balance(1), balance_per_acc);
    assert_eq!(coin.get_balance(10), balance_per_acc);

    let amount = 30 * BASE_UNIT;
    let shares = coin.shares().clone();
    let supply = coin.coin_supply();
    assert_eq!(coin.hand_out_coins(&shares, amount, supply), Ok(()));

    let amount_per_acc = 3 * BASE_UNIT;
    assert_eq!(coin.get_balance(1), balance_per_acc + amount_per_acc);
    assert_eq!(coin.get_balance(2), balance_per_acc + amount_per_acc);
    assert_eq!(coin.get_balance(3), balance_per_acc + amount_per_acc);
    assert_eq!(coin.get_balance(7), balance_per_acc + amount_per_acc);
    assert_eq!(coin.get_balance(10), balance_per_acc + amount_per_acc);
}

#[test]
fn handout_less_than_shares_test() {
    let mut coin = new_test_ext();
    assert_eq!(coin.init_with_shareholders(1, ten_shareholders()), Ok(()));
    let balance_per_acc = INITIAL_SUPPLY / 10;
    assert_eq!(coin.get_balance(1), balance_per_acc);
    assert_eq!(coin.get_balance(10), balance_per_acc);

    let amount = 8;
    let shares = coin.shares().clone();
    let supply = coin.coin_supply();
    assert_eq!(coin.hand_out_coins(&shares, amount, supply), Ok(()));

    let amount_per_acc = 1;
    assert_eq!(coin.get_balance(1), balance_per_acc + amount_per_acc);
    assert_eq!(coin.get_balance(2), balance_per_acc + amount_per_acc);
    assert_eq!(coin.get_balance(3), balance_per_acc + amount_per_acc);
    assert_eq!(coin.get_balance(7), balance_per_acc + amount_per_acc);
    assert_eq!(coin.get_balance(8), balance_per_acc + amount_per_acc);
    assert_eq!(coin.get_balance(9), balance_per_acc);
    assert_eq!(coin.get_balance(10), balance_per_acc);
}

#[test]
fn handout_more_than_shares_test() {
    let mut coin = new_test_ext();
    assert_eq!(coin.init_with_shareholders(1, ten_shareholders()), Ok(()));
    let balance_per_acc = INITIAL_SUPPLY / 10;
    assert_eq!(coin.get_balance(1), balance_per_acc);
    assert_eq!(coin.get_balance(10), balance_per_acc);

    let amount = 13;
    let shares = coin.shares().clone();
    let supply = coin.coin_supply();
    assert_eq!(coin.hand_out_coins(&shares, amount, supply), Ok(()));

    let amount_per_acc = 1;
    assert_eq!(coin.get_balance(1), balance_per_acc + amount_per_acc + 1);
    assert_eq!(coin.get_balance(2), balance_per_acc + amount_per_acc + 1);
    assert_eq!(coin.get_balance(3), balance_per_acc + amount_per_acc + 1);
    assert_eq!(coin.get_balance(4), balance_per_acc + amount_per_acc);
    assert_eq!(coin.get_balance(8), balance_per_acc + amount_per_acc);
    assert_eq!(coin.get_balance(10), balance_per_acc + amount_per_acc);
}

fn handout_property(shareholders: Vec<u64>, amount: Coins) -> TestResult {
    let mut coin = new_test_ext();
    if amount == 0 {
        return TestResult::discard();
    }

    // Expects between 1 and 999 shareholders.
    let len = shareholders.len();
    if len < 1 || len > 999 {
        return TestResult::discard();
    }

    if shareholders.iter().any(|s| *s == 0) {
        return TestResult::discard();
    }

    if shareholders.iter().unique().count() != len {
        return TestResult::discard();
    }

    assert_eq!(coin.init_with_shareholders(1, shareholders.clone()), Ok(()));

    let amount = amount;
    // this assert might actually produce a false positive
    // as there might be errors returned that are the correct
    // behavior for the given parameters
    let shares = coin.shares().clone();
    let supply = coin.coin_supply();
    assert_eq!(coin.hand_out_coins(&shares, amount, supply), Ok(()));

    let len = len as u64;
    let payout = amount;
    let balance = coin.get_balance(shareholders[0]);
    assert!(balance >= INITIAL_SUPPLY / len + payout / len);
    assert!(balance <= INITIAL_SUPPLY / len + 1 + payout / len + 1);

    TestResult::passed()
}

#[test]
fn handout_quickcheck() {
    QuickCheck::new()
        .min_tests_passed(5)
        .tests(50)
        .max_tests(500)
        .quickcheck(handout_property as fn(Vec<u64>, u64) -> TestResult)
}

// ------------------------------------------------------------
// expand and contract tests
#[test]
fn expand_supply_test() {
    let mut coin = new_test_ext();
    let block_number: u64 = 0;
    assert_eq!(coin.init_with_shareholders(1, ten_shareholders()), Ok(()));

    // payout of 120% of BaseUnit
    let payout = payout_of_120_percent();
    let bond = coin.new_bond(2, payout, block_number);
    add_bond(&mut coin, bond);
    let bond = coin.new_bond(3, payout, block_number);
    add_bond(&mut coin, bond);
    let bond = coin.new_bond(4, payout, block_number);
    add_bond(&mut coin, bond);
    let bond = coin.new_bond(5, 7 * payout, block_number);
    add_bond(&mut coin, bond);

    let prev_supply = coin.coin_supply();
    let amount = 13 * BASE_UNIT;
    assert_eq!(coin.expand_supply(prev_supply, amount, block_number), Ok(()));

    let amount_per_acc = INITIAL_SUPPLY / 10 + BASE_UNIT / 10;
    assert_eq!(coin.get_balance(1), amount_per_acc);
    assert_eq!(coin.get_balance(2), amount_per_acc + payout);
    assert_eq!(coin.get_balance(3), amount_per_acc + payout);
    assert_eq!(coin.get_balance(4), amount_per_acc + payout);
    assert_eq!(coin.get_balance(5), amount_per_acc + 7 * payout);
    assert_eq!(coin.get_balance(8), amount_per_acc);
    assert_eq!(coin.get_balance(10), amount_per_acc);

    assert_eq!(
        coin.coin_supply(),
        prev_supply + amount,
        "supply should be increased by amount"
    );
}

#[test]
fn contract_supply_test() {
    let mut coin = new_test_ext();
    let block_number: u64 = 0;
    assert_eq!(coin.init_with_shareholders(1, ten_shareholders()), Ok(()));

    let bond_amount = Ratio::new(125, 100)
        .checked_mul(&BASE_UNIT.into())
        .map(|r| r.to_integer())
        .expect("bond_amount should not have overflowed");
    coin.add_bid(Bid::new(1, Perbill::from_percent(80), bond_amount));
    coin.add_bid(Bid::new(2, Perbill::from_percent(75), 2 * BASE_UNIT));

    let prev_supply = coin.coin_supply();
    let amount = 2 * BASE_UNIT;
    assert_eq!(coin.contract_supply(prev_supply, amount, block_number), Ok(()));

    let bids = coin.bond_bids().clone();
    assert_eq!(bids.len(), 1, "exactly one bid should have been removed");
    let remainging_bid_quantity =
        FixedI64::saturating_from_rational(667u64, 1_000u64).saturating_mul_int(BASE_UNIT);
    assert_eq!(
        bids[0],
        Bid::new(2, Perbill::from_percent(75), remainging_bid_quantity)
    );

    let (start, _) = coin.bonds_range();
    assert_eq!(coin.get_bond(start).payout, bond_amount);
    assert_eq!(
        coin.get_bond(start + 1).payout,
        FixedI64::saturating_from_rational(333u64, 1_000u64).saturating_mul_acc_int(BASE_UNIT)
    );

    assert_eq!(
        coin.coin_supply(),
        prev_supply - amount,
        "supply should be decreased by amount"
    );
}

fn expand_or_contract_property(bonds: Vec<(u64, u64)>, prices: Vec<Coins>) -> TestResult {
    let mut coin = new_test_ext();
    let block_number: u64 = 0;
    if prices.iter().any(|p| p == &0) {
        return TestResult::discard();
    }

    assert_eq!(coin.init_with_shareholders(1, ten_shareholders()), Ok(()));

    for (account, payout) in bonds {
        if account > 0 && payout > 0 {
            let bond = coin.new_bond(account, payout, block_number);
            add_bond(&mut coin, bond);
        }
    }

    for price in prices {
        // The supply is an integer of 64 bits: an expansion that would lead
        // beyond it is refused, and the coin stays as it is.
        let supply = coin.coin_supply();
        let overflows = price < BASE_UNIT
            && supply
                .checked_add(saturated_change(BASE_UNIT, price, supply))
                .is_none();
        let adjusted = coin.expand_or_contract_on_price(price, block_number);
        if overflows {
            assert_eq!(adjusted, Err(Error::CoinSupplyOverflow));
            assert_eq!(coin.coin_supply(), supply);
        } else {
            assert_eq!(adjusted, Ok(()));
        }
    }

    TestResult::passed()
}

#[test]
fn expand_or_contract_quickcheck() {
    QuickCheck::new()
        .min_tests_passed(5)
        .tests(50)
        .max_tests(500)
        .quickcheck(expand_or_contract_property as fn(Vec<(u64, u64)>, Vec<u64>) -> TestResult)
}

#[test]
fn expand_or_contract_smoketest() {
    let mut coin = new_test_ext();
    let mut rng = rand::thread_rng();

    let bonds: Vec<(u64, u64)> = (0..100)
        .map(|_| (rng.gen_range(1, 200), rng.gen_range(1, 10 * BASE_UNIT)))
        .collect();

    assert_eq!(coin.init_with_shareholders(1, ten_shareholders()), Ok(()));

    for (account, payout) in bonds {
        let bond = coin.new_bond(account, payout, 0);
        add_bond(&mut coin, bond);
    }

    for _ in 0..150 {
        let price = RandomPrice::fetch_price();
        coin.on_block_with_price(0, price).unwrap_or_else(|e| {
            println!("could not adjust supply: {:?}", e);
        });
    }
}
