use stablecoin::{Bid, Config, Error, Module, Perbill};

const BASE_UNIT: u64 = 1000;
const INITIAL_SUPPLY: u64 = 100 * BASE_UNIT;

fn config() -> Config {
    Config {
        expiration_period: 100,
        maximum_bids: 10,
        adjustment_frequency: 2,
        base_unit: BASE_UNIT,
        initial_supply: INITIAL_SUPPLY,
        minimum_supply: BASE_UNIT,
    }
}

fn with_founder() -> Module {
    let mut coin = Module::new(config());
    assert_eq!(coin.init(1), Ok(()));
    coin
}

#[test]
fn init_works_once() {
    let mut coin = with_founder();
    assert_eq!(coin.init(2), Err(Error::AlreadyInitialized));
    assert_eq!(
        coin.init_with_shareholders(2, vec![2, 3]),
        Err(Error::AlreadyInitialized)
    );
    assert_eq!(coin.get_balance(2), 0);
    assert_eq!(coin.shares(), &vec![(1, 100)]);
    assert_eq!(coin.events().len(), 1);
}

#[test]
fn init_needs_a_shareholder() {
    let mut coin = Module::new(config());
    assert_eq!(
        coin.init_with_shareholders(1, vec![]),
        Err(Error::NoShareholders)
    );
    assert!(!coin.initialized());
    assert_eq!(coin.init_with_shareholders(1, vec![5]), Ok(()));
    assert_eq!(coin.get_balance(5), INITIAL_SUPPLY);
}

#[test]
fn init_fails_where_the_supply_would_overflow() {
    let mut coin = Module::new(config());
    assert_eq!(coin.hand_out_coins(&[(9, 1)], u64::MAX, 0), Ok(()));
    assert_eq!(
        coin.init_with_shareholders(1, vec![1, 2]),
        Err(Error::CoinSupplyOverflow)
    );
    assert!(!coin.initialized());
    assert_eq!(coin.get_balance(1), 0);
}

#[test]
fn transfer_needs_the_coins() {
    let mut coin = with_founder();
    assert_eq!(
        coin.transfer(1, 2, INITIAL_SUPPLY + 1),
        Err(Error::InsufficientBalance)
    );
    assert_eq!(coin.transfer(2, 1, 1), Err(Error::InsufficientBalance));
    assert_eq!(coin.get_balance(1), INITIAL_SUPPLY);
    assert_eq!(coin.get_balance(2), 0);
    assert_eq!(coin.transfer(1, 2, INITIAL_SUPPLY), Ok(()));
    assert_eq!(coin.get_balance(1), 0);
    assert_eq!(coin.transfer(1, 2, 0), Ok(()));
}

#[test]
fn transfer_fails_where_the_receiver_would_overflow() {
    let mut coin = with_founder();
    coin.add_balance(2, u64::MAX - 41);
    assert_eq!(coin.transfer(1, 2, 42), Err(Error::BalanceOverflow));
    assert_eq!(coin.get_balance(1), INITIAL_SUPPLY);
    assert_eq!(coin.get_balance(2), u64::MAX - 41);
    assert_eq!(coin.transfer(1, 2, 41), Ok(()));
    assert_eq!(coin.get_balance(2), u64::MAX);
}

#[test]
fn balances_stop_at_the_largest_amount() {
    let mut coin = with_founder();
    coin.add_balance(2, u64::MAX);
    coin.add_balance(2, 5);
    assert_eq!(coin.get_balance(2), u64::MAX);
    assert_eq!(coin.remove_balance(2, u64::MAX), Ok(()));
    assert_eq!(coin.get_balance(2), 0);
    assert_eq!(coin.remove_balance(2, 1), Err(Error::InsufficientBalance));
}

#[test]
fn a_bid_needs_a_price_above_the_minimum() {
    let mut coin = with_founder();
    assert_eq!(
        coin.bid_for_bond(1, Perbill::from_percent(10), BASE_UNIT),
        Err(Error::PriceTooLow)
    );
    assert_eq!(
        coin.bid_for_bond(1, Perbill::from_percent(0), BASE_UNIT),
        Err(Error::PriceTooLow)
    );
    assert_eq!(
        coin.bid_for_bond(1, Perbill::from_parts(100_000_001), BASE_UNIT),
        Ok(())
    );
    assert_eq!(
        coin.bid_for_bond(1, Perbill::from_percent(100), BASE_UNIT),
        Ok(())
    );
    assert_eq!(coin.bond_bids().len(), 2);
}

#[test]
fn a_bid_needs_a_quantity_of_a_base_unit() {
    let mut coin = with_founder();
    assert_eq!(
        coin.bid_for_bond(1, Perbill::from_percent(80), BASE_UNIT - 1),
        Err(Error::QuantityTooLow)
    );
    // the price is looked at first
    assert_eq!(
        coin.bid_for_bond(1, Perbill::from_percent(5), BASE_UNIT - 1),
        Err(Error::PriceTooLow)
    );
    assert!(coin.bond_bids().is_empty());
    assert_eq!(coin.get_balance(1), INITIAL_SUPPLY);
}

#[test]
fn a_bid_needs_the_coins_to_pay_for_it() {
    let mut coin = with_founder();
    assert_eq!(
        coin.bid_for_bond(2, Perbill::from_percent(80), BASE_UNIT),
        Err(Error::InsufficientBalance)
    );
    assert_eq!(
        coin.bid_for_bond(1, Perbill::from_percent(80), 2 * INITIAL_SUPPLY),
        Err(Error::InsufficientBalance)
    );
    assert!(coin.bond_bids().is_empty());
    assert_eq!(coin.events().len(), 1);
    assert_eq!(
        coin.bid_for_bond(1, Perbill::from_percent(80), INITIAL_SUPPLY),
        Ok(())
    );
    assert_eq!(coin.get_balance(1), 20_000);
    assert_eq!(
        coin.bond_bids(),
        &vec![Bid::new(1, Perbill::from_percent(80), INITIAL_SUPPLY)]
    );
}

#[test]
fn a_price_of_zero_is_an_error() {
    let mut coin = with_founder();
    assert_eq!(
        coin.expand_or_contract_on_price(0, 0),
        Err(Error::ZeroPrice)
    );
    assert_eq!(coin.on_block_with_price(2, 0), Err(Error::ZeroPrice));
    assert_eq!(coin.coin_supply(), INITIAL_SUPPLY);
    assert_eq!(coin.events().len(), 1);
}

#[test]
fn expansion_fails_where_the_supply_would_overflow() {
    let mut coin = with_founder();
    assert_eq!(
        coin.expand_supply(u64::MAX, 1, 0),
        Err(Error::CoinSupplyOverflow)
    );
    assert_eq!(
        coin.hand_out_coins(&[(1, 100)], u64::MAX, 1),
        Err(Error::CoinSupplyOverflow)
    );
    assert_eq!(coin.coin_supply(), INITIAL_SUPPLY);
    assert_eq!(coin.get_balance(1), INITIAL_SUPPLY);
    assert_eq!(coin.expand_supply(u64::MAX - 1, 1, 0), Ok(()));
    assert_eq!(coin.coin_supply(), u64::MAX);
}

#[test]
fn contraction_stops_at_the_minimum_supply() {
    let mut coin = with_founder();
    coin.add_bid(Bid::new(1, Perbill::from_percent(80), 1250));
    // more than there is
    assert_eq!(
        coin.contract_supply(INITIAL_SUPPLY, INITIAL_SUPPLY + 1, 0),
        Err(Error::CoinSupplyUnderflow)
    );
    // one coin below the minimum
    assert_eq!(
        coin.contract_supply(INITIAL_SUPPLY, INITIAL_SUPPLY - BASE_UNIT + 1, 0),
        Err(Error::CoinSupplyUnderflow)
    );
    assert_eq!(coin.bond_bids().len(), 1);
    assert_eq!(coin.coin_supply(), INITIAL_SUPPLY);
    // down to the minimum is asked for, the one bid pays 1000 coins
    assert_eq!(
        coin.contract_supply(INITIAL_SUPPLY, INITIAL_SUPPLY - BASE_UNIT, 0),
        Ok(())
    );
    assert_eq!(coin.coin_supply(), INITIAL_SUPPLY - 1000);
    assert!(coin.coin_supply() >= BASE_UNIT);
}
