//! The stablecoin as a mathematical state and its operations as functions
//! on that state.

use crate::bid::{AccountId, Bid};
use crate::bond::{BlockNumber, Bond};
use crate::config::Config;
use crate::error::Error;
use crate::event::Event;
use crate::fixed::supply_change;
use crate::ledger::{credited, debited, is_total};
use crate::perbill::{Coins, Perbill};
use crate::ringbuffer::{ring_next, ring_prev, BondIndex, CAPACITY};
use vstd::prelude::*;

verus! {

/// Number of shares that a single founder gets.
pub const SHARE_SUPPLY: u64 = 100;

/// The parts per billion that the price of a bid has to exceed: ten percent.
pub const MINIMUM_BOND_PRICE_PARTS: u32 = 100_000_000;

/// Everything that the stablecoin keeps.
pub struct State {
    /// Whether the stablecoin is initialized.
    pub init: bool,
    /// The allocation of shares to accounts.
    pub shares: Seq<(AccountId, u64)>,
    /// The balance of every account.
    pub balances: Map<AccountId, Coins>,
    /// The total amount of coins in circulation.
    pub coin_supply: Coins,
    /// The index in the ring of the oldest bond.
    pub bonds_start: BondIndex,
    /// The bonds that wait for their payout, oldest first.
    pub bonds: Seq<Bond>,
    /// The bids for bonds, lowest price first.
    pub bids: Seq<Bid>,
    /// The events that were left for the host, oldest first.
    pub events: Seq<Event>,
}

/// The prices of the bids never fall from one bid to the next.
pub open spec fn sorted_by_price(bids: Seq<Bid>) -> bool {
    forall|i: int, j: int|
        0 <= i <= j < bids.len() ==> (#[trigger] bids[i]).price.parts() <= (
        #[trigger] bids[j]).price.parts()
}

/// The sum of all share counts.
pub open spec fn share_total(shares: Seq<(AccountId, u64)>) -> nat
    decreases shares.len(),
{
    if shares.len() == 0 {
        0
    } else {
        share_total(shares.drop_last()) + shares.last().1 as nat
    }
}

impl State {
    /// What every operation keeps: the bids are sorted and bounded, the
    /// bonds fit the ring, every account has a balance, and an initialized
    /// stablecoin has shares.
    pub open spec fn valid(self, config: Config) -> bool {
        &&& sorted_by_price(self.bids)
        &&& self.bids.len() <= config.maximum_bids
        &&& self.bonds.len() <= CAPACITY
        &&& is_total(self.balances)
        &&& self.init ==> share_total(self.shares) > 0
    }

    /// The state with one more event.
    pub open spec fn with_event(self, event: Event) -> State {
        State { events: self.events.push(event), ..self }
    }

    /// The state after `amount` coins were added to the balance of `who`.
    pub open spec fn credit(self, who: AccountId, amount: Coins) -> State {
        State { balances: credited(self.balances, who, amount), ..self }
    }

    /// The state after `amount` coins were taken from the balance of `who`.
    pub open spec fn debit(self, who: AccountId, amount: Coins) -> Result<State, Error> {
        if self.balances[who] < amount {
            Err(Error::InsufficientBalance)
        } else {
            Ok(State { balances: debited(self.balances, who, amount), ..self })
        }
    }

    /// The state after a bond was appended to the queue; a full queue loses
    /// its oldest bond.
    pub open spec fn push_bond(self, bond: Bond) -> State {
        if self.bonds.len() < CAPACITY {
            State { bonds: self.bonds.push(bond), ..self }
        } else {
            State {
                bonds: self.bonds.skip(1).push(bond),
                bonds_start: ring_next(self.bonds_start),
                ..self
            }
        }
    }

    /// The state after a bond was put in front of the queue; in front of a
    /// full queue there is no room, and the queue counts as empty afterwards.
    pub open spec fn push_front_bond(self, bond: Bond) -> State {
        State {
            bonds: if self.bonds.len() < CAPACITY {
                seq![bond] + self.bonds
            } else {
                Seq::empty()
            },
            bonds_start: ring_prev(self.bonds_start),
            ..self
        }
    }

    /// The state after the oldest bond left the queue.
    pub open spec fn pop_bond(self) -> State {
        State { bonds: self.bonds.skip(1), bonds_start: ring_next(self.bonds_start), ..self }
    }

    /// The state after the bonds were appended to the queue, in their order.
    pub open spec fn push_bonds(self, bonds: Seq<Bond>) -> State
        decreases bonds.len(),
    {
        if bonds.len() == 0 {
            self
        } else {
            self.push_bonds(bonds.drop_last()).push_bond(bonds.last())
        }
    }

    /// The state after the payment of `bid` went back to its account.
    pub open spec fn refund_bid(self, bid: Bid) -> State {
        self.credit(bid.account, bid.payment_spec()).with_event(
            Event::RefundedBid(bid.account, bid.payment_spec()),
        )
    }

    /// The state after the payments of `bids` went back, in their order.
    pub open spec fn refund_all(self, bids: Seq<Bid>) -> State
        decreases bids.len(),
    {
        if bids.len() == 0 {
            self
        } else {
            self.refund_all(bids.drop_last()).refund_bid(bids.last())
        }
    }

    /// The state after `bid` joined the queue behind every bid that offers
    /// no more than it; where the queue then exceeds `maximum_bids`, its
    /// first bid left and was refunded.
    pub open spec fn add_bid(self, bid: Bid, maximum_bids: usize) -> State {
        let queue = self.bids.insert(insert_index(self.bids, bid.price), bid);
        if queue.len() > maximum_bids {
            State { bids: queue.remove(0), ..self }.refund_bid(queue[0])
        } else {
            State { bids: queue, ..self }
        }
    }

    /// The state after every bid that `cancel` holds of left the queue and
    /// was refunded, the lowest bid first.
    pub open spec fn cancel_bids(self, cancel: spec_fn(Bid) -> bool) -> State {
        State { bids: self.bids.filter(spared(cancel)), ..self }.refund_all(
            self.bids.filter(cancel),
        )
    }

    /// The state after `who` cancelled its bids at or below `price`.
    pub open spec fn cancel_bids_at_or_below(self, who: AccountId, price: Perbill) -> State {
        self.cancel_bids(at_or_below(who, price)).with_event(Event::CancelledBidsBelow(who, price))
    }

    /// The state after `who` cancelled all its bids.
    pub open spec fn cancel_all_bids(self, who: AccountId) -> State {
        self.cancel_bids(all_of(who)).with_event(Event::CancelledBids(who))
    }

    /// The outcome of moving `amount` coins from `from` to `to`: the coins
    /// leave the one balance before they reach the other.
    pub open spec fn transfer(self, from: AccountId, to: AccountId, amount: Coins) -> Result<
        State,
        Error,
    > {
        if self.balances[from] < amount {
            Err(Error::InsufficientBalance)
        } else {
            let taken = debited(self.balances, from, amount);
            if taken[to] + amount > u64::MAX {
                Err(Error::BalanceOverflow)
            } else {
                Ok(
                    State { balances: taken.insert(to, (taken[to] + amount) as Coins), ..self }.with_event(
                        Event::Transfer(from, to, amount),
                    ),
                )
            }
        }
    }

    /// The outcome of a bid of `who` for `quantity` coins at `price`.
    pub open spec fn bid_for_bond(
        self,
        config: Config,
        who: AccountId,
        price: Perbill,
        quantity: Coins,
    ) -> Result<State, Error> {
        let bid = Bid { account: who, price, quantity };
        if price.parts() <= MINIMUM_BOND_PRICE_PARTS {
            Err(Error::PriceTooLow)
        } else if quantity < config.base_unit {
            Err(Error::QuantityTooLow)
        } else {
            match self.debit(who, bid.payment_spec()) {
                Err(e) => Err(e),
                Ok(payed) => Ok(
                    payed.add_bid(bid, config.maximum_bids).with_event(
                        Event::NewBid(who, price, quantity),
                    ),
                ),
            }
        }
    }

    /// The outcome of the initialization by a single founder.
    pub open spec fn init(self, config: Config, founder: AccountId) -> Result<State, Error> {
        if self.init {
            Err(Error::AlreadyInitialized)
        } else {
            Ok(
                State {
                    init: true,
                    shares: seq![(founder, SHARE_SUPPLY)],
                    balances: self.balances.insert(founder, config.initial_supply),
                    coin_supply: config.initial_supply,
                    ..self
                }.with_event(Event::Initialized(founder)),
            )
        }
    }

    /// The outcome of the initialization with one share for each of
    /// `shareholders`.
    pub open spec fn init_with_shareholders(
        self,
        config: Config,
        founder: AccountId,
        shareholders: Seq<AccountId>,
    ) -> Result<State, Error> {
        let shares = one_share_each(shareholders);
        if self.init {
            Err(Error::AlreadyInitialized)
        } else if shareholders.len() == 0 {
            Err(Error::NoShareholders)
        } else {
            match self.hand_out_coins(shares, config.initial_supply, self.coin_supply) {
                Err(e) => Err(e),
                Ok(payed) => Ok(
                    State { init: true, shares, ..payed }.with_event(Event::Initialized(founder)),
                ),
            }
        }
    }

    /// The state after `amount` coins were handed out to the holders of
    /// `shares`, on top of a supply of `coin_supply`.
    pub open spec fn pay_shareholders(
        self,
        shares: Seq<(AccountId, u64)>,
        amount: Coins,
        coin_supply: Coins,
    ) -> State {
        State {
            balances: handed_out(self.balances, shares, amount, shares.len()),
            coin_supply: (coin_supply + amount) as Coins,
            ..self
        }
    }

    /// The outcome of handing `amount` coins out to the holders of `shares`,
    /// on top of a supply of `coin_supply`.
    pub open spec fn hand_out_coins(
        self,
        shares: Seq<(AccountId, u64)>,
        amount: Coins,
        coin_supply: Coins,
    ) -> Result<State, Error> {
        if coin_supply + amount > u64::MAX {
            Err(Error::CoinSupplyOverflow)
        } else {
            Ok(self.pay_shareholders(shares, amount, coin_supply))
        }
    }

    /// The state after bonds were payed from `remaining` coins at block
    /// `now`, oldest bond first, and the coins that are left over.
    ///
    /// A bond that has expired is discarded. A bond that the coins cover is
    /// payed in full. A bond that they do not cover gets what is left and
    /// goes back to the front of the queue with the rest of its payout.
    pub open spec fn pay_bonds(self, now: BlockNumber, remaining: Coins) -> (State, Coins)
        decreases self.bonds.len(),
    {
        if remaining == 0 || self.bonds.len() == 0 {
            (self, remaining)
        } else {
            let bond = self.bonds[0];
            let rest = self.pop_bond();
            if now >= bond.expiration {
                rest.with_event(Event::BondExpired(bond.account, bond.payout)).pay_bonds(
                    now,
                    remaining,
                )
            } else if bond.payout <= remaining {
                rest.credit(bond.account, bond.payout).with_event(
                    Event::BondFulfilled(bond.account, bond.payout),
                ).pay_bonds(now, (remaining - bond.payout) as Coins)
            } else {
                let left = (bond.payout - remaining) as Coins;
                (
                    rest.credit(bond.account, remaining).push_front_bond(
                        Bond { payout: left, ..bond },
                    ).with_event(Event::BondPartiallyFulfilled(bond.account, left)),
                    0,
                )
            }
        }
    }

    /// The outcome of expanding a supply of `coin_supply` by `amount` at
    /// block `now`: bonds are payed first, shareholders get the rest.
    pub open spec fn expand_supply(self, now: BlockNumber, coin_supply: Coins, amount: Coins) -> Result<
        State,
        Error,
    > {
        if coin_supply + amount > u64::MAX {
            Err(Error::CoinSupplyOverflow)
        } else {
            let (payed, remaining) = self.pay_bonds(now, amount);
            let new_supply = (coin_supply + amount - remaining) as Coins;
            let supplied = if remaining > 0 {
                payed.pay_shareholders(payed.shares, remaining, new_supply)
            } else {
                State { coin_supply: new_supply, ..payed }
            };
            Ok(supplied.with_event(Event::ExpandedSupply(amount)))
        }
    }

    /// The state after bids were turned into bonds for `remaining` coins,
    /// highest bid first, with the coins that found no bid and the bonds
    /// that were made, `minted` before them.
    ///
    /// A bid that pays less than what remains becomes a bond as a whole. A
    /// bid that pays at least what remains gives up only the quantity that
    /// the remaining coins buy at its price and goes back into the queue
    /// with the rest, if there is any; where that quantity cannot be
    /// computed or exceeds the bid, the bid is refunded and the next one is
    /// tried.
    pub open spec fn convert_bids(
        self,
        maximum_bids: usize,
        expiration: BlockNumber,
        remaining: Coins,
        minted: Seq<Bond>,
    ) -> (State, Coins, Seq<Bond>)
        decreases self.bids.len(),
    {
        if remaining == 0 || self.bids.len() == 0 {
            (self, remaining, minted)
        } else {
            let bid = self.bids.last();
            let rest = State { bids: self.bids.drop_last(), ..self };
            if bid.payment_spec() >= remaining {
                match bid.without(bid.payout_for(remaining)) {
                    Err(_) => rest.refund_bid(bid).convert_bids(
                        maximum_bids,
                        expiration,
                        remaining,
                        minted,
                    ),
                    Ok((reduced, removed)) => (
                        if reduced.quantity > 0 {
                            rest.add_bid(reduced, maximum_bids)
                        } else {
                            rest
                        },
                        0,
                        minted.push(Bond { account: bid.account, payout: removed, expiration }),
                    ),
                }
            } else {
                rest.convert_bids(
                    maximum_bids,
                    expiration,
                    (remaining - bid.payment_spec()) as Coins,
                    minted.push(Bond { account: bid.account, payout: bid.quantity, expiration }),
                )
            }
        }
    }

    /// The outcome of contracting a supply of `coin_supply` by `amount` at
    /// block `now`: bids become bonds, and what they payed is burned.
    pub open spec fn contract_supply(
        self,
        config: Config,
        now: BlockNumber,
        coin_supply: Coins,
        amount: Coins,
    ) -> Result<State, Error> {
        if coin_supply < amount || coin_supply - amount < config.minimum_supply {
            Err(Error::CoinSupplyUnderflow)
        } else {
            let (converted, remaining, minted) = self.convert_bids(
                config.maximum_bids,
                (now + config.expiration_period) as BlockNumber,
                amount,
                Seq::empty(),
            );
            let burned = (amount - remaining) as Coins;
            Ok(
                State {
                    events: converted.events + minted.map_values(|bond: Bond| new_bond_event(bond)),
                    coin_supply: (coin_supply - burned) as Coins,
                    ..converted.push_bonds(minted)
                }.with_event(Event::ContractedSupply(burned)),
            )
        }
    }

    /// The outcome of an adjustment of the supply to `price` at block `now`.
    pub open spec fn expand_or_contract_on_price(
        self,
        config: Config,
        price: Coins,
        now: BlockNumber,
    ) -> Result<State, Error> {
        if price == 0 {
            Err(Error::ZeroPrice)
        } else if price > config.base_unit {
            self.contract_supply(
                config,
                now,
                self.coin_supply,
                supply_change(price, config.base_unit, self.coin_supply),
            )
        } else if price < config.base_unit {
            self.expand_supply(
                now,
                self.coin_supply,
                supply_change(config.base_unit, price, self.coin_supply),
            )
        } else {
            Ok(self)
        }
    }

    /// The outcome of block `block` with the coin at `price`.
    pub open spec fn on_block_with_price(self, config: Config, block: BlockNumber, price: Coins) -> Result<
        State,
        Error,
    > {
        if block % config.adjustment_frequency == 0 {
            self.expand_or_contract_on_price(config, price, block)
        } else {
            Ok(self)
        }
    }

    /// The coins that an expansion by `amount` at block `now` leaves for the
    /// shareholders once the bonds are payed.
    pub open spec fn expansion_rest(self, now: BlockNumber, amount: Coins) -> Coins {
        self.pay_bonds(now, amount).1
    }

    /// Whether an expansion by `amount` at block `now` can be carried out:
    /// coins that are left for shareholders need shares to go to.
    pub open spec fn can_expand(self, now: BlockNumber, amount: Coins) -> bool {
        self.expansion_rest(now, amount) > 0 ==> share_total(self.shares) > 0
    }

    /// Whether the supply can be adjusted to `price` at block `now`: bonds
    /// that a contraction mints need an expiration, and coins that an
    /// expansion leaves for shareholders need shares to go to.
    pub open spec fn can_adjust(self, config: Config, price: Coins, now: BlockNumber) -> bool {
        &&& now + config.expiration_period <= u64::MAX
        &&& 0 < price < config.base_unit ==> self.can_expand(
            now,
            supply_change(config.base_unit, price, self.coin_supply),
        )
    }
}

/// The predicate that holds of the bids of which `cancel` does not hold.
pub open spec fn spared(cancel: spec_fn(Bid) -> bool) -> spec_fn(Bid) -> bool {
    |bid: Bid| !cancel(bid)
}

/// The predicate that holds of the bids of `who` at or below `price`.
pub open spec fn at_or_below(who: AccountId, price: Perbill) -> spec_fn(Bid) -> bool {
    |bid: Bid| bid.account == who && bid.price.parts() <= price.parts()
}

/// The predicate that holds of the bids of `who`.
pub open spec fn all_of(who: AccountId) -> spec_fn(Bid) -> bool {
    |bid: Bid| bid.account == who
}

/// The event that tells of a new bond.
pub open spec fn new_bond_event(bond: Bond) -> Event {
    Event::NewBond(bond.account, bond.payout, bond.expiration)
}

/// As many shares as `weight` says for each account.
pub open spec fn equal_shares(holders: Seq<AccountId>, weight: u64) -> Seq<(AccountId, u64)> {
    holders.map_values(|who: AccountId| (who, weight))
}

/// One share for each account.
pub open spec fn one_share_each(shareholders: Seq<AccountId>) -> Seq<(AccountId, u64)> {
    equal_shares(shareholders, 1)
}

/// The place in the queue that a bid at `price` takes: behind the last bid
/// that offers no more.
pub open spec fn insert_index(bids: Seq<Bid>, price: Perbill) -> int
    decreases bids.len(),
{
    if bids.len() == 0 || bids.last().price.parts() <= price.parts() {
        bids.len() as int
    } else {
        insert_index(bids.drop_last(), price)
    }
}

/// The coins that each share gets: the amount divided by the number of
/// shares, but at least one coin.
pub open spec fn coins_per_share(shares: Seq<(AccountId, u64)>, amount: Coins) -> nat {
    let each = amount as nat / share_total(shares);
    if each < 1 {
        1
    } else {
        each
    }
}

/// Whether the first shareholders get one coin more than their shares
/// give them.
pub open spec fn pays_extra(shares: Seq<(AccountId, u64)>, amount: Coins) -> bool {
    coins_per_share(shares, amount) * shares.len() < amount
}

/// The coins that shareholder `i` is due, if there are enough left.
pub open spec fn payout_due(shares: Seq<(AccountId, u64)>, amount: Coins, i: int) -> nat {
    shares[i].1 as nat * coins_per_share(shares, amount) + if pays_extra(shares, amount) && i
        < amount as nat % shares.len() {
        1nat
    } else {
        0nat
    }
}

/// The smaller of two numbers.
pub open spec fn least(a: nat, b: nat) -> nat {
    if a < b {
        a
    } else {
        b
    }
}

/// The coins that the first `n` shareholders get together: each gets what
/// it is due, or what is left of the amount after those before it.
pub open spec fn paid_out(shares: Seq<(AccountId, u64)>, amount: Coins, n: nat) -> nat
    decreases n,
{
    if n == 0 {
        0
    } else {
        let before = paid_out(shares, amount, (n - 1) as nat);
        before + least(payout_due(shares, amount, n - 1), (amount - before) as nat)
    }
}

/// The coins that shareholder `i` gets: what it is due, or what is left of
/// the amount after the shareholders before it.
pub open spec fn payout_of(shares: Seq<(AccountId, u64)>, amount: Coins, i: int) -> nat {
    least(payout_due(shares, amount, i), (amount - paid_out(shares, amount, i as nat)) as nat)
}

/// The ledger after the first `n` shareholders got their coins.
pub open spec fn handed_out(
    ledger: Map<AccountId, Coins>,
    shares: Seq<(AccountId, u64)>,
    amount: Coins,
    n: nat,
) -> Map<AccountId, Coins>
    decreases n,
{
    if n == 0 {
        ledger
    } else {
        credited(
            handed_out(ledger, shares, amount, (n - 1) as nat),
            shares[n - 1].0,
            payout_of(shares, amount, n - 1) as Coins,
        )
    }
}

} // verus!
