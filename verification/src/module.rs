//! The stablecoin: its stores in one owning value, and its operations.

use crate::bid::{AccountId, Bid};
use crate::bond::{BlockNumber, Bond};
use crate::config::{Config, FetchPrice, Trait};
use crate::error::Error;
use crate::event::Event;
use crate::fixed::saturated_change;
use crate::ledger::{credited, debited, ledger_of};
use crate::lemmas::{
    lemma_can_adjust, lemma_cancel_bids_agree, lemma_handed_out_total, lemma_insert_index,
    lemma_insert_keeps_sorted, lemma_paid_up, lemma_part_keeps_sorted, lemma_push_bonds_frame,
    lemma_refund_all_frame, lemma_shares_exist,
};
use crate::model::{
    all_of, at_or_below, handed_out, new_bond_event, one_share_each, paid_out, payout_of,
    pays_extra, share_total, sorted_by_price, spared, State, MINIMUM_BOND_PRICE_PARTS,
    SHARE_SUPPLY,
};
use crate::perbill::{Coins, Perbill};
use crate::ringbuffer::{ring_index, BondIndex, RingBuffer};
use std::collections::HashMap;
use vstd::prelude::*;

verus! {

broadcast use vstd::std_specs::hash::group_hash_axioms;

/// The stablecoin with everything it keeps.
pub struct Module {
    config: Config,
    init: bool,
    shares: Vec<(AccountId, u64)>,
    balances: HashMap<AccountId, Coins>,
    coin_supply: Coins,
    bonds: RingBuffer<Bond>,
    bids: Vec<Bid>,
    events: Vec<Event>,
}

impl View for Module {
    type V = State;

    closed spec fn view(&self) -> State {
        State {
            init: self.init,
            shares: self.shares@,
            balances: ledger_of(self.balances@),
            coin_supply: self.coin_supply,
            bonds_start: self.bonds.cursors().0,
            bonds: self.bonds@,
            bids: self.bids@,
            events: self.events@,
        }
    }
}

impl Module {
    /// The configuration that the stablecoin runs on.
    pub closed spec fn cfg(&self) -> Config {
        self.config
    }

    /// The queue of bonds as it is stored.
    pub closed spec fn ring(&self) -> RingBuffer<Bond> {
        self.bonds
    }

    /// The stores fit together: the queue of bonds is sound and committed.
    pub closed spec fn inv(&self) -> bool {
        &&& self.bonds.wf()
        &&& self.bonds.committed() == self.bonds.cursors()
    }

    /// The stablecoin is in a state that its operations keep.
    pub open spec fn wf(&self) -> bool {
        &&& self.inv()
        &&& self.cfg().valid()
        &&& self@.valid(self.cfg())
    }

    /// A stablecoin that is not initialized: no shares, no coins, no bonds,
    /// no bids.
    pub fn new(config: Config) -> (module: Module)
        requires
            config.valid(),
        ensures
            module.wf(),
            module.cfg() == config,
            module@ == (State {
                init: false,
                shares: Seq::empty(),
                balances: ledger_of(Map::empty()),
                coin_supply: 0,
                bonds_start: 0,
                bonds: Seq::empty(),
                bids: Seq::empty(),
                events: Seq::empty(),
            }),
    {
        let module = Module {
            config,
            init: false,
            shares: Vec::new(),
            balances: HashMap::new(),
            coin_supply: 0,
            bonds: RingBuffer::new(),
            bids: Vec::new(),
            events: Vec::new(),
        };
        assert(module@.balances =~= ledger_of(Map::empty()));
        module
    }

    /// The configuration that the stablecoin runs on.
    pub fn config(&self) -> (config: Config)
        ensures
            config == self.cfg(),
    {
        self.config
    }

    /// The minimum percentage to pay for a bond.
    pub fn minimum_bond_price(&self) -> (price: Perbill)
        ensures
            price.parts() == MINIMUM_BOND_PRICE_PARTS,
    {
        Perbill::from_parts(MINIMUM_BOND_PRICE_PARTS)
    }

    /// Whether the stablecoin is initialized.
    pub fn initialized(&self) -> (init: bool)
        ensures
            init == self@.init,
    {
        self.init
    }

    /// The allocation of shares to accounts.
    pub fn shares(&self) -> (shares: &Vec<(AccountId, u64)>)
        ensures
            shares@ == self@.shares,
    {
        &self.shares
    }

    /// The balance of stablecoin associated with each account.
    pub fn get_balance(&self, account: AccountId) -> (balance: Coins)
        ensures
            balance == self@.balances[account],
    {
        match self.balances.get(&account) {
            Some(balance) => *balance,
            None => 0,
        }
    }

    /// The total amount of coins in circulation.
    pub fn coin_supply(&self) -> (supply: Coins)
        ensures
            supply == self@.coin_supply,
    {
        self.coin_supply
    }

    /// The bond that is stored under `index`; a bond of nothing where none is.
    pub fn get_bond(&self, index: BondIndex) -> (bond: Bond)
        ensures
            bond == match self.ring().slot(index) {
                Some(stored) => stored,
                None => Bond { account: 0, payout: 0, expiration: 0 },
            },
            forall|i: int|
                self.inv() && 0 <= i < self@.bonds.len() && index == ring_index(
                    self@.bonds_start,
                    i,
                ) ==> bond == self@.bonds[i],
    {
        proof {
            if self.inv() {
                self.bonds.lemma_view();
            }
        }
        match self.bonds.get(index) {
            Some(stored) => *stored,
            None => Bond::default(),
        }
    }

    /// The indices of the oldest bond and behind the newest bond.
    pub fn bonds_range(&self) -> (range: (BondIndex, BondIndex))
        requires
            self.wf(),
        ensures
            range.0 == self@.bonds_start,
            range.1 == ring_index(self@.bonds_start, self@.bonds.len() as int),
    {
        proof {
            self.bonds.lemma_view();
            crate::ringbuffer::lemma_ring_end(self.bonds.cursors().0, self.bonds.cursors().1);
        }
        self.bonds.bounds()
    }

    /// The current bidding queue for bonds.
    pub fn bond_bids(&self) -> (bids: &Vec<Bid>)
        ensures
            bids@ == self@.bids,
    {
        &self.bids
    }

    /// The events that the operations have left so far.
    pub fn events(&self) -> (events: &Vec<Event>)
        ensures
            events@ == self@.events,
    {
        &self.events
    }

    /// Hand the events that the operations have left to the host.
    pub fn take_events(&mut self) -> (events: Vec<Event>)
        ensures
            events@ == old(self)@.events,
            final(self)@ == (State { events: Seq::empty(), ..old(self)@ }),
            final(self).cfg() == old(self).cfg(),
            old(self).wf() ==> final(self).wf(),
    {
        let mut events: Vec<Event> = Vec::new();
        std::mem::swap(&mut self.events, &mut events);
        events
    }

    // ------------------------------------------------------------
    // dispatch
    /// Initialize the stablecoin.
    ///
    /// `founder` gets all shares and the initial coin supply.
    pub fn init(&mut self, founder: AccountId) -> (r: Result<(), Error>)
        requires
            old(self).wf(),
        ensures
            final(self).wf(),
            final(self).cfg() == old(self).cfg(),
            match old(self)@.init(old(self).cfg(), founder) {
                Ok(state) => r is Ok && final(self)@ == state,
                Err(e) => r == Err::<(), Error>(e) && final(self)@ == old(self)@,
            },
    {
        if self.init {
            return Err(Error::AlreadyInitialized);
        }
        // ↑ verify ↑
        // ↓ update ↓
        let mut shares: Vec<(AccountId, u64)> = Vec::new();
        shares.push((founder, SHARE_SUPPLY));
        self.shares = shares;
        self.balances.insert(founder, self.config.initial_supply);
        self.coin_supply = self.config.initial_supply;
        self.init = true;
        self.events.push(Event::Initialized(founder));
        proof {
            assert(self@.shares =~= seq![(founder, SHARE_SUPPLY)]);
            assert(self@.balances =~= old(self)@.balances.insert(
                founder,
                self.cfg().initial_supply,
            ));
            assert(self@.shares.drop_last() =~= Seq::empty());
            assert(share_total(self@.shares.drop_last()) == 0);
        }
        Ok(())
    }

    /// Initialize the coin with the given `shareholders`.
    ///
    /// Initial coin supply will be distributed evenly to the shareholders.
    pub fn init_with_shareholders(&mut self, founder: AccountId, shareholders: Vec<AccountId>) -> (r:
        Result<(), Error>)
        requires
            old(self).wf(),
        ensures
            final(self).wf(),
            final(self).cfg() == old(self).cfg(),
            match old(self)@.init_with_shareholders(old(self).cfg(), founder, shareholders@) {
                Ok(state) => r is Ok && final(self)@ == state,
                Err(e) => r == Err::<(), Error>(e) && final(self)@ == old(self)@,
            },
    {
        if self.init {
            return Err(Error::AlreadyInitialized);
        }
        if shareholders.len() == 0 {
            return Err(Error::NoShareholders);
        }
        // give one share to each shareholder
        let mut shares: Vec<(AccountId, u64)> = Vec::new();
        let mut i: usize = 0;
        while i < shareholders.len()
            invariant
                i <= shareholders.len(),
                shares@ == one_share_each(shareholders@.take(i as int)),
                share_total(shares@) == i,
            decreases shareholders.len() - i,
        {
            let ghost before = shares@;
            shares.push((shareholders[i], 1));
            i += 1;
            proof {
                assert(shares@.drop_last() =~= before);
                assert(shares@ =~= one_share_each(shareholders@.take(i as int)));
            }
        }
        assert(shareholders@.take(shareholders.len() as int) =~= shareholders@);
        // ↑ verify ↑
        let supply: Coins = self.coin_supply;
        match self.hand_out_coins(shares.as_slice(), self.config.initial_supply, supply) {
            Err(e) => {
                return Err(e);
            },
            Ok(()) => {},
        }
        // ↓ update ↓
        proof {
            lemma_handed_out_total(
                old(self)@.balances,
                shares@,
                self.cfg().initial_supply,
                shares@.len(),
            );
        }
        self.shares = shares;
        self.init = true;
        self.events.push(Event::Initialized(founder));
        Ok(())
    }

    /// Transfer `amount` coins from `sender` to the account `to`.
    ///
    /// The coins leave the sender before they reach the receiver, so an
    /// account can send to itself what it holds.
    pub fn transfer(&mut self, sender: AccountId, to: AccountId, amount: u64) -> (r: Result<
        (),
        Error,
    >)
        ensures
            final(self).cfg() == old(self).cfg(),
            final(self).ring() == old(self).ring(),
            old(self).wf() ==> final(self).wf(),
            match old(self)@.transfer(sender, to, amount) {
                Ok(state) => r is Ok && final(self)@ == state,
                Err(e) => r == Err::<(), Error>(e) && final(self)@ == old(self)@,
            },
    {
        let sender_balance: Coins = self.get_balance(sender);
        if sender_balance < amount {
            return Err(Error::InsufficientBalance);
        }
        let updated_from_balance: Coins = sender_balance - amount;
        let receiver_balance: Coins = if to == sender {
            updated_from_balance
        } else {
            self.get_balance(to)
        };
        if receiver_balance > u64::MAX - amount {
            return Err(Error::BalanceOverflow);
        }
        let updated_to_balance: Coins = receiver_balance + amount;
        // ↑ verify ↑
        // ↓ update ↓
        // reduce sender's balance
        self.balances.insert(sender, updated_from_balance);
        // increase receiver's balance
        self.balances.insert(to, updated_to_balance);
        self.events.push(Event::Transfer(sender, to, amount));
        proof {
            let taken = debited(old(self)@.balances, sender, amount);
            assert(self@.balances =~= taken.insert(to, (taken[to] + amount) as Coins));
        }
        Ok(())
    }

    /// Bid for `quantity` coins at a price of `price_per_bond`.
    ///
    /// Price is a fraction of the desired payout quantity.
    /// Expects a `quantity` of a least `BaseUnit`.
    ///
    /// Example: a bid at 80% for `5 * BaseUnit` will bid for a bond with a
    /// payout of `5 * BaseUnit` coins for a price of `0.8 * 5 * BaseUnit =
    /// 4 * BaseUnit` coins.
    pub fn bid_for_bond(&mut self, who: AccountId, price_per_bond: Perbill, quantity: Coins) -> (r:
        Result<(), Error>)
        requires
            old(self).wf(),
        ensures
            final(self).wf(),
            final(self).cfg() == old(self).cfg(),
            match old(self)@.bid_for_bond(old(self).cfg(), who, price_per_bond, quantity) {
                Ok(state) => r is Ok && final(self)@ == state,
                Err(e) => r == Err::<(), Error>(e) && final(self)@ == old(self)@,
            },
    {
        if price_per_bond.deconstruct() <= MINIMUM_BOND_PRICE_PARTS {
            return Err(Error::PriceTooLow);
        }
        if quantity < self.config.base_unit {
            return Err(Error::QuantityTooLow);
        }
        let bid = Bid::new(who, price_per_bond, quantity);
        // ↑ verify ↑
        match self.remove_balance(who, bid.payment()) {
            Err(e) => {
                return Err(e);
            },
            Ok(()) => {},
        }
        // ↓ update ↓
        self.add_bid(bid);
        self.events.push(Event::NewBid(who, price_per_bond, quantity));
        Ok(())
    }

    /// Adjust the amount of coins according to the price that `T::CoinPrice`
    /// reports at the start of block `n`.
    ///
    /// The outcome is for the log of the host: an adjustment that fails
    /// leaves everything as it is and must not stop the block.
    pub fn on_initialize<T: Trait>(&mut self, n: BlockNumber) -> (r: Result<(), Error>)
        requires
            old(self).wf(),
            forall|price: Coins| old(self)@.can_adjust(old(self).cfg(), price, n),
        ensures
            final(self).wf(),
            final(self).cfg() == old(self).cfg(),
            exists|price: Coins|
                match #[trigger] old(self)@.on_block_with_price(old(self).cfg(), n, price) {
                    Ok(state) => r is Ok && final(self)@ == state,
                    Err(e) => r == Err::<(), Error>(e) && final(self)@ == old(self)@,
                },
    {
        let price: Coins = T::CoinPrice::fetch_price();
        self.on_block_with_price(n, price)
    }

    // ------------------------------------------------------------
    // balances
    /// Add `amount` coins to the balance for `account`.
    pub fn add_balance(&mut self, account: AccountId, amount: Coins)
        ensures
            final(self)@ == old(self)@.credit(account, amount),
            final(self).cfg() == old(self).cfg(),
            final(self).ring() == old(self).ring(),
            old(self).wf() ==> final(self).wf(),
    {
        let balance: Coins = self.get_balance(account);
        let updated: Coins = if balance > u64::MAX - amount {
            u64::MAX
        } else {
            balance + amount
        };
        self.balances.insert(account, updated);
        assert(self@.balances =~= credited(old(self)@.balances, account, amount));
    }

    /// Remove `amount` coins from the balance of `account`.
    pub fn remove_balance(&mut self, account: AccountId, amount: Coins) -> (r: Result<(), Error>)
        ensures
            match old(self)@.debit(account, amount) {
                Ok(state) => r is Ok && final(self)@ == state,
                Err(e) => r == Err::<(), Error>(e) && final(self)@ == old(self)@,
            },
            final(self).cfg() == old(self).cfg(),
            old(self).wf() ==> final(self).wf(),
    {
        let balance: Coins = self.get_balance(account);
        if balance < amount {
            return Err(Error::InsufficientBalance);
        }
        self.balances.insert(account, balance - amount);
        assert(self@.balances =~= debited(old(self)@.balances, account, amount));
        Ok(())
    }

    // ------------------------------------------------------------
    // bids
    /// Add a bid to the queue.
    pub fn add_bid(&mut self, bid: Bid)
        requires
            old(self).wf(),
        ensures
            final(self).wf(),
            final(self).cfg() == old(self).cfg(),
            final(self)@ == old(self)@.add_bid(bid, old(self).cfg().maximum_bids),
    {
        self._add_bid_to(bid);
    }

    /// Add a bid to the queue, keeping it sorted from lowest to highest
    /// price; a bid goes behind the bids at its own price.
    ///
    /// Truncates the bids to `MaximumBids` to keep the queue bounded: the
    /// lowest bid leaves and is refunded.
    pub fn _add_bid_to(&mut self, bid: Bid)
        requires
            old(self).wf(),
        ensures
            final(self).wf(),
            final(self).cfg() == old(self).cfg(),
            final(self)@ == old(self)@.add_bid(bid, old(self).cfg().maximum_bids),
    {
        let price: u32 = bid.price.deconstruct();
        let mut low: usize = 0;
        let mut high: usize = self.bids.len();
        while low < high
            invariant
                *self == *old(self),
                sorted_by_price(self.bids@),
                price == bid.price.parts(),
                low <= high <= self.bids.len(),
                forall|i: int| 0 <= i < low ==> (#[trigger] self.bids@[i]).price.parts() <= price,
                forall|i: int|
                    high <= i < self.bids.len() ==> (#[trigger] self.bids@[i]).price.parts()
                        > price,
            decreases high - low,
        {
            let middle: usize = low + (high - low) / 2;
            if self.bids[middle].price.deconstruct() <= price {
                assert forall|i: int| 0 <= i < middle + 1 implies (#[trigger] self.bids@[i]).price.parts()
                    <= price by {
                    assert(self.bids@[i].price.parts() <= self.bids@[middle as int].price.parts());
                }
                low = middle + 1;
            } else {
                assert forall|i: int| middle <= i < self.bids.len() implies (
                #[trigger] self.bids@[i]).price.parts() > price by {
                    assert(self.bids@[middle as int].price.parts() <= self.bids@[i].price.parts());
                }
                high = middle;
            }
        }
        proof {
            lemma_insert_index(self.bids@, bid.price, low as int);
            lemma_insert_keeps_sorted(self.bids@, bid);
        }
        self.bids.insert(low, bid);
        if self.bids.len() > self.config.maximum_bids {
            let ghost queue = self.bids@;
            let lowest = self.bids.remove(0);
            proof {
                lemma_part_keeps_sorted(queue, self.bids@, 1);
            }
            self.refund_bid(&lowest);
        }
    }

    /// Refund the coins payed for `bid` to its account.
    pub fn refund_bid(&mut self, bid: &Bid)
        ensures
            final(self)@ == old(self)@.refund_bid(*bid),
            final(self).cfg() == old(self).cfg(),
            final(self).ring() == old(self).ring(),
            old(self).wf() ==> final(self).wf(),
    {
        let payment: Coins = bid.payment();
        self.add_balance(bid.account, payment);
        self.events.push(Event::RefundedBid(bid.account, payment));
    }

    /// Cancel all bids where `cancel_for` returns true and refund the bidders.
    ///
    /// `cancel_for` has to accept every bid and to decide each bid in one
    /// way: then there is a predicate that says which bids it cancels.
    pub fn cancel_bids<F>(&mut self, cancel_for: F) where F: Fn(&Bid) -> bool
        requires
            old(self).wf(),
            forall|bid: Bid| call_requires(cancel_for, (&bid,)),
            forall|bid: Bid, one: bool, other: bool|
                call_ensures(cancel_for, (&bid,), one) && call_ensures(cancel_for, (&bid,), other)
                    ==> one == other,
        ensures
            final(self).wf(),
            final(self).cfg() == old(self).cfg(),
            exists|cancel: spec_fn(Bid) -> bool|
                {
                    &&& forall|i: int|
                        0 <= i < old(self)@.bids.len() ==> call_ensures(
                            cancel_for,
                            (&old(self)@.bids[i],),
                            #[trigger] cancel(old(self)@.bids[i]),
                        )
                    &&& final(self)@ == old(self)@.cancel_bids(cancel)
                },
    {
        let ghost cancel = |bid: Bid| call_ensures(cancel_for, (&bid,), true);
        let ghost bids = self.bids@;
        let mut kept: Vec<Bid> = Vec::new();
        let mut i: usize = 0;
        proof {
            reveal(Seq::filter);
            assert(bids.take(0) =~= Seq::<Bid>::empty());
        }
        while i < self.bids.len()
            invariant
                i <= bids.len(),
                bids == old(self)@.bids,
                self.bids@ == bids,
                sorted_by_price(bids),
                self.wf(),
                self.cfg() == old(self).cfg(),
                cancel == |bid: Bid| call_ensures(cancel_for, (&bid,), true),
                forall|bid: Bid| call_requires(cancel_for, (&bid,)),
                forall|bid: Bid, one: bool, other: bool|
                    call_ensures(cancel_for, (&bid,), one) && call_ensures(
                        cancel_for,
                        (&bid,),
                        other,
                    ) ==> one == other,
                forall|j: int|
                    0 <= j < i ==> call_ensures(cancel_for, (&bids[j],), #[trigger] cancel(bids[j])),
                self@ == old(self)@.refund_all(bids.take(i as int).filter(cancel)),
                kept@ == bids.take(i as int).filter(spared(cancel)),
                kept.len() <= i,
                sorted_by_price(kept@),
                forall|j: int, k: int|
                    0 <= j < kept.len() && i <= k < bids.len() ==> (#[trigger] kept@[j]).price.parts()
                        <= (#[trigger] bids[k]).price.parts(),
            decreases bids.len() - i,
        {
            let bid: Bid = self.bids[i];
            let cancelled: bool = cancel_for(&bid);
            proof {
                reveal(Seq::filter);
                let front = bids.take(i as int);
                assert(bids.take(i + 1).drop_last() =~= front);
                assert(bids.take(i + 1).last() == bid);
                assert(cancelled == cancel(bid));
                assert(front.filter(cancel).push(bid).drop_last() =~= front.filter(cancel));
            }
            if cancelled {
                self.refund_bid(&bid);
            } else {
                kept.push(bid);
            }
            i += 1;
        }
        proof {
            assert(bids.take(i as int) =~= bids);
            lemma_refund_all_frame(old(self)@, old(self)@, bids.filter(cancel));
            lemma_refund_all_frame(
                State { bids: bids.filter(spared(cancel)), ..old(self)@ },
                old(self)@,
                bids.filter(cancel),
            );
        }
        self.bids = kept;
        assert(self@ == old(self)@.cancel_bids(cancel));
    }

    /// Cancel all bids at or below `price` of `who` and refund the coins.
    pub fn cancel_bids_at_or_below(&mut self, who: AccountId, price: Perbill)
        requires
            old(self).wf(),
        ensures
            final(self).wf(),
            final(self).cfg() == old(self).cfg(),
            final(self)@ == old(self)@.cancel_bids_at_or_below(who, price),
    {
        let limit: u32 = price.deconstruct();
        let cancel_for = |bid: &Bid| -> (cancelled: bool)
            ensures
                cancelled == (bid.account == who && bid.price.parts() <= limit),
            { bid.account == who && bid.price.deconstruct() <= limit };
        self.cancel_bids(cancel_for);
        proof {
            let cancel = choose|cancel: spec_fn(Bid) -> bool|
                {
                    &&& forall|i: int|
                        0 <= i < old(self)@.bids.len() ==> call_ensures(
                            cancel_for,
                            (&old(self)@.bids[i],),
                            #[trigger] cancel(old(self)@.bids[i]),
                        )
                    &&& self@ == old(self)@.cancel_bids(cancel)
                };
            lemma_cancel_bids_agree(old(self)@, cancel, at_or_below(who, price));
        }
        self.events.push(Event::CancelledBidsBelow(who, price));
    }

    /// Cancel all bids belonging to `who` and refund the coins.
    pub fn cancel_all_bids(&mut self, who: AccountId)
        requires
            old(self).wf(),
        ensures
            final(self).wf(),
            final(self).cfg() == old(self).cfg(),
            final(self)@ == old(self)@.cancel_all_bids(who),
    {
        let cancel_for = |bid: &Bid| -> (cancelled: bool)
            ensures
                cancelled == (bid.account == who),
            { bid.account == who };
        self.cancel_bids(cancel_for);
        proof {
            let cancel = choose|cancel: spec_fn(Bid) -> bool|
                {
                    &&& forall|i: int|
                        0 <= i < old(self)@.bids.len() ==> call_ensures(
                            cancel_for,
                            (&old(self)@.bids[i],),
                            #[trigger] cancel(old(self)@.bids[i]),
                        )
                    &&& self@ == old(self)@.cancel_bids(cancel)
                };
            lemma_cancel_bids_agree(old(self)@, cancel, all_of(who));
        }
        self.events.push(Event::CancelledBids(who));
    }

    /// Tries to contract the supply by `amount` by converting bids to bonds.
    ///
    /// Note: Could contract the supply by less than `amount` if there are not enough bids.
    #[verifier::loop_isolation(false)]
    pub fn contract_supply(&mut self, coin_supply: Coins, amount: Coins, now: BlockNumber) -> (r:
        Result<(), Error>)
        requires
            old(self).wf(),
            now + old(self).cfg().expiration_period <= u64::MAX,
        ensures
            final(self).wf(),
            final(self).cfg() == old(self).cfg(),
            match old(self)@.contract_supply(old(self).cfg(), now, coin_supply, amount) {
                Ok(state) => r is Ok && final(self)@ == state,
                Err(e) => r == Err::<(), Error>(e) && final(self)@ == old(self)@,
            },
    {
        // Checking whether coin supply would underflow.
        if coin_supply < amount {
            return Err(Error::CoinSupplyUnderflow);
        }
        let remaining_supply: Coins = coin_supply - amount;
        if remaining_supply < self.config.minimum_supply {
            return Err(Error::CoinSupplyUnderflow);
        }
        let ghost expiration = (now + self.config.expiration_period) as BlockNumber;
        let ghost maximum = self.config.maximum_bids;
        let mut remaining: Coins = amount;
        let mut new_bonds: Vec<Bond> = Vec::new();
        while remaining > 0 && self.bids.len() > 0
            invariant
                self.wf(),
                self.cfg() == old(self).cfg(),
                maximum == self.cfg().maximum_bids,
                expiration == now + self.cfg().expiration_period,
                now + self.cfg().expiration_period <= u64::MAX,
                remaining <= amount,
                self@.convert_bids(maximum, expiration, remaining, new_bonds@) == old(
                    self,
                )@.convert_bids(maximum, expiration, amount, Seq::empty()),
            decreases
                    (if remaining > 0 {
                        self.bids.len() + 1
                    } else {
                        0
                    }),
        {
            let ghost before = self@;
            let popped = self.bids.pop();
            let mut bid: Bid = popped.unwrap();
            proof {
                lemma_part_keeps_sorted(before.bids, self.bids@, 0);
                assert(self@ == (State { bids: before.bids.drop_last(), ..before }));
            }
            if bid.payment() >= remaining {
                proof {
                    crate::perbill::lemma_perbill_product_zero(bid.quantity);
                }
                match bid.remove_coins(remaining) {
                    Err(_) => {
                        self.refund_bid(&bid);
                    },
                    Ok(removed_quantity) => {
                        new_bonds.push(self.new_bond(bid.account, removed_quantity, now));
                        // re-add bid with reduced amount
                        if bid.quantity > 0 {
                            self._add_bid_to(bid);
                        }
                        remaining = 0;
                    },
                }
            } else {
                let payment: Coins = bid.payment();
                new_bonds.push(self.new_bond(bid.account, bid.quantity, now));
                remaining -= payment;
            }
        }
        let burned: Coins = amount - remaining;
        let new_supply: Coins = coin_supply - burned;
        let ghost converted = self@;
        let mut i: usize = 0;
        while i < new_bonds.len()
            invariant
                i <= new_bonds.len(),
                self.wf(),
                self.cfg() == old(self).cfg(),
                self@ == (State {
                    events: converted.events + new_bonds@.take(i as int).map_values(
                        |bond: Bond| new_bond_event(bond),
                    ),
                    ..converted
                }),
            decreases new_bonds.len() - i,
        {
            let bond: Bond = new_bonds[i];
            self.events.push(Event::NewBond(bond.account, bond.payout, bond.expiration));
            i += 1;
            proof {
                let announce = |bond: Bond| new_bond_event(bond);
                assert(new_bonds@.take(i as int).map_values(announce) =~= new_bonds@.take(
                    i - 1,
                ).map_values(announce).push(new_bond_event(bond)));
                assert(self@.events =~= converted.events + new_bonds@.take(i as int).map_values(
                    announce,
                ));
            }
        }
        assert(new_bonds@.take(new_bonds.len() as int) =~= new_bonds@);
        proof {
            lemma_push_bonds_frame(self@, converted, new_bonds@);
            lemma_push_bonds_frame(converted, converted, new_bonds@);
        }
        self.push_bonds(new_bonds);
        self.coin_supply = new_supply;
        self.events.push(Event::ContractedSupply(burned));
        Ok(())
    }

    // ------------------------------------------------------------
    // bonds
    /// Create a new bond for the given `account` with the given `payout`.
    ///
    /// Expiration is calculated based on the current block `now` and the configured
    /// `ExpirationPeriod`.
    pub fn new_bond(&self, account: AccountId, payout: Coins, now: BlockNumber) -> (bond: Bond)
        requires
            now + self.cfg().expiration_period <= u64::MAX,
        ensures
            bond == (Bond {
                account,
                payout,
                expiration: (now + self.cfg().expiration_period) as BlockNumber,
            }),
    {
        let expiration: BlockNumber = now + self.config.expiration_period;
        Bond { account, payout, expiration }
    }

    /// The queue of bonds, to work on: what is done to it is done to the
    /// stablecoin. Whoever works on it commits the cursors in the end.
    pub fn bonds_transient(&mut self) -> (bonds: &mut RingBuffer<Bond>)
        ensures
            *bonds == old(self).ring(),
            final(self).ring() == *final(bonds),
            final(self).cfg() == old(self).cfg(),
            final(self)@ == (State {
                bonds: final(bonds)@,
                bonds_start: final(bonds).cursors().0,
                ..old(self)@
            }),
    {
        &mut self.bonds
    }

    /// Push several bonds into the queue.
    #[verifier::loop_isolation(false)]
    pub fn push_bonds(&mut self, bonds_to_push: Vec<Bond>)
        requires
            old(self).wf(),
        ensures
            final(self).wf(),
            final(self).cfg() == old(self).cfg(),
            final(self)@ == old(self)@.push_bonds(bonds_to_push@),
    {
        let ghost before = self@;
        let bonds = self.bonds_transient();
        let mut i: usize = 0;
        while i < bonds_to_push.len()
            invariant
                i <= bonds_to_push.len(),
                bonds.wf(),
                (State { bonds: bonds@, bonds_start: bonds.cursors().0, ..before })
                    == before.push_bonds(bonds_to_push@.take(i as int)),
            decreases bonds_to_push.len() - i,
        {
            let ghost queued = State { bonds: bonds@, bonds_start: bonds.cursors().0, ..before };
            bonds.push(bonds_to_push[i]);
            i += 1;
            proof {
                assert(bonds_to_push@.take(i as int).drop_last() =~= bonds_to_push@.take(i - 1));
                assert((State { bonds: bonds@, bonds_start: bonds.cursors().0, ..before })
                    == queued.push_bond(bonds_to_push@[i - 1]));
            }
        }
        assert(bonds_to_push@.take(bonds_to_push.len() as int) =~= bonds_to_push@);
        bonds.commit();
        proof {
            bonds.lemma_view();
        }
    }

    // ------------------------------------------------------------
    // expand supply
    /// Expand the supply by `amount` by paying out bonds and shares.
    ///
    /// Will first pay out bonds and only pay out shares if there are no remaining
    /// bonds.
    #[verifier::loop_isolation(false)]
    pub fn expand_supply(&mut self, coin_supply: Coins, amount: Coins, now: BlockNumber) -> (r:
        Result<(), Error>)
        requires
            old(self).wf(),
            old(self)@.can_expand(now, amount),
        ensures
            final(self).wf(),
            final(self).cfg() == old(self).cfg(),
            match old(self)@.expand_supply(now, coin_supply, amount) {
                Ok(state) => r is Ok && final(self)@ == state,
                Err(e) => r == Err::<(), Error>(e) && final(self)@ == old(self)@,
            },
    {
        // Checking whether the supply will overflow.
        if coin_supply > u64::MAX - amount {
            return Err(Error::CoinSupplyOverflow);
        }
        let mut remaining: Coins = amount;
        proof {
            self.bonds.lemma_view();
        }
        while remaining > 0 && !self.bonds.is_empty()
            invariant
                self.bonds.wf(),
                self.cfg() == old(self).cfg(),
                self@.valid(self.cfg()),
                self@.shares == old(self)@.shares,
                remaining <= amount,
                self@.pay_bonds(now, remaining) == old(self)@.pay_bonds(now, amount),
            decreases
                    (if remaining > 0 {
                        self.bonds@.len() + 1
                    } else {
                        0
                    }),
        {
            let ghost before = self@;
            let popped = self.bonds.pop();
            let bond: Bond = popped.unwrap();
            proof {
                self.bonds.lemma_view();
                assert(self@ == before.pop_bond());
            }
            if now >= bond.expiration {
                // bond has expired --> discard
                self.events.push(Event::BondExpired(bond.account, bond.payout));
            } else if bond.payout <= remaining {
                // the coins cover the bond --> pay it in full and go on
                remaining -= bond.payout;
                self.add_balance(bond.account, bond.payout);
                self.events.push(Event::BondFulfilled(bond.account, bond.payout));
            } else {
                // the coins do not cover the bond --> pay what is left and put the bond back
                let payout: Coins = bond.payout - remaining;
                self.add_balance(bond.account, remaining);
                self.bonds.push_front(
                    Bond { account: bond.account, payout, expiration: bond.expiration },
                );
                self.events.push(Event::BondPartiallyFulfilled(bond.account, payout));
                remaining = 0;
                proof {
                    self.bonds.lemma_view();
                }
            }
        }
        self.bonds.commit();
        let ghost payed = self@;
        assert(old(self)@.pay_bonds(now, amount) == (payed, remaining));
        // the sum fits, as was tested at the start, and `remaining` never exceeds `amount`
        let new_supply: Coins = coin_supply + amount - remaining;
        if remaining > 0 {
            let mut shares: Vec<(AccountId, u64)> = Vec::new();
            std::mem::swap(&mut self.shares, &mut shares);
            let handed: Result<(), Error> = self.hand_out_coins(
                shares.as_slice(),
                remaining,
                new_supply,
            );
            assert(handed is Ok);
            std::mem::swap(&mut self.shares, &mut shares);
            proof {
                lemma_handed_out_total(
                    payed.balances,
                    payed.shares,
                    remaining,
                    payed.shares.len(),
                );
            }
        } else {
            self.coin_supply = new_supply;
        }
        self.events.push(Event::ExpandedSupply(amount));
        Ok(())
    }

    // ------------------------------------------------------------
    // handout
    /// Hand out coins to shareholders according to their number of shares.
    ///
    /// Will hand out more coins to shareholders at the beginning of the list
    /// if the handout cannot be equal.
    pub fn hand_out_coins(
        &mut self,
        shares: &[(AccountId, u64)],
        amount: Coins,
        coin_supply: Coins,
    ) -> (r: Result<(), Error>)
        requires
            share_total(shares@) > 0,
        ensures
            match old(self)@.hand_out_coins(shares@, amount, coin_supply) {
                Ok(state) => r is Ok && final(self)@ == state,
                Err(e) => r == Err::<(), Error>(e) && final(self)@ == old(self)@,
            },
            final(self).cfg() == old(self).cfg(),
            final(self).ring() == old(self).ring(),
            old(self).wf() ==> final(self).wf(),
    {
        // Checking whether the supply will overflow.
        if coin_supply > u64::MAX - amount {
            return Err(Error::CoinSupplyOverflow);
        }
        proof {
            lemma_shares_exist(shares@);
        }
        let share_supply: u128 = Self::share_supply(shares);
        let len: u64 = shares.len() as u64;
        // No point in giving out less than 1 coin.
        let each: u128 = amount as u128 / share_supply;
        let coins_per_share: u64 = if each < 1 {
            1
        } else {
            each as u64
        };
        assert(coins_per_share as u128 * len as u128 <= u128::MAX) by (nonlinear_arith)
            requires
                coins_per_share <= u64::MAX,
                len <= u64::MAX,
        ;
        let pay_extra: bool = (coins_per_share as u128) * (len as u128) < amount as u128;
        let mut amount_payed: Coins = 0;
        let mut i: usize = 0;
        while i < shares.len() && amount_payed < amount
            invariant
                i <= shares.len(),
                len == shares.len(),
                len > 0,
                coins_per_share == crate::model::coins_per_share(shares@, amount),
                pay_extra == pays_extra(shares@, amount),
                amount_payed == paid_out(shares@, amount, i as nat),
                amount_payed <= amount,
                self@ == (State {
                    balances: handed_out(old(self)@.balances, shares@, amount, i as nat),
                    ..old(self)@
                }),
                self.cfg() == old(self).cfg(),
                self.ring() == old(self).ring(),
                old(self).wf() ==> self.wf(),
            decreases shares.len() - i,
        {
            let account: AccountId = shares[i].0;
            let num_shares: u64 = shares[i].1;
            let max_payout: Coins = amount - amount_payed;
            let is_in_first_mod_len: bool = (i as u64) < amount % len;
            let extra_payout: u128 = if pay_extra && is_in_first_mod_len {
                1
            } else {
                0
            };
            assert(num_shares as u128 * coins_per_share as u128 + 1 <= u128::MAX)
                by (nonlinear_arith)
                requires
                    num_shares <= u64::MAX,
                    coins_per_share <= u64::MAX,
            ;
            let due: u128 = num_shares as u128 * coins_per_share as u128 + extra_payout;
            let payout: Coins = if due < max_payout as u128 {
                due as u64
            } else {
                max_payout
            };
            assert(payout == payout_of(shares@, amount, i as int));
            self.add_balance(account, payout);
            amount_payed += payout;
            i += 1;
        }
        proof {
            if i < shares.len() {
                lemma_paid_up(
                    old(self)@.balances,
                    shares@,
                    amount,
                    i as nat,
                    shares@.len(),
                );
            }
        }
        // the sum fits, as was tested at the start
        self.coin_supply = coin_supply + amount;
        Ok(())
    }

    /// The sum of all share counts.
    fn share_supply(shares: &[(AccountId, u64)]) -> (supply: u128)
        ensures
            supply == share_total(shares@),
    {
        let mut supply: u128 = 0;
        let mut i: usize = 0;
        while i < shares.len()
            invariant
                i <= shares.len(),
                supply == share_total(shares@.take(i as int)),
                supply <= i * u64::MAX,
            decreases shares.len() - i,
        {
            assert((i + 1) * u64::MAX <= u128::MAX) by (nonlinear_arith)
                requires
                    i < usize::MAX,
                    usize::MAX <= u64::MAX,
            ;
            assert(i * u64::MAX + u64::MAX == (i + 1) * u64::MAX) by (nonlinear_arith);
            supply = supply + shares[i].1 as u128;
            i += 1;
            assert(shares@.take(i as int).drop_last() =~= shares@.take(i - 1));
        }
        assert(shares@.take(shares.len() as int) =~= shares@);
        supply
    }

    // ------------------------------------------------------------
    // on block
    /// Whether the supply can be adjusted at block `now`, whatever the price
    /// is: there are shares or no coins yet, and `now` leaves room for the
    /// expiration of new bonds.
    pub fn can_adjust_at(&self, now: BlockNumber) -> (ok: bool)
        ensures
            ok == (now + self.cfg().expiration_period <= u64::MAX && (share_total(self@.shares) > 0
                || self@.coin_supply == 0)),
            ok ==> forall|price: Coins| self@.can_adjust(self.cfg(), price, now),
    {
        let ok: bool = now <= u64::MAX - self.config.expiration_period && (self.coin_supply == 0
            || Self::share_supply(self.shares.as_slice()) > 0);
        proof {
            if ok {
                assert forall|price: Coins| self@.can_adjust(self.cfg(), price, now) by {
                    lemma_can_adjust(self@, self.cfg(), price, now);
                }
            }
        }
        ok
    }

    /// Contracts or expands the supply based on conditions.
    pub fn on_block_with_price(&mut self, block: BlockNumber, price: Coins) -> (r: Result<
        (),
        Error,
    >)
        requires
            old(self).wf(),
            block % old(self).cfg().adjustment_frequency == 0 ==> old(self)@.can_adjust(
                old(self).cfg(),
                price,
                block,
            ),
        ensures
            final(self).wf(),
            final(self).cfg() == old(self).cfg(),
            match old(self)@.on_block_with_price(old(self).cfg(), block, price) {
                Ok(state) => r is Ok && final(self)@ == state,
                Err(e) => r == Err::<(), Error>(e) && final(self)@ == old(self)@,
            },
    {
        // This can be changed to only correct for small or big price swings.
        if block % self.config.adjustment_frequency == 0 {
            self.expand_or_contract_on_price(price, block)
        } else {
            Ok(())
        }
    }

    /// Contracts the coin supply if a unit of the tracked value costs more
    /// coins than the base unit, and expands it if it costs fewer.
    pub fn expand_or_contract_on_price(&mut self, price: Coins, now: BlockNumber) -> (r: Result<
        (),
        Error,
    >)
        requires
            old(self).wf(),
            old(self)@.can_adjust(old(self).cfg(), price, now),
        ensures
            final(self).wf(),
            final(self).cfg() == old(self).cfg(),
            match old(self)@.expand_or_contract_on_price(old(self).cfg(), price, now) {
                Ok(state) => r is Ok && final(self)@ == state,
                Err(e) => r == Err::<(), Error>(e) && final(self)@ == old(self)@,
            },
    {
        if price == 0 {
            Err(Error::ZeroPrice)
        } else if price > self.config.base_unit {
            let supply: Coins = self.coin_supply;
            let contract_by: Coins = saturated_change(price, self.config.base_unit, supply);
            self.contract_supply(supply, contract_by, now)
        } else if price < self.config.base_unit {
            let supply: Coins = self.coin_supply;
            let expand_by: Coins = saturated_change(self.config.base_unit, price, supply);
            self.expand_supply(supply, expand_by, now)
        } else {
            Ok(())
        }
    }
}

} // verus!
