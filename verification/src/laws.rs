//! What holds of the stablecoin whatever its state and whatever it is asked.

use crate::bid::{AccountId, Bid};
use crate::bond::{BlockNumber, Bond};
use crate::config::Config;
use crate::error::Error;
use crate::event::Event;
use crate::fixed::supply_change;
use crate::ledger::{
    credited, is_total, lemma_balance_within_total, lemma_total_insert, saturating_sum,
    total_balance,
};
use crate::lemmas::{
    lemma_convert_bids_keeps_valid, lemma_convert_bids_remaining, lemma_equal_shares_paid,
    lemma_escrow_insert, lemma_escrow_remove, lemma_escrow_split, lemma_filter_keeps_sorted,
    lemma_handed_out_total, lemma_handout_reaches_each_once, lemma_insert_index,
    lemma_insert_index_in_range,
    lemma_insert_keeps_sorted, lemma_equal_shares_total, lemma_part_keeps_sorted,
    lemma_pay_bonds_keeps_valid, lemma_push_bonds_frame, lemma_push_bonds_keeps_valid,
    lemma_refund_all_balance, lemma_refund_all_frame, lemma_refund_all_total,
};
use crate::model::{
    equal_shares, handed_out, insert_index, least, one_share_each, paid_out, payout_of,
    share_total,
    sorted_by_price, spared, State, SHARE_SUPPLY,
};
use crate::perbill::{Coins, Perbill};
use crate::ringbuffer::{lemma_ring_steps, ring_index, CAPACITY};
use vstd::prelude::*;

verus! {

/// A transfer moves coins from one account to another: the coin supply
/// stays as it is, and so does the sum of all balances.
pub proof fn law_transfer_conserves_supply(
    state: State,
    from: AccountId,
    to: AccountId,
    amount: Coins,
)
    ensures
        match state.transfer(from, to, amount) {
            Ok(after) => {
                &&& after.coin_supply == state.coin_supply
                &&& total_balance(after.balances) == total_balance(state.balances)
            },
            Err(_) => true,
        },
{
    if state.transfer(from, to, amount) is Ok {
        let taken = state.balances.insert(from, (state.balances[from] - amount) as Coins);
        lemma_total_insert(state.balances, from, (state.balances[from] - amount) as Coins);
        lemma_total_insert(taken, to, (taken[to] + amount) as Coins);
    }
}

/// A queue of bids within its bound stays within it when a bid joins, and
/// a sorted queue stays sorted.
pub proof fn law_bids_stay_bounded(state: State, bid: Bid, maximum_bids: usize)
    requires
        state.bids.len() <= maximum_bids,
    ensures
        state.add_bid(bid, maximum_bids).bids.len() <= maximum_bids,
        sorted_by_price(state.bids) ==> sorted_by_price(state.add_bid(bid, maximum_bids).bids),
{
    lemma_insert_index_in_range(state.bids, bid.price);
    if sorted_by_price(state.bids) {
        lemma_insert_keeps_sorted(state.bids, bid);
        let queue = state.bids.insert(insert_index(state.bids, bid.price), bid);
        if queue.len() > maximum_bids {
            lemma_part_keeps_sorted(queue, queue.remove(0), 1);
        }
    }
}

/// An operation that succeeded left a state that the operations keep.
pub open spec fn stays_valid(outcome: Result<State, Error>, config: Config) -> bool {
    match outcome {
        Ok(after) => after.valid(config),
        Err(_) => true,
    }
}

/// At all times the queue of bids is sorted by price and holds no more bids
/// than the configuration allows, the bonds fit their ring, and an
/// initialized stablecoin has shares: whatever is asked of a state of which
/// this holds, it holds of the state that results.
pub proof fn law_the_state_stays_valid(state: State, config: Config)
    requires
        state.valid(config),
    ensures
        forall|bid: Bid| #[trigger] state.add_bid(bid, config.maximum_bids).valid(config),
        forall|bid: Bid| #[trigger] state.refund_bid(bid).valid(config),
        forall|cancel: spec_fn(Bid) -> bool| #[trigger] state.cancel_bids(cancel).valid(config),
        forall|who: AccountId, price: Perbill, quantity: Coins|
            stays_valid(#[trigger] state.bid_for_bond(config, who, price, quantity), config),
        forall|from: AccountId, to: AccountId, amount: Coins|
            stays_valid(#[trigger] state.transfer(from, to, amount), config),
        forall|founder: AccountId| stays_valid(#[trigger] state.init(config, founder), config),
        forall|founder: AccountId, shareholders: Seq<AccountId>|
            stays_valid(
                #[trigger] state.init_with_shareholders(config, founder, shareholders),
                config,
            ),
        forall|now: BlockNumber, coin_supply: Coins, amount: Coins|
            stays_valid(
                #[trigger] state.contract_supply(config, now, coin_supply, amount),
                config,
            ),
        forall|now: BlockNumber, coin_supply: Coins, amount: Coins|
            stays_valid(#[trigger] state.expand_supply(now, coin_supply, amount), config),
        forall|price: Coins, now: BlockNumber|
            stays_valid(#[trigger] state.expand_or_contract_on_price(config, price, now), config),
{
    assert forall|bid: Bid| #[trigger] state.add_bid(bid, config.maximum_bids).valid(config) by {
        law_bids_stay_bounded(state, bid, config.maximum_bids);
    }
    assert forall|cancel: spec_fn(Bid) -> bool| #[trigger]
        state.cancel_bids(cancel).valid(config) by {
        let kept = State { bids: state.bids.filter(spared(cancel)), ..state };
        lemma_filter_keeps_sorted(state.bids, spared(cancel));
        lemma_refund_all_frame(kept, kept, state.bids.filter(cancel));
    }
    assert forall|who: AccountId, price: Perbill, quantity: Coins|
        stays_valid(#[trigger] state.bid_for_bond(config, who, price, quantity), config) by {
        let bid = Bid { account: who, price, quantity };
        if state.bid_for_bond(config, who, price, quantity) is Ok {
            let payed = state.debit(who, bid.payment_spec())->Ok_0;
            law_bids_stay_bounded(payed, bid, config.maximum_bids);
        }
    }
    assert forall|founder: AccountId|
        stays_valid(#[trigger] state.init(config, founder), config) by {
        let shares = seq![(founder, SHARE_SUPPLY)];
        assert(shares.drop_last() =~= Seq::<(AccountId, u64)>::empty());
        assert(share_total(shares.drop_last()) == 0);
    }
    assert forall|founder: AccountId, shareholders: Seq<AccountId>|
        stays_valid(
            #[trigger] state.init_with_shareholders(config, founder, shareholders),
            config,
        ) by {
        let shares = one_share_each(shareholders);
        lemma_equal_shares_total(shareholders, 1);
        assert(shareholders.len() * 1 == shareholders.len()) by (nonlinear_arith);
        lemma_handed_out_total(state.balances, shares, config.initial_supply, shares.len());
    }
    assert forall|now: BlockNumber, coin_supply: Coins, amount: Coins|
        stays_valid(
            #[trigger] state.contract_supply(config, now, coin_supply, amount),
            config,
        ) by {
        let expiration = (now + config.expiration_period) as BlockNumber;
        lemma_convert_bids_keeps_valid(state, config, expiration, amount, Seq::empty());
        let (converted, remaining, minted) = state.convert_bids(
            config.maximum_bids,
            expiration,
            amount,
            Seq::empty(),
        );
        lemma_push_bonds_keeps_valid(converted, config, minted);
        lemma_push_bonds_frame(converted, converted, minted);
    }
    assert forall|now: BlockNumber, coin_supply: Coins, amount: Coins|
        stays_valid(#[trigger] state.expand_supply(now, coin_supply, amount), config) by {
        lemma_pay_bonds_keeps_valid(state, config, now, amount);
        let (payed, remaining) = state.pay_bonds(now, amount);
        lemma_handed_out_total(payed.balances, payed.shares, remaining, payed.shares.len());
    }
    assert forall|price: Coins, now: BlockNumber|
        stays_valid(
            #[trigger] state.expand_or_contract_on_price(config, price, now),
            config,
        ) by {
        if price > config.base_unit {
            let amount = supply_change(price, config.base_unit, state.coin_supply);
            assert(stays_valid(
                state.contract_supply(config, now, state.coin_supply, amount),
                config,
            ));
        } else if price != 0 && price < config.base_unit {
            let amount = supply_change(config.base_unit, price, state.coin_supply);
            assert(stays_valid(state.expand_supply(now, state.coin_supply, amount), config));
        }
    }
}

/// After a contraction the coin supply is not below the minimum supply: it
/// lies between the supply less the amount and the supply.
pub proof fn law_contraction_keeps_minimum(
    state: State,
    config: Config,
    now: BlockNumber,
    coin_supply: Coins,
    amount: Coins,
)
    ensures
        match state.contract_supply(config, now, coin_supply, amount) {
            Ok(after) => {
                &&& after.coin_supply >= config.minimum_supply
                &&& coin_supply - amount <= after.coin_supply <= coin_supply
            },
            Err(_) => true,
        },
{
    lemma_convert_bids_remaining(
        state,
        config.maximum_bids,
        (now + config.expiration_period) as BlockNumber,
        amount,
        Seq::empty(),
    );
}

/// A contraction takes bids from the top of the queue only.
///
/// There is a number `k` of bids at the top of the queue, the highest,
/// that are taken off it. The bids below stay as they are, in their order.
/// At most the last bid that was taken comes back: it gave up a part of its
/// quantity only and stands at the top again, with its account and price,
/// and then no coins are left to burn. Coins are left over only once no bid
/// is left. Bonds, shares and the coin supply are not touched.
pub proof fn law_highest_bids_are_taken_first(
    state: State,
    maximum_bids: usize,
    expiration: BlockNumber,
    amount: Coins,
    minted: Seq<Bond>,
) -> (k: nat)
    requires
        sorted_by_price(state.bids),
        state.bids.len() <= maximum_bids,
    ensures
        k <= state.bids.len(),
        ({
            let (after, rest, bonds) = state.convert_bids(maximum_bids, expiration, amount, minted);
            let below = state.bids.take(state.bids.len() - k);
            &&& rest <= amount
            &&& rest > 0 ==> after.bids.len() == 0
            &&& after.bonds == state.bonds
            &&& after.bonds_start == state.bonds_start
            &&& after.shares == state.shares
            &&& after.coin_supply == state.coin_supply
            &&& after.init == state.init
            &&& minted.len() <= bonds.len() <= minted.len() + k
            &&& bonds.take(minted.len() as int) == minted
            &&& after.bids == below || {
                let taken = state.bids[state.bids.len() - k];
                &&& k > 0
                &&& rest == 0
                &&& after.bids.len() == below.len() + 1
                &&& after.bids.take(below.len() as int) == below
                &&& after.bids.last().account == taken.account
                &&& after.bids.last().price == taken.price
                &&& 0 < after.bids.last().quantity <= taken.quantity
            }
        }),
    decreases state.bids.len(),
{
    let n = state.bids.len() as int;
    if amount == 0 || state.bids.len() == 0 {
        assert(state.bids.take(n) =~= state.bids);
        assert(minted.take(minted.len() as int) =~= minted);
        return 0;
    }
    let bid = state.bids.last();
    let rest = State { bids: state.bids.drop_last(), ..state };
    lemma_part_keeps_sorted(state.bids, rest.bids, 0);
    if bid.payment_spec() >= amount {
        match bid.without(bid.payout_for(amount)) {
            Err(_) => {
                let inner = law_highest_bids_are_taken_first(
                    rest.refund_bid(bid),
                    maximum_bids,
                    expiration,
                    amount,
                    minted,
                );
                assert(state.bids.take(n - (inner + 1)) =~= rest.bids.take(n - 1 - inner));
                (inner + 1) as nat
            },
            Ok((reduced, removed)) => {
                let bonds = minted.push(Bond { account: bid.account, payout: removed, expiration });
                assert(bonds.take(minted.len() as int) =~= minted);
                assert(state.bids.take(n - 1) =~= rest.bids);
                if reduced.quantity > 0 {
                    assert forall|i: int| 0 <= i < rest.bids.len() implies (
                    #[trigger] rest.bids[i]).price.parts() <= reduced.price.parts() by {
                        assert(rest.bids[i] == state.bids[i]);
                        assert(state.bids[i].price.parts() <= state.bids[n - 1].price.parts());
                    }
                    lemma_insert_index(rest.bids, reduced.price, n - 1);
                    let after = rest.add_bid(reduced, maximum_bids);
                    assert(after.bids =~= rest.bids.push(reduced));
                    assert(after.bids.take(n - 1) =~= rest.bids);
                }
                1
            },
        }
    } else {
        let bonds = minted.push(Bond { account: bid.account, payout: bid.quantity, expiration });
        let inner = law_highest_bids_are_taken_first(
            rest,
            maximum_bids,
            expiration,
            (amount - bid.payment_spec()) as Coins,
            bonds,
        );
        assert(state.bids.take(n - (inner + 1)) =~= rest.bids.take(n - 1 - inner));
        let (after, over, all) = state.convert_bids(maximum_bids, expiration, amount, minted);
        assert(all.take(minted.len() as int) =~= all.take(bonds.len() as int).take(
            minted.len() as int,
        ));
        assert(bonds.take(minted.len() as int) =~= minted);
        (inner + 1) as nat
    }
}

/// The coins that are held back for the bids of a queue: what each payed.
pub open spec fn escrow(bids: Seq<Bid>) -> nat
    decreases bids.len(),
{
    if bids.len() == 0 {
        0
    } else {
        escrow(bids.drop_last()) + bids.last().payment_spec() as nat
    }
}

/// What the bids of `who` among `bids` payed together.
pub open spec fn payed_by(bids: Seq<Bid>, who: AccountId) -> nat
    decreases bids.len(),
{
    if bids.len() == 0 {
        0
    } else {
        payed_by(bids.drop_last(), who) + if bids.last().account == who {
            bids.last().payment_spec() as nat
        } else {
            0
        }
    }
}

/// An amount of coins, held at the largest that a balance can be.
pub open spec fn capped(amount: nat) -> Coins {
    if amount > u64::MAX {
        u64::MAX
    } else {
        amount as Coins
    }
}

/// A refund adds the payment of the bid to the balance of its account and
/// leaves every other balance as it is.
pub proof fn law_refund_is_exact(state: State, bid: Bid, who: AccountId)
    requires
        is_total(state.balances),
    ensures
        state.refund_bid(bid).balances[who] == if who == bid.account {
            capped(state.balances[who] as nat + bid.payment_spec() as nat)
        } else {
            state.balances[who]
        },
        state.refund_bid(bid).bids == state.bids,
        state.refund_bid(bid).coin_supply == state.coin_supply,
{
}

/// The bid that leaves a full queue when another joins is the first of the
/// queue, no bid in the queue offers less, and it is refunded.
pub proof fn law_eviction_refunds_lowest(state: State, bid: Bid, maximum_bids: usize)
    requires
        sorted_by_price(state.bids),
        state.bids.len() <= maximum_bids,
        is_total(state.balances),
    ensures
        ({
            let queue = state.bids.insert(insert_index(state.bids, bid.price), bid);
            let after = state.add_bid(bid, maximum_bids);
            if state.bids.len() == maximum_bids {
                &&& after.bids == queue.remove(0)
                &&& forall|i: int|
                    0 <= i < queue.len() ==> queue[0].price.parts() <= (#[trigger] queue[i]).price.parts()
                &&& after.balances == credited(
                    state.balances,
                    queue[0].account,
                    queue[0].payment_spec(),
                )
            } else {
                &&& after.bids == queue
                &&& after.balances == state.balances
            }
        }),
{
    lemma_insert_index_in_range(state.bids, bid.price);
    lemma_insert_keeps_sorted(state.bids, bid);
}

/// A cancellation adds to the balance of each account exactly what its
/// cancelled bids payed, as far as a balance can hold it, and keeps the
/// bids that are not cancelled in their order.
pub proof fn law_cancelled_bids_are_refunded(
    state: State,
    cancel: spec_fn(Bid) -> bool,
    who: AccountId,
)
    requires
        is_total(state.balances),
    ensures
        state.cancel_bids(cancel).balances[who] == capped(
            state.balances[who] as nat + payed_by(state.bids.filter(cancel), who),
        ),
        state.cancel_bids(cancel).bids == state.bids.filter(spared(cancel)),
        state.cancel_bids(cancel).coin_supply == state.coin_supply,
{
    let kept = State { bids: state.bids.filter(spared(cancel)), ..state };
    lemma_refund_all_balance(kept, state.bids.filter(cancel), who);
    lemma_refund_all_frame(kept, kept, state.bids.filter(cancel));
}

/// A bid that is accepted into a queue with room takes its payment, and
/// nothing else, from the balance of the bidder, and stands in the queue
/// behind the bids that offer no more.
pub proof fn law_bid_debits_its_payment(
    state: State,
    config: Config,
    who: AccountId,
    price: Perbill,
    quantity: Coins,
)
    requires
        state.bids.len() < config.maximum_bids,
    ensures
        match state.bid_for_bond(config, who, price, quantity) {
            Ok(after) => {
                let bid = Bid { account: who, price, quantity };
                &&& state.balances[who] >= bid.payment_spec()
                &&& after.balances == state.balances.insert(
                    who,
                    (state.balances[who] - bid.payment_spec()) as Coins,
                )
                &&& after.bids == state.bids.insert(insert_index(state.bids, price), bid)
                &&& after.coin_supply == state.coin_supply
            },
            Err(_) => true,
        },
{
    lemma_insert_index_in_range(state.bids, price);
}

/// Where all coins together fit a balance, the coins that a bid pays are
/// held back one for one: a successful bid leaves the sum of all balances
/// and of all payments held back as it was, also where it drives another
/// bid out of the queue.
pub proof fn law_bid_is_held_in_escrow(
    state: State,
    config: Config,
    who: AccountId,
    price: Perbill,
    quantity: Coins,
)
    requires
        is_total(state.balances),
        total_balance(state.balances) + escrow(state.bids) <= u64::MAX,
    ensures
        match state.bid_for_bond(config, who, price, quantity) {
            Ok(after) => total_balance(after.balances) + escrow(after.bids) == total_balance(
                state.balances,
            ) + escrow(state.bids),
            Err(_) => true,
        },
{
    let bid = Bid { account: who, price, quantity };
    if state.bid_for_bond(config, who, price, quantity) is Ok {
        let payed = state.debit(who, bid.payment_spec())->Ok_0;
        lemma_total_insert(
            state.balances,
            who,
            (state.balances[who] - bid.payment_spec()) as Coins,
        );
        lemma_insert_index_in_range(payed.bids, bid.price);
        let k = insert_index(payed.bids, bid.price);
        let queue = payed.bids.insert(k, bid);
        lemma_escrow_insert(payed.bids, k, bid);
        if queue.len() > config.maximum_bids {
            let lowest = queue[0];
            lemma_escrow_remove(queue, 0);
            lemma_balance_within_total(payed.balances, lowest.account);
            lemma_total_insert(
                payed.balances,
                lowest.account,
                saturating_sum(payed.balances[lowest.account], lowest.payment_spec()),
            );
        }
    }
}

/// Where all coins together fit a balance, a cancellation hands back
/// exactly what was held back for the cancelled bids: the sum of all
/// balances and of all payments held back stays as it was.
pub proof fn law_cancellation_releases_escrow(state: State, cancel: spec_fn(Bid) -> bool)
    requires
        is_total(state.balances),
        total_balance(state.balances) + escrow(state.bids) <= u64::MAX,
    ensures
        total_balance(state.cancel_bids(cancel).balances) + escrow(state.cancel_bids(cancel).bids)
            == total_balance(state.balances) + escrow(state.bids),
{
    let kept = State { bids: state.bids.filter(spared(cancel)), ..state };
    lemma_escrow_split(state.bids, cancel);
    lemma_refund_all_total(kept, state.bids.filter(cancel));
    lemma_refund_all_frame(kept, kept, state.bids.filter(cancel));
}

/// What the queue reports of a bond that an expansion takes off it for good.
pub open spec fn settled_event(bond: Bond, now: BlockNumber) -> Event {
    if now >= bond.expiration {
        Event::BondExpired(bond.account, bond.payout)
    } else {
        Event::BondFulfilled(bond.account, bond.payout)
    }
}

/// The events that tell of the settling of `bonds` at block `now`, in their order.
pub open spec fn settled_events(bonds: Seq<Bond>, now: BlockNumber) -> Seq<Event> {
    bonds.map_values(|bond: Bond| settled_event(bond, now))
}

/// The coins that `bonds` are owed at block `now`: the payout of each bond
/// that has not expired.
pub open spec fn owed_to(bonds: Seq<Bond>, now: BlockNumber) -> nat
    decreases bonds.len(),
{
    if bonds.len() == 0 {
        0
    } else {
        owed_to(bonds.skip(1), now) + if now >= bonds[0].expiration {
            0
        } else {
            bonds[0].payout as nat
        }
    }
}

/// The ledger after each of `bonds` that has not expired at block `now` got
/// its payout, the first bond first.
pub open spec fn payed_in_full(ledger: Map<AccountId, Coins>, bonds: Seq<Bond>, now: BlockNumber) -> Map<
    AccountId,
    Coins,
>
    decreases bonds.len(),
{
    if bonds.len() == 0 {
        ledger
    } else if now >= bonds[0].expiration {
        payed_in_full(ledger, bonds.skip(1), now)
    } else {
        payed_in_full(credited(ledger, bonds[0].account, bonds[0].payout), bonds.skip(1), now)
    }
}

/// An expansion pays bonds in the order in which they joined the queue and
/// passes over those that have expired.
///
/// There is a number `k` of bonds at the head of the queue that leave it:
/// each is reported in its place, as expired or as fulfilled, and each that
/// has not expired gets its whole payout. Either the coins end there or the
/// queue does, and the bonds behind stay as they are; or coins are left that
/// do not cover the next bond, which has not expired: it gets them and stays
/// at the head of the queue with the rest of its payout. The shareholders
/// get coins only once no bond is left.
pub proof fn law_bonds_are_payed_in_order(state: State, now: BlockNumber, amount: Coins) -> (k:
    nat)
    requires
        state.bonds.len() <= CAPACITY,
    ensures
        k <= state.bonds.len(),
        owed_to(state.bonds.take(k as int), now) <= amount,
        ({
            let (after, rest) = state.pay_bonds(now, amount);
            let settled = state.bonds.take(k as int);
            let part = (amount - owed_to(settled, now)) as Coins;
            &&& after.bonds_start == ring_index(state.bonds_start, k as int)
            &&& after.bids == state.bids
            &&& after.shares == state.shares
            &&& after.coin_supply == state.coin_supply
            &&& after.init == state.init
            &&& rest > 0 ==> after.bonds.len() == 0
            &&& if k < state.bonds.len() && part > 0 {
                let next = state.bonds[k as int];
                let left = (next.payout - part) as Coins;
                &&& rest == 0
                &&& now < next.expiration
                &&& part < next.payout
                &&& after.bonds == seq![Bond { payout: left, ..next }] + state.bonds.skip(
                    k as int + 1,
                )
                &&& after.balances == credited(
                    payed_in_full(state.balances, settled, now),
                    next.account,
                    part,
                )
                &&& after.events == state.events + settled_events(settled, now) + seq![
                    Event::BondPartiallyFulfilled(next.account, left),
                ]
            } else {
                &&& rest == part
                &&& after.bonds == state.bonds.skip(k as int)
                &&& after.balances == payed_in_full(state.balances, settled, now)
                &&& after.events == state.events + settled_events(settled, now)
            }
        }),
    decreases state.bonds.len(),
{
    let bonds = state.bonds;
    if amount == 0 || bonds.len() == 0 {
        assert(bonds.take(0) =~= Seq::<Bond>::empty());
        assert(bonds.skip(0) =~= bonds);
        assert(state.events + settled_events(bonds.take(0), now) =~= state.events);
        assert(ring_index(state.bonds_start, 0) == state.bonds_start);
        return 0;
    }
    let bond = bonds[0];
    let rest = state.pop_bond();
    if now < bond.expiration && bond.payout > amount {
        // The first bond is not covered.
        let left = (bond.payout - amount) as Coins;
        assert(bonds.take(0) =~= Seq::<Bond>::empty());
        assert(bonds.skip(1) =~= rest.bonds);
        assert(state.events + settled_events(bonds.take(0), now) =~= state.events);
        assert(state.events + settled_events(bonds.take(0), now) + seq![
            Event::BondPartiallyFulfilled(bond.account, left),
        ] =~= state.events.push(Event::BondPartiallyFulfilled(bond.account, left)));
        lemma_ring_steps(state.bonds_start, 1, -1);
        assert(ring_index(state.bonds_start, 0) == state.bonds_start);
        return 0;
    }
    let next = if now >= bond.expiration {
        rest.with_event(Event::BondExpired(bond.account, bond.payout))
    } else {
        rest.credit(bond.account, bond.payout).with_event(
            Event::BondFulfilled(bond.account, bond.payout),
        )
    };
    let coins = if now >= bond.expiration {
        amount
    } else {
        (amount - bond.payout) as Coins
    };
    let inner = law_bonds_are_payed_in_order(next, now, coins);
    let k = inner as int;
    let settled = bonds.take(k + 1);
    assert(settled.skip(1) =~= next.bonds.take(k));
    assert(settled[0] == bond);
    assert(settled_events(settled, now) =~= seq![settled_event(bond, now)] + settled_events(
        next.bonds.take(k),
        now,
    ));
    assert(bonds.skip(k + 1) =~= next.bonds.skip(k));
    lemma_ring_steps(state.bonds_start, 1, k);
    let (after, over) = state.pay_bonds(now, amount);
    assert((after, over) == next.pay_bonds(now, coins));
    let part = (amount - owed_to(settled, now)) as Coins;
    if k + 1 < bonds.len() && part > 0 {
        let partly = bonds[k + 1];
        assert(partly == next.bonds[k]);
        assert(bonds.skip(k + 1 + 1) =~= next.bonds.skip(k + 1));
        assert(after.events =~= state.events + settled_events(settled, now) + seq![
            Event::BondPartiallyFulfilled(partly.account, (partly.payout - part) as Coins),
        ]);
    } else {
        assert(after.events =~= state.events + settled_events(settled, now));
    }
    (inner + 1) as nat
}

/// What holder `i` of equal shares gets where an amount is divided alike:
/// the amount divided by the number of holders, and one coin more for the
/// first holders as far as the remainder goes.
pub open spec fn equal_part(holders: nat, amount: Coins, i: int) -> nat {
    amount as nat / holders + if i < amount as nat % holders {
        1nat
    } else {
        0nat
    }
}

/// What the first `m` holders of equal shares get together where an amount
/// is divided alike.
pub open spec fn equal_parts(holders: nat, amount: Coins, m: nat) -> nat {
    m * (amount as nat / holders) + least(m, amount as nat % holders)
}

/// The amounts that a handout divides alike among `holders` accounts with
/// `weight` shares each.
///
/// With one share each that is every amount. With more shares each, every
/// share has to get a whole number of coins and the coins that are left
/// over have to be fewer than the holders; or there is one holder only, or
/// at most one coin. Every other amount goes to the first holders before
/// the last holders get their part.
pub open spec fn divides_alike(weight: u64, holders: nat, amount: Coins) -> bool {
    let shares = holders * weight as nat;
    ||| weight == 1
    ||| amount == 0
    ||| amount >= shares && amount as nat % shares < holders
    ||| amount < shares && (holders == 1 || amount == 1)
}

/// Shareholders with equal shares are payed alike: each gains the amount
/// divided by their number, rounded down, or one coin more, the first of
/// them the coin more, and together they gain the amount.
///
/// Each account has to be listed once, and the amount has to be one that
/// is divided alike: with one share each, as an initialization with
/// shareholders gives them, every amount is. A balance that would exceed
/// what it can hold stops there.
pub proof fn law_equal_shares_are_payed_alike(
    ledger: Map<AccountId, Coins>,
    holders: Seq<AccountId>,
    weight: u64,
    amount: Coins,
    i: int,
)
    requires
        is_total(ledger),
        holders.len() > 0,
        holders.no_duplicates(),
        weight > 0,
        divides_alike(weight, holders.len(), amount),
        0 <= i < holders.len(),
    ensures
        ({
            let shares = equal_shares(holders, weight);
            let gain = payout_of(shares, amount, i);
            &&& gain == amount as nat / holders.len() || gain == amount as nat / holders.len() + 1
            &&& gain == equal_part(holders.len(), amount, i)
            &&& paid_out(shares, amount, holders.len()) == amount
            &&& handed_out(ledger, shares, amount, holders.len())[holders[i]] == capped(
                ledger[holders[i]] as nat + gain,
            )
        }),
{
    let shares = equal_shares(holders, weight);
    let n = holders.len();
    lemma_equal_shares_total(holders, weight);
    lemma_equal_shares_paid(holders, weight, amount, i as nat);
    lemma_equal_shares_paid(holders, weight, amount, n);
    assert(amount as nat == n * (amount as nat / n) + amount as nat % n) by {
        vstd::arithmetic::div_mod::lemma_fundamental_div_mod(amount as int, n as int);
    }
    lemma_handout_reaches_each_once(ledger, shares, amount, n, i);
}

} // verus!
