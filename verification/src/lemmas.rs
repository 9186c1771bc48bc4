//! Facts about the model that the operations and the laws rest on.

use crate::bid::{AccountId, Bid};
use crate::bond::{BlockNumber, Bond};
use crate::config::Config;
use crate::event::Event;
use crate::fixed::{fixed_quotient, supply_change, FIXED_ONE};
use crate::laws::{
    capped, divides_alike, equal_part, equal_parts, escrow, law_bids_stay_bounded, payed_by,
};
use crate::ledger::{
    credited, is_total, lemma_balance_within_total, lemma_total_insert, saturating_sum,
    total_balance,
};
use crate::model::{
    coins_per_share, equal_shares, handed_out, insert_index, least, paid_out, payout_due,
    payout_of, pays_extra, share_total, sorted_by_price, spared, State,
};
use crate::perbill::{Coins, Perbill};
use vstd::prelude::*;

verus! {

/// In a sorted queue, the place of a new bid is where the bids that offer
/// no more than it end.
pub proof fn lemma_insert_index(bids: Seq<Bid>, price: Perbill, k: int)
    requires
        sorted_by_price(bids),
        0 <= k <= bids.len(),
        forall|i: int| 0 <= i < k ==> (#[trigger] bids[i]).price.parts() <= price.parts(),
        forall|i: int| k <= i < bids.len() ==> (#[trigger] bids[i]).price.parts() > price.parts(),
    ensures
        insert_index(bids, price) == k,
    decreases bids.len(),
{
    if bids.len() > 0 {
        if bids.last().price.parts() <= price.parts() {
            assert(k == bids.len()) by {
                if k < bids.len() {
                    assert(bids[bids.len() - 1].price.parts() > price.parts());
                }
            }
        } else {
            assert(k < bids.len()) by {
                if k == bids.len() {
                    assert(bids[bids.len() - 1].price.parts() <= price.parts());
                }
            }
            let front = bids.drop_last();
            assert forall|i: int, j: int| 0 <= i <= j < front.len() implies (#[trigger] front[i]).price.parts()
                <= (#[trigger] front[j]).price.parts() by {
                assert(front[i] == bids[i] && front[j] == bids[j]);
            }
            assert forall|i: int| 0 <= i < k implies (#[trigger] front[i]).price.parts()
                <= price.parts() by {
                assert(front[i] == bids[i]);
            }
            assert forall|i: int| k <= i < front.len() implies (#[trigger] front[i]).price.parts()
                > price.parts() by {
                assert(front[i] == bids[i]);
            }
            lemma_insert_index(front, price, k);
        }
    }
}

/// The place of a new bid lies within the queue.
pub proof fn lemma_insert_index_in_range(bids: Seq<Bid>, price: Perbill)
    ensures
        0 <= insert_index(bids, price) <= bids.len(),
    decreases bids.len(),
{
    if bids.len() > 0 && bids.last().price.parts() > price.parts() {
        lemma_insert_index_in_range(bids.drop_last(), price);
    }
}

/// The place of a new bid lies within the queue, behind every bid that
/// offers no more than it and before every bid that offers more.
pub proof fn lemma_insert_index_bounds(bids: Seq<Bid>, price: Perbill)
    requires
        sorted_by_price(bids),
    ensures
        0 <= insert_index(bids, price) <= bids.len(),
        forall|i: int|
            0 <= i < insert_index(bids, price) ==> (#[trigger] bids[i]).price.parts()
                <= price.parts(),
        forall|i: int|
            insert_index(bids, price) <= i < bids.len() ==> (#[trigger] bids[i]).price.parts()
                > price.parts(),
    decreases bids.len(),
{
    if bids.len() > 0 {
        if bids.last().price.parts() <= price.parts() {
            assert forall|i: int| 0 <= i < bids.len() implies (#[trigger] bids[i]).price.parts()
                <= price.parts() by {
                assert(bids[i].price.parts() <= bids[bids.len() - 1].price.parts());
            }
        } else {
            let front = bids.drop_last();
            assert forall|i: int, j: int| 0 <= i <= j < front.len() implies (#[trigger] front[i]).price.parts()
                <= (#[trigger] front[j]).price.parts() by {
                assert(front[i] == bids[i] && front[j] == bids[j]);
            }
            lemma_insert_index_bounds(front, price);
            let k = insert_index(front, price);
            assert forall|i: int| 0 <= i < k implies (#[trigger] bids[i]).price.parts()
                <= price.parts() by {
                assert(front[i] == bids[i]);
            }
            assert forall|i: int| k <= i < bids.len() implies (#[trigger] bids[i]).price.parts()
                > price.parts() by {
                if i < front.len() {
                    assert(front[i] == bids[i]);
                }
            }
        }
    }
}

/// A sorted queue stays sorted when a bid joins it at its place.
pub proof fn lemma_insert_keeps_sorted(bids: Seq<Bid>, bid: Bid)
    requires
        sorted_by_price(bids),
    ensures
        sorted_by_price(bids.insert(insert_index(bids, bid.price), bid)),
{
    lemma_insert_index_bounds(bids, bid.price);
    let k = insert_index(bids, bid.price);
    let queue = bids.insert(k, bid);
    assert forall|i: int, j: int| 0 <= i <= j < queue.len() implies (#[trigger] queue[i]).price.parts()
        <= (#[trigger] queue[j]).price.parts() by {
        let a = if i < k { bids[i] } else if i == k { bid } else { bids[i - 1] };
        let b = if j < k { bids[j] } else if j == k { bid } else { bids[j - 1] };
        assert(queue[i] == a);
        assert(queue[j] == b);
    }
}

/// A sorted queue stays sorted when bids leave it.
pub proof fn lemma_part_keeps_sorted(bids: Seq<Bid>, part: Seq<Bid>, offset: int)
    requires
        sorted_by_price(bids),
        0 <= offset,
        offset + part.len() <= bids.len(),
        forall|i: int| 0 <= i < part.len() ==> #[trigger] part[i] == bids[i + offset],
    ensures
        sorted_by_price(part),
{
    assert forall|i: int, j: int| 0 <= i <= j < part.len() implies (#[trigger] part[i]).price.parts()
        <= (#[trigger] part[j]).price.parts() by {
        assert(part[i] == bids[i + offset]);
        assert(part[j] == bids[j + offset]);
    }
}

/// The bids that a predicate picks from a sorted queue are sorted, and there
/// are no more of them than the queue holds.
pub proof fn lemma_filter_keeps_sorted(bids: Seq<Bid>, pick: spec_fn(Bid) -> bool)
    requires
        sorted_by_price(bids),
    ensures
        sorted_by_price(bids.filter(pick)),
        bids.filter(pick).len() <= bids.len(),
        forall|i: int|
            0 <= i < bids.filter(pick).len() && bids.len() > 0 ==> (#[trigger] bids.filter(
                pick,
            )[i]).price.parts() <= bids.last().price.parts(),
    decreases bids.len(),
{
    reveal(Seq::filter);
    if bids.len() > 0 {
        let front = bids.drop_last();
        lemma_part_keeps_sorted(bids, front, 0);
        lemma_filter_keeps_sorted(front, pick);
        let picked = front.filter(pick);
        assert forall|i: int| 0 <= i < picked.len() implies (#[trigger] picked[i]).price.parts()
            <= bids.last().price.parts() by {
            assert(front.len() > 0);
            assert(front.last() == bids[bids.len() - 2]);
            assert(bids[bids.len() - 2].price.parts() <= bids[bids.len() - 1].price.parts());
        }
        if pick(bids.last()) {
            let all = picked.push(bids.last());
            assert forall|i: int, j: int| 0 <= i <= j < all.len() implies (#[trigger] all[i]).price.parts()
                <= (#[trigger] all[j]).price.parts() by {
                if j < picked.len() {
                    assert(all[i] == picked[i] && all[j] == picked[j]);
                } else if i < picked.len() {
                    assert(all[i] == picked[i]);
                }
            }
        }
    }
}

/// Two predicates that agree on the bids of a queue pick the same bids.
pub proof fn lemma_filter_agree(bids: Seq<Bid>, one: spec_fn(Bid) -> bool, other: spec_fn(Bid) -> bool)
    requires
        forall|i: int| 0 <= i < bids.len() ==> one(#[trigger] bids[i]) == other(bids[i]),
    ensures
        bids.filter(one) == bids.filter(other),
    decreases bids.len(),
{
    reveal(Seq::filter);
    if bids.len() > 0 {
        let front = bids.drop_last();
        assert forall|i: int| 0 <= i < front.len() implies one(#[trigger] front[i]) == other(
            front[i],
        ) by {
            assert(front[i] == bids[i]);
        }
        lemma_filter_agree(front, one, other);
        assert(one(bids[bids.len() - 1]) == other(bids[bids.len() - 1]));
    }
}

/// Two predicates that agree on the bids of the queue cancel the same bids.
pub proof fn lemma_cancel_bids_agree(
    state: State,
    one: spec_fn(Bid) -> bool,
    other: spec_fn(Bid) -> bool,
)
    requires
        forall|i: int|
            0 <= i < state.bids.len() ==> one(#[trigger] state.bids[i]) == other(state.bids[i]),
    ensures
        state.cancel_bids(one) == state.cancel_bids(other),
{
    lemma_filter_agree(state.bids, one, other);
    assert forall|i: int| 0 <= i < state.bids.len() implies spared(one)(#[trigger] state.bids[i])
        == spared(other)(state.bids[i]) by {
        assert(one(state.bids[i]) == other(state.bids[i]));
    }
    lemma_filter_agree(state.bids, spared(one), spared(other));
}

/// Refunds touch nothing but the balances and the events.
pub proof fn lemma_refund_all_frame(state: State, other: State, bids: Seq<Bid>)
    requires
        state.balances == other.balances,
        state.events == other.events,
    ensures
        state.refund_all(bids) == (State {
            balances: other.refund_all(bids).balances,
            events: other.refund_all(bids).events,
            ..state
        }),
        is_total(state.balances) ==> is_total(state.refund_all(bids).balances),
    decreases bids.len(),
{
    if bids.len() > 0 {
        lemma_refund_all_frame(state, other, bids.drop_last());
    }
}

/// Appending bonds touches nothing but the queue of bonds.
pub proof fn lemma_push_bonds_frame(state: State, other: State, bonds: Seq<Bond>)
    requires
        state.bonds == other.bonds,
        state.bonds_start == other.bonds_start,
    ensures
        state.push_bonds(bonds) == (State {
            bonds: other.push_bonds(bonds).bonds,
            bonds_start: other.push_bonds(bonds).bonds_start,
            ..state
        }),
    decreases bonds.len(),
{
    if bonds.len() > 0 {
        lemma_push_bonds_frame(state, other, bonds.drop_last());
    }
}

/// Shares that count for something are held by someone.
pub proof fn lemma_shares_exist(shares: Seq<(AccountId, u64)>)
    requires
        share_total(shares) > 0,
    ensures
        shares.len() > 0,
{
}

/// The shareholders never get more than the amount that is handed out.
pub proof fn lemma_paid_out_bounds(shares: Seq<(AccountId, u64)>, amount: Coins, n: nat)
    ensures
        paid_out(shares, amount, n) <= amount,
    decreases n,
{
    if n > 0 {
        lemma_paid_out_bounds(shares, amount, (n - 1) as nat);
    }
}

/// A ledger that knows every account still does after a handout.
pub proof fn lemma_handed_out_total(
    ledger: Map<AccountId, Coins>,
    shares: Seq<(AccountId, u64)>,
    amount: Coins,
    n: nat,
)
    requires
        is_total(ledger),
    ensures
        is_total(handed_out(ledger, shares, amount, n)),
    decreases n,
{
    if n > 0 {
        lemma_handed_out_total(ledger, shares, amount, (n - 1) as nat);
    }
}

/// Once the whole amount is handed out, the shareholders that follow get
/// nothing.
pub proof fn lemma_paid_up(
    ledger: Map<AccountId, Coins>,
    shares: Seq<(AccountId, u64)>,
    amount: Coins,
    i: nat,
    n: nat,
)
    requires
        is_total(ledger),
        i <= n,
        paid_out(shares, amount, i) == amount,
    ensures
        paid_out(shares, amount, n) == amount,
        handed_out(ledger, shares, amount, n) == handed_out(ledger, shares, amount, i),
    decreases n,
{
    if i < n {
        lemma_paid_up(ledger, shares, amount, i, (n - 1) as nat);
        lemma_handed_out_total(ledger, shares, amount, (n - 1) as nat);
        let before = handed_out(ledger, shares, amount, (n - 1) as nat);
        assert(credited(before, shares[n - 1].0, 0) =~= before);
    }
}

/// The supply can be adjusted to any price once there are shares, or while
/// there are no coins, as long as new bonds can be given an expiration.
pub proof fn lemma_can_adjust(state: State, config: Config, price: Coins, now: BlockNumber)
    requires
        now + config.expiration_period <= u64::MAX,
        share_total(state.shares) > 0 || state.coin_supply == 0,
    ensures
        state.can_adjust(config, price, now),
{
    if state.coin_supply == 0 {
        let ratio = fixed_quotient(config.base_unit, price) - FIXED_ONE;
        assert(ratio * 0 == 0) by (nonlinear_arith);
        assert(supply_change(config.base_unit, price, 0) == 0);
    }
}

/// Payed bonds leave a state that its operations keep.
pub proof fn lemma_pay_bonds_keeps_valid(
    state: State,
    config: Config,
    now: BlockNumber,
    remaining: Coins,
)
    requires
        state.valid(config),
    ensures
        state.pay_bonds(now, remaining).0.valid(config),
        state.pay_bonds(now, remaining).0.shares == state.shares,
        state.pay_bonds(now, remaining).0.init == state.init,
    decreases state.bonds.len(),
{
    if remaining != 0 && state.bonds.len() != 0 {
        let bond = state.bonds[0];
        let rest = state.pop_bond();
        if now >= bond.expiration {
            lemma_pay_bonds_keeps_valid(
                rest.with_event(Event::BondExpired(bond.account, bond.payout)),
                config,
                now,
                remaining,
            );
        } else if bond.payout <= remaining {
            lemma_pay_bonds_keeps_valid(
                rest.credit(bond.account, bond.payout).with_event(
                    Event::BondFulfilled(bond.account, bond.payout),
                ),
                config,
                now,
                (remaining - bond.payout) as Coins,
            );
        }
    }
}

/// Appended bonds leave a state that its operations keep.
pub proof fn lemma_push_bonds_keeps_valid(state: State, config: Config, bonds: Seq<Bond>)
    requires
        state.valid(config),
    ensures
        state.push_bonds(bonds).valid(config),
    decreases bonds.len(),
{
    if bonds.len() > 0 {
        lemma_push_bonds_keeps_valid(state, config, bonds.drop_last());
        lemma_push_bonds_frame(state, state, bonds.drop_last());
    }
}

/// Bids that were turned into bonds leave a state that its operations keep.
pub proof fn lemma_convert_bids_keeps_valid(
    state: State,
    config: Config,
    expiration: BlockNumber,
    remaining: Coins,
    minted: Seq<Bond>,
)
    requires
        state.valid(config),
    ensures
        state.convert_bids(config.maximum_bids, expiration, remaining, minted).0.valid(config),
    decreases state.bids.len(),
{
    if remaining != 0 && state.bids.len() != 0 {
        let bid = state.bids.last();
        let rest = State { bids: state.bids.drop_last(), ..state };
        lemma_part_keeps_sorted(state.bids, rest.bids, 0);
        if bid.payment_spec() >= remaining {
            match bid.without(bid.payout_for(remaining)) {
                Err(_) => {
                    lemma_convert_bids_keeps_valid(
                        rest.refund_bid(bid),
                        config,
                        expiration,
                        remaining,
                        minted,
                    );
                },
                Ok((reduced, removed)) => {
                    law_bids_stay_bounded(rest, reduced, config.maximum_bids);
                },
            }
        } else {
            lemma_convert_bids_keeps_valid(
                rest,
                config,
                expiration,
                (remaining - bid.payment_spec()) as Coins,
                minted.push(Bond { account: bid.account, payout: bid.quantity, expiration }),
            );
        }
    }
}

/// Turning bids into bonds uses up no more coins than it was asked for.
pub proof fn lemma_convert_bids_remaining(
    state: State,
    maximum_bids: usize,
    expiration: BlockNumber,
    remaining: Coins,
    minted: Seq<Bond>,
)
    ensures
        state.convert_bids(maximum_bids, expiration, remaining, minted).1 <= remaining,
    decreases state.bids.len(),
{
    if remaining != 0 && state.bids.len() != 0 {
        let bid = state.bids.last();
        let rest = State { bids: state.bids.drop_last(), ..state };
        if bid.payment_spec() >= remaining {
            if bid.without(bid.payout_for(remaining)) is Err {
                lemma_convert_bids_remaining(
                    rest.refund_bid(bid),
                    maximum_bids,
                    expiration,
                    remaining,
                    minted,
                );
            }
        } else {
            lemma_convert_bids_remaining(
                rest,
                maximum_bids,
                expiration,
                (remaining - bid.payment_spec()) as Coins,
                minted.push(Bond { account: bid.account, payout: bid.quantity, expiration }),
            );
        }
    }
}

/// A bid that joins a queue adds its payment to what is held back.
pub proof fn lemma_escrow_insert(bids: Seq<Bid>, k: int, bid: Bid)
    requires
        0 <= k <= bids.len(),
    ensures
        escrow(bids.insert(k, bid)) == escrow(bids) + bid.payment_spec(),
    decreases bids.len(),
{
    let queue = bids.insert(k, bid);
    if k == bids.len() {
        assert(queue.drop_last() =~= bids);
    } else {
        assert(queue.drop_last() =~= bids.drop_last().insert(k, bid));
        assert(queue.last() == bids.last());
        lemma_escrow_insert(bids.drop_last(), k, bid);
    }
}

/// A bid that leaves a queue takes its payment out of what is held back.
pub proof fn lemma_escrow_remove(bids: Seq<Bid>, k: int)
    requires
        0 <= k < bids.len(),
    ensures
        escrow(bids.remove(k)) + bids[k].payment_spec() == escrow(bids),
    decreases bids.len(),
{
    let queue = bids.remove(k);
    if k == bids.len() - 1 {
        assert(queue =~= bids.drop_last());
    } else {
        assert(queue.drop_last() =~= bids.drop_last().remove(k));
        assert(queue.last() == bids.last());
        lemma_escrow_remove(bids.drop_last(), k);
    }
}

/// What is held back for a queue is what is held back for the bids that a
/// predicate picks and for the bids that it spares.
pub proof fn lemma_escrow_split(bids: Seq<Bid>, cancel: spec_fn(Bid) -> bool)
    ensures
        escrow(bids.filter(cancel)) + escrow(bids.filter(spared(cancel))) == escrow(bids),
    decreases bids.len(),
{
    reveal(Seq::filter);
    if bids.len() > 0 {
        lemma_escrow_split(bids.drop_last(), cancel);
        let front = bids.drop_last();
        if cancel(bids.last()) {
            assert(front.filter(cancel).push(bids.last()).drop_last() =~= front.filter(cancel));
        } else {
            assert(front.filter(spared(cancel)).push(bids.last()).drop_last() =~= front.filter(
                spared(cancel),
            ));
        }
    }
}

/// Refunds add to the balance of an account what its bids among the
/// refunded ones payed.
pub proof fn lemma_refund_all_balance(state: State, bids: Seq<Bid>, who: AccountId)
    requires
        is_total(state.balances),
    ensures
        state.refund_all(bids).balances[who] == capped(
            state.balances[who] as nat + payed_by(bids, who),
        ),
        is_total(state.refund_all(bids).balances),
    decreases bids.len(),
{
    if bids.len() > 0 {
        lemma_refund_all_balance(state, bids.drop_last(), who);
    }
}

/// Where all coins together fit a balance, refunds add to the sum of all
/// balances what the refunded bids payed.
pub proof fn lemma_refund_all_total(state: State, bids: Seq<Bid>)
    requires
        is_total(state.balances),
        total_balance(state.balances) + escrow(bids) <= u64::MAX,
    ensures
        total_balance(state.refund_all(bids).balances) == total_balance(state.balances) + escrow(
            bids,
        ),
    decreases bids.len(),
{
    if bids.len() > 0 {
        lemma_refund_all_total(state, bids.drop_last());
        let before = state.refund_all(bids.drop_last());
        let bid = bids.last();
        lemma_balance_within_total(before.balances, bid.account);
        lemma_total_insert(
            before.balances,
            bid.account,
            saturating_sum(before.balances[bid.account], bid.payment_spec()),
        );
    }
}

/// Accounts with equal shares hold as many shares as their number times
/// the weight.
pub proof fn lemma_equal_shares_total(holders: Seq<AccountId>, weight: u64)
    ensures
        share_total(equal_shares(holders, weight)) == holders.len() * weight,
        equal_shares(holders, weight).len() == holders.len(),
    decreases holders.len(),
{
    if holders.len() > 0 {
        lemma_equal_shares_total(holders.drop_last(), weight);
        assert(equal_shares(holders, weight).drop_last() =~= equal_shares(
            holders.drop_last(),
            weight,
        ));
        assert((holders.len() - 1) * weight + weight == holders.len() * weight)
            by (nonlinear_arith);
    } else {
        assert(0 * weight == 0) by (nonlinear_arith);
    }
}

/// Where an amount is divided alike, every holder of equal shares gets its
/// equal part.
pub proof fn lemma_equal_shares_paid(holders: Seq<AccountId>, weight: u64, amount: Coins, m: nat)
    requires
        holders.len() > 0,
        weight > 0,
        m <= holders.len(),
        divides_alike(weight, holders.len(), amount),
    ensures
        paid_out(equal_shares(holders, weight), amount, m) == equal_parts(
            holders.len(),
            amount,
            m,
        ),
        m < holders.len() ==> payout_of(equal_shares(holders, weight), amount, m as int)
            == equal_part(holders.len(), amount, m as int),
    decreases m,
{
    let shares = equal_shares(holders, weight);
    let n = holders.len();
    let w = weight as nat;
    let a = amount as nat;
    let q = a / n;
    let r = a % n;
    let supply = n * w;
    lemma_equal_shares_total(holders, weight);
    assert(a == n * q + r && r < n) by {
        vstd::arithmetic::div_mod::lemma_fundamental_div_mod(a as int, n as int);
    }
    assert(supply >= 1) by (nonlinear_arith)
        requires
            supply == n * w,
            n >= 1,
            w >= 1,
    ;
    if m > 0 {
        lemma_equal_shares_paid(holders, weight, amount, (m - 1) as nat);
        assert((m - 1) * q + q == m * q) by (nonlinear_arith);
        assert(paid_out(shares, amount, m) == paid_out(shares, amount, (m - 1) as nat) + payout_of(
            shares,
            amount,
            m - 1,
        ));
    } else {
        assert(0 * q == 0) by (nonlinear_arith);
    }
    assert(paid_out(shares, amount, m) == m * q + least(m, r));
    if m < n {
        let each = coins_per_share(shares, amount);
        let before = paid_out(shares, amount, m);
        let left = (a - before) as nat;
        let due = payout_due(shares, amount, m as int);
        let part = equal_part(n, amount, m as int);
        assert(shares[m as int].1 == weight);
        // What is left covers the equal part of this holder.
        assert(n * q >= (m + 1) * q) by (nonlinear_arith)
            requires
                n >= m + 1,
        ;
        assert((m + 1) * q == m * q + q) by (nonlinear_arith);
        assert(left >= part);
        if a >= supply && a % supply < n {
            // Every share gets a whole number of coins, and the coins that
            // are left over are fewer than the holders.
            let c = a / supply;
            let over = a % supply;
            assert(a == supply * c + over) by {
                vstd::arithmetic::div_mod::lemma_fundamental_div_mod(a as int, supply as int);
            }
            assert(c >= 1) by (nonlinear_arith)
                requires
                    a == supply * c + over,
                    over < supply,
                    a >= supply,
                    c >= 0,
            ;
            assert(supply * c == (w * c) * n) by (nonlinear_arith)
                requires
                    supply == n * w,
            ;
            assert(q == w * c && r == over) by {
                vstd::arithmetic::div_mod::lemma_fundamental_div_mod_converse(
                    a as int,
                    n as int,
                    (w * c) as int,
                    over as int,
                );
            }
            assert(each == c);
            assert(weight as nat * each == q) by (nonlinear_arith)
                requires
                    each == c,
                    q == w * c,
                    w == weight as nat,
            ;
            if m < r {
                assert(c * n <= (w * c) * n) by (nonlinear_arith)
                    requires
                        w >= 1,
                ;
                assert(each * n < a);
            }
            assert(due == part);
        } else {
            // Less than a coin for each share, or nothing at all.
            assert(a < supply);
            assert(a / supply == 0) by {
                vstd::arithmetic::div_mod::lemma_basic_div(a as int, supply as int);
            }
            assert(each == 1);
            assert(weight as nat * each == w) by (nonlinear_arith)
                requires
                    each == 1,
                    w == weight as nat,
            ;
            assert(due >= w);
            if weight == 1 {
                assert(n * 1 == n) by (nonlinear_arith);
                assert(q == 0 && r == a) by {
                    vstd::arithmetic::div_mod::lemma_fundamental_div_mod_converse(
                        a as int,
                        n as int,
                        0,
                        a as int,
                    );
                }
                assert(m * q == 0) by (nonlinear_arith)
                    requires
                        q == 0,
                ;
                assert(each * n == n) by (nonlinear_arith)
                    requires
                        each == 1,
                ;
                assert(!pays_extra(shares, amount));
                assert(due == 1);
            } else if amount == 0 {
                assert(m * q == 0) by (nonlinear_arith)
                    requires
                        q == 0,
                ;
            } else if n == 1 {
                assert(1 * w == w) by (nonlinear_arith);
                assert(m * q == 0) by (nonlinear_arith)
                    requires
                        m == 0,
                ;
            } else {
                assert(amount == 1);
                assert(q == 0 && r == 1) by {
                    vstd::arithmetic::div_mod::lemma_fundamental_div_mod_converse(
                        a as int,
                        n as int,
                        0,
                        1,
                    );
                }
                assert(m * q == 0) by (nonlinear_arith)
                    requires
                        q == 0,
                ;
            }
        }
    }
}

/// With every holder listed once, a handout changes the balance of a holder
/// by what that holder gets and by nothing else.
pub proof fn lemma_handout_reaches_each_once(
    ledger: Map<AccountId, Coins>,
    shares: Seq<(AccountId, u64)>,
    amount: Coins,
    m: nat,
    i: int,
)
    requires
        is_total(ledger),
        m <= shares.len(),
        0 <= i < shares.len(),
        forall|a: int, b: int|
            0 <= a < shares.len() && 0 <= b < shares.len() && a != b ==> shares[a].0
                != shares[b].0,
    ensures
        handed_out(ledger, shares, amount, m)[shares[i].0] == if i < m {
            capped(ledger[shares[i].0] as nat + payout_of(shares, amount, i))
        } else {
            ledger[shares[i].0]
        },
    decreases m,
{
    if m > 0 {
        lemma_handout_reaches_each_once(ledger, shares, amount, (m - 1) as nat, i);
        lemma_paid_out_bounds(shares, amount, (m - 1) as nat);
    }
}

} // verus!
