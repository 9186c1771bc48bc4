//! The balances of all accounts, as a map that knows every account.
//!
//! An account that was never credited holds zero coins, so the ledger is
//! modelled as a total map from accounts to coins.

use crate::bid::AccountId;
use crate::perbill::Coins;
use vstd::prelude::*;

verus! {

/// The sum of two amounts, held at the largest amount where it exceeds it.
pub open spec fn saturating_sum(a: Coins, b: Coins) -> Coins {
    if a + b > u64::MAX {
        u64::MAX
    } else {
        (a + b) as Coins
    }
}

/// The ledger that a map of stored balances stands for: an account without
/// an entry holds nothing.
pub open spec fn ledger_of(stored: Map<AccountId, Coins>) -> Map<AccountId, Coins> {
    Map::new(
        |who: AccountId| true,
        |who: AccountId|
            if stored.contains_key(who) {
                stored[who]
            } else {
                0
            },
    )
}

/// The ledger knows every account.
pub open spec fn is_total(ledger: Map<AccountId, Coins>) -> bool {
    forall|who: AccountId| ledger.contains_key(who)
}

/// The ledger after `amount` coins were added to the balance of `who`; a
/// balance stops growing at the largest amount.
pub open spec fn credited(ledger: Map<AccountId, Coins>, who: AccountId, amount: Coins) -> Map<
    AccountId,
    Coins,
> {
    ledger.insert(who, saturating_sum(ledger[who], amount))
}

/// The ledger after `amount` coins were taken from the balance of `who`,
/// which holds at least as many.
pub open spec fn debited(ledger: Map<AccountId, Coins>, who: AccountId, amount: Coins) -> Map<
    AccountId,
    Coins,
> {
    ledger.insert(who, (ledger[who] - amount) as Coins)
}

/// The coins of all accounts below `bound`.
pub open spec fn sum_below(ledger: Map<AccountId, Coins>, bound: nat) -> nat
    decreases bound,
{
    if bound == 0 {
        0
    } else {
        sum_below(ledger, (bound - 1) as nat) + ledger[(bound - 1) as AccountId] as nat
    }
}

/// The coins of all accounts together.
pub open spec fn total_balance(ledger: Map<AccountId, Coins>) -> nat {
    sum_below(ledger, 0x1_0000_0000_0000_0000)
}

/// Writing one balance changes the sum by the difference, where the account
/// lies below the bound.
pub proof fn lemma_sum_below_insert(
    ledger: Map<AccountId, Coins>,
    who: AccountId,
    balance: Coins,
    bound: nat,
)
    requires
        bound <= 0x1_0000_0000_0000_0000,
    ensures
        sum_below(ledger.insert(who, balance), bound) + (if who < bound {
            ledger[who] as nat
        } else {
            0
        }) == sum_below(ledger, bound) + (if who < bound {
            balance as nat
        } else {
            0
        }),
    decreases bound,
{
    if bound > 0 {
        lemma_sum_below_insert(ledger, who, balance, (bound - 1) as nat);
    }
}

/// Writing one balance changes the total by the difference.
pub proof fn lemma_total_insert(ledger: Map<AccountId, Coins>, who: AccountId, balance: Coins)
    ensures
        total_balance(ledger.insert(who, balance)) + ledger[who] == total_balance(ledger)
            + balance,
{
    lemma_sum_below_insert(ledger, who, balance, 0x1_0000_0000_0000_0000);
}

/// No account holds more than all accounts together.
pub proof fn lemma_balance_within_total(ledger: Map<AccountId, Coins>, who: AccountId)
    ensures
        ledger[who] <= total_balance(ledger),
{
    lemma_sum_below_covers(ledger, who, 0x1_0000_0000_0000_0000);
}

/// An account below the bound holds no more than the sum below the bound.
pub proof fn lemma_sum_below_covers(ledger: Map<AccountId, Coins>, who: AccountId, bound: nat)
    requires
        who < bound,
    ensures
        ledger[who] <= sum_below(ledger, bound),
    decreases bound,
{
    if who < bound - 1 {
        lemma_sum_below_covers(ledger, who, (bound - 1) as nat);
    }
}

} // verus!
