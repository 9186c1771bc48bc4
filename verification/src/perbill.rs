//! Fractions of one with nine decimal digits.

use vstd::prelude::*;

verus! {

/// The amount of coins held by an account or in circulation.
pub type Coins = u64;

/// The number of parts that make one whole.
pub const ACCURACY: u32 = 1_000_000_000;

/// A fraction between zero and one, counted in parts per billion.
#[derive(Clone, Copy, Debug, PartialEq, Eq, PartialOrd, Ord, Hash, Structural)]
pub struct Perbill {
    parts: u32,
}

/// `amount` times `parts` billionths, rounded to the nearest whole number;
/// a remainder of exactly one half is rounded down.
pub open spec fn perbill_product(parts: u32, amount: u64) -> int {
    let whole = (amount as int / ACCURACY as int) * parts as int;
    let rest = (amount as int % ACCURACY as int) * parts as int;
    whole + rest / ACCURACY as int + if rest % ACCURACY as int > ACCURACY as int / 2 {
        1int
    } else {
        0int
    }
}

/// The product never exceeds the amount it is taken of.
pub proof fn lemma_perbill_product_bounds(parts: u32, amount: u64)
    requires
        parts <= ACCURACY,
    ensures
        0 <= perbill_product(parts, amount) <= amount,
        parts == 0 ==> perbill_product(parts, amount) == 0,
{
    let acc = ACCURACY as int;
    let q = amount as int / acc;
    let m = amount as int % acc;
    let rest = m * parts as int;
    assert(0 <= q * parts as int <= q * acc) by (nonlinear_arith)
        requires
            0 <= q,
            0 <= parts as int <= acc,
    ;
    assert(0 <= rest <= m * acc) by (nonlinear_arith)
        requires
            0 <= m,
            0 <= parts as int <= acc,
            rest == m * parts as int,
    ;
    assert(rest == acc * (rest / acc) + rest % acc) by {
        vstd::arithmetic::div_mod::lemma_fundamental_div_mod(rest, acc);
    }
    if rest % acc > acc / 2 {
        // A remainder above zero leaves the quotient strictly below `m`.
        assert(rest / acc < m) by (nonlinear_arith)
            requires
                rest == acc * (rest / acc) + rest % acc,
                rest % acc > 0,
                rest <= m * acc,
                acc > 0,
        ;
    } else {
        assert(0 <= rest / acc <= m) by (nonlinear_arith)
            requires
                rest == acc * (rest / acc) + rest % acc,
                0 <= rest % acc < acc,
                0 <= rest <= m * acc,
                acc > 0,
        ;
    }
    assert(0 <= rest / acc) by (nonlinear_arith)
        requires
            0 <= rest,
            acc > 0,
    ;
    assert(amount as int == acc * q + m) by {
        vstd::arithmetic::div_mod::lemma_fundamental_div_mod(amount as int, acc);
    }
    assert(q * acc == acc * q) by (nonlinear_arith);
    if parts == 0 {
        assert(q * parts as int == 0) by (nonlinear_arith)
            requires
                parts == 0,
        ;
        assert(rest == 0) by (nonlinear_arith)
            requires
                rest == m * parts as int,
                parts == 0,
        ;
    }
}

/// No parts of an amount are nothing.
pub proof fn lemma_perbill_product_zero(amount: u64)
    ensures
        perbill_product(0, amount) == 0,
{
    let q = amount as int / ACCURACY as int;
    let m = amount as int % ACCURACY as int;
    assert(q * 0 == 0) by (nonlinear_arith);
    assert(m * 0 == 0) by (nonlinear_arith);
}

/// Calls `Mul<u64>` of `sp_runtime::Perbill`, built by `from_parts`: the
/// product is split into whole billions and a remainder so that nothing
/// overflows, and the quotient is rounded to the nearest whole number, a
/// remainder of one half downwards.
#[verifier::external_body]
fn scale_by_parts(parts: u32, amount: u64) -> (product: u64)
    requires
        parts <= ACCURACY,
    ensures
        product == perbill_product(parts, amount),
{
    sp_runtime::Perbill::from_parts(parts) * amount
}

impl Default for Perbill {
    /// No part of the whole.
    fn default() -> (r: Perbill)
        ensures
            r.parts() == 0,
    {
        Perbill { parts: 0 }
    }
}

impl Perbill {
    #[verifier::type_invariant]
    spec fn in_range(self) -> bool {
        self.parts <= ACCURACY
    }

    /// The number of billionths that this fraction holds.
    pub closed spec fn parts(self) -> u32 {
        self.parts
    }

    /// The product of this fraction and `amount`, as `mul` computes it.
    pub open spec fn times(self, amount: u64) -> int {
        perbill_product(self.parts(), amount)
    }

    /// The fraction of `parts` billionths; more than one whole counts as one.
    pub fn from_parts(parts: u32) -> (r: Perbill)
        ensures
            r.parts() == if parts > ACCURACY { ACCURACY } else { parts },
    {
        Perbill { parts: if parts > ACCURACY { ACCURACY } else { parts } }
    }

    /// The fraction of `percent` hundredths; more than a hundred counts as a hundred.
    pub fn from_percent(percent: u32) -> (r: Perbill)
        ensures
            r.parts() == (if percent > 100 { 100 } else { percent as int }) * 10_000_000,
    {
        let capped: u32 = if percent > 100 { 100 } else { percent };
        Perbill { parts: capped * 10_000_000 }
    }

    /// The number of billionths that this fraction holds.
    pub fn deconstruct(self) -> (r: u32)
        ensures
            r == self.parts(),
            r <= ACCURACY,
    {
        proof {
            use_type_invariant(&self);
        }
        self.parts
    }

    /// This fraction of `amount`.
    pub fn mul(self, amount: Coins) -> (r: Coins)
        ensures
            r == self.times(amount),
            r <= amount,
    {
        proof {
            use_type_invariant(&self);
            lemma_perbill_product_bounds(self.parts, amount);
        }
        scale_by_parts(self.parts, amount)
    }
}

} // verus!
