//! Decimal numbers as requests carry them, and their value in minor units.
use vstd::arithmetic::div_mod::{lemma_div_denominator, lemma_small_div_converse};
use vstd::prelude::*;

verus! {

/// Ten to the power `n`.
pub open spec fn pow10(n: nat) -> nat
    decreases n,
{
    if n == 0 {
        1
    } else {
        10 * pow10((n - 1) as nat)
    }
}

/// A power of ten is positive.
pub proof fn lemma_pow10_positive(n: nat)
    ensures
        pow10(n) > 0,
    decreases n,
{
    if n > 0 {
        lemma_pow10_positive((n - 1) as nat);
    }
}

/// A higher power of ten is no smaller.
pub proof fn lemma_pow10_monotonic(m: nat, n: nat)
    requires
        m <= n,
    ensures
        pow10(m) <= pow10(n),
    decreases n,
{
    if m < n {
        lemma_pow10_monotonic(m, (n - 1) as nat);
        lemma_pow10_positive((n - 1) as nat);
    }
}

/// A decimal number: `mantissa` divided by ten to the power `scale`.
#[derive(Clone, Copy, Debug, PartialEq, Eq, Structural)]
pub struct Decimal {
    /// The digits of the number, as an integer.
    pub mantissa: i128,
    /// How many of the digits stand behind the decimal point.
    pub scale: u32,
}

impl Decimal {
    /// The number in minor units, which have two fractional digits: digits
    /// behind the second are dropped, missing ones count as zero.
    pub open spec fn minor_units(self) -> int {
        if self.scale >= 2 {
            (self.mantissa as int) / (pow10((self.scale - 2) as nat) as int)
        } else {
            self.mantissa * pow10((2 - self.scale) as nat)
        }
    }

    /// The number is not negative and its minor units fit 64 bits.
    pub open spec fn in_range(self) -> bool {
        self.mantissa >= 0 && self.minor_units() <= u64::MAX
    }

    /// The decimal `mantissa` divided by ten to the power `scale`.
    pub fn new(mantissa: i128, scale: u32) -> (decimal: Decimal)
        ensures
            decimal == (Decimal { mantissa, scale }),
    {
        Decimal { mantissa, scale }
    }

    /// The number in minor units, if it is in range.
    pub fn to_minor_units(&self) -> (units: Option<u64>)
        ensures
            match units {
                Some(units) => self.in_range() && units == self.minor_units(),
                None => !self.in_range(),
            },
    {
        if self.mantissa < 0 {
            return None;
        }
        let mantissa: u128 = self.mantissa as u128;
        if self.scale >= 2 {
            let digits: u32 = self.scale - 2;
            let mut value: u128 = mantissa;
            let mut dropped: u32 = 0;
            assert(pow10(0) == 1);
            while dropped < digits && value > 0
                invariant
                    dropped <= digits,
                    value == mantissa as int / (pow10(dropped as nat) as int),
                decreases digits - dropped,
            {
                proof {
                    lemma_pow10_positive(dropped as nat);
                    lemma_div_denominator(mantissa as int, pow10(dropped as nat) as int, 10);
                    assert(pow10((dropped + 1) as nat) == 10 * pow10(dropped as nat));
                    assert(pow10(dropped as nat) * 10 == 10 * pow10(dropped as nat));
                }
                value = value / 10;
                dropped = dropped + 1;
            }
            proof {
                if dropped < digits {
                    lemma_pow10_monotonic(dropped as nat, digits as nat);
                    let small = pow10(dropped as nat) as int;
                    let large = pow10(digits as nat) as int;
                    lemma_pow10_positive(dropped as nat);
                    lemma_small_div_converse(mantissa as int, small);
                    assert(mantissa as int / large == 0) by (nonlinear_arith)
                        requires
                            0 <= mantissa < small,
                            small <= large,
                    ;
                    assert(mantissa as int / large == 0);
                }
            }
            if value <= u64::MAX as u128 {
                Some(value as u64)
            } else {
                None
            }
        } else {
            let factor: u128 = if self.scale == 0 {
                100
            } else {
                10
            };
            proof {
                assert(pow10(0) == 1);
                assert(pow10(1) == 10);
                assert(pow10(2) == 100) by {
                    reveal_with_fuel(pow10, 3);
                }
                assert(pow10((2 - self.scale) as nat) == factor);
            }
            if mantissa > u64::MAX as u128 {
                assert(mantissa * factor > u64::MAX) by (nonlinear_arith)
                    requires
                        mantissa > u64::MAX,
                        factor >= 10,
                ;
                return None;
            }
            assert(mantissa * factor <= u128::MAX) by (nonlinear_arith)
                requires
                    mantissa <= u64::MAX,
                    factor <= 100,
            ;
            let value: u128 = mantissa * factor;
            if value <= u64::MAX as u128 {
                Some(value as u64)
            } else {
                None
            }
        }
    }
}

} // verus!
