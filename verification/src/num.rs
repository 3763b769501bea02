//! Exact decimal numbers.
//!
//! A coefficient read from the input line is kept as the exact decimal it was
//! written as: a sign, a mantissa holding all its digits, and a scale counting
//! the digits after the decimal point. Keeping the value exact (instead of
//! rounding it to a machine float) lets the discriminant sign and the rational
//! roots be computed with integer arithmetic and proved correct.

use vstd::prelude::*;

verus! {

/// Exclusive upper bound on the mantissa of a well-formed `Dec`:
/// at most nine significant decimal digits.
pub const MANT_LIMIT: u64 = 1_000_000_000;

/// Largest number of fractional digits a well-formed `Dec` may carry.
pub const SCALE_LIMIT: u32 = 9;

/// An exact decimal number with value `mant / 10^scale`, negated when `neg`
/// is set. `1.5` is `{ neg: false, mant: 15, scale: 1 }`; `-3` is
/// `{ neg: true, mant: 3, scale: 0 }`.
#[derive(Clone, Copy, Debug, PartialEq, Eq, Structural)]
pub struct Dec {
    pub neg: bool,
    pub mant: u64,
    pub scale: u32,
}

/// `10^n`.
pub open spec fn pow10(n: nat) -> nat
    decreases n,
{
    if n == 0 {
        1
    } else {
        10 * pow10((n - 1) as nat)
    }
}

pub proof fn lemma_pow10_pos(n: nat)
    ensures
        pow10(n) >= 1,
    decreases n,
{
    if n > 0 {
        lemma_pow10_pos((n - 1) as nat);
    }
}

pub proof fn lemma_pow10_le(a: nat, b: nat)
    requires
        a <= b,
    ensures
        pow10(a) <= pow10(b),
    decreases b,
{
    if a < b {
        lemma_pow10_le(a, (b - 1) as nat);
        lemma_pow10_pos((b - 1) as nat);
    }
}

/// Concrete powers of ten that the bound proofs lean on.
pub proof fn lemma_pow10_values()
    ensures
        pow10(2) == 100,
        pow10(9) == 1_000_000_000,
        pow10(18) == 1_000_000_000_000_000_000,
        pow10(19) == 10_000_000_000_000_000_000,
{
    reveal_with_fuel(pow10, 20);
}

impl Dec {
    /// Well-formedness: bounds under which all the integer arithmetic on
    /// coefficients (discriminant, scaled roots) stays inside `u128`.
    pub open spec fn wf(self) -> bool {
        self.mant < MANT_LIMIT && self.scale <= SCALE_LIMIT
    }

    /// The signed numerator of the value; the value itself is
    /// `self.num() / 10^scale` (the denominator is always positive, so the
    /// numerator carries the sign).
    pub open spec fn num(self) -> int {
        if self.neg {
            -(self.mant as int)
        } else {
            self.mant as int
        }
    }

    /// The decimal zero.
    pub fn zero() -> (r: Dec)
        ensures
            r == (Dec { neg: false, mant: 0, scale: 0 }),
            r.wf(),
            r.num() == 0,
    {
        Dec { neg: false, mant: 0, scale: 0 }
    }

    /// The decimal one, with an optional sign: the coefficient that a bare
    /// `x^2` or `-x^2` token denotes.
    pub fn unit(neg: bool) -> (r: Dec)
        ensures
            r == (Dec { neg, mant: 1, scale: 0 }),
            r.wf(),
            r.num() == if neg { -1int } else { 1int },
    {
        Dec { neg, mant: 1, scale: 0 }
    }
}

/// `10^e` as a machine integer.
pub fn pow10_u64(e: u32) -> (r: u64)
    requires
        e <= 19,
    ensures
        r == pow10(e as nat),
{
    proof {
        assert(pow10(19) == 10_000_000_000_000_000_000) by {
            reveal_with_fuel(pow10, 20);
        }
    }
    let mut r: u64 = 1;
    let mut i: u32 = 0;
    while i < e
        invariant
            i <= e <= 19,
            r == pow10(i as nat),
            pow10(19) == 10_000_000_000_000_000_000,
        decreases e - i,
    {
        proof {
            lemma_pow10_le((i + 1) as nat, 19);
        }
        r = r * 10;
        i = i + 1;
    }
    r
}

} // verus!
