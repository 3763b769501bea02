//! Two-decimal rendering.
//!
//! The display writes every number with two digits after the point. Over
//! exact decimals that is integer arithmetic: round the value to hundredths,
//! then print `whole.fraction` with the fraction padded to two digits. The
//! equation line is rendered in the shape `a.aax^2 + b.bbx + c.cc = 0` with
//! each coefficient's sign in front of its absolute value. A sign is taken
//! from the value, not from the stored flag, so a negative zero renders
//! unsigned — as a float comparison against `0.0` would have it. Rounding to
//! hundredths is exact on the decimal value, with halves away from zero;
//! float formatting, which rounds the nearest binary double instead, can
//! differ on ties such as `0.015`.

use crate::equation::{round_div, Equation, Roots};
use crate::num::{lemma_pow10_values, pow10, pow10_u64, Dec};
use crate::parse::{B_CARET, B_DOT, B_MINUS, B_PLUS, B_TWO, B_X};
use vstd::math::abs;
use vstd::prelude::*;

verus! {

/// ` ` as a byte.
pub const B_SPACE: u8 = 32;

/// `=` as a byte.
pub const B_EQUALS: u8 = 61;

/// `0` as a byte.
pub const B_ZERO: u8 = 48;

/// `1` as a byte.
pub const B_ONE: u8 = 49;

/// `i` as a byte.
pub const B_LOW_I: u8 = 105;

/// Newline as a byte.
pub const B_NEWLINE: u8 = 10;

/// The decimal digits of `n`, most significant first, no leading zeros
/// (except for `n == 0` itself).
pub open spec fn spec_digits(n: nat) -> Seq<u8>
    decreases n,
{
    if n < 10 {
        seq![(48 + n) as u8]
    } else {
        spec_digits(n / 10).push((48 + n % 10) as u8)
    }
}

/// The text `{:.2}` gives a nonnegative value of `h` hundredths:
/// the whole part, a period, and exactly two fraction digits.
pub open spec fn spec_two_dec(h: nat) -> Seq<u8> {
    spec_digits(h / 100) + seq![B_DOT, (48 + (h % 100) / 10) as u8, (48 + h % 10) as u8]
}

/// The magnitude of a coefficient in hundredths, rounded to nearest with
/// halves away from zero.
pub open spec fn spec_mag_hundredths(d: Dec) -> int {
    round_div(100 * d.mant, pow10(d.scale as nat) as int)
}

/// Whether the value is strictly negative: the sign the display shows.
/// A negative zero carries a set `neg` flag but shows no sign.
pub open spec fn spec_is_neg(d: Dec) -> bool {
    d.neg && d.mant != 0
}

/// The rendering of the whole equation, as the display wrote it: signed
/// two-decimal coefficients around `x^2`, `x` and `= 0`.
pub open spec fn spec_render(e: Equation) -> Seq<u8> {
    (if spec_is_neg(e.a) {
        seq![B_MINUS]
    } else {
        Seq::<u8>::empty()
    }) + spec_two_dec(spec_mag_hundredths(e.a) as nat) + seq![B_X, B_CARET, B_TWO, B_SPACE]
        + seq![(if spec_is_neg(e.b) { B_MINUS } else { B_PLUS }), B_SPACE]
        + spec_two_dec(spec_mag_hundredths(e.b) as nat) + seq![B_X, B_SPACE]
        + seq![(if spec_is_neg(e.c) { B_MINUS } else { B_PLUS }), B_SPACE]
        + spec_two_dec(spec_mag_hundredths(e.c) as nat) + seq![B_SPACE, B_EQUALS, B_SPACE, B_ZERO]
}

/// Append the decimal digits of `n`.
fn push_digits(n: u128, out: &mut Vec<u8>)
    ensures
        final(out)@ == old(out)@ + spec_digits(n as nat),
    decreases n,
{
    if n < 10 {
        out.push(48 + n as u8);
        proof {
            assert(old(out)@.push((48 + n) as u8) =~= old(out)@ + spec_digits(n as nat));
        }
    } else {
        push_digits(n / 10, out);
        out.push(48 + (n % 10) as u8);
        proof {
            assert((old(out)@ + spec_digits((n / 10) as nat)).push((48 + n % 10) as u8) =~= old(
                out,
            )@ + spec_digits(n as nat));
        }
    }
}

/// Append `{:.2}` of a value given in hundredths.
fn push_two_dec(h: u128, out: &mut Vec<u8>)
    ensures
        final(out)@ == old(out)@ + spec_two_dec(h as nat),
{
    push_digits(h / 100, out);
    out.push(B_DOT);
    out.push(48 + ((h % 100) / 10) as u8);
    out.push(48 + (h % 10) as u8);
    proof {
        assert(((old(out)@ + spec_digits((h / 100) as nat)).push(B_DOT).push(
            (48 + (h % 100) / 10) as u8,
        ).push((48 + h % 10) as u8)) =~= old(out)@ + spec_two_dec(h as nat));
    }
}

/// The magnitude of a coefficient in hundredths.
fn mag_hundredths(d: &Dec) -> (h: u64)
    requires
        d.wf(),
    ensures
        h == spec_mag_hundredths(*d),
{
    let p = pow10_u64(d.scale);
    proof {
        lemma_pow10_values();
        crate::num::lemma_pow10_le(d.scale as nat, 9);
        crate::num::lemma_pow10_pos(d.scale as nat);
    }
    (2 * (100 * d.mant) + p) / (2 * p)
}

impl Dec {
    /// `{:.2}` of the coefficient, sign included: `-0.50` for minus one
    /// half.
    pub fn two_dec_text(&self) -> (out: Vec<u8>)
        requires
            self.wf(),
        ensures
            out@ == (if spec_is_neg(*self) {
                seq![B_MINUS]
            } else {
                Seq::<u8>::empty()
            }) + spec_two_dec(spec_mag_hundredths(*self) as nat),
    {
        let mut out: Vec<u8> = Vec::new();
        if self.neg && self.mant != 0 {
            out.push(B_MINUS);
            proof {
                assert(out@ =~= seq![B_MINUS]);
            }
        } else {
            proof {
                assert(out@ =~= Seq::<u8>::empty());
            }
        }
        let h = mag_hundredths(self);
        push_two_dec(h as u128, &mut out);
        out
    }
}

impl Equation {
    /// The equation, rendered as the display wrote it.
    pub fn render_line(&self) -> (out: Vec<u8>)
        requires
            self.wf(),
        ensures
            out@ == spec_render(*self),
    {
        let mut out: Vec<u8> = Vec::new();
        if self.a.neg && self.a.mant != 0 {
            out.push(B_MINUS);
            proof {
                assert(out@ =~= seq![B_MINUS]);
            }
        } else {
            proof {
                assert(out@ =~= Seq::<u8>::empty());
            }
        }
        let ghost p0 = out@;
        let ha = mag_hundredths(&self.a);
        push_two_dec(ha as u128, &mut out);
        out.push(B_X);
        out.push(B_CARET);
        out.push(B_TWO);
        out.push(B_SPACE);
        proof {
            assert(out@ =~= (p0 + spec_two_dec(spec_mag_hundredths(self.a) as nat)) + seq![
                B_X,
                B_CARET,
                B_TWO,
                B_SPACE,
            ]);
        }
        let ghost p1 = out@;
        out.push(if self.b.neg && self.b.mant != 0 {
            B_MINUS
        } else {
            B_PLUS
        });
        out.push(B_SPACE);
        proof {
            assert(out@ =~= p1 + seq![(if spec_is_neg(self.b) { B_MINUS } else { B_PLUS }), B_SPACE]);
        }
        let ghost p2 = out@;
        let hb = mag_hundredths(&self.b);
        push_two_dec(hb as u128, &mut out);
        out.push(B_X);
        out.push(B_SPACE);
        proof {
            assert(out@ =~= (p2 + spec_two_dec(spec_mag_hundredths(self.b) as nat)) + seq![
                B_X,
                B_SPACE,
            ]);
        }
        let ghost p3 = out@;
        out.push(if self.c.neg && self.c.mant != 0 {
            B_MINUS
        } else {
            B_PLUS
        });
        out.push(B_SPACE);
        proof {
            assert(out@ =~= p3 + seq![(if spec_is_neg(self.c) { B_MINUS } else { B_PLUS }), B_SPACE]);
        }
        let ghost p4 = out@;
        let hc = mag_hundredths(&self.c);
        push_two_dec(hc as u128, &mut out);
        out.push(B_SPACE);
        out.push(B_EQUALS);
        out.push(B_SPACE);
        out.push(B_ZERO);
        proof {
            assert(out@ =~= (p4 + spec_two_dec(spec_mag_hundredths(self.c) as nat)) + seq![
                B_SPACE,
                B_EQUALS,
                B_SPACE,
                B_ZERO,
            ]);
            assert(out@ =~= spec_render(*self));
        }
        out
    }
}


/// The signed two-decimal text of a value given in hundredths: a minus sign
/// for strictly negative values, then the magnitude.
pub open spec fn spec_signed_two_dec(h: int) -> Seq<u8> {
    (if h < 0 {
        seq![B_MINUS]
    } else {
        Seq::<u8>::empty()
    }) + spec_two_dec(abs(h) as nat)
}

/// Append the signed two-decimal text of a value in hundredths.
fn push_signed_two_dec(h: i128, out: &mut Vec<u8>)
    ensures
        final(out)@ == old(out)@ + spec_signed_two_dec(h as int),
{
    let ghost pre = out@;
    if h < 0 {
        out.push(B_MINUS);
        proof {
            assert(out@ =~= pre + seq![B_MINUS]);
        }
    } else {
        proof {
            assert(out@ =~= pre + Seq::<u8>::empty());
        }
    }
    // the magnitude, written so that even the smallest value cannot overflow
    let m: u128 = if h < 0 {
        ((-(h + 1)) as u128) + 1
    } else {
        h as u128
    };
    push_two_dec(m, out);
    proof {
        assert((pre + (if h < 0 {
            seq![B_MINUS]
        } else {
            Seq::<u8>::empty()
        })) + spec_two_dec(m as nat) =~= pre + spec_signed_two_dec(h as int));
    }
}

/// The rendering of the root set, as the display writes it: `x1 ≈ v` and
/// `x2 ≈ v` lines for two real roots, `x ≈ v` for a double root, and
/// `x = re ± imi` for the conjugate pair, every value with two decimals.
pub open spec fn spec_render_roots(r: Roots) -> Seq<u8> {
    match r {
        Roots::Pair { x1, x2 } => seq![B_X, B_ONE, B_SPACE, 226u8, 137u8, 136u8, B_SPACE]
            + spec_signed_two_dec(x1 as int) + seq![
            B_NEWLINE,
            B_X,
            B_TWO,
            B_SPACE,
            226u8,
            137u8,
            136u8,
            B_SPACE,
        ] + spec_signed_two_dec(x2 as int),
        Roots::Double { x } => seq![B_X, B_SPACE, 226u8, 137u8, 136u8, B_SPACE]
            + spec_signed_two_dec(x as int),
        Roots::Conjugate { re, im } => seq![B_X, B_SPACE, B_EQUALS, B_SPACE] + spec_signed_two_dec(
            re as int,
        ) + seq![B_SPACE, 194u8, 177u8, B_SPACE] + spec_signed_two_dec(im as int) + seq![B_LOW_I],
    }
}

impl Roots {
    /// The root set as display text (UTF-8 bytes; `≈` and `±` are the only
    /// bytes beyond ASCII).
    pub fn render_text(&self) -> (out: Vec<u8>)
        ensures
            out@ == spec_render_roots(*self),
    {
        let mut out: Vec<u8> = Vec::new();
        match self {
            Roots::Pair { x1, x2 } => {
                out.push(B_X);
                out.push(B_ONE);
                out.push(B_SPACE);
                out.push(226);
                out.push(137);
                out.push(136);
                out.push(B_SPACE);
                proof {
                    assert(out@ =~= seq![B_X, B_ONE, B_SPACE, 226u8, 137u8, 136u8, B_SPACE]);
                }
                push_signed_two_dec(*x1, &mut out);
                let ghost p = out@;
                out.push(B_NEWLINE);
                out.push(B_X);
                out.push(B_TWO);
                out.push(B_SPACE);
                out.push(226);
                out.push(137);
                out.push(136);
                out.push(B_SPACE);
                proof {
                    assert(out@ =~= p + seq![
                        B_NEWLINE,
                        B_X,
                        B_TWO,
                        B_SPACE,
                        226u8,
                        137u8,
                        136u8,
                        B_SPACE,
                    ]);
                }
                push_signed_two_dec(*x2, &mut out);
            },
            Roots::Double { x } => {
                out.push(B_X);
                out.push(B_SPACE);
                out.push(226);
                out.push(137);
                out.push(136);
                out.push(B_SPACE);
                proof {
                    assert(out@ =~= seq![B_X, B_SPACE, 226u8, 137u8, 136u8, B_SPACE]);
                }
                push_signed_two_dec(*x, &mut out);
            },
            Roots::Conjugate { re, im } => {
                out.push(B_X);
                out.push(B_SPACE);
                out.push(B_EQUALS);
                out.push(B_SPACE);
                proof {
                    assert(out@ =~= seq![B_X, B_SPACE, B_EQUALS, B_SPACE]);
                }
                push_signed_two_dec(*re, &mut out);
                let ghost p = out@;
                out.push(B_SPACE);
                out.push(194);
                out.push(177);
                out.push(B_SPACE);
                proof {
                    assert(out@ =~= p + seq![B_SPACE, 194u8, 177u8, B_SPACE]);
                }
                push_signed_two_dec(*im, &mut out);
                out.push(B_LOW_I);
                proof {
                    assert(out@ =~= spec_render_roots(*self));
                }
            },
        }
        out
    }
}



} // verus!
