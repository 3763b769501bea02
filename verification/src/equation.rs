//! The equation itself: classification of its roots by the sign of the
//! discriminant, and exact computation of the roots whenever they are
//! rational.
//!
//! With coefficients kept as exact decimals, multiplying the equation
//! `a x^2 + b x + c = 0` by `10^smax` (the largest scale among the three
//! coefficients) turns it into an equivalent equation with integer
//! coefficients. The discriminant of that integer equation has the same sign
//! as the true discriminant `b^2 - 4ac`, so root classification is exact
//! integer arithmetic — no rounding, no epsilon.

use crate::num::{Dec, lemma_pow10_le, lemma_pow10_values, pow10, pow10_u64};
use vstd::math::abs;
use vstd::prelude::*;

verus! {

/// The roots of the equation, given exactly in hundredths — the two-decimal
/// precision the display uses. `x1 == 150` stands for `x1 = 1.50`.
///
/// `Pair` carries two distinct real roots in the order
/// `(-b - sqrt(d)) / 2a`, then `(-b + sqrt(d)) / 2a`; `Double` the one double
/// root; `Conjugate` the pair `re ± im·i`, where `im` is the magnitude
/// `sqrt(|d|) / |2a|` of the imaginary part — the sign lives in the `±` of
/// the rendering.
#[derive(Clone, Copy, Debug, PartialEq, Eq, Structural)]
pub enum Roots {
    Pair { x1: i128, x2: i128 },
    Double { x: i128 },
    Conjugate { re: i128, im: i128 },
}

/// `m` is the square of some integer.
pub open spec fn is_perfect_square(m: int) -> bool {
    exists|r: int| 0 <= r && #[trigger] (r * r) == m
}

/// The nonnegative integer square root of a perfect square.
pub open spec fn sqrt_of(m: int) -> int {
    choose|r: int| 0 <= r && #[trigger] (r * r) == m
}

/// Division rounded to the nearest integer, with halves rounded away from
/// zero.
pub open spec fn round_div(n: int, d: int) -> int
    recommends
        d != 0,
{
    let q: int = (2 * (abs(n) as int) + (abs(d) as int)) / (2 * (abs(d) as int));
    if (n < 0) <==> (d < 0) {
        q
    } else {
        -q
    }
}

/// A quadratic (or degenerate) equation `a x^2 + b x + c = 0` with exact
/// decimal coefficients.
#[derive(Clone, Copy, Debug, PartialEq, Eq, Structural)]
pub struct Equation {
    pub a: Dec,
    pub b: Dec,
    pub c: Dec,
}

impl Equation {
    pub open spec fn wf(self) -> bool {
        self.a.wf() && self.b.wf() && self.c.wf()
    }

    /// The largest scale among the three coefficients.
    pub open spec fn smax(self) -> u32 {
        let m = if self.b.scale > self.a.scale {
            self.b.scale
        } else {
            self.a.scale
        };
        if self.c.scale > m {
            self.c.scale
        } else {
            m
        }
    }

    /// Coefficient of `x^2` after the equation is multiplied by `10^smax`.
    pub open spec fn scaled_a(self) -> int {
        self.a.num() * pow10((self.smax() - self.a.scale) as nat)
    }

    /// Coefficient of `x` after the equation is multiplied by `10^smax`.
    pub open spec fn scaled_b(self) -> int {
        self.b.num() * pow10((self.smax() - self.b.scale) as nat)
    }

    /// Constant term after the equation is multiplied by `10^smax`.
    pub open spec fn scaled_c(self) -> int {
        self.c.num() * pow10((self.smax() - self.c.scale) as nat)
    }

    /// Discriminant of the integer-scaled equation. It is `10^(2*smax)` times
    /// the true discriminant `b^2 - 4ac`, so it has the same sign.
    pub open spec fn disc(self) -> int {
        self.scaled_b() * self.scaled_b() - 4 * self.scaled_a() * self.scaled_c()
    }

    fn smax_exec(&self) -> (r: u32)
        ensures
            r == self.smax(),
    {
        let m = if self.b.scale > self.a.scale {
            self.b.scale
        } else {
            self.a.scale
        };
        if self.c.scale > m {
            self.c.scale
        } else {
            m
        }
    }

    /// The three integer-scaled coefficients `(a, b, c) * 10^smax`.
    fn scaled_coefs(&self) -> (r: (i128, i128, i128))
        requires
            self.wf(),
        ensures
            r.0 == self.scaled_a(),
            r.1 == self.scaled_b(),
            r.2 == self.scaled_c(),
            -1_000_000_000_000_000_000 < r.0 < 1_000_000_000_000_000_000,
            -1_000_000_000_000_000_000 < r.1 < 1_000_000_000_000_000_000,
            -1_000_000_000_000_000_000 < r.2 < 1_000_000_000_000_000_000,
    {
        let smax = self.smax_exec();
        let sa = scaled_coef(&self.a, smax);
        let sb = scaled_coef(&self.b, smax);
        let sc = scaled_coef(&self.c, smax);
        (sa, sb, sc)
    }

    /// The integer-scaled discriminant.
    fn disc_exec(&self) -> (d: i128)
        requires
            self.wf(),
        ensures
            d == self.disc(),
            -5_000_000_000_000_000_000_000_000_000_000_000_000 < d
                < 5_000_000_000_000_000_000_000_000_000_000_000_000,
    {
        let (sa, sb, sc) = self.scaled_coefs();
        proof {
            assert(sb * sb < 1_000_000_000_000_000_000_000_000_000_000_000_000 && sb * sb >= 0)
                by (nonlinear_arith)
                requires
                    -1_000_000_000_000_000_000 < sb < 1_000_000_000_000_000_000,
            ;
            assert(sa * sc < 1_000_000_000_000_000_000_000_000_000_000_000_000 && sa * sc
                > -1_000_000_000_000_000_000_000_000_000_000_000_000) by (nonlinear_arith)
                requires
                    -1_000_000_000_000_000_000 < sa < 1_000_000_000_000_000_000
                        && -1_000_000_000_000_000_000 < sc < 1_000_000_000_000_000_000,
            ;
            assert(4 * ((sa as int) * (sc as int)) == 4 * (sa as int) * (sc as int))
                by (nonlinear_arith);
        }
        sb * sb - 4 * (sa * sc)
    }

    /// Root classification: `2` for two distinct real roots, `1` for a
    /// double root, `-1` for a complex-conjugate pair. The comparison
    /// against zero is exact.
    pub fn number_of_roots(&self) -> (n: i32)
        requires
            self.wf(),
        ensures
            n == 2 || n == 1 || n == -1,
            (n == 2) <==> self.disc() > 0,
            (n == 1) <==> self.disc() == 0,
            (n == -1) <==> self.disc() < 0,
    {
        let d = self.disc_exec();
        if d > 0 {
            2
        } else if d == 0 {
            1
        } else {
            -1
        }
    }
}

proof fn lemma_sqrt_unique(r1: int, r2: int)
    by (nonlinear_arith)
    requires
        0 <= r1,
        0 <= r2,
        r1 * r1 == r2 * r2,
    ensures
        r1 == r2,
{
}

/// If `m` lies strictly between two consecutive squares, it is no square.
proof fn lemma_no_square_between(s: int, m: int)
    requires
        0 <= s,
        s * s <= m,
        m < (s + 1) * (s + 1),
        s * s != m,
    ensures
        !is_perfect_square(m),
{
    assert forall|r: int| !(0 <= r && #[trigger] (r * r) == m) by {
        if 0 <= r && r * r == m {
            if r <= s {
                assert(r * r <= s * s) by (nonlinear_arith)
                    requires
                        0 <= r && r <= s,
                ;
            } else {
                assert(r * r >= (s + 1) * (s + 1)) by (nonlinear_arith)
                    requires
                        r >= s + 1 && s >= 0,
                ;
            }
        }
    }
}

/// Floor of the square root.
fn isqrt(m: u128) -> (r: u128)
    ensures
        (r as int) * (r as int) <= m as int,
        (m as int) < (r as int + 1) * (r as int + 1),
{
    proof {
        assert((0x1_0000_0000_0000_0000 as int) * (0x1_0000_0000_0000_0000 as int) > u128::MAX
            as int) by (nonlinear_arith);
    }
    let mut lo: u128 = 0;
    let mut hi: u128 = 0x1_0000_0000_0000_0000;
    while lo + 1 < hi
        invariant
            lo < hi <= 0x1_0000_0000_0000_0000,
            (lo as int) * (lo as int) <= m as int,
            (m as int) < (hi as int) * (hi as int),
        decreases hi - lo,
    {
        let mid = lo + (hi - lo) / 2;
        proof {
            assert(mid * mid < u128::MAX) by (nonlinear_arith)
                requires
                    mid < 0x1_0000_0000_0000_0000,
            ;
        }
        if mid * mid <= m {
            lo = mid;
        } else {
            hi = mid;
        }
    }
    lo
}

/// Division of machine integers rounded to the nearest, halves away from
/// zero.
fn round_div_exec(n: i128, d: i128) -> (q: i128)
    requires
        d != 0,
        -1_000_000_000_000_000_000_000 < n < 1_000_000_000_000_000_000_000,
        -10_000_000_000_000_000_000 < d < 10_000_000_000_000_000_000,
    ensures
        q == round_div(n as int, d as int),
{
    let nn: u128 = if n < 0 {
        (-n) as u128
    } else {
        n as u128
    };
    let dd: u128 = if d < 0 {
        (-d) as u128
    } else {
        d as u128
    };
    proof {
        assert((2 * nn + dd) / (2 * dd) <= 2 * nn + dd) by (nonlinear_arith)
            requires
                dd >= 1,
        ;
    }
    let q0: u128 = (2 * nn + dd) / (2 * dd);
    let qi = q0 as i128;
    if (n < 0) == (d < 0) {
        qi
    } else {
        -qi
    }
}

impl Equation {
    /// The roots, exactly, in hundredths — when they are exactly computable:
    /// the leading scaled coefficient must be nonzero (else the quadratic
    /// formula divides by zero) and the scaled discriminant must be a perfect
    /// square (else the roots are irrational and no exact decimal exists).
    ///
    /// The discriminant sign routes to the matching variant: positive to
    /// `Pair` (two distinct real roots — the square root is at least one, so
    /// the exact roots differ), zero to `Double`, negative to `Conjugate`
    /// with a nonzero imaginary magnitude.
    pub fn roots_hundredths(&self) -> (r: Option<Roots>)
        requires
            self.wf(),
        ensures
            ({
                let aa = self.scaled_a();
                let bb = self.scaled_b();
                let dd = self.disc();
                &&& (r is None <==> (aa == 0 || !is_perfect_square(abs(dd) as int)))
                &&& (aa != 0 && dd > 0 && is_perfect_square(dd) ==> {
                    &&& sqrt_of(dd) >= 1
                    &&& r == Some(
                        Roots::Pair {
                            x1: round_div(100 * (-bb - sqrt_of(dd)), 2 * aa) as i128,
                            x2: round_div(100 * (-bb + sqrt_of(dd)), 2 * aa) as i128,
                        },
                    )
                })
                &&& (aa != 0 && dd == 0 ==> r == Some(
                    Roots::Double { x: round_div(100 * -bb, 2 * aa) as i128 },
                ))
                &&& (aa != 0 && dd < 0 && is_perfect_square(-dd) ==> {
                    &&& sqrt_of(-dd) >= 1
                    &&& r == Some(
                        Roots::Conjugate {
                            re: round_div(100 * -bb, 2 * aa) as i128,
                            im: round_div(100 * sqrt_of(-dd), abs(2 * aa) as int) as i128,
                        },
                    )
                })
            }),
    {
        let (sa, sb, _sc) = self.scaled_coefs();
        let d = self.disc_exec();
        if sa == 0 {
            return None;
        }
        let m: u128 = if d < 0 {
            (-d) as u128
        } else {
            d as u128
        };
        let s = isqrt(m);
        proof {
            assert(s * s < u128::MAX) by (nonlinear_arith)
                requires
                    (s as int) * (s as int) <= m as int && m < u128::MAX,
            ;
        }
        if s * s != m {
            proof {
                lemma_no_square_between(s as int, m as int);
            }
            return None;
        }
        proof {
            assert(is_perfect_square(m as int));
            lemma_sqrt_unique(sqrt_of(m as int), s as int);
            assert(s < 3_000_000_000_000_000_000) by (nonlinear_arith)
                requires
                    (s as int) * (s as int) == m as int && m
                        < 5_000_000_000_000_000_000_000_000_000_000_000_000,
            ;
        }
        let si = s as i128;
        if d > 0 {
            proof {
                if s == 0 {
                    assert(m == 0);
                }
            }
            let x1 = round_div_exec(100 * (-sb - si), 2 * sa);
            let x2 = round_div_exec(100 * (-sb + si), 2 * sa);
            Some(Roots::Pair { x1, x2 })
        } else if d == 0 {
            let x = round_div_exec(100 * -sb, 2 * sa);
            Some(Roots::Double { x })
        } else {
            let re = round_div_exec(100 * -sb, 2 * sa);
            let da = 2 * sa;
            let da = if da < 0 {
                -da
            } else {
                da
            };
            let im = round_div_exec(100 * si, da);
            Some(Roots::Conjugate { re, im })
        }
    }
}

/// One coefficient times `10^smax`: the exact decimal turned into an integer.
fn scaled_coef(d: &Dec, smax: u32) -> (r: i128)
    requires
        d.wf(),
        d.scale <= smax <= 9,
    ensures
        r == d.num() * pow10((smax - d.scale) as nat),
        -1_000_000_000_000_000_000 < r < 1_000_000_000_000_000_000,
{
    let f = pow10_u64(smax - d.scale);
    proof {
        lemma_pow10_values();
        lemma_pow10_le((smax - d.scale) as nat, 9);
        assert(d.mant * f < 1_000_000_000_000_000_000) by (nonlinear_arith)
            requires
                d.mant < 1_000_000_000 && f <= 1_000_000_000,
        ;
        assert((-(d.mant as int)) * (f as int) == -((d.mant as int) * (f as int)))
            by (nonlinear_arith);
    }
    let m = (d.mant as i128) * (f as i128);
    if d.neg {
        -m
    } else {
        m
    }
}

} // verus!
