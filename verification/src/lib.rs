//! Quadratic-equation toolkit: parses a textual equation
//! `ax^2 +/- bx +/- c = 0` into exact decimal coefficients, classifies the
//! roots by the sign of the discriminant, and computes the roots exactly
//! whenever they are rational.
//!
//! A zero leading coefficient is accepted, not rejected: classification
//! still answers from the discriminant, while the exact-roots query returns
//! `None` (the quadratic formula would divide by zero) and the display layer
//! is left to show whatever its floating-point evaluation gives.
//!
//! Coefficients are written in plain decimal notation, up to nine
//! significant digits and nine fractional digits — the precision the exact
//! arithmetic carries; see the parser module for the grammar.

pub mod equation;
pub mod num;
pub mod parse;
pub mod render;

use vstd::prelude::*;

verus! {

} // verus!
