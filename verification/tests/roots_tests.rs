use quadratic::equation::{Equation, Roots};
use quadratic::num::Dec;
use quadratic::parse::parse_equation;

fn solve(line: &[u8]) -> (i32, Option<Roots>) {
    let eq = match parse_equation(line) {
        Ok(eq) => eq,
        Err(_) => panic!("expected a successful parse"),
    };
    (eq.number_of_roots(), eq.roots_hundredths())
}

#[test]
fn two_distinct_real_roots_in_ascending_order() {
    // x^2 - 3x + 2 = 0: roots 1.00 and 2.00, smaller first
    let (n, r) = solve(b"x^2 - 3x + 2 = 0");
    assert_eq!(n, 2);
    assert_eq!(r, Some(Roots::Pair { x1: 100, x2: 200 }));
}

#[test]
fn double_root() {
    // x^2 + 2x + 1 = 0: the single root -1.00
    let (n, r) = solve(b"x^2 + 2x + 1 = 0");
    assert_eq!(n, 1);
    assert_eq!(r, Some(Roots::Double { x: -100 }));
}

#[test]
fn complex_conjugate_pair() {
    // x^2 + 1 = 0: the pair 0.00 +/- 1.00i
    let (n, r) = solve(b"x^2 + 1 = 0");
    assert_eq!(n, -1);
    assert_eq!(r, Some(Roots::Conjugate { re: 0, im: 100 }));
}

#[test]
fn decimal_coefficients_solve_exactly() {
    // 0.5x^2 - 0.5 = 0: roots -1.00 and 1.00
    let (n, r) = solve(b"0.5x^2 - 0.5 = 0");
    assert_eq!(n, 2);
    assert_eq!(r, Some(Roots::Pair { x1: -100, x2: 100 }));
}

#[test]
fn negative_leading_coefficient_keeps_formula_order() {
    // -x^2 + 3x - 2 = 0: the formula yields (-b - sqrt(d))/2a = 2 first
    let (n, r) = solve(b"-x^2 + 3x - 2 = 0");
    assert_eq!(n, 2);
    assert_eq!(r, Some(Roots::Pair { x1: 200, x2: 100 }));
}

#[test]
fn irrational_roots_are_classified_but_not_enumerated() {
    // x^2 - 2 = 0: two real roots, but sqrt(8) is irrational
    let (n, r) = solve(b"x^2 - 2 = 0");
    assert_eq!(n, 2);
    assert_eq!(r, None);
}

#[test]
fn zero_leading_coefficient_has_no_exact_roots() {
    // 0x^2 + 2x + 1 = 0: the quadratic formula divides by zero
    let (n, r) = solve(b"0x^2 + 2x + 1 = 0");
    assert_eq!(n, 2);
    assert_eq!(r, None);
}

#[test]
fn fractional_double_root_rounds_to_hundredths() {
    // 4x^2 + 4x + 1 = 0: double root -0.50
    let (n, r) = solve(b"4x^2 + 4x + 1 = 0");
    assert_eq!(n, 1);
    assert_eq!(r, Some(Roots::Double { x: -50 }));
}

#[test]
fn imaginary_part_is_a_magnitude_even_for_negative_a() {
    // -x^2 - 1 = 0: the pair 0.00 +/- 1.00i; the imaginary part carries no
    // sign of a
    let (n, r) = solve(b"-x^2 - 1 = 0");
    assert_eq!(n, -1);
    assert_eq!(r, Some(Roots::Conjugate { re: 0, im: 100 }));
}

#[test]
fn conjugate_with_negative_real_part() {
    // x^2 + 2x + 2 = 0: pair -1.00 +/- 1.00i
    let (n, r) = solve(b"x^2 + 2x + 2 = 0");
    assert_eq!(n, -1);
    assert_eq!(r, Some(Roots::Conjugate { re: -100, im: 100 }));
}

#[test]
fn discriminant_uses_exact_arithmetic() {
    // 0.1x^2 + 0.2x + 0.1 = 0 has discriminant exactly zero; binary floats
    // would miss it
    let (n, r) = solve(b"0.1x^2 + 0.2x + 0.1 = 0");
    assert_eq!(n, 1);
    assert_eq!(r, Some(Roots::Double { x: -100 }));
}

#[test]
fn coefficient_equality_is_by_parts() {
    let eq = match parse_equation(b"x^2 - 3x + 2 = 0") {
        Ok(eq) => eq,
        Err(_) => panic!("expected a successful parse"),
    };
    assert_eq!(
        eq,
        Equation {
            a: Dec { neg: false, mant: 1, scale: 0 },
            b: Dec { neg: true, mant: 3, scale: 0 },
            c: Dec { neg: false, mant: 2, scale: 0 },
        }
    );
}
