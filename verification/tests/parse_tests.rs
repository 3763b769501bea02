use quadratic::equation::Equation;
use quadratic::num::Dec;
use quadratic::parse::{parse_equation, Coef, ParseError};

fn dec(neg: bool, mant: u64, scale: u32) -> Dec {
    Dec { neg, mant, scale }
}

fn ok(line: &[u8]) -> Equation {
    match parse_equation(line) {
        Ok(eq) => eq,
        Err(_) => panic!("expected a successful parse"),
    }
}

fn err(line: &[u8]) -> ParseError {
    match parse_equation(line) {
        Ok(_) => panic!("expected a parse error"),
        Err(e) => e,
    }
}

#[test]
fn parses_full_quadratic_with_sign_folding() {
    let eq = ok(b"2x^2 - 3x + 4 = 0");
    assert_eq!(eq.a, dec(false, 2, 0));
    assert_eq!(eq.b, dec(true, 3, 0));
    assert_eq!(eq.c, dec(false, 4, 0));
}

#[test]
fn parses_unit_and_negated_unit_leading_coefficient() {
    let eq = ok(b"x^2 + 2x + 1 = 0");
    assert_eq!(eq.a, dec(false, 1, 0));
    let eq = ok(b"-x^2 + 2x + 1 = 0");
    assert_eq!(eq.a, dec(true, 1, 0));
}

#[test]
fn parses_decimal_coefficients() {
    let eq = ok(b"1.5x^2 + 0.5x - 2.25 = 0");
    assert_eq!(eq.a, dec(false, 15, 1));
    assert_eq!(eq.b, dec(false, 5, 1));
    assert_eq!(eq.c, dec(true, 225, 2));
}

#[test]
fn five_token_linear_term_defaults_c_to_zero() {
    let eq = ok(b"x^2 + 2x = 0");
    assert_eq!(eq.a, dec(false, 1, 0));
    assert_eq!(eq.b, dec(false, 2, 0));
    assert_eq!(eq.c, dec(false, 0, 0));
}

#[test]
fn five_token_constant_term_defaults_b_to_zero() {
    let eq = ok(b"x^2 - 4 = 0");
    assert_eq!(eq.a, dec(false, 1, 0));
    assert_eq!(eq.b, dec(false, 0, 0));
    assert_eq!(eq.c, dec(true, 4, 0));
}

#[test]
fn sign_token_folds_with_signed_value() {
    // a `-` sign token before a value that itself starts with `-` gives a
    // positive coefficient
    let eq = ok(b"x^2 - -3x + 2 = 0");
    assert_eq!(eq.b, dec(false, 3, 0));
    let eq = ok(b"x^2 + -3x + 2 = 0");
    assert_eq!(eq.b, dec(true, 3, 0));
}

#[test]
fn comma_separator_parses_like_period() {
    let with_commas = parse_equation(b"1,5x^2 + 0,5x - 2,25 = 0");
    let with_periods = parse_equation(b"1.5x^2 + 0.5x - 2.25 = 0");
    assert_eq!(with_commas, with_periods);
    let eq = match with_commas {
        Ok(eq) => eq,
        Err(_) => panic!("expected a successful parse"),
    };
    assert_eq!(eq.a, dec(false, 15, 1));
}

#[test]
fn wrong_token_count_is_reported() {
    assert_eq!(err(b"x^2 + 1"), ParseError::WrongTokenCount);
    assert_eq!(err(b"hello"), ParseError::WrongTokenCount);
    assert_eq!(err(b""), ParseError::WrongTokenCount);
    assert_eq!(err(b"x^2 + 2x + 1 = 0 extra"), ParseError::WrongTokenCount);
}

#[test]
fn missing_quadratic_marker_is_reported() {
    assert_eq!(err(b"2y + 3x + 1 = 0"), ParseError::MissingQuadraticMarker);
    assert_eq!(err(b"2 + 3x + 1 = 0"), ParseError::MissingQuadraticMarker);
}

#[test]
fn invalid_coefficients_name_the_coefficient() {
    assert_eq!(
        err(b"qx^2 + 3x + 1 = 0"),
        ParseError::InvalidCoefficient(Coef::A)
    );
    // an `x` term with no digits before the `x` is not a number
    assert_eq!(
        err(b"x^2 + x + 1 = 0"),
        ParseError::InvalidCoefficient(Coef::B)
    );
    assert_eq!(
        err(b"x^2 + 2x + z = 0"),
        ParseError::InvalidCoefficient(Coef::C)
    );
}

#[test]
fn missing_linear_marker_is_reported() {
    assert_eq!(err(b"x^2 + 3 + 1 = 0"), ParseError::MissingLinearMarker);
}

#[test]
fn five_token_invalid_terms_name_the_coefficient() {
    // "zx" holds an x, so it is read as the b term, with nothing numeric
    // before the x
    assert_eq!(err(b"x^2 + zx = 0"), ParseError::InvalidCoefficient(Coef::B));
    // "z" holds no x, so it is read as the c term
    assert_eq!(err(b"x^2 + z = 0"), ParseError::InvalidCoefficient(Coef::C));
}

#[test]
fn too_many_digits_or_too_fine_a_scale_is_invalid() {
    assert_eq!(
        err(b"1234567890x^2 + 2x + 1 = 0"),
        ParseError::InvalidCoefficient(Coef::A)
    );
    assert_eq!(
        err(b"0.0000000001x^2 + 2x + 1 = 0"),
        ParseError::InvalidCoefficient(Coef::A)
    );
    // nine digits still fit
    let eq = ok(b"999999999x^2 + 2x + 1 = 0");
    assert_eq!(eq.a, dec(false, 999_999_999, 0));
}

#[test]
fn malformed_numbers_are_invalid() {
    assert_eq!(
        err(b"1.2.3x^2 + 2x + 1 = 0"),
        ParseError::InvalidCoefficient(Coef::A)
    );
    assert_eq!(
        err(b".x^2 + 2x + 1 = 0"),
        ParseError::InvalidCoefficient(Coef::A)
    );
    assert_eq!(
        err(b"x^2 + 2x + 1.2.3 = 0"),
        ParseError::InvalidCoefficient(Coef::C)
    );
}

#[test]
fn bare_point_forms_parse() {
    let eq = ok(b".5x^2 + 2.x + 1 = 0");
    assert_eq!(eq.a, dec(false, 5, 1));
    assert_eq!(eq.b, dec(false, 2, 0));
}
