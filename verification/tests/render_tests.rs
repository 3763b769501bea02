use quadratic::equation::Roots;
use quadratic::num::Dec;
use quadratic::parse::parse_equation;

fn dec(neg: bool, mant: u64, scale: u32) -> Dec {
    Dec { neg, mant, scale }
}

#[test]
fn coefficients_render_with_two_decimals() {
    assert_eq!(dec(false, 15, 1).two_dec_text(), b"1.50".to_vec());
    assert_eq!(dec(true, 225, 2).two_dec_text(), b"-2.25".to_vec());
    assert_eq!(dec(false, 3, 0).two_dec_text(), b"3.00".to_vec());
    assert_eq!(dec(false, 0, 0).two_dec_text(), b"0.00".to_vec());
}

#[test]
fn rendering_rounds_to_nearest_hundredth() {
    // 0.001 rounds down, 0.005 rounds away from zero, 0.006 rounds up
    assert_eq!(dec(false, 1, 3).two_dec_text(), b"0.00".to_vec());
    assert_eq!(dec(false, 5, 3).two_dec_text(), b"0.01".to_vec());
    assert_eq!(dec(true, 6, 3).two_dec_text(), b"-0.01".to_vec());
}

#[test]
fn negative_zero_renders_unsigned() {
    assert_eq!(dec(true, 0, 0).two_dec_text(), b"0.00".to_vec());
    let eq = match parse_equation(b"-0x^2 + 1x + 1 = 0") {
        Ok(eq) => eq,
        Err(_) => panic!("expected a successful parse"),
    };
    assert_eq!(eq.render_line(), b"0.00x^2 + 1.00x + 1.00 = 0".to_vec());
}

#[test]
fn roots_render_as_display_lines() {
    assert_eq!(
        Roots::Pair { x1: 100, x2: 200 }.render_text(),
        "x1 ≈ 1.00\nx2 ≈ 2.00".as_bytes().to_vec()
    );
    assert_eq!(
        Roots::Double { x: -100 }.render_text(),
        "x ≈ -1.00".as_bytes().to_vec()
    );
    assert_eq!(
        Roots::Conjugate { re: 0, im: 100 }.render_text(),
        "x = 0.00 ± 1.00i".as_bytes().to_vec()
    );
    assert_eq!(
        Roots::Conjugate { re: -150, im: 25 }.render_text(),
        "x = -1.50 ± 0.25i".as_bytes().to_vec()
    );
}

#[test]
fn equation_renders_in_display_shape() {
    let eq = match parse_equation(b"x^2 - 3x + 2 = 0") {
        Ok(eq) => eq,
        Err(_) => panic!("expected a successful parse"),
    };
    assert_eq!(eq.render_line(), b"1.00x^2 - 3.00x + 2.00 = 0".to_vec());

    let eq = match parse_equation(b"-1,5x^2 + 0,25x - 12 = 0") {
        Ok(eq) => eq,
        Err(_) => panic!("expected a successful parse"),
    };
    assert_eq!(eq.render_line(), b"-1.50x^2 + 0.25x - 12.00 = 0".to_vec());
}
