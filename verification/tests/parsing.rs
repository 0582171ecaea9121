use fraction_calc::calc::EvalError;
use fraction_calc::eval::fraction_calculation;
use fraction_calc::fraction::{fraction, Fraction, Item, Symbol};
use fraction_calc::parse::{check, parse_piece, to_formula};
use fraction_calc::render::{render_fraction, render_item};

fn chars(s: &str) -> Vec<char> {
    s.chars().collect()
}

#[test]
fn tokenizes_fractions_and_operators() {
    let formula = to_formula("1/3 + 2/6 × 3/5").unwrap();
    assert_eq!(
        formula,
        vec![
            fraction(1, 3, true),
            Item::Symbol(Symbol::Plus),
            fraction(2, 6, true),
            Item::Symbol(Symbol::Times),
            fraction(3, 5, true),
        ]
    );
}

#[test]
fn parses_operator_pieces() {
    assert_eq!(parse_piece(&chars("+")), Some(Item::Symbol(Symbol::Plus)));
    assert_eq!(parse_piece(&chars("-")), Some(Item::Symbol(Symbol::Minus)));
    assert_eq!(parse_piece(&chars("×")), Some(Item::Symbol(Symbol::Times)));
    assert_eq!(parse_piece(&chars("÷")), Some(Item::Symbol(Symbol::Divided)));
}

#[test]
fn sign_normalization() {
    // Two negative halves make a positive fraction; exactly one makes a
    // negative one; the denominator is never stored negative.
    assert_eq!(parse_piece(&chars("-1/-2")), Some(fraction(1, 2, true)));
    assert_eq!(parse_piece(&chars("-1/2")), Some(fraction(1, 2, false)));
    assert_eq!(parse_piece(&chars("1/-2")), Some(fraction(1, 2, false)));
    assert_eq!(parse_piece(&chars("1/2")), Some(fraction(1, 2, true)));
}

#[test]
fn negative_zero_numerator_is_positive() {
    // "-0" has value zero, so it does not make the fraction negative.
    assert_eq!(parse_piece(&chars("-0/2")), Some(fraction(0, 2, true)));
}

#[test]
fn leading_zeros_are_accepted() {
    assert_eq!(parse_piece(&chars("007/2")), Some(fraction(7, 2, true)));
}

#[test]
fn malformed_pieces_are_rejected() {
    assert_eq!(parse_piece(&chars("")), None);
    assert_eq!(parse_piece(&chars("1/x")), None);
    assert_eq!(parse_piece(&chars("x/2")), None);
    assert_eq!(parse_piece(&chars("1")), None);
    assert_eq!(parse_piece(&chars("1/")), None);
    assert_eq!(parse_piece(&chars("/2")), None);
    assert_eq!(parse_piece(&chars("1/2/3")), None);
    assert_eq!(parse_piece(&chars("1/0")), None);
    assert_eq!(parse_piece(&chars("--1/2")), None);
    // Magnitudes beyond i64::MAX are not representable.
    assert_eq!(parse_piece(&chars("9223372036854775808/1")), None);
    assert_eq!(parse_piece(&chars("-9223372036854775808/1")), None);
    assert_eq!(parse_piece(&chars("9223372036854775807/1")), Some(fraction(9223372036854775807, 1, true)));
}

#[test]
fn parse_error_for_malformed_input() {
    assert_eq!(fraction_calculation("1/x + 2/3"), Err(EvalError::ParseError));
    assert_eq!(fraction_calculation("abc"), Err(EvalError::ParseError));
    assert_eq!(fraction_calculation(""), Err(EvalError::ParseError));
    assert_eq!(fraction_calculation("1/0"), Err(EvalError::ParseError));
    assert_eq!(fraction_calculation("1/2  + 2/3"), Err(EvalError::ParseError));
}

#[test]
fn validation_rejects_even_length() {
    assert_eq!(fraction_calculation("1/2 +"), Err(EvalError::ValidationError));
    assert_eq!(to_formula("1/2 +"), Err(EvalError::ValidationError));
}

#[test]
fn validation_rejects_adjacent_fractions() {
    assert_eq!(fraction_calculation("1/2 2/3 4/5"), Err(EvalError::ValidationError));
}

#[test]
fn validation_rejects_adjacent_operators() {
    assert_eq!(fraction_calculation("1/2 + +"), Err(EvalError::ValidationError));
}

#[test]
fn check_accepts_alternating_sequences() {
    let ok = vec![
        fraction(1, 2, true),
        Item::Symbol(Symbol::Plus),
        fraction(2, 3, true),
    ];
    assert!(check(&ok));
    let single = vec![fraction(1, 2, true)];
    assert!(check(&single));
    let even = vec![fraction(1, 2, true), Item::Symbol(Symbol::Plus)];
    assert!(!check(&even));
    let adjacent = vec![
        fraction(1, 2, true),
        fraction(2, 3, true),
        Item::Symbol(Symbol::Plus),
    ];
    assert!(!check(&adjacent));
    let operator_first = vec![
        Item::Symbol(Symbol::Plus),
        fraction(1, 2, true),
        fraction(2, 3, true),
    ];
    assert!(!check(&operator_first));
}

#[test]
fn round_trip_parse_then_render() {
    // Parsing "N/D" and rendering the fraction reproduces "N/D".
    let piece = parse_piece(&chars("22/7")).unwrap();
    let f = match piece {
        Item::Fraction(f) => f,
        Item::Symbol(_) => panic!("expected a fraction"),
    };
    assert_eq!(render_fraction(&f), "22/7");
    let piece2 = parse_piece(&chars("0/1")).unwrap();
    let f2 = match piece2 {
        Item::Fraction(f) => f,
        Item::Symbol(_) => panic!("expected a fraction"),
    };
    assert_eq!(render_fraction(&f2), "0/1");
}

#[test]
fn render_items() {
    assert_eq!(render_item(&fraction(16, 30, true)), "16/30");
    assert_eq!(render_item(&Item::Symbol(Symbol::Plus)), "+");
    assert_eq!(render_item(&Item::Symbol(Symbol::Minus)), "-");
    assert_eq!(render_item(&Item::Symbol(Symbol::Times)), "×");
    assert_eq!(render_item(&Item::Symbol(Symbol::Divided)), "÷");
}

#[test]
fn render_multi_digit_values() {
    assert_eq!(render_fraction(&Fraction::new(9223372036854775807, 10, true)), "9223372036854775807/10");
}
