use fraction_calc::calc::{calculation, EvalError};
use fraction_calc::eval::{evaluate_formula, find_high_op, fraction_calculation, reduce, reduce_at};
use fraction_calc::fraction::{fraction, Fraction, Item, Symbol};
use fraction_calc::num::{common_multiple, reduction};
use fraction_calc::parse::to_formula;

fn frac(n: i64, d: i64, sign: bool) -> Fraction {
    Fraction::new(n, d, sign)
}

#[test]
fn precedence_multiply_before_add() {
    // 1/2 + 1/2 × 1/2: the product is taken first, giving 3/4.
    let r = fraction_calculation("1/2 + 1/2 × 1/2");
    assert_eq!(r, Ok(frac(3, 4, true)));
}

#[test]
fn left_to_right_within_tier() {
    // (1 - 1/2) - 1/4 = 1/4, not 1 - (1/2 - 1/4).
    let r = fraction_calculation("1/1 - 1/2 - 1/4");
    assert_eq!(r, Ok(frac(1, 4, true)));
}

#[test]
fn scenario_mixed_precedence() {
    // 2/6 × 3/5 collapses to 6/30 first; 1/3 + 6/30 = 16/30; reduced 8/15.
    let product = calculation(Symbol::Times, frac(2, 6, true), frac(3, 5, true));
    assert_eq!(product, Ok(frac(6, 30, true)));
    let sum = calculation(Symbol::Plus, frac(1, 3, true), frac(6, 30, true));
    assert_eq!(sum, Ok(frac(16, 30, true)));
    assert_eq!(reduction(16, 30), 2);
    let r = fraction_calculation("1/3 + 2/6 × 3/5");
    assert_eq!(r, Ok(frac(8, 15, true)));
}

#[test]
fn scenario_signed_add_becomes_subtract() {
    // A negative left operand turns the addition into an effective
    // subtraction: -1/2 + 1/4 = -1/4.
    let r = fraction_calculation("-1/2 + 1/4");
    assert_eq!(r, Ok(frac(1, 4, false)));
}

#[test]
fn signed_subtract_of_negative() {
    // -1/2 - -1/4 = -1/4.
    let r = fraction_calculation("-1/2 - -1/4");
    assert_eq!(r, Ok(frac(1, 4, false)));
}

#[test]
fn double_negative_multiply_is_positive() {
    let r = fraction_calculation("-1/2 × -1/2");
    assert_eq!(r, Ok(frac(1, 4, true)));
}

#[test]
fn single_negative_multiply_is_negative() {
    let r = fraction_calculation("-1/2 × 1/2");
    assert_eq!(r, Ok(frac(1, 4, false)));
}

#[test]
fn divide_multiplies_by_reciprocal() {
    // 1/2 ÷ 3/4 = 4/6, reduced 2/3.
    let r = fraction_calculation("1/2 ÷ 3/4");
    assert_eq!(r, Ok(frac(2, 3, true)));
}

#[test]
fn divide_by_zero_fraction() {
    let r = fraction_calculation("1/2 ÷ 0/5");
    assert_eq!(r, Err(EvalError::DivisionByZero));
}

#[test]
fn overflow_is_reported() {
    let r = fraction_calculation("9223372036854775807/1 × 3/1");
    assert_eq!(r, Err(EvalError::Overflow));
}

#[test]
fn single_fraction_is_reduced() {
    let r = fraction_calculation("2/6");
    assert_eq!(r, Ok(frac(1, 3, true)));
}

#[test]
fn subtraction_to_zero() {
    // 1/2 - 1/2 = 0/2, reduced to 0/1.
    let r = fraction_calculation("1/2 - 1/2");
    assert_eq!(r, Ok(frac(0, 1, true)));
}

#[test]
fn subtract_uses_both_denominators() {
    // 1/2 - 1/3 = 3/6 - 2/6 = 1/6: the common multiple comes from both
    // denominators, not from the left one twice.
    let r = fraction_calculation("1/2 - 1/3");
    assert_eq!(r, Ok(frac(1, 6, true)));
}

#[test]
fn reduction_of_lowest_terms_is_one() {
    // An already-reduced fraction has greatest common divisor 1.
    assert_eq!(reduction(3, 4), 1);
    assert_eq!(reduction(8, 15), 1);
    assert_eq!(reduce(frac(3, 4, true)), frac(3, 4, true));
}

#[test]
fn reduction_finds_greatest_divisor() {
    assert_eq!(reduction(16, 30), 2);
    assert_eq!(reduction(12, 30), 6);
    assert_eq!(reduction(0, 7), 7);
    assert_eq!(reduction(1, 1), 1);
}

#[test]
fn common_multiple_least() {
    assert_eq!(common_multiple(4, 6), (3, 2, 12));
    assert_eq!(common_multiple(3, 30), (10, 1, 30));
    assert_eq!(common_multiple(1, 2), (2, 1, 2));
    assert_eq!(common_multiple(7, 7), (1, 1, 7));
}

#[test]
fn evaluate_formula_directly() {
    let formula = to_formula("1/2 + 1/2 × 1/2").unwrap();
    assert_eq!(evaluate_formula(formula), Ok(frac(3, 4, true)));
}

#[test]
fn find_high_op_position() {
    let formula = to_formula("1/2 + 1/2 × 1/2").unwrap();
    assert_eq!(find_high_op(&formula), Some(3));
    let formula2 = to_formula("1/2 + 1/2").unwrap();
    assert_eq!(find_high_op(&formula2), None);
}

#[test]
fn reduce_at_collapses_window() {
    // Each reduction step keeps the fraction/operator alternation.
    let mut formula = to_formula("1/2 + 1/2 × 1/2").unwrap();
    assert_eq!(reduce_at(&mut formula, 3), Ok(()));
    assert_eq!(
        formula,
        vec![
            fraction(1, 2, true),
            Item::Symbol(Symbol::Plus),
            fraction(1, 4, true),
        ]
    );
    assert!(fraction_calc::parse::check(&formula));
    assert_eq!(reduce_at(&mut formula, 1), Ok(()));
    assert_eq!(formula, vec![fraction(3, 4, true)]);
    assert!(fraction_calc::parse::check(&formula));
}

#[test]
fn item_accessors() {
    let it = fraction(2, 3, true);
    assert_eq!(it.fraction(), frac(2, 3, true));
    let op = Item::Symbol(Symbol::Divided);
    assert_eq!(op.symbol(), Symbol::Divided);
}

#[test]
fn fraction_new_stores_parts() {
    let f = Fraction::new(5, 9, false);
    assert_eq!(f.numerator, 5);
    assert_eq!(f.denominator, 9);
    assert!(!f.sign);
}
