use calc::domain::{CalculationResult, Expression};
use calc::infrastructure::{calculate_with_bigint, has_decimal_operation, EvalError};
use calc::numfmt::Decimal;
use calc::presentation::calculate_result;

fn dec(neg: bool, int_part: &str, frac_part: &str) -> Decimal {
    Decimal {
        neg,
        int_part: int_part.chars().collect(),
        frac_part: frac_part.chars().collect(),
    }
}

#[test]
fn normalize_multiplication_glyph() {
    let e = Expression::new("6 \u{d7} 7".to_string());
    assert_eq!(e.normalize(), "6 * 7");
}

#[test]
fn normalize_division_glyph() {
    let e = Expression::new("6\u{f7}7".to_string());
    assert_eq!(e.normalize(), "6/7");
}

#[test]
fn normalize_percent_after_number() {
    let e = Expression::new("100 * 50%".to_string());
    assert_eq!(e.normalize(), "100 * (50/100)");
}

#[test]
fn normalize_percent_with_decimal_number() {
    let e = Expression::new("2.5%".to_string());
    assert_eq!(e.normalize(), "(2.5/100)");
}

#[test]
fn normalize_bare_percent_is_dropped() {
    let e = Expression::new("%".to_string());
    assert_eq!(e.normalize(), "");
}

#[test]
fn normalize_is_idempotent_on_examples() {
    for raw in ["6 \u{d7} 7", "100 * 50%", "1+2", "a%b%", "0.1 + 0.2"] {
        let once = Expression::new(raw.to_string()).normalize();
        let twice = Expression::new(once.clone()).normalize();
        assert_eq!(once, twice);
    }
}

#[test]
fn classifier_accepts_pure_addition() {
    assert!(Expression::new("1+2-3".to_string()).is_integer_operation());
}

#[test]
fn classifier_accepts_pure_multiplication() {
    assert!(Expression::new("2*3*4".to_string()).is_integer_operation());
}

#[test]
fn classifier_rejects_mixed_precedence() {
    assert!(!Expression::new("2+3*4".to_string()).is_integer_operation());
}

#[test]
fn classifier_rejects_decimals_and_division() {
    assert!(!Expression::new("0.5+1".to_string()).is_integer_operation());
    assert!(!Expression::new("6/7".to_string()).is_integer_operation());
    assert!(!Expression::new("2e3".to_string()).is_integer_operation());
}

#[test]
fn classifier_allows_leading_sign() {
    // a leading minus is a sign, not a binary operator
    assert!(Expression::new("-5*3".to_string()).is_integer_operation());
}

#[test]
fn divide_by_zero_literal_patterns() {
    assert!(Expression::new("5/0".to_string()).has_division_by_zero());
    assert!(Expression::new("5/".to_string()).has_division_by_zero());
    assert!(Expression::new("5/00".to_string()).has_division_by_zero());
    assert!(!Expression::new("5/0.5".to_string()).has_division_by_zero());
}

#[test]
fn divide_by_zero_evaluated_segment() {
    // the trailing segment 2-2 evaluates to zero
    assert!(Expression::new("5/2-2".to_string()).has_division_by_zero());
    assert!(!Expression::new("5/2-1".to_string()).has_division_by_zero());
}

#[test]
fn bigint_exact_large_product() {
    let r = calculate_result("99999999999999999999 * 99999999999999999999".to_string());
    assert_eq!(
        r,
        Ok("9999999999999999999800000000000000000001".to_string())
    );
}

#[test]
fn bigint_addition_chain() {
    assert_eq!(calculate_result("1+2-3".to_string()), Ok("0".to_string()));
}

#[test]
fn bigint_single_number_verbatim() {
    assert_eq!(calculate_with_bigint("007"), Ok("007".to_string()));
}

#[test]
fn bigint_malformed_sequences() {
    assert_eq!(calculate_with_bigint("5++3"), Err(EvalError::Malformed));
    assert_eq!(calculate_with_bigint("5+"), Err(EvalError::Malformed));
    assert_eq!(calculate_with_bigint(""), Err(EvalError::Malformed));
    assert_eq!(calculate_with_bigint("+"), Err(EvalError::Malformed));
}

#[test]
fn bigint_division_outcomes() {
    assert_eq!(calculate_with_bigint("5/0"), Err(EvalError::DivideByZero));
    assert_eq!(calculate_with_bigint("5/2"), Err(EvalError::Unsupported));
}

#[test]
fn bigint_whitespace_joins_digit_runs() {
    // whitespace is skipped without closing the digit run
    assert_eq!(calculate_with_bigint("12 34"), Ok("1234".to_string()));
}

#[test]
fn precision_correction_tenth_sum() {
    assert_eq!(calculate_result("0.1 + 0.2".to_string()), Ok("0.3".to_string()));
}

#[test]
fn whole_number_snapping() {
    assert_eq!(
        calculate_result("4.0000000000003".to_string()),
        Ok("4".to_string())
    );
}

#[test]
fn localized_glyphs_evaluate() {
    assert_eq!(calculate_result("6 \u{d7} 7".to_string()), Ok("42".to_string()));
    assert_eq!(
        calculate_result("6\u{f7}7".to_string()),
        Ok("0.857142857143".to_string())
    );
}

#[test]
fn thirds_round_to_twelve_places() {
    assert_eq!(calculate_result("1/3".to_string()), Ok("0.333333333333".to_string()));
    assert_eq!(calculate_result("2/3".to_string()), Ok("0.666666666667".to_string()));
}

#[test]
fn mixed_precedence_uses_float_path() {
    assert_eq!(calculate_result("2+3*4".to_string()), Ok("14".to_string()));
}

#[test]
fn stray_letters_give_generic_error() {
    assert_eq!(calculate_result("5a+2".to_string()), Err("Error".to_string()));
}

#[test]
fn empty_input_gives_generic_error() {
    assert_eq!(calculate_result("".to_string()), Err("Error".to_string()));
}

#[test]
fn divide_by_zero_messages() {
    assert_eq!(
        calculate_result("5/0".to_string()),
        Err("Cannot divide by zero".to_string())
    );
    assert_eq!(
        calculate_result("5/".to_string()),
        Err("Cannot divide by zero".to_string())
    );
    assert_eq!(
        calculate_result("5/00".to_string()),
        Err("Cannot divide by zero".to_string())
    );
    assert_eq!(calculate_result("5/0.5".to_string()), Ok("10".to_string()));
}

#[test]
fn parenthesized_zero_divisor_caught_after_evaluation() {
    assert_eq!(
        calculate_result("5/(2-2)".to_string()),
        Err("Cannot divide by zero".to_string())
    );
}

#[test]
fn percent_evaluates_end_to_end() {
    assert_eq!(calculate_result("100 * 50%".to_string()), Ok("50".to_string()));
}

#[test]
fn float_path_exercises_evaluator() {
    // fails if the evaluator wrapper handed its input back unchanged
    assert_eq!(calculate_result("2.5+2.5".to_string()), Ok("5".to_string()));
}

#[test]
fn display_strips_float_noise() {
    let r = CalculationResult::Float(dec(false, "0", "30000000000000004"));
    assert_eq!(r.display_string(), "0.3");
}

#[test]
fn display_bigint_verbatim() {
    let r = CalculationResult::BigInt("123456".to_string());
    assert_eq!(r.display_string(), "123456");
}

#[test]
fn display_negative_near_whole() {
    let r = CalculationResult::Float(dec(true, "3", "9999999999997"));
    assert_eq!(r.display_string(), "-4");
}

#[test]
fn display_keeps_simple_fraction() {
    let r = CalculationResult::Float(dec(false, "2", "5"));
    assert_eq!(r.display_string(), "2.5");
}

#[test]
fn has_decimal_operation_detects_dot() {
    assert!(has_decimal_operation("0.1+2"));
    assert!(!has_decimal_operation("1+2"));
}

#[test]
fn negative_results_format() {
    assert_eq!(calculate_result("-5+3".to_string()), Ok("-2".to_string()));
}

#[test]
fn undefined_division_gives_divide_by_zero_message() {
    // the evaluator answers with a non-finite value here
    assert_eq!(
        calculate_result("0.0/0.0".to_string()),
        Err("Cannot divide by zero".to_string())
    );
}

#[test]
fn overflow_to_infinity_gives_divide_by_zero_message() {
    // the evaluator encodes overflow as a non-finite value
    assert_eq!(
        calculate_result("9e307 * 10".to_string()),
        Err("Cannot divide by zero".to_string())
    );
}
