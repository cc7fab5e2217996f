use xeqy::you_know_the_rules::arithmetic::{apply_operator, checked_power, divide_exactly};
use xeqy::you_know_the_rules::evaluator::evaluate_chars;
use xeqy::you_know_the_rules::{calculate, simexer, EvalError, Operator};

#[test]
fn precedence_and_basic_operators() {
    assert_eq!(simexer("2+3*4"), Ok(14));
    assert_eq!(simexer("2^3"), Ok(8));
    assert_eq!(simexer("-5+3"), Ok(-2));
    assert_eq!(simexer("6/3"), Ok(2));
    assert_eq!(simexer("7/3"), Err(EvalError::InexactDivision));
}

#[test]
fn subtraction_folds_left_to_right() {
    assert_eq!(simexer("2-3-4"), Ok(-5));
}

#[test]
fn single_value() {
    assert_eq!(simexer("42"), Ok(42));
    assert_eq!(simexer("0"), Ok(0));
    assert_eq!(simexer("-7"), Ok(-7));
    assert_eq!(simexer("007"), Ok(7));
}

#[test]
fn boundary_inputs() {
    assert_eq!(simexer(""), Err(EvalError::InvalidLeadingToken));
    assert_eq!(simexer("+3"), Err(EvalError::InvalidLeadingToken));
    assert_eq!(simexer("3+"), Err(EvalError::InvalidNumber));
}

#[test]
fn leading_token_must_be_digit_or_minus() {
    assert_eq!(simexer("*3"), Err(EvalError::InvalidLeadingToken));
    assert_eq!(simexer("a"), Err(EvalError::InvalidLeadingToken));
    assert_eq!(simexer("   "), Err(EvalError::InvalidLeadingToken));
    assert_eq!(simexer("(2)"), Err(EvalError::InvalidLeadingToken));
}

#[test]
fn minus_without_value_is_invalid_number() {
    assert_eq!(simexer("-"), Err(EvalError::InvalidNumber));
    assert_eq!(simexer("-+3"), Err(EvalError::InvalidNumber));
    assert_eq!(simexer("--3"), Err(EvalError::InvalidNumber));
}

#[test]
fn dangling_operator_is_invalid_number_even_if_unknown() {
    assert_eq!(simexer("3$"), Err(EvalError::InvalidNumber));
    assert_eq!(simexer("3+4-"), Err(EvalError::InvalidNumber));
}

#[test]
fn unknown_operators() {
    assert_eq!(simexer("2$3"), Err(EvalError::UnknownOperator));
    assert_eq!(simexer("2**3"), Err(EvalError::UnknownOperator));
    assert_eq!(simexer("2*-3"), Err(EvalError::UnknownOperator));
    assert_eq!(simexer("2po3"), Err(EvalError::UnknownOperator));
    assert_eq!(simexer("2powr3"), Err(EvalError::UnknownOperator));
    assert_eq!(simexer("2POW3"), Err(EvalError::UnknownOperator));
}

#[test]
fn the_first_bad_token_decides() {
    assert_eq!(simexer("2$3+"), Err(EvalError::UnknownOperator));
    assert_eq!(simexer("99999999999999999999$3"), Err(EvalError::InvalidNumber));
    assert_eq!(simexer("+99999999999999999999"), Err(EvalError::InvalidLeadingToken));
}

#[test]
fn pow_word_is_an_operator() {
    assert_eq!(simexer("2pow3"), Ok(8));
    assert_eq!(simexer("2 pow 10"), Ok(1024));
}

#[test]
fn blanks_are_ignored_anywhere() {
    assert_eq!(simexer(" 2 + 3 * 4 "), Ok(14));
    assert_eq!(simexer("1 2+3"), Ok(15));
    assert_eq!(simexer("\t2\n+\r3"), Ok(5));
    assert_eq!(simexer("2\u{a0}+\u{2003}3\u{3000}"), Ok(5));
    assert_eq!(simexer(" - 5"), Ok(-5));
    assert_eq!(simexer("2 p o w 3"), Ok(8));
}

#[test]
fn numbers_up_to_i64_max() {
    assert_eq!(simexer("9223372036854775807"), Ok(i64::MAX));
    assert_eq!(simexer("-9223372036854775807"), Ok(-i64::MAX));
    assert_eq!(simexer("9223372036854775808"), Err(EvalError::InvalidNumber));
    assert_eq!(simexer("-9223372036854775808"), Err(EvalError::InvalidNumber));
    assert_eq!(simexer("00000000000000000000000000005"), Ok(5));
}

#[test]
fn tiers_are_reduced_in_fixed_order() {
    // products before quotients
    assert_eq!(simexer("8/2*4"), Ok(1));
    assert_eq!(simexer("6/3*4"), Err(EvalError::InexactDivision));
    assert_eq!(simexer("2*6/3"), Ok(4));
    // sums before differences
    assert_eq!(simexer("10-2+3"), Ok(5));
    assert_eq!(simexer("1+2-3+4"), Ok(-4));
    // powers first, from the left
    assert_eq!(simexer("2^3^2"), Ok(64));
    assert_eq!(simexer("2*3^2"), Ok(18));
    assert_eq!(simexer("100/5/2"), Ok(10));
}

#[test]
fn leading_minus_negates_the_first_value_only() {
    assert_eq!(simexer("-2^2"), Ok(4));
    assert_eq!(simexer("-2^3"), Ok(-8));
    assert_eq!(simexer("-2*3"), Ok(-6));
    assert_eq!(simexer("-6/3"), Ok(-2));
    assert_eq!(simexer("-7/2"), Err(EvalError::InexactDivision));
    assert_eq!(simexer("-2^63"), Ok(i64::MIN));
}

#[test]
fn division_by_zero_is_inexact() {
    assert_eq!(simexer("5/0"), Err(EvalError::InexactDivision));
    assert_eq!(simexer("0/0"), Err(EvalError::InexactDivision));
    assert_eq!(simexer("0/5"), Ok(0));
}

#[test]
fn exponent_must_fit_u32() {
    assert_eq!(simexer("2^4294967296"), Err(EvalError::InvalidExponent));
    assert_eq!(simexer("1^4294967296"), Err(EvalError::InvalidExponent));
    assert_eq!(simexer("1^4294967295"), Ok(1));
    assert_eq!(simexer("-1^4294967295"), Ok(-1));
    assert_eq!(simexer("0^0"), Ok(1));
    assert_eq!(simexer("0^4294967295"), Ok(0));
    assert_eq!(calculate(vec![2, -1], vec![Operator::Pow]), Err(EvalError::InvalidExponent));
}

#[test]
fn results_outside_i64_overflow() {
    assert_eq!(simexer("9223372036854775807+1"), Err(EvalError::Overflow));
    assert_eq!(simexer("-9223372036854775807-2"), Err(EvalError::Overflow));
    assert_eq!(simexer("-9223372036854775807-1"), Ok(i64::MIN));
    assert_eq!(simexer("4294967296*4294967296"), Err(EvalError::Overflow));
    assert_eq!(simexer("2^63"), Err(EvalError::Overflow));
    assert_eq!(simexer("2^62"), Ok(1 << 62));
    assert_eq!(simexer("10^19"), Err(EvalError::Overflow));
    assert_eq!(simexer("3^4000000000"), Err(EvalError::Overflow));
}

#[test]
fn the_first_failing_operation_decides() {
    assert_eq!(simexer("2^64+7/2"), Err(EvalError::Overflow));
    assert_eq!(simexer("7/2+2^64"), Err(EvalError::Overflow));
    assert_eq!(simexer("7/2+9223372036854775807+1"), Err(EvalError::InexactDivision));
}

#[test]
fn calculate_on_token_streams() {
    assert_eq!(calculate(vec![2, 3, 4], vec![Operator::Add, Operator::Mul]), Ok(14));
    assert_eq!(calculate(vec![5], vec![]), Ok(5));
    assert_eq!(calculate(vec![7, -7], vec![Operator::Div]), Ok(-1));
    assert_eq!(calculate(vec![i64::MIN, -1], vec![Operator::Div]), Err(EvalError::Overflow));
    assert_eq!(calculate(vec![i64::MIN, -1], vec![Operator::Mul]), Err(EvalError::Overflow));
    assert_eq!(calculate(vec![-8, -2], vec![Operator::Div]), Ok(4));
    assert_eq!(calculate(vec![8, -3], vec![Operator::Div]), Err(EvalError::InexactDivision));
    assert_eq!(calculate(vec![-2, 63], vec![Operator::Pow]), Ok(i64::MIN));
    assert_eq!(calculate(vec![-2, 64], vec![Operator::Pow]), Err(EvalError::Overflow));
}

#[test]
fn calculate_rejects_streams_out_of_step() {
    assert_eq!(calculate(vec![1, 2], vec![]), Err(EvalError::ArityMismatch));
    assert_eq!(calculate(vec![], vec![]), Err(EvalError::ArityMismatch));
    assert_eq!(calculate(vec![1], vec![Operator::Add]), Err(EvalError::ArityMismatch));
    assert_eq!(
        calculate(vec![1, 2], vec![Operator::Add, Operator::Add]),
        Err(EvalError::ArityMismatch)
    );
}

#[test]
fn evaluation_is_repeatable() {
    for text in ["2+3*4", "7/3", "", "3+", "-2^63", "1 2 + 3", "2^64"] {
        let first = simexer(text);
        let second = simexer(text);
        assert_eq!(first, second);
    }
}

#[test]
fn evaluate_chars_agrees_with_simexer() {
    for text in ["2+3*4", "7/3", "", " 6 / 3 ", "2pow5"] {
        let chars: Vec<char> = text.chars().collect();
        assert_eq!(evaluate_chars(&chars), simexer(text));
    }
}

#[test]
fn checked_power_agrees_with_std() {
    for base in -12i64..=12 {
        for exponent in 0u32..=70 {
            assert_eq!(checked_power(base, exponent), base.checked_pow(exponent));
        }
    }
    for base in [i64::MIN, i64::MAX, 3037000499, 3037000500, -3037000500, 2097151, 2097152] {
        for exponent in 0u32..=4 {
            assert_eq!(checked_power(base, exponent), base.checked_pow(exponent));
        }
    }
    assert_eq!(checked_power(1, u32::MAX), Some(1));
    assert_eq!(checked_power(-1, u32::MAX), Some(-1));
    assert_eq!(checked_power(-1, u32::MAX - 1), Some(1));
    assert_eq!(checked_power(0, u32::MAX), Some(0));
    assert_eq!(checked_power(2, u32::MAX), None);
}

#[test]
fn divide_exactly_on_signs_and_limits() {
    assert_eq!(divide_exactly(12, 4), Ok(3));
    assert_eq!(divide_exactly(-12, 4), Ok(-3));
    assert_eq!(divide_exactly(12, -4), Ok(-3));
    assert_eq!(divide_exactly(-12, -4), Ok(3));
    assert_eq!(divide_exactly(13, 4), Err(EvalError::InexactDivision));
    assert_eq!(divide_exactly(-13, 4), Err(EvalError::InexactDivision));
    assert_eq!(divide_exactly(13, -4), Err(EvalError::InexactDivision));
    assert_eq!(divide_exactly(1, 0), Err(EvalError::InexactDivision));
    assert_eq!(divide_exactly(i64::MIN, -1), Err(EvalError::Overflow));
    assert_eq!(divide_exactly(i64::MIN, 1), Ok(i64::MIN));
    assert_eq!(divide_exactly(i64::MIN, 2), Ok(i64::MIN / 2));
    assert_eq!(divide_exactly(i64::MAX, -1), Ok(-i64::MAX));
    assert_eq!(divide_exactly(0, -9), Ok(0));
}

#[test]
fn apply_operator_each_kind() {
    assert_eq!(apply_operator(Operator::Pow, 3, 4), Ok(81));
    assert_eq!(apply_operator(Operator::Mul, 3, -4), Ok(-12));
    assert_eq!(apply_operator(Operator::Div, 12, 4), Ok(3));
    assert_eq!(apply_operator(Operator::Add, 3, 4), Ok(7));
    assert_eq!(apply_operator(Operator::Sub, 3, 4), Ok(-1));
    assert_eq!(apply_operator(Operator::Pow, 3, -4), Err(EvalError::InvalidExponent));
    assert_eq!(apply_operator(Operator::Add, i64::MAX, 1), Err(EvalError::Overflow));
    assert_eq!(apply_operator(Operator::Sub, i64::MIN, 1), Err(EvalError::Overflow));
}
