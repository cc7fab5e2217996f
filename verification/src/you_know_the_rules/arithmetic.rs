//! The five operators and what each does to two values.

use vstd::arithmetic::power::{lemma0_pow, lemma1_pow, lemma_pow0, pow};
use vstd::prelude::*;

verus! {

/// The operators of an expression, in the order in which they are reduced.
#[derive(Clone, Copy, Debug, PartialEq, Eq, Structural)]
pub enum Operator {
    Pow,
    Mul,
    Div,
    Add,
    Sub,
}

/// Why an expression has no value.
#[derive(Clone, Copy, Debug, PartialEq, Eq, Structural)]
pub enum EvalError {
    /// The expression is empty, or begins with neither a digit nor `-`.
    InvalidLeadingToken,
    /// A value is missing where one is due, or is above `i64::MAX`.
    InvalidNumber,
    /// The text between two values is none of `+ - * / ^ pow`.
    UnknownOperator,
    /// The values are not one more than the operators.
    ArityMismatch,
    /// A division leaves a remainder, or divides by zero.
    InexactDivision,
    /// An exponent is negative or above `u32::MAX`.
    InvalidExponent,
    /// A result is outside the range of `i64`.
    Overflow,
}

/// Whether `v` is a value that an expression can hold.
pub open spec fn fits(v: int) -> bool {
    i64::MIN <= v <= i64::MAX
}

/// `v`, where it fits.
pub open spec fn fitting(v: int) -> Result<int, EvalError> {
    if fits(v) {
        Ok(v)
    } else {
        Err(EvalError::Overflow)
    }
}

/// What `op` makes of `left` and `right`.
pub open spec fn apply(op: Operator, left: int, right: int) -> Result<int, EvalError> {
    match op {
        Operator::Pow => if right < 0 || right > u32::MAX {
            Err(EvalError::InvalidExponent)
        } else {
            fitting(pow(left, right as nat))
        },
        Operator::Mul => fitting(left * right),
        Operator::Div => if right == 0 || left % right != 0 {
            Err(EvalError::InexactDivision)
        } else {
            fitting(left / right)
        },
        Operator::Add => fitting(left + right),
        Operator::Sub => fitting(left - right),
    }
}

/// A result of the library, read as one over the integers.
pub open spec fn widen(r: Result<i64, EvalError>) -> Result<int, EvalError> {
    match r {
        Ok(v) => Ok(v as int),
        Err(e) => Err(e),
    }
}

/// A product of `divisor` is divided by it without remainder, and the
/// quotient is the other factor.
pub proof fn lemma_multiple_divides(dividend: int, divisor: int, quotient: int)
    requires
        divisor != 0,
        dividend == quotient * divisor,
    ensures
        dividend % divisor == 0,
        dividend / divisor == quotient,
{
    assert(dividend % divisor == 0 && dividend / divisor == quotient) by (nonlinear_arith)
        requires
            divisor != 0,
            dividend == quotient * divisor,
    ;
}

/// What is divided without remainder is the product of quotient and divisor.
pub proof fn lemma_exact_is_multiple(dividend: int, divisor: int)
    requires
        divisor != 0,
        dividend % divisor == 0,
    ensures
        dividend == (dividend / divisor) * divisor,
{
    assert(dividend == (dividend / divisor) * divisor) by (nonlinear_arith)
        requires
            divisor != 0,
            dividend % divisor == 0,
    ;
}

/// Whether a division is exact does not depend on the signs, and the exact
/// quotient changes sign with either operand.
pub proof fn lemma_exact_division_signs(dividend: int, divisor: int)
    requires
        divisor != 0,
    ensures
        (dividend % divisor == 0) == ((-dividend) % divisor == 0),
        (dividend % divisor == 0) == (dividend % (-divisor) == 0),
        dividend % divisor == 0 ==> (-dividend) / divisor == -(dividend / divisor),
        dividend % divisor == 0 ==> dividend / (-divisor) == -(dividend / divisor),
{
    if dividend % divisor == 0 {
        let q = dividend / divisor;
        lemma_exact_is_multiple(dividend, divisor);
        assert(-dividend == (-q) * divisor) by (nonlinear_arith)
            requires
                dividend == q * divisor,
        ;
        lemma_multiple_divides(-dividend, divisor, -q);
        assert(dividend == (-q) * (-divisor)) by (nonlinear_arith)
            requires
                dividend == q * divisor,
        ;
        lemma_multiple_divides(dividend, -divisor, -q);
    }
    if (-dividend) % divisor == 0 {
        let q = (-dividend) / divisor;
        lemma_exact_is_multiple(-dividend, divisor);
        assert(dividend == (-q) * divisor) by (nonlinear_arith)
            requires
                -dividend == q * divisor,
        ;
        lemma_multiple_divides(dividend, divisor, -q);
    }
    if dividend % (-divisor) == 0 {
        let q = dividend / (-divisor);
        lemma_exact_is_multiple(dividend, -divisor);
        assert(dividend == (-q) * divisor) by (nonlinear_arith)
            requires
                dividend == q * (-divisor),
        ;
        lemma_multiple_divides(dividend, divisor, -q);
    }
}

/// The quotient of `left` by `right`, where the division is exact.
pub fn divide_exactly(left: i64, right: i64) -> (r: Result<i64, EvalError>)
    ensures
        widen(r) == apply(Operator::Div, left as int, right as int),
{
    if right == 0 {
        return Err(EvalError::InexactDivision);
    }
    proof {
        lemma_exact_division_signs(left as int, right as int);
        lemma_exact_division_signs(-(left as int), right as int);
        lemma_exact_division_signs(left as int, -(right as int));
    }
    if left == i64::MIN && right == -1 {
        proof {
            lemma_multiple_divides(left as int, right as int, -(left as int));
        }
        return Err(EvalError::Overflow);
    }
    match left.checked_rem(right) {
        Some(0) => match left.checked_div(right) {
            Some(quotient) => Ok(quotient),
            None => Err(EvalError::Overflow),
        },
        _ => Err(EvalError::InexactDivision),
    }
}

/// The magnitude of an integer.
pub open spec fn magnitude(v: int) -> int {
    if v < 0 {
        -v
    } else {
        v
    }
}

/// A power is its base times the power one lower.
pub proof fn lemma_pow_step(base: int, exponent: nat)
    ensures
        pow(base, exponent + 1) == base * pow(base, exponent),
{
    reveal(pow);
}

/// With a base of magnitude two or more, each higher power has at least twice
/// the magnitude of a lower one.
pub proof fn lemma_pow_doubles(base: int, low: nat, high: nat)
    requires
        magnitude(base) >= 2,
        low < high,
    ensures
        magnitude(pow(base, high)) >= 2 * magnitude(pow(base, low)),
    decreases high,
{
    let below = (high - 1) as nat;
    lemma_pow_step(base, below);
    let p = pow(base, below);
    assert(magnitude(base * p) >= 2 * magnitude(p)) by (nonlinear_arith)
        requires
            magnitude(base) >= 2,
    ;
    if below > low {
        lemma_pow_doubles(base, low, below);
    }
}

/// The powers of -1 are 1 and -1 in turn.
pub proof fn lemma_pow_minus_one(exponent: nat)
    ensures
        pow(-1, exponent) == if exponent % 2 == 0 {
            1int
        } else {
            -1int
        },
    decreases exponent,
{
    if exponent == 0 {
        lemma_pow0(-1);
    } else {
        lemma_pow_minus_one((exponent - 1) as nat);
        lemma_pow_step(-1, (exponent - 1) as nat);
    }
}

/// `base` to the power `exponent`, or `None` where that is outside `i64`.
pub fn checked_power(base: i64, exponent: u32) -> (power: Option<i64>)
    ensures
        match power {
            Some(v) => v == pow(base as int, exponent as nat),
            None => !fits(pow(base as int, exponent as nat)),
        },
{
    if exponent == 0 {
        proof {
            lemma_pow0(base as int);
        }
        return Some(1);
    }
    if base == 0 {
        proof {
            lemma0_pow(exponent as nat);
        }
        return Some(0);
    }
    if base == 1 {
        proof {
            lemma1_pow(exponent as nat);
        }
        return Some(1);
    }
    if base == -1 {
        proof {
            lemma_pow_minus_one(exponent as nat);
        }
        return if exponent % 2 == 0 {
            Some(1)
        } else {
            Some(-1)
        };
    }
    let mut power: i64 = 1;
    let mut done: u32 = 0;
    proof {
        lemma_pow0(base as int);
    }
    while done < exponent
        invariant
            done <= exponent,
            magnitude(base as int) >= 2,
            power == pow(base as int, done as nat),
        decreases exponent - done,
    {
        proof {
            lemma_pow_step(base as int, done as nat);
            if done + 1 < exponent {
                lemma_pow_doubles(base as int, (done + 1) as nat, exponent as nat);
            }
        }
        power = match power.checked_mul(base) {
            Some(next) => next,
            None => { return None; },
        };
        done += 1;
    }
    Some(power)
}

/// What `op` makes of `left` and `right`.
pub fn apply_operator(op: Operator, left: i64, right: i64) -> (r: Result<i64, EvalError>)
    ensures
        widen(r) == apply(op, left as int, right as int),
{
    match op {
        Operator::Pow => {
            if right < 0 || right > 0xffff_ffff {
                return Err(EvalError::InvalidExponent);
            }
            match checked_power(left, right as u32) {
                Some(v) => Ok(v),
                None => Err(EvalError::Overflow),
            }
        },
        Operator::Mul => match left.checked_mul(right) {
            Some(v) => Ok(v),
            None => Err(EvalError::Overflow),
        },
        Operator::Div => divide_exactly(left, right),
        Operator::Add => match left.checked_add(right) {
            Some(v) => Ok(v),
            None => Err(EvalError::Overflow),
        },
        Operator::Sub => match left.checked_sub(right) {
            Some(v) => Ok(v),
            None => Err(EvalError::Overflow),
        },
    }
}

} // verus!
