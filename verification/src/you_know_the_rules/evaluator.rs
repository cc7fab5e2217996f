//! Expressions without parentheses: from text to tokens, from tokens to a
//! value.

use super::arithmetic::{apply, apply_operator, widen, EvalError, Operator};
use super::text::{
    chars_of, is_digit, is_digit_char, lemma_decimal_value_nonnegative, number_of, parse_digits,
    strip_blanks, without_blanks,
};
use vstd::prelude::*;

verus! {

/// An expression as values with an operator between each two.
pub struct Tokens {
    pub values: Seq<int>,
    pub operators: Seq<Operator>,
}

/// How many characters at the start of `text` are digits (`digits` true) or
/// are not (`digits` false), up to the first of the other sort.
pub open spec fn leading_run(text: Seq<char>, digits: bool) -> nat
    decreases text.len(),
{
    if text.len() > 0 && is_digit(text[0]) == digits {
        1 + leading_run(text.skip(1), digits)
    } else {
        0
    }
}

/// The operator that a run of symbols names.
pub open spec fn operator_of(symbols: Seq<char>) -> Option<Operator> {
    if symbols == seq!['^'] || symbols == seq!['p', 'o', 'w'] {
        Some(Operator::Pow)
    } else if symbols == seq!['*'] {
        Some(Operator::Mul)
    } else if symbols == seq!['/'] {
        Some(Operator::Div)
    } else if symbols == seq!['+'] {
        Some(Operator::Add)
    } else if symbols == seq!['-'] {
        Some(Operator::Sub)
    } else {
        None
    }
}

/// `rest` with `values` and `operators` put before its own.
pub open spec fn prepend(
    values: Seq<int>,
    operators: Seq<Operator>,
    rest: Result<Tokens, EvalError>,
) -> Result<Tokens, EvalError> {
    match rest {
        Ok(t) => Ok(Tokens { values: values + t.values, operators: operators + t.operators }),
        Err(e) => Err(e),
    }
}

/// The tokens of a text without blanks that is due to start with a value: a
/// run of digits, then in turn a run of other characters that names an
/// operator and a run of digits. The first token that cannot be read decides
/// the error; a run of symbols at the very end is read as a value, and is
/// none.
pub open spec fn scan(text: Seq<char>) -> Result<Tokens, EvalError>
    decreases text.len(),
    via scan_decreases
{
    let n = leading_run(text, true) as int;
    match number_of(text.take(n)) {
        None => Err(EvalError::InvalidNumber),
        Some(value) => {
            let rest = text.skip(n);
            if rest.len() == 0 {
                Ok(Tokens { values: seq![value], operators: seq![] })
            } else {
                let m = leading_run(rest, false) as int;
                if m == rest.len() {
                    Err(EvalError::InvalidNumber)
                } else {
                    match operator_of(rest.take(m)) {
                        None => Err(EvalError::UnknownOperator),
                        Some(op) => prepend(seq![value], seq![op], scan(rest.skip(m))),
                    }
                }
            }
        },
    }
}

#[via_fn]
proof fn scan_decreases(text: Seq<char>) {
    let n = leading_run(text, true) as int;
    lemma_leading_run(text, true);
    let rest = text.skip(n);
    if rest.len() > 0 {
        lemma_leading_run(rest, false);
    }
}

/// A leading run lies within the text, holds one sort of character only, and
/// ends at the end of the text or before a character of the other sort.
pub proof fn lemma_leading_run(text: Seq<char>, digits: bool)
    ensures
        leading_run(text, digits) <= text.len(),
        forall|i: int|
            0 <= i < leading_run(text, digits) ==> is_digit(#[trigger] text[i]) == digits,
        leading_run(text, digits) < text.len() ==> is_digit(
            text[leading_run(text, digits) as int],
        ) != digits,
    decreases text.len(),
{
    if text.len() > 0 && is_digit(text[0]) == digits {
        let tail = text.skip(1);
        lemma_leading_run(tail, digits);
        assert forall|i: int| 0 <= i < leading_run(text, digits) implies is_digit(
            #[trigger] text[i],
        ) == digits by {
            if i > 0 {
                assert(text[i] == tail[i - 1]);
            }
        }
        if leading_run(text, digits) < text.len() {
            assert(text[leading_run(text, digits) as int] == tail[leading_run(tail, digits) as int]);
        }
    }
}

/// A run of one sort that ends at the end of the text or before a character
/// of the other sort is the leading run.
pub proof fn lemma_leading_run_is(text: Seq<char>, digits: bool, k: int)
    requires
        0 <= k <= text.len(),
        forall|i: int| 0 <= i < k ==> is_digit(#[trigger] text[i]) == digits,
        k < text.len() ==> is_digit(text[k]) != digits,
    ensures
        leading_run(text, digits) == k,
    decreases k,
{
    if k > 0 {
        let tail = text.skip(1);
        assert(is_digit(text[0]) == digits);
        assert forall|i: int| 0 <= i < k - 1 implies is_digit(#[trigger] tail[i]) == digits by {
            assert(tail[i] == text[i + 1]);
        }
        lemma_leading_run_is(tail, digits, k - 1);
    }
}

/// `tokens` with its first value negated.
pub open spec fn negate_first(tokens: Tokens) -> Tokens {
    Tokens { values: tokens.values.update(0, -tokens.values[0]), operators: tokens.operators }
}

/// The tokens of a text without blanks. It starts with a digit, or with one
/// `-` that negates the first value; with anything else, or nothing, it has
/// no tokens.
pub open spec fn tokens_of(text: Seq<char>) -> Result<Tokens, EvalError> {
    if text.len() == 0 {
        Err(EvalError::InvalidLeadingToken)
    } else if text[0] == '-' {
        match scan(text.skip(1)) {
            Ok(tokens) => Ok(negate_first(tokens)),
            Err(e) => Err(e),
        }
    } else if is_digit(text[0]) {
        scan(text)
    } else {
        Err(EvalError::InvalidLeadingToken)
    }
}

/// `tokens` after the operator at `at` has been applied: `result` stands in
/// place of its left value, and the operator and its right value are gone.
pub open spec fn splice(tokens: Tokens, at: int, result: int) -> Tokens {
    Tokens {
        values: tokens.values.update(at, result).remove(at + 1),
        operators: tokens.operators.remove(at),
    }
}

/// `tokens` with every `op` applied, the leftmost that is left first. The
/// first application that fails decides the error.
pub open spec fn reduce_tier(tokens: Tokens, op: Operator) -> Result<Tokens, EvalError>
    decreases tokens.operators.len(),
    via reduce_tier_decreases
{
    match tokens.operators.index_of_first(op) {
        None => Ok(tokens),
        Some(at) => match apply(op, tokens.values[at], tokens.values[at + 1]) {
            Ok(result) => reduce_tier(splice(tokens, at, result), op),
            Err(e) => Err(e),
        },
    }
}

#[via_fn]
proof fn reduce_tier_decreases(tokens: Tokens, op: Operator) {
    tokens.operators.index_of_first_ensures(op);
}

/// `reduce_tier` after an earlier tier, whose error stands.
pub open spec fn then_tier(
    earlier: Result<Tokens, EvalError>,
    op: Operator,
) -> Result<Tokens, EvalError> {
    match earlier {
        Ok(tokens) => reduce_tier(tokens, op),
        Err(e) => Err(e),
    }
}

/// The value of a token stream: the powers are applied first, then the
/// products, the quotients, the sums and the differences, each sort from left
/// to right. A stream whose values are not one more than its operators has
/// none.
pub open spec fn calculation(values: Seq<int>, operators: Seq<Operator>) -> Result<
    int,
    EvalError,
> {
    if values.len() != operators.len() + 1 {
        Err(EvalError::ArityMismatch)
    } else {
        let start = Tokens { values, operators };
        let powers = reduce_tier(start, Operator::Pow);
        let products = then_tier(powers, Operator::Mul);
        let quotients = then_tier(products, Operator::Div);
        let sums = then_tier(quotients, Operator::Add);
        match then_tier(sums, Operator::Sub) {
            Ok(tokens) => Ok(tokens.values[0]),
            Err(e) => Err(e),
        }
    }
}

/// The value of an expression without parentheses.
pub open spec fn evaluation(expression: Seq<char>) -> Result<int, EvalError> {
    match tokens_of(strip_blanks(expression)) {
        Ok(tokens) => calculation(tokens.values, tokens.operators),
        Err(e) => Err(e),
    }
}

/// Values of the library as integers.
pub open spec fn as_ints(values: Seq<i64>) -> Seq<int> {
    values.map_values(|v: i64| v as int)
}

/// Where the run of digits (`digits` true) or of other characters
/// (`digits` false) that starts at `start` ends.
fn run_end(chars: &Vec<char>, start: usize, digits: bool) -> (end: usize)
    requires
        start <= chars.len(),
    ensures
        start <= end <= chars.len(),
        end - start == leading_run(chars@.skip(start as int), digits),
        forall|i: int| start <= i < end ==> is_digit(#[trigger] chars@[i]) == digits,
{
    let mut end = start;
    while end < chars.len() && is_digit_char(chars[end]) == digits
        invariant
            start <= end <= chars.len(),
            forall|i: int| start <= i < end ==> is_digit(#[trigger] chars@[i]) == digits,
        decreases chars.len() - end,
    {
        end += 1;
    }
    proof {
        let text = chars@.skip(start as int);
        assert forall|i: int| 0 <= i < end - start implies is_digit(#[trigger] text[i])
            == digits by {
            assert(text[i] == chars@[start + i]);
        }
        lemma_leading_run_is(text, digits, end - start);
    }
    end
}

/// The operator that the characters of `chars` from `start` up to `end` name.
fn operator_from(chars: &Vec<char>, start: usize, end: usize) -> (op: Option<Operator>)
    requires
        start < end <= chars.len(),
    ensures
        op == operator_of(chars@.subrange(start as int, end as int)),
{
    let ghost symbols = chars@.subrange(start as int, end as int);
    let first = chars[start];
    assert(symbols[0] == first);
    if end - start == 1 {
        assert(symbols =~= seq![first]);
        assert(seq!['p', 'o', 'w'].len() == 3);
        if first == '^' {
            Some(Operator::Pow)
        } else if first == '*' {
            assert(seq!['*'][0] == '*');
            Some(Operator::Mul)
        } else if first == '/' {
            assert(seq!['/'][0] == '/');
            Some(Operator::Div)
        } else if first == '+' {
            assert(seq!['+'][0] == '+');
            Some(Operator::Add)
        } else if first == '-' {
            assert(seq!['-'][0] == '-');
            Some(Operator::Sub)
        } else {
            assert(seq!['^'][0] == '^');
            assert(seq!['*'][0] == '*');
            assert(seq!['/'][0] == '/');
            assert(seq!['+'][0] == '+');
            assert(seq!['-'][0] == '-');
            None
        }
    } else {
        assert(seq!['^'].len() == 1);
        assert(seq!['*'].len() == 1);
        assert(seq!['/'].len() == 1);
        assert(seq!['+'].len() == 1);
        assert(seq!['-'].len() == 1);
        assert(seq!['p', 'o', 'w'].len() == 3);
        if end - start == 3 {
            let second = chars[start + 1];
            let third = chars[start + 2];
            assert(symbols[1] == second && symbols[2] == third);
            assert(seq!['p', 'o', 'w'][0] == 'p' && seq!['p', 'o', 'w'][1] == 'o' && seq![
                'p',
                'o',
                'w',
            ][2] == 'w');
            if first == 'p' && second == 'o' && third == 'w' {
                assert(symbols =~= seq!['p', 'o', 'w']);
                Some(Operator::Pow)
            } else {
                None
            }
        } else {
            None
        }
    }
}

/// One step of reading tokens: what was read so far, put before the tokens of
/// one more value and operator and of what follows them, is what was read so
/// far with that value and operator, put before the tokens of what follows.
proof fn lemma_prepend_twice(
    values: Seq<int>,
    operators: Seq<Operator>,
    value: int,
    op: Operator,
    rest: Result<Tokens, EvalError>,
)
    ensures
        prepend(values, operators, prepend(seq![value], seq![op], rest)) == prepend(
            values.push(value),
            operators.push(op),
            rest,
        ),
{
    if let Ok(t) = rest {
        assert(values + (seq![value] + t.values) =~= values.push(value) + t.values);
        assert(operators + (seq![op] + t.operators) =~= operators.push(op) + t.operators);
    }
}

/// The tokens of `chars` from `start` on.
fn scan_tokens(chars: &Vec<char>, start: usize) -> (r: Result<
    (Vec<i64>, Vec<Operator>),
    EvalError,
>)
    requires
        start <= chars.len(),
    ensures
        match r {
            Ok((values, operators)) => scan(chars@.skip(start as int)) == Ok::<Tokens, EvalError>(
                Tokens { values: as_ints(values@), operators: operators@ },
            ),
            Err(e) => scan(chars@.skip(start as int)) == Err::<Tokens, EvalError>(e),
        },
{
    let mut values: Vec<i64> = Vec::new();
    let mut operators: Vec<Operator> = Vec::new();
    let mut at = start;
    proof {
        let whole = scan(chars@.skip(start as int));
        if let Ok(t) = whole {
            assert(as_ints(values@) + t.values =~= t.values);
            assert(operators@ + t.operators =~= t.operators);
        }
    }
    loop
        invariant
            start <= at <= chars.len(),
            scan(chars@.skip(start as int)) == prepend(
                as_ints(values@),
                operators@,
                scan(chars@.skip(at as int)),
            ),
        decreases chars.len() - at,
    {
        let ghost text = chars@.skip(at as int);
        let ghost before = as_ints(values@);
        let number_end = run_end(chars, at, true);
        proof {
            assert(text.take(number_end - at) =~= chars@.subrange(at as int, number_end as int));
            assert(text.skip(number_end - at) =~= chars@.skip(number_end as int));
            assert forall|i: int| 0 <= i < number_end - at implies is_digit(
                #[trigger] chars@.subrange(at as int, number_end as int)[i],
            ) by {
                assert(is_digit(chars@[at + i]));
            }
        }
        let value = match parse_digits(chars, at, number_end) {
            Some(value) => value,
            None => { return Err(EvalError::InvalidNumber); },
        };
        values.push(value);
        proof {
            assert(as_ints(values@) =~= before.push(value as int));
        }
        if number_end == chars.len() {
            proof {
                assert(before + seq![value as int] =~= as_ints(values@));
                assert(operators@ + Seq::<Operator>::empty() =~= operators@);
            }
            return Ok((values, operators));
        }
        let symbols_end = run_end(chars, number_end, false);
        if symbols_end == chars.len() {
            return Err(EvalError::InvalidNumber);
        }
        proof {
            lemma_leading_run(chars@.skip(number_end as int), false);
            let rest = chars@.skip(number_end as int);
            assert(rest.take(symbols_end - number_end) =~= chars@.subrange(
                number_end as int,
                symbols_end as int,
            ));
            assert(rest.skip(symbols_end - number_end) =~= chars@.skip(symbols_end as int));
            if symbols_end == number_end {
                assert(rest[0] == chars@[number_end as int]);
                lemma_leading_run(text, true);
                assert(text[number_end - at] == chars@[number_end as int]);
            }
        }
        let op = match operator_from(chars, number_end, symbols_end) {
            Some(op) => op,
            None => { return Err(EvalError::UnknownOperator); },
        };
        proof {
            lemma_prepend_twice(
                before,
                operators@,
                value as int,
                op,
                scan(chars@.skip(symbols_end as int)),
            );
        }
        operators.push(op);
        at = symbols_end;
    }
}

/// The tokens that the library holds as `values` and `operators`.
pub open spec fn tokens(values: Seq<i64>, operators: Seq<Operator>) -> Tokens {
    Tokens { values: as_ints(values), operators }
}

/// The tokens of `chars`, which holds no blanks.
fn tokenize(chars: &Vec<char>) -> (r: Result<(Vec<i64>, Vec<Operator>), EvalError>)
    ensures
        match r {
            Ok((values, operators)) => tokens_of(chars@) == Ok::<Tokens, EvalError>(
                tokens(values@, operators@),
            ),
            Err(e) => tokens_of(chars@) == Err::<Tokens, EvalError>(e),
        },
{
    if chars.len() == 0 {
        return Err(EvalError::InvalidLeadingToken);
    }
    let first = chars[0];
    if first == '-' {
        let (mut values, operators) = scan_tokens(chars, 1)?;
        proof {
            lemma_scan_shape(chars@.skip(1));
        }
        let ghost scanned = values@;
        // A value that was read is not negative, so its negation fits.
        let negated = -values[0];
        values.set(0, negated);
        proof {
            assert(as_ints(values@) =~= as_ints(scanned).update(0, -as_ints(scanned)[0]));
        }
        Ok((values, operators))
    } else if is_digit_char(first) {
        proof {
            assert(chars@.skip(0) =~= chars@);
        }
        scan_tokens(chars, 0)
    } else {
        Err(EvalError::InvalidLeadingToken)
    }
}

/// Whether `tokens` has one value more than operators, each within `i64`
/// and none negative.
pub open spec fn plain_tokens(tokens: Tokens) -> bool {
    &&& tokens.values.len() == tokens.operators.len() + 1
    &&& forall|i: int| 0 <= i < tokens.values.len() ==> 0 <= #[trigger] tokens.values[i] <= i64::MAX
}

/// The tokens that are read from a text alternate, and the values among them
/// are natural numbers within `i64`.
pub proof fn lemma_scan_shape(text: Seq<char>)
    ensures
        scan(text) matches Ok(tokens) ==> plain_tokens(tokens),
    decreases text.len(),
{
    let n = leading_run(text, true) as int;
    lemma_leading_run(text, true);
    if let Some(value) = number_of(text.take(n)) {
        lemma_decimal_value_nonnegative(text.take(n));
        let rest = text.skip(n);
        if rest.len() > 0 {
            lemma_leading_run(rest, false);
            let m = leading_run(rest, false) as int;
            if m < rest.len() {
                if let Some(op) = operator_of(rest.take(m)) {
                    lemma_scan_shape(rest.skip(m));
                }
            }
        }
    }
}

/// Applies every `op` among the tokens, the leftmost first.
fn reduce(values: &mut Vec<i64>, operators: &mut Vec<Operator>, op: Operator) -> (r: Result<
    (),
    EvalError,
>)
    requires
        old(values).len() == old(operators).len() + 1,
    ensures
        match r {
            Ok(()) => {
                &&& reduce_tier(tokens(old(values)@, old(operators)@), op) == Ok::<
                    Tokens,
                    EvalError,
                >(tokens(final(values)@, final(operators)@))
                &&& final(values).len() == final(operators).len() + 1
            },
            Err(e) => reduce_tier(tokens(old(values)@, old(operators)@), op) == Err::<
                Tokens,
                EvalError,
            >(e),
        },
{
    loop
        invariant
            values.len() == operators.len() + 1,
            reduce_tier(tokens(old(values)@, old(operators)@), op) == reduce_tier(
                tokens(values@, operators@),
                op,
            ),
        decreases operators.len(),
    {
        let at = match leftmost(operators, op) {
            Some(at) => at,
            None => { return Ok(()); },
        };
        let ghost before = tokens(values@, operators@);
        let result = apply_operator(op, values[at], values[at + 1])?;
        values.set(at, result);
        values.remove(at + 1);
        operators.remove(at);
        proof {
            let after = splice(before, at as int, result as int);
            assert(as_ints(values@) =~= after.values);
        }
    }
}

/// Where `op` stands first among `operators`.
fn leftmost(operators: &Vec<Operator>, op: Operator) -> (at: Option<usize>)
    ensures
        match at {
            Some(i) => operators@.index_of_first(op) == Some(i as int) && i < operators.len(),
            None => operators@.index_of_first(op) is None,
        },
{
    proof {
        operators@.index_of_first_ensures(op);
    }
    let mut i: usize = 0;
    while i < operators.len()
        invariant
            i <= operators.len(),
            forall|j: int| 0 <= j < i ==> operators@[j] != op,
        decreases operators.len() - i,
    {
        if operators[i] == op {
            proof {
                operators@.index_of_first_ensures(op);
                assert(operators@.contains(op));
                let found = operators@.index_of_first(op).unwrap();
                assert(found == i) by {
                    if found < i {
                        assert(operators@[found] != op);
                    }
                }
            }
            return Some(i);
        }
        i += 1;
    }
    None
}

/// The value of a token stream.
pub fn calculate(values: Vec<i64>, operators: Vec<Operator>) -> (r: Result<i64, EvalError>)
    ensures
        widen(r) == calculation(as_ints(values@), operators@),
{
    if values.len() == 0 || values.len() - 1 != operators.len() {
        return Err(EvalError::ArityMismatch);
    }
    let mut values = values;
    let mut operators = operators;
    reduce(&mut values, &mut operators, Operator::Pow)?;
    reduce(&mut values, &mut operators, Operator::Mul)?;
    reduce(&mut values, &mut operators, Operator::Div)?;
    reduce(&mut values, &mut operators, Operator::Add)?;
    reduce(&mut values, &mut operators, Operator::Sub)?;
    Ok(values[0])
}

/// The value of the expression that `chars` holds.
pub fn evaluate_chars(chars: &Vec<char>) -> (r: Result<i64, EvalError>)
    ensures
        widen(r) == evaluation(chars@),
{
    let kept = without_blanks(chars);
    let (values, operators) = tokenize(&kept)?;
    calculate(values, operators)
}

/// Whether `result` is what evaluating `expression` gives.
pub open spec fn evaluates_to(expression: Seq<char>, result: Result<i64, EvalError>) -> bool {
    widen(result) == evaluation(expression)
}

/// Evaluates an expression without parentheses: values in base ten with one
/// of `+ - * / ^ pow` between each two, an optional `-` in front, blanks
/// anywhere.
pub fn simexer(input: &str) -> (r: Result<i64, EvalError>)
    ensures
        evaluates_to(input@, r),
{
    let chars = chars_of(input);
    evaluate_chars(&chars)
}

/// Evaluating one expression twice gives one result: nothing but the text
/// decides it.
pub proof fn lemma_evaluation_is_unique(
    expression: Seq<char>,
    first: Result<i64, EvalError>,
    second: Result<i64, EvalError>,
)
    requires
        evaluates_to(expression, first),
        evaluates_to(expression, second),
    ensures
        first == second,
{
}

/// A text that cannot be read has a value that is missing or too large, or
/// an unknown operator.
pub proof fn lemma_scan_errors(text: Seq<char>)
    ensures
        scan(text) matches Err(e) ==> e == EvalError::InvalidNumber || e
            == EvalError::UnknownOperator,
    decreases text.len(),
{
    let n = leading_run(text, true) as int;
    lemma_leading_run(text, true);
    if number_of(text.take(n)) is Some {
        let rest = text.skip(n);
        if rest.len() > 0 {
            lemma_leading_run(rest, false);
            let m = leading_run(rest, false) as int;
            if m < rest.len() && operator_of(rest.take(m)) is Some {
                lemma_scan_errors(rest.skip(m));
            }
        }
    }
}

/// A tier keeps one value more than operators, and fails only as an
/// operator fails.
pub proof fn lemma_reduce_tier_shape(tokens: Tokens, op: Operator)
    requires
        tokens.values.len() == tokens.operators.len() + 1,
    ensures
        match reduce_tier(tokens, op) {
            Ok(reduced) => reduced.values.len() == reduced.operators.len() + 1,
            Err(e) => e == EvalError::InexactDivision || e == EvalError::InvalidExponent || e
                == EvalError::Overflow,
        },
    decreases tokens.operators.len(),
{
    tokens.operators.index_of_first_ensures(op);
    if let Some(at) = tokens.operators.index_of_first(op) {
        if let Ok(result) = apply(op, tokens.values[at], tokens.values[at + 1]) {
            lemma_reduce_tier_shape(splice(tokens, at, result), op);
        }
    }
}

/// No text has values and operators out of step: `ArityMismatch` is for
/// token streams that were not read from a text.
pub proof fn lemma_text_has_no_arity_mismatch(expression: Seq<char>)
    ensures
        evaluation(expression) != Err::<int, EvalError>(EvalError::ArityMismatch),
{
    let text = strip_blanks(expression);
    if text.len() > 0 {
        lemma_scan_errors(text);
        lemma_scan_errors(text.skip(1));
        lemma_scan_shape(text);
        lemma_scan_shape(text.skip(1));
    }
    if let Ok(tokens) = tokens_of(text) {
        lemma_reduce_tier_shape(tokens, Operator::Pow);
        let powers = reduce_tier(tokens, Operator::Pow);
        if let Ok(t) = powers {
            lemma_reduce_tier_shape(t, Operator::Mul);
        }
        let products = then_tier(powers, Operator::Mul);
        if let Ok(t) = products {
            lemma_reduce_tier_shape(t, Operator::Div);
        }
        let quotients = then_tier(products, Operator::Div);
        if let Ok(t) = quotients {
            lemma_reduce_tier_shape(t, Operator::Add);
        }
        let sums = then_tier(quotients, Operator::Add);
        if let Ok(t) = sums {
            lemma_reduce_tier_shape(t, Operator::Sub);
        }
    }
}

} // verus!
