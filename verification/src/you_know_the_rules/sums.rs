//! What is known of the value of an expression from the way it was put
//! together: values joined by operators are read as those values and
//! operators, and values joined by `+` have their sum as value.

use super::arithmetic::{EvalError, Operator};
use super::evaluator::{
    calculation, evaluation, lemma_leading_run_is, operator_of, reduce_tier, scan, splice, Tokens,
};
use super::generator::{is_operator_symbol, joined};
use super::text::{
    is_blank, is_digit, lemma_filter_keeps_all, lemma_natural_text, natural_text, not_blank,
    strip_blanks,
};
use vstd::prelude::*;

verus! {

/// The operator that an operator symbol stands for.
pub open spec fn operator_named(symbol: char) -> Operator {
    if symbol == '^' {
        Operator::Pow
    } else if symbol == '*' {
        Operator::Mul
    } else if symbol == '/' {
        Operator::Div
    } else if symbol == '+' {
        Operator::Add
    } else {
        Operator::Sub
    }
}

/// The operators that `symbols` stand for.
pub open spec fn operators_named(symbols: Seq<char>) -> Seq<Operator> {
    symbols.map_values(|c: char| operator_named(c))
}

/// Values of a puzzle as integers.
pub open spec fn as_integers(values: Seq<u64>) -> Seq<int> {
    values.map_values(|v: u64| v as int)
}

/// The sum of `values`.
pub open spec fn total(values: Seq<int>) -> int
    decreases values.len(),
{
    if values.len() == 0 {
        0
    } else {
        values[0] + total(values.skip(1))
    }
}

/// `count` times the symbol `+`.
pub open spec fn pluses(count: nat) -> Seq<char> {
    Seq::new(count, |i: int| '+')
}

/// `count` times the operator `Add`.
pub open spec fn additions(count: nat) -> Seq<Operator> {
    Seq::new(count, |i: int| Operator::Add)
}

/// An expression of several values is the numeral of the first, the first
/// symbol, and the expression of the others.
pub proof fn lemma_joined_front(values: Seq<u64>, symbols: Seq<char>)
    requires
        values.len() == symbols.len() + 1,
        symbols.len() >= 1,
    ensures
        joined(values, symbols) == natural_text(values[0] as nat).push(symbols[0]) + joined(
            values.skip(1),
            symbols.skip(1),
        ),
    decreases symbols.len(),
{
    let head = natural_text(values[0] as nat).push(symbols[0]);
    let shorter_values = values.drop_last();
    let shorter_symbols = symbols.drop_last();
    let last = natural_text(values.last() as nat);
    assert(values.skip(1).last() == values.last());
    assert(shorter_values[0] == values[0]);
    if symbols.len() == 1 {
        assert(values.skip(1)[0] == values.last());
        assert(joined(values.skip(1), symbols.skip(1)) == last);
        assert(joined(shorter_values, shorter_symbols) == natural_text(values[0] as nat));
    } else {
        lemma_joined_front(shorter_values, shorter_symbols);
        assert(symbols.skip(1).last() == symbols.last());
        assert(shorter_symbols[0] == symbols[0]);
        assert(shorter_values.skip(1) =~= values.skip(1).drop_last());
        assert(shorter_symbols.skip(1) =~= symbols.skip(1).drop_last());
        let middle = joined(shorter_values.skip(1), shorter_symbols.skip(1));
        assert((head + middle).push(symbols.last()) + last =~= head + (middle.push(
            symbols.last(),
        ) + last));
    }
}

/// An expression is made of digits and operator symbols, and starts with a
/// digit.
pub proof fn lemma_joined_chars(values: Seq<u64>, symbols: Seq<char>)
    requires
        values.len() == symbols.len() + 1,
        forall|i: int| 0 <= i < symbols.len() ==> is_operator_symbol(#[trigger] symbols[i]),
    ensures
        joined(values, symbols).len() >= 1,
        is_digit(joined(values, symbols)[0]),
        forall|i: int|
            0 <= i < joined(values, symbols).len() ==> is_digit(
                #[trigger] joined(values, symbols)[i],
            ) || is_operator_symbol(joined(values, symbols)[i]),
    decreases symbols.len(),
{
    lemma_natural_text(values.last() as nat);
    if symbols.len() > 0 {
        lemma_joined_chars(values.drop_last(), symbols.drop_last());
        let shorter = joined(values.drop_last(), symbols.drop_last());
        let whole = joined(values, symbols);
        assert(whole[0] == shorter[0]);
        assert forall|i: int| 0 <= i < whole.len() implies is_digit(#[trigger] whole[i])
            || is_operator_symbol(whole[i]) by {
            if i < shorter.len() {
                assert(whole[i] == shorter[i]);
            } else if i == shorter.len() {
                assert(whole[i] == symbols.last());
            } else {
                assert(whole[i] == natural_text(values.last() as nat)[i - shorter.len() - 1]);
            }
        }
    }
}

/// An expression is read as its values and the operators that its symbols
/// stand for, where the values are within `i64`.
pub proof fn lemma_joined_scans(values: Seq<u64>, symbols: Seq<char>)
    requires
        values.len() == symbols.len() + 1,
        forall|i: int| 0 <= i < values.len() ==> #[trigger] values[i] <= i64::MAX,
        forall|i: int| 0 <= i < symbols.len() ==> is_operator_symbol(#[trigger] symbols[i]),
    ensures
        scan(joined(values, symbols)) == Ok::<Tokens, EvalError>(
            Tokens { values: as_integers(values), operators: operators_named(symbols) },
        ),
    decreases symbols.len(),
{
    let text = joined(values, symbols);
    let first = natural_text(values[0] as nat);
    lemma_natural_text(values[0] as nat);
    let n = first.len() as int;
    if symbols.len() == 0 {
        lemma_leading_run_is(text, true, n);
        assert(text.take(n) =~= first);
        assert(text.skip(n).len() == 0);
        assert(as_integers(values) =~= seq![values[0] as int]);
        assert(operators_named(symbols) =~= Seq::<Operator>::empty());
    } else {
        lemma_joined_front(values, symbols);
        let others = joined(values.skip(1), symbols.skip(1));
        lemma_joined_chars(values.skip(1), symbols.skip(1));
        assert(text[n] == symbols[0]);
        assert forall|i: int| 0 <= i < n implies is_digit(#[trigger] text[i]) by {
            assert(text[i] == first[i]);
        }
        lemma_leading_run_is(text, true, n);
        assert(text.take(n) =~= first);
        let rest = text.skip(n);
        assert(rest =~= seq![symbols[0]] + others);
        assert(rest[1] == others[0]);
        lemma_leading_run_is(rest, false, 1);
        assert(rest.take(1) =~= seq![symbols[0]]);
        assert(rest.skip(1) =~= others);
        lemma_symbol_names_operator(symbols[0]);
        lemma_joined_scans(values.skip(1), symbols.skip(1));
        assert(seq![values[0] as int] + as_integers(values.skip(1)) =~= as_integers(values));
        assert(seq![operator_named(symbols[0])] + operators_named(symbols.skip(1))
            =~= operators_named(symbols));
    }
}

/// A single operator symbol is read as the operator that it stands for.
pub proof fn lemma_symbol_names_operator(symbol: char)
    requires
        is_operator_symbol(symbol),
    ensures
        operator_of(seq![symbol]) == Some(operator_named(symbol)),
{
    let symbols = seq![symbol];
    assert(symbols[0] == symbol);
    assert(seq!['p', 'o', 'w'].len() == 3);
    assert(seq!['^'][0] == '^');
    assert(seq!['*'][0] == '*');
    assert(seq!['/'][0] == '/');
    assert(seq!['+'][0] == '+');
    assert(seq!['-'][0] == '-');
    if symbol == '^' {
        assert(symbols =~= seq!['^']);
    } else if symbol == '*' {
        assert(symbols =~= seq!['*']);
    } else if symbol == '/' {
        assert(symbols =~= seq!['/']);
    } else if symbol == '+' {
        assert(symbols =~= seq!['+']);
    } else {
        assert(symbols =~= seq!['-']);
    }
}

/// A tier whose operator does not occur leaves the tokens as they are.
pub proof fn lemma_tier_absent(tokens: Tokens, op: Operator)
    requires
        forall|i: int| 0 <= i < tokens.operators.len() ==> tokens.operators[i] != op,
    ensures
        reduce_tier(tokens, op) == Ok::<Tokens, EvalError>(tokens),
{
    tokens.operators.index_of_first_ensures(op);
}

/// A sum of values of which none is negative is not negative, and no less
/// than the first.
pub proof fn lemma_total_bounds(values: Seq<int>)
    requires
        forall|i: int| 0 <= i < values.len() ==> 0 <= #[trigger] values[i],
    ensures
        0 <= total(values),
        values.len() > 0 ==> values[0] <= total(values),
    decreases values.len(),
{
    if values.len() > 0 {
        let rest = values.skip(1);
        assert forall|i: int| 0 <= i < rest.len() implies 0 <= #[trigger] rest[i] by {
            assert(rest[i] == values[i + 1]);
        }
        lemma_total_bounds(rest);
    }
}

/// The tier of sums turns values with `Add` between each two into their sum,
/// where none is negative and the sum is within `i64`.
pub proof fn lemma_sums_tier(values: Seq<int>)
    requires
        values.len() >= 1,
        forall|i: int| 0 <= i < values.len() ==> 0 <= #[trigger] values[i],
        total(values) <= i64::MAX,
    ensures
        reduce_tier(
            Tokens { values, operators: additions((values.len() - 1) as nat) },
            Operator::Add,
        ) == Ok::<Tokens, EvalError>(
            Tokens { values: seq![total(values)], operators: Seq::<Operator>::empty() },
        ),
    decreases values.len(),
{
    let operators = additions((values.len() - 1) as nat);
    let tokens = Tokens { values, operators };
    operators.index_of_first_ensures(Operator::Add);
    if values.len() == 1 {
        assert(values.skip(1).len() == 0);
        assert(total(values.skip(1)) == 0);
        assert(values =~= seq![total(values)]);
        assert(operators =~= Seq::<Operator>::empty());
    } else {
        assert(operators[0] == Operator::Add);
        assert(operators.contains(Operator::Add));
        let at = operators.index_of_first(Operator::Add).unwrap();
        assert(at == 0) by {
            if at > 0 {
                assert(operators[0] != Operator::Add);
            }
        }
        let sum = values[0] + values[1];
        let rest = values.skip(1);
        assert(rest[0] == values[1]);
        assert forall|i: int| 0 <= i < rest.len() implies 0 <= #[trigger] rest[i] by {
            assert(rest[i] == values[i + 1]);
        }
        lemma_total_bounds(rest.skip(1));
        assert(total(rest) == rest[0] + total(rest.skip(1)));
        assert(total(values) == values[0] + (values[1] + total(rest.skip(1))));
        let next = splice(tokens, 0, sum);
        assert(next.values =~= seq![sum] + rest.skip(1));
        assert(next.operators =~= additions((next.values.len() - 1) as nat));
        assert(next.values.skip(1) =~= rest.skip(1));
        assert(total(next.values) == total(values));
        lemma_sums_tier(next.values);
    }
}

/// Values with `Add` between each two have their sum as value, where none is
/// negative and the sum is within `i64`.
pub proof fn lemma_sum_calculates(values: Seq<int>)
    requires
        values.len() >= 1,
        forall|i: int| 0 <= i < values.len() ==> 0 <= #[trigger] values[i],
        total(values) <= i64::MAX,
    ensures
        calculation(values, additions((values.len() - 1) as nat)) == Ok::<int, EvalError>(
            total(values),
        ),
{
    let operators = additions((values.len() - 1) as nat);
    let start = Tokens { values, operators };
    lemma_tier_absent(start, Operator::Pow);
    lemma_tier_absent(start, Operator::Mul);
    lemma_tier_absent(start, Operator::Div);
    lemma_sums_tier(values);
    let sum = Tokens { values: seq![total(values)], operators: Seq::<Operator>::empty() };
    lemma_tier_absent(sum, Operator::Sub);
}

/// The expression of `values` with `+` between each two has their sum as
/// value, where the sum is within `i64`.
pub proof fn lemma_sum_evaluates(values: Seq<u64>)
    requires
        values.len() >= 1,
        total(as_integers(values)) <= i64::MAX,
    ensures
        evaluation(joined(values, pluses((values.len() - 1) as nat))) == Ok::<int, EvalError>(
            total(as_integers(values)),
        ),
{
    let symbols = pluses((values.len() - 1) as nat);
    let text = joined(values, symbols);
    let integers = as_integers(values);
    lemma_joined_chars(values, symbols);
    assert forall|i: int| 0 <= i < text.len() implies !is_blank(#[trigger] text[i]) by {
        assert(is_digit(text[i]) || is_operator_symbol(text[i]));
    }
    lemma_filter_keeps_all(text, not_blank());
    assert(strip_blanks(text) == text);
    assert forall|i: int| 0 <= i < values.len() implies #[trigger] values[i] <= i64::MAX by {
        lemma_total_at_least(integers, i);
    }
    lemma_joined_scans(values, symbols);
    assert(operators_named(symbols) =~= additions((values.len() - 1) as nat));
    lemma_sum_calculates(integers);
}

/// A sum of values of which none is negative is no less than any of them.
pub proof fn lemma_total_at_least(values: Seq<int>, at: int)
    requires
        forall|i: int| 0 <= i < values.len() ==> 0 <= #[trigger] values[i],
        0 <= at < values.len(),
    ensures
        values[at] <= total(values),
    decreases values.len(),
{
    let rest = values.skip(1);
    assert forall|i: int| 0 <= i < rest.len() implies 0 <= #[trigger] rest[i] by {
        assert(rest[i] == values[i + 1]);
    }
    lemma_total_bounds(rest);
    if at > 0 {
        lemma_total_at_least(rest, at - 1);
        assert(rest[at - 1] == values[at]);
    }
}

} // verus!
