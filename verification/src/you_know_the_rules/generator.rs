//! Puzzles: random values of a given number of digits in all, joined by
//! random operators into an expression that has a value.

use super::arithmetic::{lemma_pow_step, EvalError};
use super::evaluator::{evaluate_chars, evaluation};
use super::prompt::{lemma_scrambled_digits, prompt_chars, prompt_text, scrambled};
use super::sums::{as_integers, lemma_sum_evaluates, pluses, total};
use super::text::{
    all_digits, digit_value, digits, digits_in, digits_of, is_digit, lemma_filter_keeps_all,
    lemma_natural_text, natural_text, push_natural, string_of,
};
use crate::config::ConfigData;
use rand::rngs::ThreadRng;
use rand::Rng;
use vstd::arithmetic::power::{lemma_pow0, lemma_pow_increases, lemma_pow_positive, pow};
use vstd::prelude::*;

verus! {

/// The generator of random numbers that `rand` keeps for each thread.
#[verifier::external_type_specification]
#[verifier::external_body]
pub struct ExThreadRng(ThreadRng);

/// `rand::thread_rng`: a handle to the generator of the calling thread,
/// which `rand` seeds from the system when the thread first asks for it, and
/// panics where the system gives no seed. Nothing is claimed of the handle.
#[verifier::external_body]
fn thread_generator() -> ThreadRng {
    rand::thread_rng()
}

/// `rand::Rng::gen_range` on a half-open range of `u64`: a number that is at
/// least `low` and below `high`. Which one is not said, and two calls may
/// differ. `gen_range` panics on an empty range, which `requires` leaves out;
/// on any other it draws until a number suits.
#[verifier::external_body]
fn draw(generator: &mut ThreadRng, low: u64, high: u64) -> (drawn: u64)
    requires
        low < high,
    ensures
        low <= drawn < high,
{
    generator.gen_range(low..high)
}

/// A puzzle: the digits to use, the number to reach, and one expression that
/// reaches it.
#[derive(Debug)]
pub struct Puzzle {
    /// The value of `expression`.
    pub answer: i64,
    /// The digits of `expression` in ascending order, then `= ` and `answer`.
    pub prompt: String,
    /// An expression that uses the digits and has the value `answer`.
    pub expression: String,
}

/// The most digits that one value of a puzzle can have: every number of so
/// many digits is within `i64`.
pub const MAX_CHUNK_DIGITS: u32 = 18;

/// The characters that stand for an operator in a puzzle.
pub open spec fn is_operator_symbol(c: char) -> bool {
    c == '+' || c == '-' || c == '*' || c == '/' || c == '^'
}

/// The least number that is drawn for a value of `length` digits: only a
/// value of one digit may start with, and so be, 0.
pub open spec fn chunk_low(length: nat) -> int {
    if length <= 1 {
        0
    } else {
        pow(10, (length - 1) as nat)
    }
}

/// The bound below which a value of `length` digits is drawn.
pub open spec fn chunk_high(length: nat) -> int {
    pow(10, length)
}

/// The first powers of ten are at least 1 and stay within `u64`, and each is
/// ten times the one before.
pub proof fn lemma_powers_of_ten(exponent: nat)
    requires
        exponent <= MAX_CHUNK_DIGITS,
    ensures
        1 <= pow(10, exponent) <= 1_000_000_000_000_000_000,
        exponent > 0 ==> pow(10, exponent) == 10 * pow(10, (exponent - 1) as nat),
{
    lemma_pow_positive(10, exponent);
    lemma_pow_increases(10, exponent, 18);
    assert(pow(10, 18) == 1_000_000_000_000_000_000) by {
        reveal_with_fuel(pow, 19);
    }
    if exponent > 0 {
        lemma_pow_step(10, (exponent - 1) as nat);
    }
}

/// The range from which a value of `length` digits is drawn.
pub fn chunk_range(length: u32) -> (range: (u64, u64))
    requires
        1 <= length <= MAX_CHUNK_DIGITS,
    ensures
        range.0 == chunk_low(length as nat),
        range.1 == chunk_high(length as nat),
        range.0 < range.1,
{
    let mut power: u64 = 1;
    let mut exponent: u32 = 0;
    proof {
        lemma_pow0(10);
    }
    while exponent + 1 < length
        invariant
            exponent < length <= MAX_CHUNK_DIGITS,
            power == pow(10, exponent as nat),
        decreases length - exponent,
    {
        proof {
            lemma_powers_of_ten((exponent + 1) as nat);
        }
        power = power * 10;
        exponent += 1;
    }
    proof {
        lemma_powers_of_ten(length as nat);
    }
    if length == 1 {
        (0, 10)
    } else {
        (power, power * 10)
    }
}

/// A number within the range of `length` digits has a numeral of `length`
/// digits.
pub proof fn lemma_numeral_length(n: nat, length: nat)
    requires
        1 <= length <= MAX_CHUNK_DIGITS,
        chunk_low(length) <= n < chunk_high(length),
    ensures
        natural_text(n).len() == length,
    decreases length,
{
    lemma_pow0(10);
    lemma_powers_of_ten(length);
    lemma_powers_of_ten((length - 1) as nat);
    if n >= 10 {
        lemma_numeral_length(n / 10, (length - 1) as nat);
    }
}

/// How many digits the numerals of `values` have in all.
pub open spec fn total_length(values: Seq<u64>) -> nat
    decreases values.len(),
{
    if values.len() == 0 {
        0
    } else {
        total_length(values.drop_last()) + natural_text(values.last() as nat).len()
    }
}

/// The expression of `values` with the symbol `symbols[i]` between
/// `values[i]` and `values[i + 1]`.
pub open spec fn joined(values: Seq<u64>, symbols: Seq<char>) -> Seq<char>
    recommends
        values.len() == symbols.len() + 1,
    decreases symbols.len(),
{
    if symbols.len() == 0 {
        natural_text(values[0] as nat)
    } else {
        joined(values.drop_last(), symbols.drop_last()).push(symbols.last()) + natural_text(
            values.last() as nat,
        )
    }
}

/// Whether `/` may stand between `left` and `right`: `right` is not zero and
/// divides `left` without remainder.
pub open spec fn is_divisible(left: u64, right: u64) -> bool {
    right != 0 && left as int % right as int == 0
}

/// Whether `expression` is `values` joined by `symbols`, each symbol an
/// operator, each value of at most `longest` digits, `total` digits in all,
/// and `/` only before a value that divides the one before it.
pub open spec fn chunks_of(
    expression: Seq<char>,
    values: Seq<u64>,
    symbols: Seq<char>,
    total: nat,
    longest: nat,
) -> bool {
    &&& values.len() == symbols.len() + 1
    &&& expression == joined(values, symbols)
    &&& total_length(values) == total
    &&& forall|i: int|
        0 <= i < values.len() ==> natural_text(#[trigger] values[i] as nat).len() <= longest
    &&& forall|i: int| 0 <= i < symbols.len() ==> is_operator_symbol(#[trigger] symbols[i])
    &&& forall|i: int|
        0 <= i < symbols.len() && #[trigger] symbols[i] == '/' ==> is_divisible(
            values[i],
            values[i + 1],
        )
}

/// Whether `expression` is made of values of at most `longest` digits each
/// and `total` digits in all, with one operator between each two, and `/`
/// only where the division is exact.
pub open spec fn is_chunked(expression: Seq<char>, total: nat, longest: nat) -> bool {
    exists|values: Seq<u64>, symbols: Seq<char>|
        chunks_of(expression, values, symbols, total, longest)
}

/// The most digits that the next value may have, where `due` digits are
/// still to come and no value may have more than `longest`.
pub open spec fn length_limit(due: nat, longest: nat) -> nat {
    if longest < due {
        longest
    } else {
        due
    }
}

/// The range from which the length of the next value is drawn.
pub fn length_range(due: u32, longest: u32) -> (range: (u64, u64))
    ensures
        range.0 == 1,
        range.1 == length_limit(due as nat, longest as nat) + 1,
{
    let limit = if longest < due {
        longest
    } else {
        due
    };
    (1, limit as u64 + 1)
}

/// Draws values until their numerals have `total` digits in all: each time a
/// length from 1 to `longest`, or to the digits that are still due if those
/// are fewer, then a number of that length.
fn draw_values(generator: &mut ThreadRng, total: u32, longest: u32) -> (values: Vec<u64>)
    requires
        1 <= total,
        1 <= longest,
        total <= MAX_CHUNK_DIGITS || longest <= MAX_CHUNK_DIGITS,
    ensures
        values.len() >= 1,
        total_length(values@) == total,
        forall|i: int|
            0 <= i < values.len() ==> natural_text(#[trigger] values@[i] as nat).len() <= longest,
{
    let mut values: Vec<u64> = Vec::new();
    let mut placed: u32 = 0;
    while placed < total
        invariant
            placed <= total,
            1 <= longest,
            total <= MAX_CHUNK_DIGITS || longest <= MAX_CHUNK_DIGITS,
            total_length(values@) == placed,
            placed > 0 ==> values.len() >= 1,
            forall|i: int|
                0 <= i < values.len() ==> natural_text(#[trigger] values@[i] as nat).len()
                    <= longest,
        decreases total - placed,
    {
        let (shortest, bound) = length_range(total - placed, longest);
        let length = draw(generator, shortest, bound) as u32;
        let (low, high) = chunk_range(length);
        let value = draw(generator, low, high);
        proof {
            lemma_numeral_length(value as nat, length as nat);
            assert(values@.push(value).drop_last() =~= values@);
        }
        values.push(value);
        placed += length;
    }
    values
}

/// The operator for a number that was drawn: where `/` may stand, it has
/// seven parts in ten and `+`, `-` and `*` one each; where it may not, they
/// have a third each. `^` stands for what is drawn beyond.
pub open spec fn symbol_for(divisible: bool, roll: u64) -> char {
    if divisible {
        if roll < 1 {
            '+'
        } else if roll < 2 {
            '-'
        } else if roll < 3 {
            '*'
        } else if roll < 10 {
            '/'
        } else {
            '^'
        }
    } else {
        if roll < 3 {
            '+'
        } else if roll < 6 {
            '-'
        } else if roll < 9 {
            '*'
        } else {
            '^'
        }
    }
}

/// The operator symbol for `roll`, between a value and the next that divides
/// it without remainder (`divisible` true) or does not.
pub fn operator_for(divisible: bool, roll: u64) -> (symbol: char)
    ensures
        symbol == symbol_for(divisible, roll),
        is_operator_symbol(symbol),
        symbol == '/' ==> divisible,
{
    if divisible {
        if roll < 1 {
            '+'
        } else if roll < 2 {
            '-'
        } else if roll < 3 {
            '*'
        } else if roll < 10 {
            '/'
        } else {
            '^'
        }
    } else {
        if roll < 3 {
            '+'
        } else if roll < 6 {
            '-'
        } else if roll < 9 {
            '*'
        } else {
            '^'
        }
    }
}

/// Whether `/` may stand between `left` and `right`.
pub fn divides(left: u64, right: u64) -> (exact: bool)
    ensures
        exact == is_divisible(left, right),
{
    right != 0 && left % right == 0
}

/// The range from which the number for an operator is drawn: ten numbers
/// where `/` may stand, nine where it may not.
pub fn roll_range(divisible: bool) -> (range: (u64, u64))
    ensures
        range.0 == 0,
        range.1 == if divisible {
            10u64
        } else {
            9u64
        },
{
    if divisible {
        (0, 10)
    } else {
        (0, 9)
    }
}

/// Joins `values` by operators that are drawn one by one.
fn draw_expression(generator: &mut ThreadRng, values: &Vec<u64>) -> (expression: Vec<char>)
    requires
        values.len() >= 1,
    ensures
        exists|symbols: Seq<char>|
            {
                &&& values.len() == symbols.len() + 1
                &&& expression@ == joined(values@, symbols)
                &&& forall|i: int|
                    0 <= i < symbols.len() ==> is_operator_symbol(#[trigger] symbols[i])
                &&& forall|i: int|
                    0 <= i < symbols.len() && #[trigger] symbols[i] == '/' ==> is_divisible(
                        values@[i],
                        values@[i + 1],
                    )
            },
{
    let mut expression: Vec<char> = Vec::new();
    push_natural(&mut expression, values[0]);
    let ghost mut symbols: Seq<char> = Seq::empty();
    let mut i: usize = 1;
    proof {
        assert(expression@ =~= natural_text(values@[0] as nat));
        assert(values@.take(1)[0] == values@[0]);
    }
    while i < values.len()
        invariant
            1 <= i <= values.len(),
            i == symbols.len() + 1,
            expression@ == joined(values@.take(i as int), symbols),
            forall|j: int| 0 <= j < symbols.len() ==> is_operator_symbol(#[trigger] symbols[j]),
            forall|j: int|
                0 <= j < symbols.len() && #[trigger] symbols[j] == '/' ==> is_divisible(
                    values@[j],
                    values@[j + 1],
                ),
        decreases values.len() - i,
    {
        let divisible = divides(values[i - 1], values[i]);
        let (least, bound) = roll_range(divisible);
        let roll = draw(generator, least, bound);
        let symbol = operator_for(divisible, roll);
        let ghost before = expression@;
        expression.push(symbol);
        push_natural(&mut expression, values[i]);
        proof {
            let longer = values@.take(i + 1);
            assert(longer.drop_last() =~= values@.take(i as int));
            assert(symbols.push(symbol).drop_last() =~= symbols);
            symbols = symbols.push(symbol);
        }
        i += 1;
    }
    proof {
        assert(values@.take(values.len() as int) =~= values@);
    }
    expression
}

/// An expression holds as many digits as the numerals of its values.
pub proof fn lemma_joined_digits(values: Seq<u64>, symbols: Seq<char>)
    requires
        values.len() == symbols.len() + 1,
        forall|i: int| 0 <= i < symbols.len() ==> is_operator_symbol(#[trigger] symbols[i]),
    ensures
        digits_in(joined(values, symbols)).len() == total_length(values),
    decreases symbols.len(),
{
    let last = natural_text(values.last() as nat);
    lemma_natural_text(values.last() as nat);
    lemma_filter_keeps_all(last, digits());
    assert(values.drop_last().len() == values.len() - 1);
    if symbols.len() == 0 {
        assert(values.last() == values[0]);
        assert(total_length(values.drop_last()) == 0);
    } else {
        lemma_joined_digits(values.drop_last(), symbols.drop_last());
        let shorter = joined(values.drop_last(), symbols.drop_last());
        shorter.lemma_filter_len_push(digits(), symbols.last());
        Seq::filter_distributes_over_add(shorter.push(symbols.last()), last, digits());
    }
}

/// The numbers that digits stand for.
pub open spec fn digit_values(digits: Seq<char>) -> Seq<u64> {
    digits.map_values(|c: char| digit_value(c) as u64)
}

/// The expression of the given digits, each a value of its own, with `+`
/// between each two.
pub open spec fn sum_text(digits: Seq<char>) -> Seq<char> {
    joined(digit_values(digits), pluses((digits.len() - 1) as nat))
}

/// The expression that never fails: the given digits, each a value of its
/// own, with `+` between each two, and its value, their sum.
pub fn sum_expression(digits: &Vec<char>) -> (sum: (Vec<char>, i64))
    requires
        all_digits(digits@),
        1 <= digits.len() <= u32::MAX,
    ensures
        sum.0@ == sum_text(digits@),
        sum.1 == total(as_integers(digit_values(digits@))),
        evaluation(sum.0@) == Ok::<int, EvalError>(sum.1 as int),
        chunks_of(
            sum.0@,
            digit_values(digits@),
            pluses((digits.len() - 1) as nat),
            digits.len() as nat,
            1,
        ),
{
    let ghost values = digit_values(digits@);
    let first = digits[0];
    let mut expression: Vec<char> = Vec::new();
    expression.push(first);
    let mut i: usize = 1;
    proof {
        assert(is_digit(digits@[0]));
        assert(values.take(1)[0] == digit_value(first) as u64);
        assert(expression@ =~= natural_text(digit_value(first) as nat));
        assert(values.take(1).drop_last().len() == 0);
        assert(total_length(values.take(1).drop_last()) == 0);
        assert(values.take(1).last() == digit_value(first) as u64);
        assert(total_length(values.take(1)) == 1);
    }
    while i < digits.len()
        invariant
            1 <= i <= digits.len(),
            values == digit_values(digits@),
            all_digits(digits@),
            expression@ == joined(values.take(i as int), pluses((i - 1) as nat)),
            total_length(values.take(i as int)) == i,
        decreases digits.len() - i,
    {
        let c = digits[i];
        expression.push('+');
        expression.push(c);
        proof {
            assert(is_digit(digits@[i as int]));
            let longer = values.take(i + 1);
            assert(longer.drop_last() =~= values.take(i as int));
            assert(pluses(i as nat).drop_last() =~= pluses((i - 1) as nat));
            assert(longer.last() == digit_value(c) as u64);
            assert(natural_text(digit_value(c) as nat) =~= seq![c]);
            assert(expression@ =~= joined(values.take(i as int), pluses((i - 1) as nat)).push(
                '+',
            ) + seq![c]);
        }
        i += 1;
    }
    let ghost integers = as_integers(values);
    let mut sum: i64 = 0;
    let mut j: usize = digits.len();
    proof {
        assert(values.take(digits.len() as int) =~= values);
        assert(integers.skip(j as int).len() == 0);
    }
    while j > 0
        invariant
            j <= digits.len() <= u32::MAX,
            values == digit_values(digits@),
            integers == as_integers(values),
            all_digits(digits@),
            sum == total(integers.skip(j as int)),
            0 <= sum <= 9 * (digits.len() - j),
        decreases j,
    {
        j -= 1;
        let c = digits[j];
        proof {
            assert(is_digit(digits@[j as int]));
            assert(integers.skip(j as int)[0] == digit_value(c));
            assert(integers.skip(j as int).skip(1) =~= integers.skip(j + 1));
        }
        sum = sum + (c as u32 - '0' as u32) as i64;
    }
    proof {
        assert(integers.skip(0) =~= integers);
        lemma_sum_evaluates(values);
        assert forall|k: int| 0 <= k < values.len() implies natural_text(
            #[trigger] values[k] as nat,
        ).len() <= 1 by {
            assert(is_digit(digits@[k]));
        }
    }
    (expression, sum)
}

impl Puzzle {
    /// Whether the parts of the puzzle agree: the answer is the value of the
    /// expression, and the prompt shows the digits of the expression and the
    /// answer.
    pub open spec fn is_sound(&self) -> bool {
        &&& evaluation(self.expression@) == Ok::<int, EvalError>(self.answer as int)
        &&& self.prompt@ == prompt_text(self.expression@, self.answer as int)
    }

    /// Whether the puzzle is one of `total` digits in values of at most
    /// `longest` digits: it is sound, its expression is made of such values
    /// and holds `total` digits, and so does what the prompt shows of them.
    pub open spec fn is_for(&self, total: nat, longest: nat) -> bool {
        &&& self.is_sound()
        &&& is_chunked(self.expression@, total, longest)
        &&& digits_in(self.expression@).len() == total
        &&& digits_in(scrambled(self.expression@)).len() == total
    }
}

/// The puzzle whose expression is `expression`, where that has a value.
pub fn puzzle_from(expression: &Vec<char>) -> (made: Option<Puzzle>)
    ensures
        match made {
            Some(puzzle) => puzzle.is_sound() && puzzle.expression@ == expression@,
            None => evaluation(expression@) is Err,
        },
{
    match evaluate_chars(expression) {
        Ok(answer) => {
            let prompt = prompt_chars(expression, answer);
            Some(Puzzle { answer, prompt: string_of(&prompt), expression: string_of(expression) })
        },
        Err(_) => None,
    }
}

/// How often an expression is drawn before the sum of the digits is taken
/// in its place.
pub const MAX_ATTEMPTS: u32 = 100;

/// Draws the values and the operators of one expression.
fn draw_attempt(generator: &mut ThreadRng, total: u32, longest: u32) -> (expression: Vec<char>)
    requires
        1 <= total,
        1 <= longest,
        total <= MAX_CHUNK_DIGITS || longest <= MAX_CHUNK_DIGITS,
    ensures
        is_chunked(expression@, total as nat, longest as nat),
        digits_in(expression@).len() == total,
{
    let values = draw_values(generator, total, longest);
    let expression = draw_expression(generator, &values);
    proof {
        let symbols = choose|symbols: Seq<char>|
            {
                &&& values.len() == symbols.len() + 1
                &&& expression@ == joined(values@, symbols)
                &&& forall|i: int|
                    0 <= i < symbols.len() ==> is_operator_symbol(#[trigger] symbols[i])
                &&& forall|i: int|
                    0 <= i < symbols.len() && #[trigger] symbols[i] == '/' ==> is_divisible(
                        values@[i],
                        values@[i + 1],
                    )
            };
        lemma_joined_digits(values@, symbols);
        assert(chunks_of(expression@, values@, symbols, total as nat, longest as nat));
    }
    expression
}

/// Makes a puzzle of `config.x` digits in values of at most
/// `config.max_size` digits. An expression is drawn until one has a value,
/// `MAX_ATTEMPTS` times at most; after that the digits of the last one, with
/// `+` between each two, are the expression.
pub fn generate_puzzle(config: &ConfigData) -> (puzzle: Puzzle)
    requires
        1 <= config.x,
        1 <= config.max_size,
        config.x <= MAX_CHUNK_DIGITS || config.max_size <= MAX_CHUNK_DIGITS,
    ensures
        puzzle.is_for(config.x as nat, config.max_size as nat),
{
    let mut generator = thread_generator();
    let mut expression = draw_attempt(&mut generator, config.x, config.max_size);
    let mut attempts: u32 = 1;
    loop
        invariant
            1 <= config.x,
            1 <= config.max_size,
            config.x <= MAX_CHUNK_DIGITS || config.max_size <= MAX_CHUNK_DIGITS,
            1 <= attempts <= MAX_ATTEMPTS,
            is_chunked(expression@, config.x as nat, config.max_size as nat),
            digits_in(expression@).len() == config.x,
        decreases MAX_ATTEMPTS - attempts,
    {
        if let Some(puzzle) = puzzle_from(&expression) {
            proof {
                lemma_scrambled_digits(expression@);
            }
            return puzzle;
        }
        if attempts >= MAX_ATTEMPTS {
            break ;
        }
        expression = draw_attempt(&mut generator, config.x, config.max_size);
        attempts += 1;
    }
    let digits = digits_of(&expression);
    let (sum, answer) = sum_expression(&digits);
    let prompt = prompt_chars(&sum, answer);
    proof {
        let values = digit_values(digits@);
        let symbols = pluses((digits.len() - 1) as nat);
        lemma_joined_digits(values, symbols);
        lemma_scrambled_digits(sum@);
        assert(chunks_of(sum@, values, symbols, config.x as nat, config.max_size as nat));
    }
    Puzzle { answer, prompt: string_of(&prompt), expression: string_of(&sum) }
}

} // verus!
