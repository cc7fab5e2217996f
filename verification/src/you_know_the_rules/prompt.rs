//! What the player is shown of a puzzle: the digits of its expression in
//! ascending order, which hides how they were grouped, and the number to
//! reach.

use super::text::{
    all_digits, digit_char, digit_value, digits, digits_in, integer_text, is_digit,
    lemma_filter_keeps_all, lemma_filter_keeps_none, lemma_natural_text, natural_text,
    push_integer,
};
use vstd::prelude::*;

verus! {

/// The test for being the character `c`, as a value.
pub open spec fn is_char(c: char) -> spec_fn(char) -> bool {
    |x: char| x == c
}

/// How often `c` stands in `text`.
pub open spec fn occurrences(text: Seq<char>, c: char) -> nat {
    text.filter(is_char(c)).len()
}

/// `count` times the character `c`.
pub open spec fn repeated(c: char, count: nat) -> Seq<char> {
    Seq::new(count, |i: int| c)
}

/// The digits of `text` whose value is below `bound`, in ascending order:
/// its zeros, then its ones, and so on.
pub open spec fn sorted_below(text: Seq<char>, bound: nat) -> Seq<char>
    decreases bound,
{
    if bound == 0 {
        Seq::empty()
    } else {
        let digit = digit_char(bound - 1);
        sorted_below(text, (bound - 1) as nat) + repeated(digit, occurrences(text, digit))
    }
}

/// The digits of `text` in ascending order.
pub open spec fn sorted_digits(text: Seq<char>) -> Seq<char> {
    sorted_below(text, 10)
}

/// `text` with a space after each character.
pub open spec fn spaced(text: Seq<char>) -> Seq<char>
    decreases text.len(),
{
    if text.len() == 0 {
        Seq::empty()
    } else {
        spaced(text.drop_last()).push(text.last()).push(' ')
    }
}

/// The digits of `expression` as the player is shown them: in ascending
/// order, a space after each.
pub open spec fn scrambled(expression: Seq<char>) -> Seq<char> {
    spaced(sorted_digits(expression))
}

/// The prompt of a puzzle: the digits of its expression, `= ` and the answer.
pub open spec fn prompt_text(expression: Seq<char>, answer: int) -> Seq<char> {
    scrambled(expression) + seq!['=', ' '] + integer_text(answer)
}

/// The prompt for `expression` and its value `answer`.
pub fn prompt_chars(expression: &Vec<char>, answer: i64) -> (prompt: Vec<char>)
    ensures
        prompt@ == prompt_text(expression@, answer as int),
{
    let mut prompt: Vec<char> = Vec::new();
    let mut value: u8 = 0;
    while value < 10
        invariant
            value <= 10,
            prompt@ == spaced(sorted_below(expression@, value as nat)),
        decreases 10 - value,
    {
        let digit = (value + 48u8) as char;
        let ghost lower = sorted_below(expression@, value as nat);
        let mut i: usize = 0;
        proof {
            assert(digit == digit_char(value as int));
            assert(expression@.take(0).filter(is_char(digit)) =~= Seq::<char>::empty()) by {
                reveal(Seq::filter);
            }
            assert(lower + repeated(digit, 0) =~= lower);
        }
        while i < expression.len()
            invariant
                i <= expression.len(),
                prompt@ == spaced(
                    lower + repeated(digit, occurrences(expression@.take(i as int), digit)),
                ),
            decreases expression.len() - i,
        {
            let c = expression[i];
            proof {
                let seen = expression@.take(i as int);
                assert(expression@.take(i + 1) =~= seen.push(c));
                seen.lemma_filter_len_push(is_char(digit), c);
                let shown = lower + repeated(digit, occurrences(seen, digit));
                if c == digit {
                    let more = lower + repeated(digit, occurrences(seen, digit) + 1);
                    assert(more.drop_last() =~= shown);
                }
            }
            if c == digit {
                prompt.push(c);
                prompt.push(' ');
            }
            i += 1;
        }
        proof {
            assert(expression@.take(expression@.len() as int) =~= expression@);
        }
        value += 1;
    }
    prompt.push('=');
    prompt.push(' ');
    let ghost shown = prompt@;
    push_integer(&mut prompt, answer);
    proof {
        assert(shown =~= scrambled(expression@) + seq!['=', ' ']);
    }
    prompt
}

/// The digits below `bound`, sorted, of a text with one character more: one
/// more where that character is such a digit.
proof fn lemma_sorted_below_grows(text: Seq<char>, c: char, bound: nat)
    requires
        bound <= 10,
    ensures
        sorted_below(text.push(c), bound).len() == sorted_below(text, bound).len() + (if is_digit(
            c,
        ) && digit_value(c) < bound {
            1int
        } else {
            0int
        }),
    decreases bound,
{
    if bound > 0 {
        lemma_sorted_below_grows(text, c, (bound - 1) as nat);
        text.lemma_filter_len_push(is_char(digit_char(bound - 1)), c);
    }
}

/// The sorted digits of a text are digits, and as many as the text holds.
pub proof fn lemma_sorted_digits(text: Seq<char>)
    ensures
        sorted_digits(text).len() == digits_in(text).len(),
        all_digits(sorted_digits(text)),
    decreases text.len(),
{
    lemma_sorted_below_digits(text, 10);
    if text.len() == 0 {
        lemma_sorted_below_of_none(text, 10);
        assert(digits_in(text).len() == 0) by {
            reveal(Seq::filter);
        }
    } else {
        let shorter = text.drop_last();
        assert(shorter.push(text.last()) =~= text);
        lemma_sorted_digits(shorter);
        lemma_sorted_below_grows(shorter, text.last(), 10);
        shorter.lemma_filter_len_push(digits(), text.last());
    }
}

/// An empty text has no sorted digits.
proof fn lemma_sorted_below_of_none(text: Seq<char>, bound: nat)
    requires
        text.len() == 0,
    ensures
        sorted_below(text, bound).len() == 0,
    decreases bound,
{
    if bound > 0 {
        lemma_sorted_below_of_none(text, (bound - 1) as nat);
        assert(text.filter(is_char(digit_char(bound - 1))).len() == 0) by {
            reveal(Seq::filter);
        }
    }
}

/// The sorted digits of a text are digits.
proof fn lemma_sorted_below_digits(text: Seq<char>, bound: nat)
    requires
        bound <= 10,
    ensures
        all_digits(sorted_below(text, bound)),
    decreases bound,
{
    if bound > 0 {
        lemma_sorted_below_digits(text, (bound - 1) as nat);
        let lower = sorted_below(text, (bound - 1) as nat);
        let whole = sorted_below(text, bound);
        assert forall|i: int| 0 <= i < whole.len() implies is_digit(#[trigger] whole[i]) by {
            if i < lower.len() {
                assert(whole[i] == lower[i]);
            }
        }
    }
}

/// Spaces between digits add no digit.
pub proof fn lemma_spaced_digits(text: Seq<char>)
    requires
        all_digits(text),
    ensures
        digits_in(spaced(text)).len() == text.len(),
    decreases text.len(),
{
    if text.len() == 0 {
        assert(digits_in(spaced(text)).len() == 0) by {
            reveal(Seq::filter);
        }
    } else {
        lemma_spaced_digits(text.drop_last());
        let inner = spaced(text.drop_last());
        inner.lemma_filter_len_push(digits(), text.last());
        inner.push(text.last()).lemma_filter_len_push(digits(), ' ');
    }
}

/// The player is shown as many digits as the expression holds.
pub proof fn lemma_scrambled_digits(expression: Seq<char>)
    ensures
        digits_in(scrambled(expression)).len() == digits_in(expression).len(),
{
    lemma_sorted_digits(expression);
    lemma_spaced_digits(sorted_digits(expression));
}

/// The sorted digits of a text ascend, and all of those below `bound` are
/// below it.
proof fn lemma_sorted_below_ascends(text: Seq<char>, bound: nat)
    requires
        bound <= 10,
    ensures
        forall|i: int|
            0 <= i < sorted_below(text, bound).len() ==> digit_value(
                #[trigger] sorted_below(text, bound)[i],
            ) < bound,
        forall|i: int, j: int|
            0 <= i <= j < sorted_below(text, bound).len() ==> sorted_below(text, bound)[i]
                <= sorted_below(text, bound)[j],
    decreases bound,
{
    if bound > 0 {
        lemma_sorted_below_ascends(text, (bound - 1) as nat);
        let lower = sorted_below(text, (bound - 1) as nat);
        let whole = sorted_below(text, bound);
        assert forall|i: int| 0 <= i < whole.len() implies digit_value(#[trigger] whole[i])
            < bound by {
            if i < lower.len() {
                assert(whole[i] == lower[i]);
            }
        }
        assert forall|i: int, j: int| 0 <= i <= j < whole.len() implies whole[i] <= whole[j] by {
            if j < lower.len() {
                assert(whole[i] == lower[i] && whole[j] == lower[j]);
            } else if i < lower.len() {
                assert(whole[i] == lower[i]);
                assert(digit_value(lower[i]) < bound - 1);
            }
        }
    }
}

/// The sorted digits of a text ascend.
pub proof fn lemma_sorted_digits_ascend(text: Seq<char>)
    ensures
        forall|i: int, j: int|
            0 <= i <= j < sorted_digits(text).len() ==> sorted_digits(text)[i] <= sorted_digits(
                text,
            )[j],
{
    lemma_sorted_below_ascends(text, 10);
}

/// Among the sorted digits below `bound`, a digit stands as often as in the
/// text where it is below `bound`, and not at all where it is not.
proof fn lemma_sorted_below_occurrences(text: Seq<char>, bound: nat, c: char)
    requires
        bound <= 10,
        is_digit(c),
    ensures
        occurrences(sorted_below(text, bound), c) == if digit_value(c) < bound {
            occurrences(text, c)
        } else {
            0
        },
    decreases bound,
{
    if bound == 0 {
        lemma_filter_keeps_none(sorted_below(text, bound), is_char(c));
    } else {
        lemma_sorted_below_occurrences(text, (bound - 1) as nat, c);
        let digit = digit_char(bound - 1);
        let lower = sorted_below(text, (bound - 1) as nat);
        let run = repeated(digit, occurrences(text, digit));
        Seq::filter_distributes_over_add(lower, run, is_char(c));
        if c == digit {
            lemma_filter_keeps_all(run, is_char(c));
        } else {
            lemma_filter_keeps_none(run, is_char(c));
        }
    }
}

/// A digit stands among the sorted digits of a text as often as in the text.
pub proof fn lemma_sorted_digits_occurrences(text: Seq<char>, c: char)
    requires
        is_digit(c),
    ensures
        occurrences(sorted_digits(text), c) == occurrences(text, c),
{
    lemma_sorted_below_occurrences(text, 10, c);
}

/// A whole prompt holds the digits of the expression and, after them, those
/// of the answer.
pub proof fn lemma_prompt_digits(expression: Seq<char>, answer: int)
    ensures
        digits_in(prompt_text(expression, answer)).len() == digits_in(expression).len()
            + natural_text(
            (if answer < 0 {
                -answer
            } else {
                answer
            }) as nat,
        ).len(),
{
    let magnitude = (if answer < 0 {
        -answer
    } else {
        answer
    }) as nat;
    let shown = scrambled(expression);
    let equals = seq!['=', ' '];
    let numeral = natural_text(magnitude);
    lemma_scrambled_digits(expression);
    lemma_natural_text(magnitude);
    lemma_filter_keeps_all(numeral, digits());
    lemma_filter_keeps_none(equals, digits());
    lemma_filter_keeps_none(seq!['-'], digits());
    Seq::filter_distributes_over_add(shown + equals, integer_text(answer), digits());
    Seq::filter_distributes_over_add(shown, equals, digits());
    Seq::filter_distributes_over_add(seq!['-'], numeral, digits());
}

} // verus!
