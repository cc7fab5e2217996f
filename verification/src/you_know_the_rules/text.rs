//! Characters and decimal numerals.

use vstd::prelude::*;

verus! {

/// The decimal digits `0` to `9`.
pub open spec fn is_digit(c: char) -> bool {
    '0' <= c <= '9'
}

/// The characters that an expression may hold anywhere without effect: those
/// with the Unicode property `White_Space`.
pub open spec fn is_blank(c: char) -> bool {
    ||| '\u{9}' <= c <= '\u{d}'
    ||| c == ' '
    ||| c == '\u{85}'
    ||| c == '\u{a0}'
    ||| c == '\u{1680}'
    ||| '\u{2000}' <= c <= '\u{200a}'
    ||| c == '\u{2028}'
    ||| c == '\u{2029}'
    ||| c == '\u{202f}'
    ||| c == '\u{205f}'
    ||| c == '\u{3000}'
}

/// The test for not being a blank, as a value.
pub open spec fn not_blank() -> spec_fn(char) -> bool {
    |c: char| !is_blank(c)
}

/// What is left of a text once its blanks are taken out.
pub open spec fn strip_blanks(text: Seq<char>) -> Seq<char> {
    text.filter(not_blank())
}

/// The test for a digit, as a value.
pub open spec fn digits() -> spec_fn(char) -> bool {
    |c: char| is_digit(c)
}

/// The digits of `text`, in order.
pub open spec fn digits_in(text: Seq<char>) -> Seq<char> {
    text.filter(digits())
}

/// Whether `c` is a decimal digit.
pub fn is_digit_char(c: char) -> (b: bool)
    ensures
        b == is_digit(c),
{
    '0' <= c && c <= '9'
}

/// Whether `c` is a blank.
pub fn is_blank_char(c: char) -> (b: bool)
    ensures
        b == is_blank(c),
{
    ('\u{9}' <= c && c <= '\u{d}') || c == ' ' || c == '\u{85}' || c == '\u{a0}' || c
        == '\u{1680}' || ('\u{2000}' <= c && c <= '\u{200a}') || c == '\u{2028}' || c
        == '\u{2029}' || c == '\u{202f}' || c == '\u{205f}' || c == '\u{3000}'
}

/// The characters of `input`, in order.
pub fn chars_of(input: &str) -> (chars: Vec<char>)
    ensures
        chars@ == input@,
{
    let mut chars: Vec<char> = Vec::new();
    for c in it: input.chars()
        invariant
            chars@ == it.seq().take(it.index()),
    {
        chars.push(c);
    }
    chars
}

/// The characters of `text` that are not blanks, in order.
pub fn without_blanks(text: &Vec<char>) -> (kept: Vec<char>)
    ensures
        kept@ == strip_blanks(text@),
{
    let mut kept: Vec<char> = Vec::new();
    let mut i: usize = 0;
    proof {
        assert(strip_blanks(text@.take(0)) =~= Seq::<char>::empty()) by {
            reveal(Seq::filter);
        }
    }
    while i < text.len()
        invariant
            i <= text.len(),
            kept@ == strip_blanks(text@.take(i as int)),
        decreases text.len() - i,
    {
        let c = text[i];
        proof {
            let seen = text@.take(i as int);
            assert(text@.take(i + 1) =~= seen.push(c));
            seen.lemma_filter_push(c, not_blank());
        }
        if !is_blank_char(c) {
            kept.push(c);
        }
        i += 1;
    }
    proof {
        assert(text@.take(text@.len() as int) =~= text@);
    }
    kept
}

/// The number that a digit stands for.
pub open spec fn digit_value(c: char) -> int {
    c as int - '0' as int
}

/// The digit that stands for `d`, for `d` from 0 to 9.
pub open spec fn digit_char(d: int) -> char {
    (d + '0' as int) as char
}

/// Whether every character of `text` is a digit.
pub open spec fn all_digits(text: Seq<char>) -> bool {
    forall|i: int| 0 <= i < text.len() ==> is_digit(#[trigger] text[i])
}

/// The number that a run of digits denotes in base ten; the empty run denotes 0.
pub open spec fn decimal_value(digits: Seq<char>) -> int
    decreases digits.len(),
{
    if digits.len() == 0 {
        0
    } else {
        10 * decimal_value(digits.drop_last()) + digit_value(digits.last())
    }
}

/// What a run of digits denotes as a value of an expression: its number,
/// unless the run is empty or the number is above `i64::MAX`.
pub open spec fn number_of(digits: Seq<char>) -> Option<int> {
    if digits.len() > 0 && decimal_value(digits) <= i64::MAX {
        Some(decimal_value(digits))
    } else {
        None
    }
}

/// The numeral of a natural number: base ten, no sign, no leading zero but
/// for 0 itself.
pub open spec fn natural_text(n: nat) -> Seq<char>
    decreases n,
{
    if n < 10 {
        seq![digit_char(n as int)]
    } else {
        natural_text(n / 10).push(digit_char((n % 10) as int))
    }
}

/// The numeral of an integer: that of its magnitude, after `-` where it is
/// negative.
pub open spec fn integer_text(v: int) -> Seq<char> {
    if v < 0 {
        seq!['-'] + natural_text((-v) as nat)
    } else {
        natural_text(v as nat)
    }
}

/// A numeral is made of digits, is never empty, and denotes its number.
pub proof fn lemma_natural_text(n: nat)
    ensures
        all_digits(natural_text(n)),
        natural_text(n).len() >= 1,
        decimal_value(natural_text(n)) == n,
        n > 0 ==> natural_text(n)[0] != '0',
    decreases n,
{
    if n < 10 {
        assert(natural_text(n).drop_last() =~= Seq::<char>::empty());
        assert(decimal_value(Seq::<char>::empty()) == 0);
    } else {
        lemma_natural_text(n / 10);
        let text = natural_text(n);
        assert(text.drop_last() =~= natural_text(n / 10));
        assert(text[0] == natural_text(n / 10)[0]);
    }
}

/// A run of digits denotes a natural number, and no less than any of its
/// prefixes does.
pub proof fn lemma_decimal_value_prefix(digits: Seq<char>, k: int)
    requires
        all_digits(digits),
        0 <= k <= digits.len(),
    ensures
        0 <= decimal_value(digits.take(k)) <= decimal_value(digits),
    decreases digits.len() - k,
{
    lemma_decimal_value_nonnegative(digits.take(k));
    if k == digits.len() {
        assert(digits.take(k) =~= digits);
    } else {
        lemma_decimal_value_prefix(digits, k + 1);
        assert(digits.take(k + 1).drop_last() =~= digits.take(k));
    }
}

/// A run of digits denotes a natural number.
pub proof fn lemma_decimal_value_nonnegative(digits: Seq<char>)
    requires
        all_digits(digits),
    ensures
        0 <= decimal_value(digits),
    decreases digits.len(),
{
    if digits.len() > 0 {
        lemma_decimal_value_nonnegative(digits.drop_last());
    }
}

/// The number that the digits of `chars` from `start` up to `end` denote, or
/// `None` where there is no digit or the number is above `i64::MAX`.
pub fn parse_digits(chars: &Vec<char>, start: usize, end: usize) -> (number: Option<i64>)
    requires
        start <= end <= chars.len(),
        all_digits(chars@.subrange(start as int, end as int)),
    ensures
        match number {
            Some(value) => number_of(chars@.subrange(start as int, end as int)) == Some(
                value as int,
            ),
            None => number_of(chars@.subrange(start as int, end as int)) is None,
        },
{
    if start == end {
        return None;
    }
    let ghost digits = chars@.subrange(start as int, end as int);
    let mut value: i64 = 0;
    let mut i: usize = start;
    while i < end
        invariant
            start <= i <= end <= chars.len(),
            digits == chars@.subrange(start as int, end as int),
            all_digits(digits),
            value == decimal_value(digits.take(i - start)),
        decreases end - i,
    {
        let c = chars[i];
        proof {
            assert(digits[i - start] == c);
            assert(digits.take(i - start + 1).drop_last() =~= digits.take(i - start));
            lemma_decimal_value_prefix(digits, i - start + 1);
            lemma_decimal_value_prefix(digits, i - start);
        }
        let d: i64 = (c as u32 - '0' as u32) as i64;
        let shifted = match value.checked_mul(10) {
            Some(shifted) => shifted,
            None => { return None; },
        };
        value = match shifted.checked_add(d) {
            Some(sum) => sum,
            None => { return None; },
        };
        i += 1;
    }
    proof {
        assert(digits.take(end - start) =~= digits);
    }
    Some(value)
}

/// Appends the numeral of `n` to `out`.
pub fn push_natural(out: &mut Vec<char>, n: u64)
    ensures
        final(out)@ == old(out)@ + natural_text(n as nat),
    decreases n,
{
    if n >= 10 {
        push_natural(out, n / 10);
    }
    let d: u8 = (n % 10) as u8;
    out.push((d + 48u8) as char);
    proof {
        assert(final(out)@ =~= old(out)@ + natural_text(n as nat));
    }
}

/// Appends the numeral of `v` to `out`.
pub fn push_integer(out: &mut Vec<char>, v: i64)
    ensures
        final(out)@ == old(out)@ + integer_text(v as int),
{
    if v < 0 {
        out.push('-');
        // The magnitude of `i64::MIN` is above `i64::MAX`: negate in two steps.
        let magnitude: u64 = (-(v + 1)) as u64 + 1;
        push_natural(out, magnitude);
        proof {
            assert(final(out)@ =~= old(out)@ + integer_text(v as int));
        }
    } else {
        push_natural(out, v as u64);
    }
}

/// A text keeps all of its characters where each passes the test.
pub proof fn lemma_filter_keeps_all(text: Seq<char>, test: spec_fn(char) -> bool)
    requires
        forall|i: int| 0 <= i < text.len() ==> test(#[trigger] text[i]),
    ensures
        text.filter(test) == text,
    decreases text.len(),
{
    reveal(Seq::filter);
    if text.len() > 0 {
        lemma_filter_keeps_all(text.drop_last(), test);
        assert(text.drop_last().push(text.last()) =~= text);
    }
}

/// A text keeps none of its characters where none passes the test.
pub proof fn lemma_filter_keeps_none(text: Seq<char>, test: spec_fn(char) -> bool)
    requires
        forall|i: int| 0 <= i < text.len() ==> !test(#[trigger] text[i]),
    ensures
        text.filter(test) == Seq::<char>::empty(),
    decreases text.len(),
{
    reveal(Seq::filter);
    if text.len() > 0 {
        lemma_filter_keeps_none(text.drop_last(), test);
    }
}

/// The digits of `text`, in order.
pub fn digits_of(text: &Vec<char>) -> (found: Vec<char>)
    ensures
        found@ == digits_in(text@),
        all_digits(found@),
{
    let mut found: Vec<char> = Vec::new();
    let mut i: usize = 0;
    proof {
        lemma_filter_keeps_none(text@.take(0), digits());
    }
    while i < text.len()
        invariant
            i <= text.len(),
            found@ == digits_in(text@.take(i as int)),
            all_digits(found@),
        decreases text.len() - i,
    {
        let c = text[i];
        proof {
            let seen = text@.take(i as int);
            assert(text@.take(i + 1) =~= seen.push(c));
            seen.lemma_filter_push(c, digits());
        }
        if is_digit_char(c) {
            found.push(c);
        }
        i += 1;
    }
    proof {
        assert(text@.take(text@.len() as int) =~= text@);
    }
    found
}

/// `String::push`: the character is added at the end.
pub assume_specification[ String::push ](text: &mut String, c: char)
    ensures
        final(text)@ == old(text)@.push(c),
;

/// The text that `chars` holds.
pub fn string_of(chars: &Vec<char>) -> (text: String)
    ensures
        text@ == chars@,
{
    let mut text = String::new();
    let mut i: usize = 0;
    while i < chars.len()
        invariant
            i <= chars.len(),
            text@ == chars@.take(i as int),
        decreases chars.len() - i,
    {
        text.push(chars[i]);
        proof {
            assert(chars@.take(i + 1) =~= chars@.take(i as int).push(chars@[i as int]));
        }
        i += 1;
    }
    proof {
        assert(chars@.take(chars.len() as int) =~= chars@);
    }
    text
}

} // verus!
