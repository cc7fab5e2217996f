use xeqy::you_know_the_rules::text::{
    chars_of, digits_of, is_blank_char, is_digit_char, parse_digits, push_integer, push_natural,
    string_of, without_blanks,
};

#[test]
fn blanks_are_the_white_space_of_std() {
    for code in 0u32..=0x10ffff {
        if let Some(c) = char::from_u32(code) {
            assert_eq!(is_blank_char(c), c.is_whitespace(), "U+{:04X}", code);
        }
    }
}

#[test]
fn digits_are_the_decimal_digits_of_std() {
    for code in 0u32..=0x10ffff {
        if let Some(c) = char::from_u32(code) {
            assert_eq!(is_digit_char(c), c.is_digit(10), "U+{:04X}", code);
        }
    }
}

#[test]
fn chars_of_keeps_every_character() {
    assert_eq!(chars_of(""), Vec::<char>::new());
    assert_eq!(chars_of("a b"), vec!['a', ' ', 'b']);
    assert_eq!(chars_of("é(1)"), vec!['é', '(', '1', ')']);
}

#[test]
fn without_blanks_keeps_the_rest_in_order() {
    let text: Vec<char> = " 1\t+ 2\u{a0}\n".chars().collect();
    assert_eq!(without_blanks(&text), vec!['1', '+', '2']);
    assert_eq!(without_blanks(&Vec::new()), Vec::<char>::new());
}

#[test]
fn digits_of_keeps_the_digits_in_order() {
    let text: Vec<char> = "12+3*40 x".chars().collect();
    assert_eq!(digits_of(&text), vec!['1', '2', '3', '4', '0']);
}

fn numeral(v: i64) -> String {
    let mut out = Vec::new();
    push_integer(&mut out, v);
    out.into_iter().collect()
}

#[test]
fn numerals_are_those_of_std() {
    for v in [0i64, 1, 9, 10, 11, 99, 100, 101, 12345, -1, -9, -10, -12345, i64::MAX, i64::MIN, i64::MIN + 1]
    {
        assert_eq!(numeral(v), v.to_string());
    }
    for v in -1000i64..=1000 {
        assert_eq!(numeral(v), v.to_string());
    }
    let mut out = vec!['x'];
    push_natural(&mut out, u64::MAX);
    let text: String = out.into_iter().collect();
    assert_eq!(text, format!("x{}", u64::MAX));
}

#[test]
fn parse_digits_agrees_with_std() {
    for text in [
        "0",
        "7",
        "42",
        "007",
        "9223372036854775807",
        "9223372036854775808",
        "18446744073709551616",
        "99999999999999999999999999",
        "000000000000000000000000000000012",
    ] {
        let chars: Vec<char> = text.chars().collect();
        assert_eq!(parse_digits(&chars, 0, chars.len()), text.parse::<i64>().ok(), "{}", text);
    }
    let chars: Vec<char> = "12+345".chars().collect();
    assert_eq!(parse_digits(&chars, 3, 6), Some(345));
    assert_eq!(parse_digits(&chars, 0, 2), Some(12));
    assert_eq!(parse_digits(&chars, 2, 2), None);
}

#[test]
fn strings_hold_the_characters_given() {
    assert_eq!(string_of(&Vec::new()), "");
    assert_eq!(string_of(&"1+2".chars().collect()), "1+2");
    assert_eq!(string_of(&"é = ∑".chars().collect()), "é = ∑");
}
