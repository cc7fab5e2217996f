use xeqy::you_know_the_rules::generator::{
    chunk_range, divides, length_range, operator_for, puzzle_from, roll_range, sum_expression,
    MAX_ATTEMPTS, MAX_CHUNK_DIGITS,
};
use xeqy::you_know_the_rules::prompt::prompt_chars;
use xeqy::you_know_the_rules::{generate_puzzle, simexer};
use xeqy::ConfigData;

fn chars(text: &str) -> Vec<char> {
    text.chars().collect()
}

fn text(chars: Vec<char>) -> String {
    chars.into_iter().collect()
}

fn digit_count(text: &str) -> usize {
    text.chars().filter(|c| c.is_ascii_digit()).count()
}

/// The lengths of the runs of digits, and whether any run of two or more
/// starts with a zero.
fn runs(expression: &str) -> (Vec<usize>, bool) {
    let mut lengths = Vec::new();
    let mut leading_zero = false;
    for run in expression.split(|c: char| !c.is_ascii_digit()) {
        lengths.push(run.len());
        if run.len() > 1 && run.starts_with('0') {
            leading_zero = true;
        }
    }
    (lengths, leading_zero)
}

fn check_puzzle(x: u32, max_size: u32) {
    let config = ConfigData { max_size, x, score: 0 };
    let puzzle = generate_puzzle(&config);
    assert_eq!(simexer(&puzzle.expression), Ok(puzzle.answer));
    assert_eq!(digit_count(&puzzle.expression), x as usize);
    let (lengths, leading_zero) = runs(&puzzle.expression);
    assert!(!leading_zero, "{}", puzzle.expression);
    for length in &lengths {
        assert!(1 <= *length && *length <= max_size as usize, "{}", puzzle.expression);
    }
    assert_eq!(lengths.iter().sum::<usize>(), x as usize);
    assert!(puzzle.expression.chars().all(|c| c.is_ascii_digit() || "+-*/^".contains(c)));
    let values: Vec<u64> = puzzle
        .expression
        .split(|c: char| !c.is_ascii_digit())
        .map(|run| run.parse().unwrap())
        .collect();
    let symbols: Vec<char> = puzzle.expression.chars().filter(|c| !c.is_ascii_digit()).collect();
    assert_eq!(values.len(), symbols.len() + 1);
    for (i, symbol) in symbols.iter().enumerate() {
        if *symbol == '/' {
            assert!(values[i + 1] != 0 && values[i] % values[i + 1] == 0, "{}", puzzle.expression);
        }
    }
    let expected_prompt = text(prompt_chars(&chars(&puzzle.expression), puzzle.answer));
    assert_eq!(puzzle.prompt, expected_prompt);
    let (shown, answer) = puzzle.prompt.split_once("= ").unwrap();
    assert_eq!(digit_count(shown), x as usize);
    assert_eq!(answer, puzzle.answer.to_string());
    let mut sorted: Vec<char> = puzzle.expression.chars().filter(|c| c.is_ascii_digit()).collect();
    sorted.sort();
    let mut expected_shown = String::new();
    for c in sorted {
        expected_shown.push(c);
        expected_shown.push(' ');
    }
    assert_eq!(shown, expected_shown);
}

#[test]
fn generated_puzzles_evaluate_to_their_answer() {
    for _ in 0..200 {
        check_puzzle(4, 2);
    }
}

#[test]
fn generated_puzzles_for_many_settings() {
    for x in 1..=12 {
        for max_size in 1..=12 {
            check_puzzle(x, max_size);
        }
    }
    check_puzzle(40, 18);
    check_puzzle(18, 4_000_000_000);
    check_puzzle(300, 1);
    check_puzzle(1, 1);
}

#[test]
fn one_digit_puzzles_are_single_values() {
    let mut seen = std::collections::BTreeSet::new();
    for _ in 0..400 {
        let puzzle = generate_puzzle(&ConfigData { max_size: 1, x: 1, score: 0 });
        assert_eq!(puzzle.expression.len(), 1);
        assert_eq!(puzzle.prompt, format!("{} = {}", puzzle.expression, puzzle.answer));
        seen.insert(puzzle.answer);
    }
    assert!(seen.len() > 1);
    assert!(seen.iter().all(|v| 0 <= *v && *v <= 9));
}

#[test]
fn draws_vary() {
    let mut seen = std::collections::BTreeSet::new();
    for _ in 0..100 {
        seen.insert(generate_puzzle(&ConfigData { max_size: 3, x: 9, score: 0 }).expression);
    }
    assert!(seen.len() > 1);
}

#[test]
fn chunk_ranges() {
    assert_eq!(chunk_range(1), (0, 10));
    assert_eq!(chunk_range(2), (10, 100));
    assert_eq!(chunk_range(3), (100, 1000));
    assert_eq!(chunk_range(9), (100_000_000, 1_000_000_000));
    assert_eq!(chunk_range(18), (100_000_000_000_000_000, 1_000_000_000_000_000_000));
    assert_eq!(MAX_CHUNK_DIGITS, 18);
    assert!(MAX_ATTEMPTS >= 1);
}

#[test]
fn length_ranges() {
    assert_eq!(length_range(4, 2), (1, 3));
    assert_eq!(length_range(1, 2), (1, 2));
    assert_eq!(length_range(2, 2), (1, 3));
    assert_eq!(length_range(7, 18), (1, 8));
    assert_eq!(length_range(u32::MAX, u32::MAX), (1, 4294967296));
}

#[test]
fn roll_ranges() {
    assert_eq!(roll_range(true), (0, 10));
    assert_eq!(roll_range(false), (0, 9));
}

#[test]
fn operators_by_roll() {
    let with_division: String = (0..12).map(|roll| operator_for(true, roll)).collect();
    assert_eq!(with_division, "+-*///////^^");
    let without: String = (0..11).map(|roll| operator_for(false, roll)).collect();
    assert_eq!(without, "+++---***^^");
    assert_eq!(operator_for(true, u64::MAX), '^');
    assert_eq!(operator_for(false, u64::MAX), '^');
}

#[test]
fn division_is_offered_only_where_exact() {
    assert!(divides(12, 4));
    assert!(divides(0, 4));
    assert!(divides(7, 7));
    assert!(!divides(12, 5));
    assert!(!divides(12, 0));
    assert!(!divides(0, 0));
    assert!(!divides(3, 12));
}

#[test]
fn the_sum_of_digits_never_fails() {
    let (expression, answer) = sum_expression(&chars("1234"));
    assert_eq!(text(expression), "1+2+3+4");
    assert_eq!(answer, 10);
    let (expression, answer) = sum_expression(&chars("7"));
    assert_eq!(text(expression), "7");
    assert_eq!(answer, 7);
    let (expression, answer) = sum_expression(&chars("0090"));
    assert_eq!(text(expression.clone()), "0+0+9+0");
    assert_eq!(answer, 9);
    assert_eq!(simexer(&text(expression)), Ok(9));
    let many = vec!['9'; 5000];
    let (expression, answer) = sum_expression(&many);
    assert_eq!(answer, 45000);
    assert_eq!(simexer(&text(expression)), Ok(45000));
}

#[test]
fn puzzles_from_expressions() {
    let puzzle = puzzle_from(&chars("2+3*4")).unwrap();
    assert_eq!(puzzle.answer, 14);
    assert_eq!(puzzle.expression, "2+3*4");
    assert_eq!(puzzle.prompt, "2 3 4 = 14");
    let puzzle = puzzle_from(&chars("31-120")).unwrap();
    assert_eq!(puzzle.answer, -89);
    assert_eq!(puzzle.prompt, "0 1 1 2 3 = -89");
    assert!(puzzle_from(&chars("7/2")).is_none());
    assert!(puzzle_from(&chars("9^99")).is_none());
    assert!(puzzle_from(&chars("")).is_none());
}

#[test]
fn prompts() {
    assert_eq!(text(prompt_chars(&chars("9876543210"), 5)), "0 1 2 3 4 5 6 7 8 9 = 5");
    assert_eq!(text(prompt_chars(&chars("11+1*0"), -3)), "0 1 1 1 = -3");
    assert_eq!(text(prompt_chars(&chars(""), 0)), "= 0");
    assert_eq!(text(prompt_chars(&chars("a+b"), i64::MIN)), "= -9223372036854775808");
}
