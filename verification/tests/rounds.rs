use xeqy::you_know_the_rules::generator::puzzle_from;
use xeqy::you_know_the_rules::{judge, EvalError, Puzzle, ResolveError, Verdict};
use xeqy::ConfigData;

fn puzzle(expression: &str) -> Puzzle {
    puzzle_from(&expression.chars().collect()).unwrap()
}

#[test]
fn the_value_decides_not_the_digits() {
    let asked = puzzle("1+2+3+4");
    assert_eq!(judge(&asked, &"1+2+3+4".to_string()), Verdict::Victory);
    assert_eq!(judge(&asked, &"3*4-1*2".to_string()), Verdict::Victory);
    assert_eq!(judge(&asked, &"(2*3+4)^1".to_string()), Verdict::Victory);
    assert_eq!(judge(&asked, &"10".to_string()), Verdict::Victory);
    assert_eq!(judge(&asked, &"5+5".to_string()), Verdict::Victory);
}

#[test]
fn another_value_is_a_miss() {
    let asked = puzzle("1+2+3+4");
    assert_eq!(judge(&asked, &"1+2+3*4".to_string()), Verdict::Miss(15));
    assert_eq!(judge(&asked, &"(1-2)*34".to_string()), Verdict::Miss(-34));
}

#[test]
fn an_expression_without_value_is_invalid() {
    let asked = puzzle("1+2+3+4");
    assert_eq!(
        judge(&asked, &"1+2+".to_string()),
        Verdict::Invalid(ResolveError::Inner {
            input: "1+2+".to_string(),
            cause: EvalError::InvalidNumber
        })
    );
    assert_eq!(judge(&asked, &"(1+2".to_string()), Verdict::Invalid(ResolveError::UnmatchedOpen));
    assert_eq!(judge(&asked, &"1+2)".to_string()), Verdict::Invalid(ResolveError::UnmatchedClose));
}

#[test]
fn a_solved_puzzle_is_worth_its_digits() {
    let mut config = ConfigData { max_size: 2, x: 4, score: 0 };
    config.award();
    assert_eq!(config, ConfigData { max_size: 2, x: 4, score: 4 });
    config.award();
    assert_eq!(config.score, 8);
    let mut config = ConfigData { max_size: 1, x: u32::MAX, score: -5 };
    config.award();
    assert_eq!(config.score, 4294967290);
    let mut config = ConfigData { max_size: 1, x: 7, score: i64::MAX - 7 };
    config.award();
    assert_eq!(config.score, i64::MAX);
}
