// The older shape of the matcher tests: here every capture is a spread
// variable, binding a non-empty run of tokens.

use pink_runtime::matcher::get_match_bindings;
use pink_runtime::token::{PatternToken, Token};

fn lit(s: &str) -> Token {
    Token::Literal(s.to_owned())
}

fn concrete(s: &str) -> PatternToken {
    PatternToken::Concrete(Token::Literal(s.to_owned()))
}

fn spread(s: &str) -> PatternToken {
    PatternToken::SpreadVariable(s.to_owned())
}

fn spread_is(b: &pink_runtime::matcher::Bindings, name: &str, expected: &[Token]) -> bool {
    match b.get_spread(&name.to_owned()) {
        Some(run) => {
            run.len() == expected.len() && {
                let mut same = true;
                let mut i = 0;
                while i < run.len() {
                    if !run[i].same_as(&expected[i]) {
                        same = false;
                    }
                    i += 1;
                }
                same
            }
        },
        None => false,
    }
}

#[test]
fn test_match_empty() {
    let pattern = vec![];
    let expression = vec![];

    let bindings = get_match_bindings(&pattern, &expression);

    assert!(bindings.is_some());
}

#[test]
fn test_match_literals() {
    let pattern = vec![concrete("token")];
    let expression = vec![lit("token")];

    let bindings = get_match_bindings(&pattern, &expression);

    assert!(bindings.is_some());
}

#[test]
fn test_match_3_literals() {
    let pattern = vec![concrete("token_1"), concrete("token_2"), concrete("token_3")];
    let expression = vec![lit("token_1"), lit("token_2"), lit("token_3")];

    let bindings = get_match_bindings(&pattern, &expression);

    assert!(bindings.is_some());
}

#[test]
fn test_capture_at_middle() {
    let pattern = vec![concrete("token_1"), spread("p"), concrete("token_3")];
    let expression = vec![lit("token_1"), lit("token_2"), lit("token_3")];

    let bindings = get_match_bindings(&pattern, &expression).unwrap();

    assert!(spread_is(&bindings, "p", &[lit("token_2")]));
    assert_eq!(bindings.spreads.len(), 1);
}

#[test]
fn test_capture_at_start() {
    let pattern = vec![spread("p"), concrete("token_2"), concrete("token_3")];
    let expression = vec![lit("token_1"), lit("token_2"), lit("token_3")];

    let bindings = get_match_bindings(&pattern, &expression).unwrap();

    assert!(spread_is(&bindings, "p", &[lit("token_1")]));
    assert_eq!(bindings.spreads.len(), 1);
}

#[test]
fn test_capture_single() {
    let pattern = vec![spread("x")];
    let expression = vec![lit("token")];

    let bindings = get_match_bindings(&pattern, &expression).unwrap();

    assert!(spread_is(&bindings, "x", &[lit("token")]));
    assert_eq!(bindings.spreads.len(), 1);
}

#[test]
fn test_capture_at_end() {
    let pattern = vec![concrete("token_1"), concrete("token_2"), spread("p")];
    let expression = vec![lit("token_1"), lit("token_2"), lit("token_3")];

    let bindings = get_match_bindings(&pattern, &expression).unwrap();

    assert!(spread_is(&bindings, "p", &[lit("token_3")]));
    assert_eq!(bindings.spreads.len(), 1);
}

#[test]
fn test_match_capture() {
    let pattern = vec![concrete("token_1"), spread("p"), concrete("token_2"), spread("p")];
    let expression = vec![lit("token_1"), lit("variable"), lit("token_2"), lit("variable")];

    let bindings = get_match_bindings(&pattern, &expression).unwrap();

    assert!(spread_is(&bindings, "p", &[lit("variable")]));
    assert_eq!(bindings.spreads.len(), 1);
}

#[test]
fn match_capture_two_variables() {
    let pattern = vec![
        concrete("token_1"),
        spread("p"),
        concrete("token_2"),
        spread("p"),
        spread("q"),
    ];
    let expression = vec![
        lit("token_1"),
        lit("variable"),
        lit("variable"),
        lit("token_2"),
        lit("variable"),
        lit("variable"),
        lit("other_variable"),
        lit("other_variable"),
    ];

    let bindings = get_match_bindings(&pattern, &expression).unwrap();

    assert!(spread_is(&bindings, "p", &[lit("variable"), lit("variable")]));
    assert!(spread_is(&bindings, "q", &[lit("other_variable"), lit("other_variable")]));
    assert_eq!(bindings.spreads.len(), 2);
}

#[test]
fn test_match_capture_fail() {
    let pattern = vec![concrete("token_1"), spread("p"), concrete("token_2"), spread("p")];
    let expression = vec![
        lit("token_1"),
        lit("variable"),
        lit("token_2"),
        lit("not_the_same_variable"),
    ];

    let bindings = get_match_bindings(&pattern, &expression);

    assert!(bindings.is_none());
}

#[test]
fn reject_leftovers() {
    let pattern = vec![concrete("token_1"), concrete("token_2")];
    let expression = vec![lit("token_1"), lit("token_2"), lit("token_3")];

    let bindings = get_match_bindings(&pattern, &expression);

    assert!(bindings.is_none());
}
