use pink_runtime::matcher::get_match_bindings;
use pink_runtime::token::{PatternToken, Token};

fn lit(s: &str) -> Token {
    Token::Literal(s.to_owned())
}

fn concrete(s: &str) -> PatternToken {
    PatternToken::Concrete(Token::Literal(s.to_owned()))
}

fn var(s: &str) -> PatternToken {
    PatternToken::Variable(s.to_owned())
}

fn spread(s: &str) -> PatternToken {
    PatternToken::SpreadVariable(s.to_owned())
}

#[test]
fn match_empty() {
    let pattern = vec![];
    let expression = vec![];

    let bindings = get_match_bindings(&pattern, &expression);

    assert!(bindings.is_some());
    let b = bindings.unwrap();
    assert_eq!(b.singles.len(), 0);
    assert_eq!(b.spreads.len(), 0);
}

#[test]
fn match_literals() {
    let pattern = vec![concrete("token")];
    let expression = vec![lit("token")];

    let bindings = get_match_bindings(&pattern, &expression);

    assert!(bindings.is_some());
}

#[test]
fn match_3_literals() {
    let pattern = vec![concrete("token_1"), concrete("token_2"), concrete("token_3")];
    let expression = vec![lit("token_1"), lit("token_2"), lit("token_3")];

    let bindings = get_match_bindings(&pattern, &expression);

    assert!(bindings.is_some());
}

#[test]
fn capture_at_middle() {
    let pattern = vec![concrete("token_1"), var("p"), concrete("token_3")];
    let expression = vec![lit("token_1"), lit("token_2"), lit("token_3")];

    let bindings = get_match_bindings(&pattern, &expression).unwrap();

    let bound = bindings.get_single(&"p".to_owned()).unwrap();
    assert!(bound.same_as(&lit("token_2")));
    assert_eq!(bindings.singles.len(), 1);
    assert_eq!(bindings.spreads.len(), 0);
}

#[test]
fn capture_at_start() {
    let pattern = vec![var("p"), concrete("token_2"), concrete("token_3")];
    let expression = vec![lit("token_1"), lit("token_2"), lit("token_3")];

    let bindings = get_match_bindings(&pattern, &expression).unwrap();

    let bound = bindings.get_single(&"p".to_owned()).unwrap();
    assert!(bound.same_as(&lit("token_1")));
    assert_eq!(bindings.singles.len(), 1);
}

#[test]
fn capture_single() {
    let pattern = vec![var("x")];
    let expression = vec![lit("token")];

    let bindings = get_match_bindings(&pattern, &expression).unwrap();

    let bound = bindings.get_single(&"x".to_owned()).unwrap();
    assert!(bound.same_as(&lit("token")));
    assert_eq!(bindings.singles.len(), 1);
}

#[test]
fn capture_at_end() {
    let pattern = vec![concrete("token_1"), concrete("token_2"), var("p")];
    let expression = vec![lit("token_1"), lit("token_2"), lit("token_3")];

    let bindings = get_match_bindings(&pattern, &expression).unwrap();

    let bound = bindings.get_single(&"p".to_owned()).unwrap();
    assert!(bound.same_as(&lit("token_3")));
    assert_eq!(bindings.singles.len(), 1);
}

#[test]
fn match_capture() {
    let pattern = vec![concrete("token_1"), var("p"), concrete("token_2"), var("p")];
    let expression = vec![lit("token_1"), lit("variable"), lit("token_2"), lit("variable")];

    let bindings = get_match_bindings(&pattern, &expression).unwrap();

    let bound = bindings.get_single(&"p".to_owned()).unwrap();
    assert!(bound.same_as(&lit("variable")));
    assert_eq!(bindings.singles.len(), 1);
}

#[test]
fn match_capture_spread() {
    let pattern = vec![concrete("token_1"), spread("p"), concrete("token_2"), spread("p")];
    let expression = vec![
        lit("token_1"),
        lit("variable_1"),
        lit("variable_2"),
        lit("token_2"),
        lit("variable_1"),
        lit("variable_2"),
    ];

    let bindings = get_match_bindings(&pattern, &expression).unwrap();

    let run = bindings.get_spread(&"p".to_owned()).unwrap();
    assert_eq!(run.len(), 2);
    assert!(run[0].same_as(&lit("variable_1")));
    assert!(run[1].same_as(&lit("variable_2")));
    assert_eq!(bindings.spreads.len(), 1);
}

#[test]
fn match_capture_fail() {
    let pattern = vec![concrete("token_1"), var("p"), concrete("token_2"), var("p")];
    let expression = vec![
        lit("token_1"),
        lit("variable"),
        lit("token_2"),
        lit("not_the_same_variable"),
    ];

    let bindings = get_match_bindings(&pattern, &expression);

    assert!(bindings.is_none());
}

#[test]
fn single_variable_capture_scenario() {
    let pattern = vec![concrete("a"), var("x"), concrete("c")];
    let expression = vec![lit("a"), lit("b"), lit("c")];

    let bindings = get_match_bindings(&pattern, &expression).unwrap();

    let bound = bindings.get_single(&"x".to_owned()).unwrap();
    assert!(bound.same_as(&lit("b")));
}

#[test]
fn spread_never_binds_empty() {
    let pattern = vec![concrete("a"), spread("p")];
    let expression = vec![lit("a")];

    assert!(get_match_bindings(&pattern, &expression).is_none());

    let pattern = vec![spread("p")];
    let expression = vec![];

    assert!(get_match_bindings(&pattern, &expression).is_none());
}

#[test]
fn element_and_literal_differ() {
    let pattern = vec![PatternToken::Concrete(Token::Element("a".to_owned()))];
    let expression = vec![lit("a")];

    assert!(get_match_bindings(&pattern, &expression).is_none());
}
