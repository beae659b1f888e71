use pink_runtime::eval::{contains_expr, smallest_of, Search};
use pink_runtime::load::parse;
use pink_runtime::resolve::MapResolver;
use pink_runtime::runtime::Runtime;
use pink_runtime::token::{expr_eq, Expression, PatternToken, Token};

const STEPS: usize = 100000;

fn runtime_of(source: &str) -> Runtime {
    let mut resolver = MapResolver::new();
    resolver.insert("main".to_owned(), source.to_owned());
    parse(&"main".to_owned(), &mut resolver, 1000).ok().unwrap()
}

fn expr(rt: &Runtime, text: &str) -> Expression {
    rt.parse_expression(&text.to_owned()).ok().unwrap()
}

#[test]
fn peano_addition_reaches_its_sum() {
    let rt = runtime_of(
        "domain { 0 } reserve { s, + } use { } s ( x... ) + y... => s ( x... + y... ); 0 + x... => x...;",
    );
    let input = expr(&rt, "s ( s ( 0 ) ) + s ( 0 )");
    let expected = expr(&rt, "s ( s ( s ( 0 ) ) )");

    let smallest = rt.eval(input, STEPS).unwrap();
    assert!(expr_eq(&smallest, &expected));
}

#[test]
fn single_token_variables_match_exact_windows_only() {
    // With plain variables each unit of a pattern consumes exactly one
    // token, so `s ( x ) + y` fits no window of this input at all and
    // the input is its own canonical form.
    let rt = runtime_of(
        "domain { 0 } reserve { s, + } use { } s ( x ) + y => s ( x + y ); 0 + x => x;",
    );
    let input = expr(&rt, "s ( s ( 0 ) ) + s ( 0 )");
    let visited = rt.evaluations(input, STEPS).unwrap();
    assert_eq!(visited.len(), 1);

    let smallest = rt.eval(expr(&rt, "s ( s ( 0 ) ) + s ( 0 )"), STEPS).unwrap();
    assert!(expr_eq(&smallest, &expr(&rt, "s ( s ( 0 ) ) + s ( 0 )")));
}

#[test]
fn identity_rule_visits_only_the_input() {
    let rt = runtime_of("domain { a } reserve { } use { } a => a;");
    let input = expr(&rt, "a");

    let visited = rt.evaluations(input, STEPS).unwrap();
    assert_eq!(visited.len(), 1);
    let again = expr(&rt, "a");
    assert!(expr_eq(&visited[0], &again));

    let smallest = rt.eval(expr(&rt, "a"), STEPS).unwrap();
    assert!(expr_eq(&smallest, &again));
}

#[test]
fn unknown_token_is_reported() {
    let rt = runtime_of("domain { a } reserve { } use { }");
    match rt.parse_expression(&"a b".to_owned()) {
        Err(pink_runtime::errors::ParseError::UnknownToken(text)) => {
            assert_eq!(text, "b");
        },
        _ => panic!("an unknown token must surface as such"),
    }
}

#[test]
fn bidirectional_rule_expands_both_ways() {
    let rt = runtime_of("domain { } reserve { x, y, + } use { } x + y <=> y + x;");

    let visited = rt.evaluations(expr(&rt, "x + y"), STEPS).unwrap();
    assert_eq!(visited.len(), 2);
    let forward = expr(&rt, "x + y");
    let backward = expr(&rt, "y + x");
    assert!(contains_expr(&visited, &forward));
    assert!(contains_expr(&visited, &backward));

    let visited_back = rt.evaluations(expr(&rt, "y + x"), STEPS).unwrap();
    assert!(contains_expr(&visited_back, &forward));
    assert!(contains_expr(&visited_back, &backward));
}

#[test]
fn evaluation_is_deterministic() {
    let source = "domain { 0 } reserve { s, + } use { } s ( x ) + y => s ( x + y ); 0 + x => x;";
    let rt = runtime_of(source);

    let first = rt.evaluations(expr(&rt, "s ( 0 ) + s ( 0 )"), STEPS).unwrap();
    let second = rt.evaluations(expr(&rt, "s ( 0 ) + s ( 0 )"), STEPS).unwrap();

    assert_eq!(first.len(), second.len());
    for e in &first {
        assert!(contains_expr(&second, e));
    }
    for e in &second {
        assert!(contains_expr(&first, e));
    }
}

#[test]
fn search_visits_monotonically_and_keeps_the_input() {
    let rt = runtime_of("domain { } reserve { x, y, + } use { } x + y <=> y + x;");
    let defs = rt.definitions();
    let input = expr(&rt, "x + y");
    let input_again = expr(&rt, "x + y");

    let mut search = Search::new(&defs, input);
    let mut sizes: Vec<usize> = Vec::new();
    loop {
        sizes.push(search.visited_list().len());
        if !search.step(&defs) {
            break;
        }
    }
    for w in sizes.windows(2) {
        assert!(w[0] <= w[1]);
    }
    assert!(search.done());
    assert!(contains_expr(search.visited_list(), &input_again));
}

#[test]
fn smallest_of_orders_by_length_then_tokens() {
    let short = Expression::new(vec![Token::Literal("z".to_owned())]);
    let long = Expression::new(vec![
        Token::Literal("a".to_owned()),
        Token::Literal("a".to_owned()),
    ]);
    let exprs = vec![long, short];

    let least = smallest_of(&exprs).unwrap();
    assert_eq!(least.tokens.len(), 1);

    let none: Vec<Expression> = Vec::new();
    assert!(smallest_of(&none).is_none());
}

#[test]
fn lowering_substitutes_the_bindings() {
    let lit = |s: &str| Token::Literal(s.to_owned());
    let high = vec![
        PatternToken::Concrete(lit("a")),
        PatternToken::Variable("x".to_owned()),
        PatternToken::SpreadVariable("r".to_owned()),
    ];
    let low = vec![
        PatternToken::SpreadVariable("r".to_owned()),
        PatternToken::Concrete(lit("b")),
        PatternToken::Variable("x".to_owned()),
    ];
    let definition = pink_runtime::definition::Definition::new(high, low);

    let window = vec![lit("a"), lit("v"), lit("w1"), lit("w2")];
    let lowered = definition.lower(&window).unwrap();
    let expected = Expression::new(vec![lit("w1"), lit("w2"), lit("b"), lit("v")]);
    assert!(expr_eq(&lowered, &expected));

    let raised = definition.raise(&expected.tokens).unwrap();
    let back = Expression::new(vec![lit("a"), lit("v"), lit("w1"), lit("w2")]);
    assert!(expr_eq(&raised, &back));

    let both = definition.get_transformations(&window);
    assert_eq!(both.len(), 1);

    let unbound = pink_runtime::definition::Definition::new(
        vec![PatternToken::Concrete(lit("a"))],
        vec![PatternToken::Variable("ghostly".to_owned())],
    );
    assert!(unbound.lower(&vec![lit("a")]).is_none());
}

#[test]
fn empty_expression_parses_to_no_tokens() {
    let rt = runtime_of("domain { a } reserve { } use { }");
    let e = rt.parse_expression(&"".to_owned()).ok().unwrap();
    assert_eq!(e.tokens.len(), 0);
    let e = rt.parse_expression(&"   ".to_owned()).ok().unwrap();
    assert_eq!(e.tokens.len(), 0);
}

#[test]
fn evaluations_with_no_budget_give_nothing() {
    let rt = runtime_of("domain { a } reserve { } use { } a => a;");
    assert!(rt.evaluations(expr(&rt, "a"), 0).is_none());
}
