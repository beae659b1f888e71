use pink_runtime::chars::{chars_of, string_of_range};
use pink_runtime::parser::{domain, parse_definition, parse_use, reserve, strip_comments};
use pink_runtime::scan::scan_pattern_text;
use pink_runtime::strset::StrSet;
use pink_runtime::token::{PatternToken, Token};

fn rest_of(cs: &Vec<char>, pos: usize) -> String {
    string_of_range(cs, pos, cs.len())
}

fn is_lit(p: &PatternToken, name: &str) -> bool {
    match p {
        PatternToken::Concrete(Token::Literal(s)) => s == name,
        _ => false,
    }
}

fn is_elem(p: &PatternToken, name: &str) -> bool {
    match p {
        PatternToken::Concrete(Token::Element(s)) => s == name,
        _ => false,
    }
}

fn is_var(p: &PatternToken, name: &str) -> bool {
    match p {
        PatternToken::Variable(s) => s == name,
        _ => false,
    }
}

fn is_spread(p: &PatternToken, name: &str) -> bool {
    match p {
        PatternToken::SpreadVariable(s) => s == name,
        _ => false,
    }
}

#[test]
fn domain_test() {
    let cs = chars_of("domain { a, b, c }");
    let (pos, set) = domain(&cs, 0).ok().unwrap();
    assert_eq!(rest_of(&cs, pos), "");
    assert_eq!(set.len(), 3);
    for name in ["a", "b", "c"] {
        assert!(set.contains(&name.to_owned()));
    }
}

#[test]
fn domain_test_rest() {
    let cs = chars_of("domain { a, b, c } and something else later");
    let (pos, set) = domain(&cs, 0).ok().unwrap();
    assert_eq!(rest_of(&cs, pos), " and something else later");
    assert_eq!(set.len(), 3);
    for name in ["a", "b", "c"] {
        assert!(set.contains(&name.to_owned()));
    }
}

#[test]
fn empty_domain() {
    let cs = chars_of("domain { }");
    let (pos, set) = domain(&cs, 0).ok().unwrap();
    assert_eq!(rest_of(&cs, pos), "");
    assert_eq!(set.len(), 0);
}

fn sample_sets() -> (StrSet, StrSet) {
    let dcs = chars_of("domain { d1, d2, d3 }");
    let (_, dom) = domain(&dcs, 0).ok().unwrap();
    let rcs = chars_of("reserve { r1, r2, r3 }");
    let (_, rsv) = reserve(&rcs, 0).ok().unwrap();
    (dom, rsv)
}

#[test]
fn pattern_test() {
    let (dom, rsv) = sample_sets();

    let single = scan_pattern_text(&rsv, &dom, &chars_of("r1"));
    assert_eq!(single.len(), 1);
    assert!(is_lit(&single[0], "r1"));

    let toks = scan_pattern_text(&rsv, &dom, &chars_of("r1 d2 x r3"));
    assert_eq!(toks.len(), 4);
    assert!(is_lit(&toks[0], "r1"));
    assert!(is_elem(&toks[1], "d2"));
    assert!(is_var(&toks[2], "x"));
    assert!(is_lit(&toks[3], "r3"));
}

#[test]
fn pattern_with_comments() {
    let input = "r1 d2 x # this is a comment\n\tr3 \t\t\t\t # and should be ignored";
    let stripped = strip_comments(&chars_of(input));

    let (dom, rsv) = sample_sets();

    let single = scan_pattern_text(&rsv, &dom, &chars_of("r1"));
    assert_eq!(single.len(), 1);
    assert!(is_lit(&single[0], "r1"));

    let toks = scan_pattern_text(&rsv, &dom, &stripped);
    assert_eq!(toks.len(), 4);
    assert!(is_lit(&toks[0], "r1"));
    assert!(is_elem(&toks[1], "d2"));
    assert!(is_var(&toks[2], "x"));
    assert!(is_lit(&toks[3], "r3"));
}

#[test]
fn spread_variable_pattern() {
    let (dom, rsv) = sample_sets();
    let toks = scan_pattern_text(&rsv, &dom, &chars_of("r1 rest... r2"));
    assert_eq!(toks.len(), 3);
    assert!(is_lit(&toks[0], "r1"));
    assert!(is_spread(&toks[1], "rest"));
    assert!(is_lit(&toks[2], "r2"));
}

#[test]
fn fallback_takes_one_character() {
    let (dom, rsv) = sample_sets();
    let toks = scan_pattern_text(&rsv, &dom, &chars_of("x%y"));
    assert_eq!(toks.len(), 3);
    assert!(is_var(&toks[0], "x"));
    assert!(is_var(&toks[1], "%"));
    assert!(is_var(&toks[2], "y"));
}

#[test]
fn reserved_literal_beats_domain_atom_prefix() {
    let dcs = chars_of("domain { abc }");
    let (_, dom) = domain(&dcs, 0).ok().unwrap();
    let rcs = chars_of("reserve { ab }");
    let (_, rsv) = reserve(&rcs, 0).ok().unwrap();

    let toks = scan_pattern_text(&rsv, &dom, &chars_of("abc"));
    assert!(is_lit(&toks[0], "ab"));
}

#[test]
fn use_clause_parses_like_the_others() {
    let cs = chars_of("use { one, two }");
    let (pos, set) = parse_use(&cs, 0).ok().unwrap();
    assert_eq!(rest_of(&cs, pos), "");
    assert_eq!(set.len(), 2);
    assert!(set.contains(&"one".to_owned()));
    assert!(set.contains(&"two".to_owned()));
}

#[test]
fn missing_keyword_is_an_expected_error() {
    let cs = chars_of("nonsense { }");
    match domain(&cs, 0) {
        Err(pink_runtime::errors::ParseError::Expected { expected, found }) => {
            assert_eq!(expected, "domain");
            assert_eq!(found, "nonsen");
        },
        _ => panic!("a missing keyword must be an expected/found error"),
    }
}

#[test]
fn simple_definition() {
    let (dom, rsv) = sample_sets();
    let cs = chars_of("r1 x r2 => r2 d d2; lol");

    let (pos, defs) = parse_definition(&cs, 0, &dom, &rsv).ok().unwrap();
    assert_eq!(rest_of(&cs, pos), " lol");
    assert_eq!(defs.len(), 1);

    let high = defs[0].get_high();
    assert_eq!(high.len(), 3);
    assert!(is_lit(&high[0], "r1"));
    assert!(is_var(&high[1], "x"));
    assert!(is_lit(&high[2], "r2"));

    let low = defs[0].get_low();
    assert_eq!(low.len(), 3);
    assert!(is_lit(&low[0], "r2"));
    assert!(is_var(&low[1], "d"));
    assert!(is_elem(&low[2], "d2"));
}

#[test]
fn multi_line_definition() {
    let (dom, rsv) = sample_sets();
    let cs = chars_of("r1 x r2 => \n\t\n\tr2 d d2; lol");

    let (pos, defs) = parse_definition(&cs, 0, &dom, &rsv).ok().unwrap();
    assert_eq!(rest_of(&cs, pos), " lol");
    assert_eq!(defs.len(), 1);

    let high = defs[0].get_high();
    assert_eq!(high.len(), 3);
    assert!(is_lit(&high[0], "r1"));
    assert!(is_var(&high[1], "x"));
    assert!(is_lit(&high[2], "r2"));

    let low = defs[0].get_low();
    assert_eq!(low.len(), 3);
    assert!(is_lit(&low[0], "r2"));
    assert!(is_var(&low[1], "d"));
    assert!(is_elem(&low[2], "d2"));
}

#[test]
fn bidirectional_definition_expands_to_two() {
    let (dom, rsv) = sample_sets();
    let cs = chars_of("r1 x <=> x r1;");

    let (_, defs) = parse_definition(&cs, 0, &dom, &rsv).ok().unwrap();
    assert_eq!(defs.len(), 2);

    assert!(is_lit(&defs[0].get_high()[0], "r1"));
    assert!(is_var(&defs[0].get_high()[1], "x"));
    assert!(is_var(&defs[0].get_low()[0], "x"));
    assert!(is_lit(&defs[0].get_low()[1], "r1"));

    assert!(is_var(&defs[1].get_high()[0], "x"));
    assert!(is_lit(&defs[1].get_high()[1], "r1"));
    assert!(is_lit(&defs[1].get_low()[0], "r1"));
    assert!(is_var(&defs[1].get_low()[1], "x"));
}

#[test]
fn definition_without_arrow_is_refused() {
    let (dom, rsv) = sample_sets();
    let cs = chars_of("r1 x r2;");

    assert!(parse_definition(&cs, 0, &dom, &rsv).is_err());
}

#[test]
fn definition_with_two_arrows_is_refused() {
    let (dom, rsv) = sample_sets();
    let cs = chars_of("r1 => r2 => r3;");

    assert!(parse_definition(&cs, 0, &dom, &rsv).is_err());
}

#[test]
fn unclosed_brace_is_an_expected_error() {
    let cs = chars_of("domain { a, b");
    match domain(&cs, 0) {
        Err(pink_runtime::errors::ParseError::Expected { expected, found }) => {
            assert_eq!(expected, "}");
            assert_eq!(found, "a, b");
        },
        _ => panic!("an unclosed set must be an expected/found error"),
    }
}

#[test]
fn empty_pattern_text_scans_to_nothing() {
    let (dom, rsv) = sample_sets();
    assert_eq!(scan_pattern_text(&rsv, &dom, &chars_of("")).len(), 0);
    assert_eq!(scan_pattern_text(&rsv, &dom, &chars_of("   	
 ")).len(), 0);
}

#[test]
fn comments_run_to_end_of_line() {
    let stripped = strip_comments(&chars_of("a # comment\nb"));
    let text = string_of_range(&stripped, 0, stripped.len());
    assert_eq!(text, "a \nb");
}
