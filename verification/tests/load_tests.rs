use pink_runtime::errors::ParseError;
use pink_runtime::load::{next_dep_action, parse, DepAction};
use pink_runtime::resolve::MapResolver;
use pink_runtime::strset::StrSet;
use pink_runtime::structure::Structure;

fn resolver_with(modules: &[(&str, &str)]) -> MapResolver {
    let mut resolver = MapResolver::new();
    for (name, source) in modules {
        resolver.insert((*name).to_owned(), (*source).to_owned());
    }
    resolver
}

#[test]
fn parse_cycle() {
    let mut resolver = resolver_with(&[
        ("cycle1", "domain { } reserve { } use { cycle2 }"),
        ("cycle2", "domain { } reserve { } use { cycle1 }"),
    ]);

    match parse(&"cycle1".to_owned(), &mut resolver, 1000) {
        Err(ParseError::CircularDependency { cycle }) => {
            assert!(cycle.contains(&"cycle1".to_owned()));
            assert!(cycle.contains(&"cycle2".to_owned()));
        },
        _ => panic!("a circular use graph must be refused"),
    }
}

#[test]
fn loading_assembles_the_runtime() {
    let mut resolver = resolver_with(&[
        ("main", "domain { a } reserve { ! } use { helper } a ! => a;"),
        ("helper", "domain { b } reserve { ? } use { }"),
    ]);

    let rt = parse(&"main".to_owned(), &mut resolver, 1000).ok().unwrap();
    assert!(rt.contains(&"intrinsic".to_owned()));
    assert!(rt.contains(&"main".to_owned()));
    assert!(rt.contains(&"helper".to_owned()));
    assert_eq!(rt.len(), 3);

    let dom = rt.domain();
    assert!(dom.contains(&"a".to_owned()));
    assert!(dom.contains(&"b".to_owned()));
    let rsv = rt.reserved();
    assert!(rsv.contains(&"!".to_owned()));
    assert!(rsv.contains(&"?".to_owned()));
    assert!(rsv.contains(&"(".to_owned()));
    assert_eq!(rt.definitions().len(), 1);
}

#[test]
fn shared_dependency_loads_once() {
    let mut resolver = resolver_with(&[
        ("main", "domain { } reserve { } use { left, right }"),
        ("left", "domain { } reserve { } use { base }"),
        ("right", "domain { } reserve { } use { base }"),
        ("base", "domain { x } reserve { } use { }"),
    ]);

    let rt = parse(&"main".to_owned(), &mut resolver, 1000).ok().unwrap();
    assert_eq!(rt.len(), 5);
    assert!(rt.contains(&"base".to_owned()));
}

#[test]
fn missing_module_is_file_not_found() {
    let mut resolver = resolver_with(&[("main", "domain { } reserve { } use { gone }")]);

    match parse(&"main".to_owned(), &mut resolver, 1000) {
        Err(ParseError::FileNotFound(name)) => assert_eq!(name, "gone"),
        _ => panic!("a module the resolver cannot produce must be reported"),
    }
}

#[test]
fn overlap_surfaces_from_loading() {
    let mut resolver = resolver_with(&[("main", "domain { a } reserve { a } use { }")]);

    match parse(&"main".to_owned(), &mut resolver, 1000) {
        Err(ParseError::DomainAndReservedOverlap { culprit }) => assert_eq!(culprit, "a"),
        _ => panic!("an overlapping module must be refused"),
    }
}

#[test]
fn exhausted_budget_is_reported() {
    let mut resolver = resolver_with(&[("main", "domain { } reserve { } use { }")]);

    match parse(&"main".to_owned(), &mut resolver, 0) {
        Err(ParseError::LoadLimit) => {},
        _ => panic!("a zero budget cannot load anything"),
    }
}

#[test]
fn cross_module_names_resolve_in_definitions() {
    let mut resolver = resolver_with(&[
        ("main", "domain { } reserve { on } use { base } on b => b;"),
        ("base", "domain { b } reserve { } use { }"),
    ]);

    let rt = parse(&"main".to_owned(), &mut resolver, 1000).ok().unwrap();
    let defs = rt.definitions();
    assert_eq!(defs.len(), 1);
    let high = defs[0].get_high();
    assert_eq!(high.len(), 2);
    match &high[1] {
        pink_runtime::token::PatternToken::Concrete(pink_runtime::token::Token::Element(
            name,
        )) => {
            assert_eq!(name, "b");
        },
        _ => panic!("the atom of the dependency must resolve as an element"),
    }
}

#[test]
fn std_library_loads_through_its_resolver() {
    let mut resolver = pink_runtime::resolve::StdResolver::new();
    let rt = parse(&"std/peano".to_owned(), &mut resolver, 1000).ok().unwrap();
    assert!(rt.contains(&"std/peano".to_owned()));
    assert!(rt.domain().contains(&"0".to_owned()));
}

#[test]
fn embedded_peano_reduces_nested_sums() {
    let mut resolver = pink_runtime::resolve::StdResolver::new();
    let rt = parse(&"std/peano".to_owned(), &mut resolver, 1000).ok().unwrap();
    let input = rt.parse_expression(&"s ( s ( 0 ) ) + s ( 0 )".to_owned()).ok().unwrap();
    let expected = rt.parse_expression(&"s ( s ( s ( 0 ) ) )".to_owned()).ok().unwrap();
    let smallest = rt.eval(input, 100000).unwrap();
    assert!(pink_runtime::token::expr_eq(&smallest, &expected));
}

#[test]
fn header_parses_the_three_clauses() {
    let source = "domain { a } reserve { ! } use { dep } a ! => a; # trailing".to_owned();
    let header = pink_runtime::load::parse_header(&source).ok().unwrap();
    assert!(header.domain.contains(&"a".to_owned()));
    assert!(header.reserved.contains(&"!".to_owned()));
    assert!(header.uses.contains(&"dep".to_owned()));
    assert_eq!(header.uses.len(), 1);

    let bad = "reserve { } use { }".to_owned();
    assert!(pink_runtime::load::parse_header(&bad).is_err());
}

#[test]
fn dep_action_follows_the_markers() {
    let mut loaded = pink_runtime::runtime::Runtime::new();
    let _ = loaded.insert("done".to_owned(), Structure::intrinsic());
    let mut pending = StrSet::new();
    pending.insert("busy".to_owned());

    assert!(matches!(
        next_dep_action(&loaded, &pending, &"done".to_owned()),
        DepAction::AlreadyLoaded
    ));
    assert!(matches!(
        next_dep_action(&loaded, &pending, &"busy".to_owned()),
        DepAction::InProgress
    ));
    assert!(matches!(
        next_dep_action(&loaded, &pending, &"new".to_owned()),
        DepAction::Fresh
    ));
}

#[test]
fn resolver_failure_becomes_file_not_found() {
    let mut empty = MapResolver::new();
    match pink_runtime::load::resolve_source(&"ghost".to_owned(), &mut empty) {
        Err(ParseError::FileNotFound(name)) => assert_eq!(name, "ghost"),
        _ => panic!("a resolver failure must surface as this error"),
    }
}

#[test]
fn loaded_runtime_keeps_the_intrinsic_content() {
    let mut resolver = resolver_with(&[("main", "domain { } reserve { } use { }")]);
    let rt = parse(&"main".to_owned(), &mut resolver, 1000).ok().unwrap();
    let intrinsic = rt.get(&"intrinsic".to_owned()).unwrap();
    assert_eq!(intrinsic.get_domain().len(), 0);
    assert_eq!(intrinsic.get_definitions().len(), 0);
    assert_eq!(intrinsic.get_reserved().len(), 6);
}
