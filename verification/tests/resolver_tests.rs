use pink_runtime::resolve::{
    Chain, EmbeddedStdResolver, MapResolver, Resolver, StdResolver, StdResolverError,
};

#[test]
fn valid() {
    let mut resolver = StdResolver::new();
    assert!(resolver.resolve(&"std/peano".to_owned()).is_ok());
}

#[test]
fn incorrect_prefix() {
    let mut resolver = StdResolver::new();
    match resolver.resolve(&"foo".to_owned()) {
        Err(StdResolverError::NotValidPrefix(head)) => {
            assert_eq!(head, Some("foo".to_owned()));
        },
        _ => panic!("a name without the std prefix must be refused as such"),
    }
}

#[test]
fn not_and_std_module() {
    let mut resolver = StdResolver::new();
    match resolver.resolve(&"std/yahooo".to_owned()) {
        Err(StdResolverError::NotAnStdModule(name)) => assert_eq!(name, "yahooo"),
        _ => panic!("an unknown std module must be refused as such"),
    }
}

#[test]
fn embedded_resolver_matches_std() {
    let mut embedded = EmbeddedStdResolver::new();
    let mut std_resolver = StdResolver::new();

    let a = embedded.resolve(&"std/peano".to_owned()).ok().unwrap();
    let b = std_resolver.resolve(&"std/peano".to_owned()).ok().unwrap();
    assert_eq!(a, b);

    assert!(embedded.resolve(&"nope".to_owned()).is_err());
}

#[test]
fn map_resolver_stores_and_finds() {
    let mut map = MapResolver::new();
    assert!(map.resolve(&"m".to_owned()).is_err());

    map.insert("m".to_owned(), "domain { } reserve { } use { }".to_owned());
    let found = map.resolve(&"m".to_owned()).ok().unwrap();
    assert_eq!(found, "domain { } reserve { } use { }");

    map.insert("m".to_owned(), "shadowed".to_owned());
    let found = map.resolve(&"m".to_owned()).ok().unwrap();
    assert_eq!(found, "shadowed");
}

#[test]
fn chain_precedence_is_composition_order() {
    let own_text = "domain { } reserve { } use { }".to_owned();

    let mut map = MapResolver::new();
    map.insert("std/peano".to_owned(), own_text.clone());
    let mut map_first = Chain::new(map, StdResolver::new());
    let from_map_first = map_first.resolve(&"std/peano".to_owned()).ok().unwrap();
    assert_eq!(from_map_first, own_text);

    let mut map2 = MapResolver::new();
    map2.insert("std/peano".to_owned(), own_text.clone());
    let mut std_first = Chain::new(StdResolver::new(), map2);
    let from_std_first = std_first.resolve(&"std/peano".to_owned()).ok().unwrap();
    let mut plain = StdResolver::new();
    let embedded_text = plain.resolve(&"std/peano".to_owned()).ok().unwrap();
    assert_eq!(from_std_first, embedded_text);
    assert!(from_std_first != own_text);
}

#[test]
fn chain_surfaces_the_secondary_error() {
    let map = MapResolver::new();
    let mut chain = Chain::new(StdResolver::new(), map);
    match chain.resolve(&"std/peano".to_owned()) {
        Ok(_) => {},
        Err(_) => panic!("the primary should have answered"),
    }
    match chain.resolve(&"missing".to_owned()) {
        Err(e) => {
            let pink_runtime::resolve::MapResolverError::NotFound(name) = e;
            assert_eq!(name, "missing");
        },
        Ok(_) => panic!("neither resolver holds this name"),
    }
}
