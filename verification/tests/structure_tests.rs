use pink_runtime::structure::{Structure, StructureError};
use pink_runtime::strset::StrSet;

fn set_of(names: &[&str]) -> StrSet {
    let mut set = StrSet::new();
    for name in names {
        set.insert((*name).to_owned());
    }
    set
}

#[test]
fn structures_with_overlap() {
    let domain = set_of(&["a", "b"]);
    let reserved = set_of(&["a", "c"]);

    let result = Structure::create(domain, reserved, Vec::new());

    match result {
        Err(StructureError::DomainAndReservedOverlap { culprit }) => {
            assert_eq!(culprit, "a");
        },
        Ok(_) => panic!("an overlapping structure must be refused"),
    }
}

#[test]
fn disjoint_structure_is_accepted() {
    let domain = set_of(&["a", "b"]);
    let reserved = set_of(&["c", "d"]);

    let result = Structure::create(domain, reserved, Vec::new());

    assert!(result.is_ok());
    let s = result.ok().unwrap();
    assert!(s.get_domain().contains(&"a".to_owned()));
    assert!(s.get_domain().contains(&"b".to_owned()));
    assert!(s.get_reserved().contains(&"c".to_owned()));
    assert!(!s.get_reserved().contains(&"a".to_owned()));
}

#[test]
fn intrinsic_reserves_the_syntax() {
    let intrinsic = Structure::intrinsic();

    assert_eq!(intrinsic.get_domain().len(), 0);
    assert_eq!(intrinsic.get_definitions().len(), 0);
    let reserved = intrinsic.get_reserved();
    assert_eq!(reserved.len(), 6);
    for name in ["{", "}", ",", "(", ")", "="] {
        assert!(reserved.contains(&name.to_owned()));
    }
}

#[test]
fn empty_structure_has_nothing() {
    let empty = Structure::empty();

    assert_eq!(empty.get_domain().len(), 0);
    assert_eq!(empty.get_reserved().len(), 0);
    assert_eq!(empty.get_definitions().len(), 0);
}

#[test]
fn merge_unions_and_checks_overlap() {
    let a = Structure::create(set_of(&["x"]), set_of(&["+"]), Vec::new()).ok().unwrap();
    let b = Structure::create(set_of(&["y"]), set_of(&["-"]), Vec::new()).ok().unwrap();

    let merged = a.merge(b).ok().unwrap();
    assert!(merged.get_domain().contains(&"x".to_owned()));
    assert!(merged.get_domain().contains(&"y".to_owned()));
    assert!(merged.get_reserved().contains(&"+".to_owned()));
    assert!(merged.get_reserved().contains(&"-".to_owned()));

    let c = Structure::create(set_of(&["z"]), set_of(&[]), Vec::new()).ok().unwrap();
    let d = Structure::create(set_of(&[]), set_of(&["z"]), Vec::new()).ok().unwrap();
    match c.merge(d) {
        Err(StructureError::DomainAndReservedOverlap { culprit }) => {
            assert_eq!(culprit, "z");
        },
        Ok(_) => panic!("a merge whose sets overlap must be refused"),
    }
}

#[test]
fn strset_keeps_sorted_order_without_duplicates() {
    let mut set = StrSet::new();
    set.insert("beta".to_owned());
    set.insert("alpha".to_owned());
    set.insert("beta".to_owned());
    set.insert("gamma".to_owned());

    assert_eq!(set.len(), 3);
    assert_eq!(*set.get(0), "alpha");
    assert_eq!(*set.get(1), "beta");
    assert_eq!(*set.get(2), "gamma");
}
