use diskplan::namemap::{NameMap, NameMapError};

#[test]
fn name_map_last_pair_wins() {
    let m = NameMap::parse("alice:bob,carol:dave,alice:erin").unwrap();
    assert_eq!(m.map("alice"), "erin");
    assert_eq!(m.map("carol"), "dave");
    assert_eq!(m.map("frank"), "frank");
}

#[test]
fn name_map_errors() {
    assert!(matches!(NameMap::parse("alice"), Err(NameMapError::MissingSeparator)));
    assert!(matches!(NameMap::parse("alice:"), Err(NameMapError::EmptyKeyOrValue)));
    match NameMap::parse("a:b:c") {
        Err(NameMapError::UnexpectedThirdValue(v)) => assert_eq!(v, "c"),
        _ => panic!("expected a third value error"),
    }
}
