use diskplan::expression::{Expression, Identifier};
use diskplan::meta::RawPerms;
use diskplan::paths::{path_from_segments, segments};
use diskplan::schema::{Binding, DirectorySchema};
use diskplan::text::builder::{NodeType, SchemaNodeBuilder};
use diskplan::text::parse_schema;

#[test]
fn entries_with_equal_bindings_keep_their_order() {
    let entries = vec![
        (Binding::Static("b".to_owned()), parse_schema("first/\n").unwrap()),
        (Binding::Dynamic(Identifier::new("v")), parse_schema("var/\n").unwrap()),
        (Binding::Static("a".to_owned()), parse_schema("second/\n").unwrap()),
        (Binding::Static("b".to_owned()), parse_schema("third/\n").unwrap()),
    ];
    let d = DirectorySchema::new(vec![], vec![], entries);
    let got = d.entries();
    assert_eq!(got.len(), 4);
    assert_eq!(got[0].0, Binding::Static("a".to_owned()));
    assert_eq!(got[0].1, parse_schema("second/\n").unwrap());
    assert_eq!(got[1].0, Binding::Static("b".to_owned()));
    assert_eq!(got[1].1, parse_schema("first/\n").unwrap());
    assert_eq!(got[2].0, Binding::Static("b".to_owned()));
    assert_eq!(got[2].1, parse_schema("third/\n").unwrap());
    assert_eq!(got[3].0, Binding::Dynamic(Identifier::new("v")));
}

#[test]
fn repeated_let_names_the_variable() {
    let mut b = SchemaNodeBuilder::new(String::new(), false, NodeType::Directory, None);
    b.let_var(Identifier::new("x"), Expression::new(vec![])).unwrap();
    assert_eq!(
        b.let_var(Identifier::new("x"), Expression::new(vec![])),
        Err(":let x occurs twice".to_owned())
    );
}

#[test]
fn repeated_def_names_the_definition() {
    let mut b = SchemaNodeBuilder::new(String::new(), false, NodeType::Directory, None);
    b.define(Identifier::new("d"), parse_schema("x/\n").unwrap()).unwrap();
    assert_eq!(
        b.define(Identifier::new("d"), parse_schema("y/\n").unwrap()),
        Err(":def d occurs twice".to_owned())
    );
}

#[test]
fn permissions_read_back_from_their_octal_text() {
    for m in [0u16, 0o7, 0o70, 0o644, 0o755, 0o777] {
        let p = RawPerms(format!("0o{:o}", m)).to_permissions().unwrap();
        assert_eq!(p.mode(), m);
    }
    assert!(RawPerms("0o1000".to_owned()).to_permissions().is_err());
}

#[test]
fn normal_form_is_stable() {
    let once = path_from_segments(&segments("/dir/./sym//final/"));
    assert_eq!(once, "/dir/sym/final");
    assert_eq!(path_from_segments(&segments(&once)), once);
    assert_eq!(path_from_segments(&segments("/")), "/");
    assert_eq!(path_from_segments(&segments("/a/b/")), "/a/b");
}

#[test]
fn a_file_builds_once_it_has_a_source() {
    let mut file = SchemaNodeBuilder::new(String::new(), false, NodeType::File, None);
    file.mode(0o600).unwrap();
    assert!(file.let_var(Identifier::new("x"), Expression::new(vec![])).is_err());
    assert!(file.build().is_err());
    let mut file = SchemaNodeBuilder::new(String::new(), false, NodeType::File, None);
    file.source(Expression::new(vec![])).unwrap();
    file.owner(Expression::new(vec![])).unwrap();
    assert!(file.build().is_ok());
    let mut dir = SchemaNodeBuilder::new(String::new(), false, NodeType::Directory, None);
    assert!(dir.source(Expression::new(vec![])).is_err());
    assert!(dir.build().is_ok());
}
