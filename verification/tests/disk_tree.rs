use diskplan::disk_schema::{parse_i16, schema_from_entry, Match, Schema, SchemaError};
use diskplan::item::{item_from_entry, DiskEntry, Filter, Item, ItemError, ItemType};
use diskplan::meta::MetaError;

fn dir(name: &str, children: Vec<DiskEntry>) -> DiskEntry {
    DiskEntry::Directory { name: name.to_owned(), children }
}

fn file(name: &str) -> DiskEntry {
    DiskEntry::File { name: name.to_owned() }
}

fn link(name: &str, target: &str) -> DiskEntry {
    DiskEntry::Link { name: name.to_owned(), target: target.to_owned() }
}

fn child<'a>(item: &'a Item, name: &str) -> &'a Item {
    &item.children.iter().find(|(n, _)| n == name).unwrap().1
}

#[test]
fn item_reads_children_variables_and_properties() {
    let tree = dir(
        "top",
        vec![
            file("a"),
            dir("sub", vec![]),
            link("l", "/t"),
            link("_.owner", "root"),
            link("_.let.x", "v"),
            link("_.perms", "0o750"),
        ],
    );
    let item = item_from_entry("/s/top", &tree).unwrap();
    assert_eq!(item.itemtype, ItemType::Directory);
    assert_eq!(item.filter, Filter::Exact);
    assert_eq!(item.vars, vec![("x".to_owned(), "v".to_owned())]);
    assert_eq!(item.meta.owner, Some("root".to_owned()));
    assert_eq!(item.meta.permissions.unwrap().mode(), 0o750);
    assert_eq!(item.children.len(), 3);
    assert_eq!(child(&item, "a"), &Item::default_typed(ItemType::File));
    assert_eq!(child(&item, "sub").itemtype, ItemType::Directory);
    assert_eq!(child(&item, "l"), &Item::default_typed(ItemType::Symlink("/t".to_owned())));
}

#[test]
fn variable_items_take_a_pattern() {
    let tree = dir("@v", vec![link("_.match", "x.*"), link("_.is.reuse", "@d")]);
    let item = item_from_entry("/s/@v", &tree).unwrap();
    assert_eq!(item.filter, Filter::Pattern("x.*".to_owned()));
    assert_eq!(item.itemtype, ItemType::Reuse("@d".to_owned()));
    let tree = dir("@v", vec![]);
    assert_eq!(item_from_entry("/s/@v", &tree).unwrap().filter, Filter::Freeform);
}

#[test]
fn item_errors_name_the_entry() {
    let fixed = dir("top", vec![link("_.match", "x")]);
    assert_eq!(
        item_from_entry("/s/top", &fixed),
        Err(ItemError::ConflictingFilter("/s/top/_.match".to_owned()))
    );
    let file_with_child = dir("f", vec![file("_.is.file"), file("c")]);
    assert_eq!(
        item_from_entry("/s/f", &file_with_child),
        Err(ItemError::ItemHasChildren("/s/f".to_owned()))
    );
    let twice = dir("t", vec![file("_.is.file"), link("_.is.link", "/x")]);
    assert_eq!(
        item_from_entry("/s/t", &twice),
        Err(ItemError::DuplicateTypeAnnotation("/s/t/_.is.link".to_owned()))
    );
    let unknown = dir("t", vec![file("_.is.bogus")]);
    assert_eq!(
        item_from_entry("/s/t", &unknown),
        Err(ItemError::UnknownItemType("/s/t/_.is.bogus".to_owned()))
    );
    let invalid = dir("t", vec![link("_.size", "3")]);
    assert_eq!(
        item_from_entry("/s/t", &invalid),
        Err(ItemError::InvalidPropertyEntry("/s/t/_.size".to_owned()))
    );
    let not_link = dir("t", vec![file("_.owner")]);
    assert_eq!(
        item_from_entry("/s/t", &not_link),
        Err(ItemError::IOError("/s/t/_.owner".to_owned()))
    );
    let bad_perms = dir("t", vec![link("_.perms", "0o999")]);
    assert_eq!(
        item_from_entry("/s/t", &bad_perms),
        Err(ItemError::MetaError(MetaError::PermissionFormatError("0o999".to_owned())))
    );
    assert_eq!(
        item_from_entry("/s/f", &file("f")),
        Err(ItemError::DirectoryIOError("/s/f".to_owned()))
    );
    assert_eq!(
        item_from_entry("/s/..", &dir("..", vec![])),
        Err(ItemError::UnexpectedItemError("/s/..".to_owned()))
    );
}

#[test]
fn schema_kinds_from_indicators() {
    let two = dir("n", vec![file("_.is.file"), link("_.is.link", "/x")]);
    assert!(matches!(
        schema_from_entry("/s/n", &two),
        Err(SchemaError::MultipleTypeAnnotation(p)) if p == "/s/n"
    ));
    assert!(matches!(
        schema_from_entry("/s/n", &file("n")),
        Err(SchemaError::NonDirectorySchemaEntry(p)) if p == "/s/n"
    ));
    let f = dir("n", vec![file("_.is.file"), link("_.owner", "admin")]);
    match schema_from_entry("/s/n", &f).unwrap() {
        Schema::File(fs) => {
            assert_eq!(fs.source(), "/s/n/_.is.file");
            assert_eq!(fs.meta().owner, Some("admin".to_owned()));
        }
        other => panic!("expected a file, got {other:?}"),
    }
    let u = dir("n", vec![link("_.is.use", "@def")]);
    assert!(matches!(schema_from_entry("/s/n", &u).unwrap(), Schema::Use(d) if d == "def"));
    let bad_use = dir("n", vec![link("_.is.use", "def")]);
    assert!(matches!(
        schema_from_entry("/s/n", &bad_use),
        Err(SchemaError::PropertyParseFailure(p, v)) if p == "/s/n/_.is.use" && v == "def"
    ));
    let l = dir("n", vec![link("_.is.link", "/far"), dir("x", vec![])]);
    match schema_from_entry("/s/n", &l).unwrap() {
        Schema::Symlink(ls) => match ls.far_schema() {
            Schema::Directory(d) => assert_eq!(d.entries().len(), 1),
            other => panic!("expected a directory, got {other:?}"),
        },
        other => panic!("expected a link, got {other:?}"),
    }
}

#[test]
fn schema_entries_by_order() {
    let tree = dir(
        "top",
        vec![
            dir("b", vec![link("_.order", "2")]),
            dir("@v", vec![link("_.match", "x.*")]),
            dir("a", vec![]),
            link("_.let.@x", "value"),
            dir("_.def.@d", vec![]),
        ],
    );
    match schema_from_entry("/s/top", &tree).unwrap() {
        Schema::Directory(d) => {
            let names: Vec<String> = d
                .entries()
                .iter()
                .map(|(c, _)| match c.mode() {
                    Match::Fixed(n) => n.clone(),
                    Match::Regex { binding, .. } => format!("@{binding}"),
                    Match::Any { binding } => format!("any {binding}"),
                })
                .collect();
            assert_eq!(names, vec!["@v".to_owned(), "a".to_owned(), "b".to_owned()]);
            assert_eq!(d.entries()[2].0.order(), 2);
            assert_eq!(d.vars().len(), 1);
            assert_eq!(d.vars()[0].0, "x");
            assert_eq!(d.defs().len(), 1);
            assert_eq!(d.defs()[0].0, "d");
        }
        other => panic!("expected a directory, got {other:?}"),
    }
}

#[test]
fn schema_errors_name_the_entry() {
    let bad_regex = dir("top", vec![dir("@v", vec![link("_.match", "(")])]);
    assert!(matches!(
        schema_from_entry("/s/top", &bad_regex),
        Err(SchemaError::RegexParseFailure(p, _)) if p == "/s/top"
    ));
    let fixed = dir("top", vec![dir("a", vec![link("_.match", "x")])]);
    assert!(matches!(
        schema_from_entry("/s/top", &fixed),
        Err(SchemaError::NonVariableWithPattern(p)) if p == "/s/top"
    ));
    let order = dir("top", vec![dir("a", vec![link("_.order", "x")])]);
    assert!(matches!(
        schema_from_entry("/s/top", &order),
        Err(SchemaError::PropertyParseFailure(p, v)) if p == "/s/top/a/_.order" && v == "x"
    ));
    let unexpected = dir("top", vec![file("_.bogus")]);
    assert!(matches!(
        schema_from_entry("/s/top", &unexpected),
        Err(SchemaError::UnexpectedItemError(p)) if p == "/s/top/_.bogus"
    ));
    let not_dir = dir("top", vec![file("a")]);
    assert!(matches!(
        schema_from_entry("/s/top", &not_dir),
        Err(SchemaError::NonDirectorySchemaEntry(p)) if p == "/s/top/a"
    ));
}

#[test]
fn orders_read_as_i16() {
    assert_eq!(parse_i16("12"), Some(12));
    assert_eq!(parse_i16("+5"), Some(5));
    assert_eq!(parse_i16("-32768"), Some(-32768));
    assert_eq!(parse_i16("32767"), Some(32767));
    assert_eq!(parse_i16("32768"), None);
    assert_eq!(parse_i16("-32769"), None);
    assert_eq!(parse_i16("-"), None);
    assert_eq!(parse_i16(""), None);
    assert_eq!(parse_i16("1x"), None);
}
