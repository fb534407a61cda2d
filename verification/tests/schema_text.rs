use diskplan::expression::{Expression, Identifier, Token};
use diskplan::schema::{Binding, DirectorySchema, FileSchema, SchemaNode, SchemaType};
use diskplan::text::{def_header, end_of_lines, parse_schema};

#[test]
fn invalid_space() {
    assert!(parse_schema("okay_entry/").is_ok());
    assert!(parse_schema("invalid entry/").is_err());
}

#[test]
fn invalid_child() {
    parse_schema(
        "
        okay_entry
            :source /tmp
        ",
    )
    .unwrap();
    parse_schema(
        "
        okay_entry/
            child
                :source /tmp
        ",
    )
    .unwrap();
    assert!(parse_schema(
        "
        okay_entry
            child
                :source /tmp
        "
    )
    .is_err());
}

#[test]
fn def_headers() {
    assert_eq!(
        def_header(":def something"),
        Ok((String::new(), (Identifier::new("something"), false, None)))
    );
    assert_eq!(
        def_header(":def something/"),
        Ok((String::new(), (Identifier::new("something"), true, None,)))
    );
}

/// Line ending may be a newline or the EOF
#[test]
fn line_end() {
    assert_eq!(end_of_lines(""), Ok((String::new(), String::new())));
    assert_eq!(end_of_lines("\n"), Ok((String::new(), "\n".to_owned())));
}

/// Trailing whitespace is only allowed on otherwise blank lines
#[test]
fn no_trailing_whitespace() {
    let s = "\n    \n\n    \n\n";
    assert!(matches!(end_of_lines(s), Ok(_)));
    let s = "    \n\n    \n\n";
    assert!(matches!(end_of_lines(s), Err(_)));
}

#[test]
fn trailing_whitespace() {
    parse_schema("").unwrap();
    assert!(parse_schema("dir/    \n").is_err());
    parse_schema("dir/\n").unwrap();
    parse_schema("dir/\n    \n").unwrap();
    parse_schema("dir/\n    ").unwrap();
}

#[test]
fn duplicate() {
    let schema = "
        directory/
            :owner admin

            subdirectory/
                :owner admin
                :mode 777
                :owner admin
        ";
    let pos = schema.rfind(":owner").unwrap();
    parse_schema(&schema[..pos]).unwrap();

    let err = match parse_schema(schema) {
        Err(e) => e,
        ok => panic!("Unexpected: {ok:?}"),
    };
    let e = err.into_entries().into_iter().last().unwrap();
    assert_eq!(e.line_number(), 8);
}

#[test]
fn extraneous_whitespace() {
    // Baseline
    let text = "dir/";
    let schema = parse_schema(text).unwrap();
    assert!(
        matches!(schema, SchemaNode { schema: SchemaType::Directory(DirectorySchema { entries, .. }), ..} if entries.len() == 1)
    );
    // Trailing whitespace
    let text = "dir/\n\n";
    let schema = parse_schema(text).unwrap();
    assert!(
        matches!(schema, SchemaNode { schema: SchemaType::Directory(DirectorySchema { entries, .. }), ..} if entries.len() == 1)
    );
    // Preceding whitespace
    let text = "\n\ndir/";
    let schema = parse_schema(text).unwrap();
    assert!(
        matches!(schema, SchemaNode { schema: SchemaType::Directory(DirectorySchema { entries, .. }), ..} if entries.len() == 1)
    );
}

#[test]
fn symlink_directory() {
    let schema = parse_schema(
        "
        directory/ -> /another/place
        ",
    )
    .unwrap();
    let (bind, node) = match &schema {
        SchemaNode {
            schema: SchemaType::Directory(DirectorySchema { entries, .. }),
            ..
        } => &entries[0],
        _ => panic!(),
    };
    assert_eq!(bind, &Binding::Static("directory".to_owned()));
    let (symlink, entries) = match node {
        SchemaNode {
            symlink,
            schema: SchemaType::Directory(DirectorySchema { entries, .. }),
            ..
        } => (symlink, entries),
        _ => panic!(),
    };
    assert_eq!(entries.len(), 0);
    assert_eq!(
        symlink,
        &Some(Expression::new(vec![Token::Text("/another/place".to_owned())]))
    );
}

#[test]
fn symlink_file() {
    let schema = parse_schema(
        "
        file -> /another/place
            :source xxx
        ",
    )
    .unwrap();
    let (bind, node) = match &schema {
        SchemaNode {
            schema: SchemaType::Directory(DirectorySchema { entries, .. }),
            ..
        } => &entries[0],
        _ => panic!(),
    };
    assert_eq!(bind, &Binding::Static("file".to_owned()));
    let symlink = match node {
        SchemaNode {
            symlink,
            schema: SchemaType::File(FileSchema { .. }),
            ..
        } => symlink,
        _ => panic!(),
    };
    assert_eq!(
        symlink,
        &Some(Expression::new(vec![Token::Text("/another/place".to_owned())]))
    );
}

#[test]
fn duplicate_reports_whole_chain() {
    let schema = "a/\n    b/\n        :mode 700\n        :mode 755\n";
    let entries = parse_schema(schema).unwrap_err().into_entries();
    let lines: Vec<usize> = entries.iter().map(|e| e.line_number()).collect();
    assert_eq!(lines, vec![1, 2, 4]);
}

#[test]
fn syntax_error_line() {
    let entries = parse_schema("a/\n    b/\n  bad\n").unwrap_err().into_entries();
    assert_eq!(entries.len(), 1);
    assert_eq!(entries[0].line_number(), 3);
}

#[test]
fn file_needs_source() {
    assert!(parse_schema("file\n").is_err());
    assert!(parse_schema("file\n    :source x\n").is_ok());
}

#[test]
fn let_only_in_directories() {
    assert!(parse_schema("file\n    :source x\n    :let a = b\n").is_err());
    assert!(parse_schema("dir/\n    :let a = b\n").is_ok());
    assert!(parse_schema("dir/\n    :let a = b\n    :let a = c\n").is_err());
}

#[test]
fn match_not_in_definition() {
    assert!(parse_schema(":def d/\n    :match x\n").is_err());
    assert!(parse_schema("$d/\n    :match x\n").is_ok());
}

#[test]
fn nodes_describe_themselves() {
    let schema = diskplan::text::parse_schema("a/\nb\n    :source /x\n").unwrap();
    assert_eq!(schema.to_text(), "Schema node \"\" (directory with 2 entries)");
    let dir = schema.schema.as_directory().unwrap();
    let (_, a) = &dir.entries()[0];
    assert_eq!(a.to_text(), "Schema node \"a/\" (directory with 0 entries)");
    let (_, b) = &dir.entries()[1];
    assert_eq!(b.to_text(), "Schema node \"b\" (file from source: /x)");
    let one = diskplan::text::parse_schema("$v/\n    :match [a-z]+\n    x/\n").unwrap();
    let (_, v) = &one.schema.as_directory().unwrap().entries()[0];
    assert_eq!(v.to_text(), "Schema node \"$v/\", matching \"[a-z]+\" (directory with 1 entry)");
}
