use diskplan::expression::{Expression, Identifier, Token};
use diskplan::schema::Binding;
use diskplan::text::line::LineOp;
use diskplan::text::{
    blank_line_of, comment, def_header, end_of_lines, expression_of, operator, parse_schema,
    Operator,
};

fn text(s: &str) -> Token {
    Token::Text(s.to_owned())
}

fn var(s: &str) -> Token {
    Token::Variable(Identifier::new(s))
}

/// The text an operator spans, by its positions within `s`
fn span(s: &str, op: &Operator) -> String {
    s.chars().skip(op.start).take(op.end - op.start).collect()
}

#[test]
fn various_indentations() {
    assert!(operator(0, "entry/").is_ok());
    assert!(operator(0, "  entry/").is_err());
    assert!(operator(1, "  entry/").is_err());
    assert!(operator(1, "    entry/").is_ok());

    assert!(parse_schema("entry/").is_ok());
    assert!(parse_schema("    entry/").is_ok());
}

#[test]
fn line_endings() {
    let text = "line1\n\nline3\n";
    let rem = text.trim_start_matches(char::is_alphanumeric);
    let (rem, ws) = end_of_lines(rem).unwrap();
    assert_eq!(ws, "\n\n");
    let rem = rem.trim_start_matches(char::is_alphanumeric);
    let (rem, ws) = end_of_lines(rem).unwrap();
    assert_eq!(ws, "\n");
    assert_eq!(rem, "");
}

#[test]
fn comment_parse() {
    assert_eq!(comment("# Comment").unwrap(), ("".to_owned(), "# Comment".to_owned()));
    assert_eq!(comment("# Comment\n").unwrap(), ("\n".to_owned(), "# Comment".to_owned()));
    assert_eq!(comment("# Comment\nx").unwrap(), ("\nx".to_owned(), "# Comment".to_owned()));
    assert_eq!(blank_line_of("# Comment").unwrap(), ("".to_owned(), "# Comment".to_owned()));
    assert_eq!(blank_line_of("# Comment\n").unwrap(), ("".to_owned(), "# Comment\n".to_owned()));
    assert_eq!(blank_line_of("# Comment\nx").unwrap(), ("x".to_owned(), "# Comment\n".to_owned()));

    let text = "# Comment\nline2\n";
    let mut rem = text.to_owned();
    let mut ws = String::new();
    while let Ok((r, line)) = blank_line_of(&rem) {
        if line.is_empty() {
            break;
        }
        ws.push_str(&line);
        rem = r;
    }
    assert_eq!(ws, "# Comment\n");
    assert_eq!(rem, "line2\n");
}

/// Operators should span a number of whole lines:
/// the actual operator, any children, and any subsequent blank lines
#[test]
fn operator_span() {
    // Each line is 10 characters including \n to make the indexing easier
    let text = "\
          a23456789\
        \nb23456789\
        \n         \
        \nc23456789\
        \n";
    let (rem, (op, _)) = operator(0, text).unwrap();
    assert_eq!(op, &text[0..10]); // 1st line only
    assert_eq!(rem, &text[10..]);
    let (rem, (op, _)) = operator(0, &rem).unwrap();
    assert_eq!(op, &text[10..30]); // 2nd line and 3rd (blank) line
    assert_eq!(rem, &text[30..]);
    let (rem, (op, _)) = operator(0, &rem).unwrap();
    assert_eq!(op, &text[30..40]); // Last line
    assert_eq!(rem, "");

    let text = "\
          a2345678/\
        \n    b6789\
        \nc23456789\
        \n";
    let (rem, (op, _)) = operator(0, text).unwrap();
    assert_eq!(op, &text[0..20]); // 1st and 2nd lines
    assert_eq!(rem, &text[20..]);
}

#[test]
fn let_statements() {
    for (s, name) in [
        (":let something = expr", "something"),
        (":let with_underscores = expr", "with_underscores"),
        (":let _with_underscores_ = expr", "_with_underscores_"),
    ] {
        let (rem, (read, op)) = operator(0, s).unwrap();
        assert_eq!(rem, "");
        assert_eq!(read, s);
        assert_eq!(
            op.op,
            LineOp::Let {
                name: Identifier::new(name),
                expr: Expression::new(vec![text("expr")])
            }
        );
    }
}

#[test]
fn def_op_no_children() {
    let s0 = ":def something_";
    let (s1, o1) = def_header(s0).unwrap();
    let (s1, _) = end_of_lines(&s1).unwrap();
    assert_eq!(o1, (Identifier::new("something_"), false, None));
    assert!(operator(1, &s1).is_err());
    assert_eq!(s1, "");

    let s = ":def something_";
    let (rem, (read, op)) = operator(0, s).unwrap();
    assert_eq!((rem.as_str(), read.as_str()), ("", s));
    assert_eq!(op.line, ":def something_");
    assert_eq!(
        op.op,
        LineOp::Def { name: Identifier::new("something_"), is_directory: false, link: None }
    );
    assert!(op.children.is_empty());
    let s = ":def something/-";
    assert!(operator(0, s).is_err());
    let s = ":def something/->";
    assert!(operator(0, s).is_err());
    let s = ":def something/->x";
    assert!(operator(0, s).is_ok());
    let s = ":def something -> /somewhere/else";
    let (rem, (read, op)) = operator(0, s).unwrap();
    assert_eq!((rem.as_str(), read.as_str()), ("", s));
    assert_eq!(op.line, ":def something -> /somewhere/else");
    assert_eq!(
        op.op,
        LineOp::Def {
            name: Identifier::new("something"),
            is_directory: false,
            link: Some(Expression::new(vec![text("/somewhere/else")])),
        }
    );
    assert!(op.children.is_empty());
}

#[test]
fn def_op_with_children() {
    let s = ":def something -> /some$where/else";
    let (rem, (read, op)) = operator(0, s).unwrap();
    assert_eq!((rem.as_str(), read.as_str()), ("", s));
    assert_eq!(op.line, s);
    assert_eq!(
        op.op,
        LineOp::Def {
            name: Identifier::new("something"),
            is_directory: false,
            link: Some(Expression::new(vec![text("/some"), var("where"), text("/else")])),
        }
    );
    assert!(op.children.is_empty());
}

#[test]
fn dynamic_binding() {
    assert_eq!(
        expression_of("$folder"),
        Ok((String::new(), Expression::new(vec![var("folder")])))
    );
}

#[test]
fn single_line_mode_op() {
    let s = ":mode 777";
    let (rem, (read, op)) = operator(0, s).unwrap();
    assert_eq!((rem.as_str(), read.as_str()), ("", s));
    assert_eq!(op.op, LineOp::Mode(0o777));
}

#[test]
fn single_line_mode_trailing() {
    assert!(operator(0, ":mode 777:owner x").is_err());
    assert!(operator(0, ":mode 777-").is_err());
    assert!(operator(0, ":mode 777").is_ok());
    assert!(operator(0, ":mode 777 ").is_err());
    assert!(operator(0, ":mode 777 :owner x").is_err());
    assert!(operator(0, ":mode 777\n:owner x").is_ok());
}

#[test]
fn multiline_meta_ops() {
    let s = "
        :mode 777
        :owner usr-1
        :group grpX
        "
    .strip_prefix('\n')
    .unwrap();

    let line = "        :mode 777\n";
    let pos = s.find(line).unwrap();
    let end = pos + line.len();
    let t = &s[end..];
    let (rem, (read, op)) = operator(2, s).unwrap();
    assert_eq!((rem.as_str(), read.as_str()), (t, &s[pos..end]));
    assert_eq!(op.op, LineOp::Mode(0o777));

    let line = "        :owner usr-1\n";
    let pos = s.find(line).unwrap();
    let end = pos + line.len();
    let u = &s[end..];
    let owner_expr = Expression::new(vec![text("usr-1")]);
    let group_expr = Expression::new(vec![text("grpX")]);
    let (rem, (read, op)) = operator(2, t).unwrap();
    assert_eq!((rem.as_str(), read.as_str()), (u, &s[pos..end]));
    assert_eq!(op.op, LineOp::Owner(owner_expr));
    let line = "        :group grpX\n";
    let pos = s.find(line).unwrap();
    let (rem, (read, op)) = operator(2, u).unwrap();
    assert_eq!((rem.as_str(), read.as_str()), ("", &s[pos..]));
    assert_eq!(op.op, LineOp::Group(group_expr));
}

#[test]
fn match_pattern() {
    let s = ":match [A-Z][A-Za-z]+";
    let (rem, (read, op)) = operator(0, s).unwrap();
    assert_eq!((rem.as_str(), read.as_str()), ("", s));
    assert_eq!(op.op, LineOp::Match(Expression::new(vec![text("[A-Z][A-Za-z]+")])));
}

#[test]
fn source_pattern() {
    let s = ":source /a/file/path";
    let (rem, (read, op)) = operator(0, s).unwrap();
    assert_eq!((rem.as_str(), read.as_str()), ("", s));
    assert_eq!(op.op, LineOp::Source(Expression::new(vec![text("/a/file/path")])));
}

#[test]
fn def_with_newline() {
    let s = ":def defined/\n";
    let (rem, (read, op)) = operator(0, s).unwrap();
    assert_eq!((rem.as_str(), read.as_str()), ("", s));
    assert_eq!(op.line, ":def defined/");
    assert_eq!(
        op.op,
        LineOp::Def { name: Identifier::new("defined"), is_directory: true, link: None }
    );
    assert!(op.children.is_empty());
}

#[test]
fn def_with_block() {
    let s = "
        :def defined/
            file
            dir/
    ";
    let (_, rest) = blank_line_of(s).unwrap();
    let rest = &s[rest.len()..];
    let (rem, (read, op)) = operator(2, rest).unwrap();
    assert_eq!((rem.as_str(), read.as_str()), ("", &s[1..]));
    assert_eq!(op.line, ":def defined/");
    assert_eq!(
        op.op,
        LineOp::Def { name: Identifier::new("defined"), is_directory: true, link: None }
    );
    assert_eq!(op.children.len(), 2);
    let file = &op.children[0];
    assert_eq!(
        span(rest, file),
        &s[s.find("            file").unwrap()..s.find("            dir").unwrap()]
    );
    assert_eq!(file.line, "file");
    assert_eq!(
        file.op,
        LineOp::Item { binding: Binding::Static("file".to_owned()), is_directory: false, link: None }
    );
    assert!(file.children.is_empty());
    let dir = &op.children[1];
    assert_eq!(span(rest, dir), &s[s.find("            dir").unwrap()..]);
    assert_eq!(dir.line, "dir/");
    assert_eq!(
        dir.op,
        LineOp::Item { binding: Binding::Static("dir".to_owned()), is_directory: true, link: None }
    );
    assert!(dir.children.is_empty());
}

#[test]
fn usage() {
    let s = "
        :def defined/
            file
                :source $emptyfile
        usage/
            :use defined
        ";
    // Some important positions
    let def_pos = s.find("        :def").unwrap();
    let file_pos = s.find("            file").unwrap();
    let source_pos = s.find("                :source").unwrap();
    let usage_pos = s.find("        usage").unwrap();
    let use_pos = s.find("            :use").unwrap();

    // Test raw operators parsed from the "file"
    let (_, lead) = blank_line_of(s).unwrap();
    let body = &s[lead.len()..];
    let offset = lead.len();
    let (rem, (read, def)) = operator(2, body).unwrap();
    assert_eq!(read, &s[def_pos..usage_pos]);
    assert_eq!(def.line, ":def defined/");
    assert_eq!(
        def.op,
        LineOp::Def { name: Identifier::new("defined"), is_directory: true, link: None }
    );
    assert_eq!(def.children.len(), 1);
    let file = &def.children[0];
    assert_eq!(span(body, file), &s[file_pos..usage_pos]);
    assert_eq!(
        file.op,
        LineOp::Item { binding: Binding::Static("file".to_owned()), is_directory: false, link: None }
    );
    assert_eq!(file.children.len(), 1);
    assert_eq!(span(body, &file.children[0]), &s[source_pos..usage_pos]);
    assert_eq!(
        file.children[0].op,
        LineOp::Source(Expression::new(vec![var("emptyfile")]))
    );
    let after_def = rem.clone();
    let (rem, (read, usage)) = operator(2, &after_def).unwrap();
    assert_eq!(rem, "");
    assert_eq!(read, &s[usage_pos..]);
    assert_eq!(
        usage.op,
        LineOp::Item { binding: Binding::Static("usage".to_owned()), is_directory: true, link: None }
    );
    assert_eq!(usage.children.len(), 1);
    assert_eq!(span(&after_def, &usage.children[0]), &s[use_pos..]);
    assert_eq!(usage.children[0].op, LineOp::Use { name: Identifier::new("defined") });
    assert_eq!(offset, def_pos);
}
