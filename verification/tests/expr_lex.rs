use diskplan::expr::{at_var, braced_var, expr, non_special, Global, Token};

#[test]
fn expr_test_non_special() {
    assert_eq!(
        non_special("all_of_it"),
        Ok((String::new(), Token::Text("all_of_it".to_owned())))
    );
    assert_eq!(
        non_special("just_this_bit@some_more"),
        Ok(("@some_more".to_owned(), Token::Text("just_this_bit".to_owned())))
    );
}

#[test]
fn expr_test_at_var() {
    assert_eq!(at_var("@varname"), Ok((String::new(), Token::AtVar("varname".to_owned()))));
    assert_eq!(
        at_var("@varname_without_underscores"),
        Ok(("_without_underscores".to_owned(), Token::AtVar("varname".to_owned())))
    );
    assert!(at_var("prefix@varname").is_err());
}

#[test]
fn expr_test_braced_at_var() {
    assert_eq!(braced_var("{@varname}"), Ok((String::new(), Token::AtVar("varname".to_owned()))));
    assert_eq!(
        braced_var("{@varname}_without_underscores"),
        Ok(("_without_underscores".to_owned(), Token::AtVar("varname".to_owned())))
    );
    assert!(braced_var("prefix{@varname}").is_err());
}

fn text(s: &str) -> Token {
    Token::Text(s.to_owned())
}

fn at(s: &str) -> Token {
    Token::AtVar(s.to_owned())
}

#[test]
fn expr_test_expr() {
    assert_eq!(expr(""), (String::new(), vec![]));
    assert_eq!(expr("@varname"), (String::new(), vec![at("varname")]));
    assert_eq!(expr("@varname_no"), (String::new(), vec![at("varname"), text("_no")]));
    assert_eq!(expr("{@varname}_no"), (String::new(), vec![at("varname"), text("_no")]));
    assert_eq!(
        expr("{@mount}/{PATH}"),
        (String::new(), vec![at("mount"), text("/"), Token::Global(Global::Path)])
    );
    assert_eq!(
        expr("{@mount}/{PARENT}/{NAME}"),
        (
            String::new(),
            vec![
                at("mount"),
                text("/"),
                Token::Global(Global::Parent),
                text("/"),
                Token::Global(Global::Name)
            ]
        )
    );
}

#[test]
fn expr_stops_where_no_token_starts() {
    assert_eq!(expr("a@"), ("@".to_owned(), vec![text("a")]));
    assert_eq!(expr("{nope}"), ("{nope}".to_owned(), vec![]));
}
