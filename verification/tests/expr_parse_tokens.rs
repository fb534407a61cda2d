use diskplan::expr::parse::{at_var, braced_var, non_special, Builtin, Expr, Token};

#[test]
fn parse_test_non_special() {
    assert_eq!(
        non_special("all_of_it"),
        Ok((String::new(), Token::Text("all_of_it".to_owned())))
    );
    assert_eq!(
        non_special("just_this_bit@some_more"),
        Ok(("@some_more".to_owned(), Token::Text("just_this_bit".to_owned())))
    );
}

#[test]
fn parse_test_at_var() {
    assert_eq!(at_var("@varname"), Ok((String::new(), Token::AtVar("varname".to_owned()))));
    assert_eq!(
        at_var("@varname_without_underscores"),
        Ok(("_without_underscores".to_owned(), Token::AtVar("varname".to_owned())))
    );
    assert!(at_var("prefix@varname").is_err());
}

#[test]
fn parse_test_braced_at_var() {
    assert_eq!(braced_var("{@varname}"), Ok((String::new(), Token::AtVar("varname".to_owned()))));
    assert_eq!(
        braced_var("{@varname}_without_underscores"),
        Ok(("_without_underscores".to_owned(), Token::AtVar("varname".to_owned())))
    );
    assert!(braced_var("prefix{@varname}").is_err());
}

fn text(s: &str) -> Token {
    Token::Text(s.to_owned())
}

fn at(s: &str) -> Token {
    Token::AtVar(s.to_owned())
}

#[test]
fn parse_test_expr() {
    assert_eq!(Expr::try_from_str(""), Ok(Expr(vec![])));
    assert_eq!(Expr::try_from_str("@varname"), Ok(Expr(vec![at("varname")])));
    assert_eq!(Expr::try_from_str("@varname_no"), Ok(Expr(vec![at("varname"), text("_no")])));
    assert_eq!(Expr::try_from_str("{@varname}_no"), Ok(Expr(vec![at("varname"), text("_no")])));
    assert_eq!(
        Expr::try_from_str("{@mount}/{PATH}"),
        Ok(Expr(vec![at("mount"), text("/"), Token::Builtin(Builtin::Path)]))
    );
    assert_eq!(
        Expr::try_from_str("{@mount}/{PARENT}/{NAME}"),
        Ok(Expr(vec![
            at("mount"),
            text("/"),
            Token::Builtin(Builtin::Parent),
            text("/"),
            Token::Builtin(Builtin::Name)
        ]))
    );
}

#[test]
fn test_expr_incomplete_at() {
    assert!(Expr::try_from_str("@").is_err());
}

#[test]
fn test_expr_incomplete_brace() {
    assert!(Expr::try_from_str("something{").is_err());
}
