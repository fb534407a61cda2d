use diskplan::expr::parse::{Builtin, Expr, ExprError, Token};

#[test]
fn test_parse_text() {
    assert_eq!(
        Expr::try_from_str("some/text+with.other-=chars"),
        Ok(Expr(vec![Token::Text("some/text+with.other-=chars".to_owned())]))
    )
}

#[test]
fn test_parse_var() {
    assert_eq!(
        Expr::try_from_str("@var"),
        Ok(Expr(vec![Token::AtVar("var".to_owned())]))
    )
}

#[test]
fn test_parse_var_trailing_text() {
    assert_eq!(
        Expr::try_from_str("@var_not_this"),
        Ok(Expr(vec![
            Token::AtVar("var".to_owned()),
            Token::Text("_not_this".to_owned())
        ]))
    )
}

#[test]
fn test_parse_complete_brace_match() {
    assert_eq!(
        Expr::try_from_str("{PARENT}/{NAME}={PATH}"),
        Ok(Expr(vec![
            Token::Builtin(Builtin::Parent),
            Token::Text("/".to_owned()),
            Token::Builtin(Builtin::Name),
            Token::Text("=".to_owned()),
            Token::Builtin(Builtin::Path)
        ]))
    );
}

#[test]
fn test_parse_empty_var() {
    assert_eq!(
        Expr::try_from_str("@"),
        Err(ExprError::SyntaxError("@".to_owned()))
    )
}

#[test]
fn test_parse_incomplete_at() {
    assert_eq!(
        Expr::try_from_str("before@"),
        Err(ExprError::SyntaxError("@".to_owned()))
    );
}

#[test]
fn test_parse_invalid_at() {
    assert_eq!(
        Expr::try_from_str("before@_invalid"),
        Err(ExprError::SyntaxError("@_invalid".to_owned()))
    );
}

#[test]
fn test_parse_incomplete_brace() {
    assert_eq!(
        Expr::try_from_str("something{else"),
        Err(ExprError::SyntaxError("{else".to_owned()))
    );
}

#[test]
fn test_parse_complete_brace_no_match() {
    assert_eq!(
        Expr::try_from_str("{parent}/{name}={path}"),
        Err(ExprError::SyntaxError("{parent}/{name}={path}".to_owned()))
    );
}
