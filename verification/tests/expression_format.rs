use diskplan::expression::{Expression, Identifier, Special, Token};

#[test]
fn format_identifier() {
    assert_eq!(&Identifier::new("something").to_text(), "something");
}

#[test]
fn format_variable() {
    let something = Identifier::new("something");
    assert_eq!(&Token::Variable(something).to_text(), "${something}");
}

#[test]
fn format_expression_all_types() {
    let expr = Expression::new(vec![
        Token::Text("normal text/".to_owned()),
        Token::Variable(Identifier::new("a_variable")),
        Token::Text("/".to_owned()),
        Token::Special(Special::ParentRelative),
    ]);
    assert_eq!(&expr.to_text(), "normal text/${a_variable}/PARENT_PATH");
}
