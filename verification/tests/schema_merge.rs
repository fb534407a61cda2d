use diskplan::expression::{Expression, Identifier, Token};
use diskplan::schema::FileSchema;

fn text(s: &str) -> Expression {
    Expression::new(vec![Token::Text(s.to_owned())])
}

#[test]
fn file_merge_takes_the_only_source() {
    let with = FileSchema::new(text("/src/a"));
    let without = FileSchema::new(Expression::new(vec![]));
    assert_eq!(with.merge(&without).unwrap().source, text("/src/a"));
    assert_eq!(without.merge(&with).unwrap().source, text("/src/a"));
    assert_eq!(without.merge(&without).unwrap().source, Expression::new(vec![]));
}

#[test]
fn file_merge_refuses_two_sources() {
    let a = FileSchema::new(text("/src/a"));
    let b = FileSchema::new(Expression::new(vec![
        Token::Text("/src/".to_owned()),
        Token::Variable(Identifier::new("name")),
    ]));
    assert_eq!(
        a.merge(&b).unwrap_err(),
        "Cannot merge file with two sources: /src/a and /src/${name}"
    );
}
