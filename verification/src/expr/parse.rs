//! Name expressions read as a whole, such as `"{@mount}/{PARENT}/{NAME}"`.
use vstd::prelude::*;

use super::{lex_all, lex_all_exec, Global, LexItem, Lexeme};
use crate::text_util::{chars_of, string_of_range};

verus! {

/// Why a name expression could not be read
#[derive(Debug, Clone, PartialEq, Eq)]
pub enum ExprError {
    /// The expression is malformed from the given remaining text onwards
    SyntaxError(String),
}

/// A built-in variable, provided by the current location
#[derive(Debug, Clone, Copy, PartialEq, Eq)]
pub enum Builtin {
    /// The parent of the current path
    Parent,
    /// The current path
    Path,
    /// The final component of the current path
    Name,
}

/// The built-in variable corresponding to a lexed global
pub open spec fn builtin_of(g: Global) -> Builtin {
    match g {
        Global::Parent => Builtin::Parent,
        Global::Path => Builtin::Path,
        Global::Name => Builtin::Name,
    }
}

/// The abstract value of a [`Token`]
pub enum TokenView {
    Text(Seq<char>),
    AtVar(Seq<char>),
    Builtin(Builtin),
}

/// The token of an expression corresponding to a lexed item
pub open spec fn token_of(l: LexItem) -> TokenView {
    match l {
        LexItem::Text(s) => TokenView::Text(s),
        LexItem::Var(s) => TokenView::AtVar(s),
        LexItem::Global(g) => TokenView::Builtin(builtin_of(g)),
    }
}

/// A part of an expression
#[derive(Debug, Clone, PartialEq, Eq)]
pub enum Token {
    /// Plain text
    Text(String),
    /// A variable, named without its `@`
    AtVar(String),
    /// A built-in variable
    Builtin(Builtin),
}

impl View for Token {
    type V = TokenView;

    open spec fn view(&self) -> TokenView {
        match self {
            Token::Text(s) => TokenView::Text(s@),
            Token::AtVar(s) => TokenView::AtVar(s@),
            Token::Builtin(b) => TokenView::Builtin(*b),
        }
    }
}

/// An expression, such as `"static/@varA_{@varB}v2/{NAME}"`
#[derive(Debug, Clone, PartialEq, Eq)]
pub struct Expr(pub Vec<Token>);

impl View for Expr {
    type V = Seq<TokenView>;

    open spec fn view(&self) -> Seq<TokenView> {
        self.0@.map_values(|t: Token| t@)
    }
}

impl Expr {
    /// Reads an expression, which must be made of tokens from start to end; otherwise the
    /// error holds the text from where no token could be read
    pub fn try_from_str(value: &str) -> (r: Result<Expr, ExprError>)
        ensures
            match r {
                Ok(e) => lex_all(value@).1.len() == 0 && e@ == lex_all(value@).0.map_values(
                    |l: LexItem| token_of(l),
                ),
                Err(ExprError::SyntaxError(rest)) => lex_all(value@).1.len() > 0 && rest@ == lex_all(
                    value@,
                ).1,
            },
    {
        let cs = chars_of(value);
        let (lexemes, end) = lex_all_exec(cs.as_slice());
        if end < cs.len() {
            let rest = string_of_range(cs.as_slice(), end, cs.len());
            assert(rest@ =~= cs@.skip(end as int));
            return Err(ExprError::SyntaxError(rest));
        }
        let ghost all = lexemes@.map_values(|t: Lexeme| t@);
        let mut tokens: Vec<Token> = Vec::new();
        let mut i: usize = 0;
        while i < lexemes.len()
            invariant
                i <= lexemes@.len(),
                all == lexemes@.map_values(|t: Lexeme| t@),
                tokens@.map_values(|t: Token| t@) == all.take(i as int).map_values(
                    |l: LexItem| token_of(l),
                ),
            decreases lexemes@.len() - i,
        {
            let ghost before = tokens@.map_values(|t: Token| t@);
            let t = match &lexemes[i] {
                Lexeme::Text(x) => Token::Text(x.clone()),
                Lexeme::Var(x) => Token::AtVar(x.clone()),
                Lexeme::Global(g) => Token::Builtin(
                    match g {
                        Global::Parent => Builtin::Parent,
                        Global::Path => Builtin::Path,
                        Global::Name => Builtin::Name,
                    },
                ),
            };
            let ghost tv = t@;
            assert(tv == token_of(all[i as int]));
            tokens.push(t);
            assert(tokens@.map_values(|t: Token| t@) =~= before.push(tv));
            assert(all.take(i + 1).map_values(|l: LexItem| token_of(l)) =~= all.take(
                i as int,
            ).map_values(|l: LexItem| token_of(l)).push(token_of(all[i as int])));
            i += 1;
        }
        assert(all.take(i as int) =~= all);
        assert(cs@.skip(end as int).len() == 0);
        Ok(Expr(tokens))
    }

    /// The tokens of this expression
    pub fn tokens(&self) -> (r: &Vec<Token>)
        ensures
            *r == self.0,
    {
        &self.0
    }
}

/// The token of an expression that a token of the lexer stands for
fn from_lexed(t: super::Token) -> (r: Token)
    ensures
        r@ == token_of(t@),
{
    match t {
        super::Token::Text(x) => Token::Text(x),
        super::Token::AtVar(x) => Token::AtVar(x),
        super::Token::Global(g) => Token::Builtin(
            match g {
                Global::Parent => Builtin::Parent,
                Global::Path => Builtin::Path,
                Global::Name => Builtin::Name,
            },
        ),
    }
}

/// The error of a reader that found no token
fn no_token(s: &str) -> (r: ExprError)
    ensures
        r matches ExprError::SyntaxError(t) && t@ == s@,
{
    ExprError::SyntaxError(s.to_owned())
}

/// Reads a run of characters that are not part of any variable
pub fn non_special(s: &str) -> (r: Result<(String, Token), ExprError>)
    ensures
        r is Ok <==> (super::starts_kind(s@, 0) && super::lex_one(s@) is Some),
        r matches Ok((rest, t)) ==> super::lex_one(s@) matches Some((item, n)) && t@ == token_of(
            item,
        ) && rest@ == s@.skip(n),
{
    match super::non_special(s) {
        Ok((rest, t)) => Ok((rest, from_lexed(t))),
        Err(_) => Err(no_token(s)),
    }
}

/// Reads a variable name prefixed with an at-sign, such as `@example`
pub fn at_var(s: &str) -> (r: Result<(String, Token), ExprError>)
    ensures
        r is Ok <==> (super::starts_kind(s@, 1) && super::lex_one(s@) is Some),
        r matches Ok((rest, t)) ==> super::lex_one(s@) matches Some((item, n)) && t@ == token_of(
            item,
        ) && rest@ == s@.skip(n),
{
    match super::at_var(s) {
        Ok((rest, t)) => Ok((rest, from_lexed(t))),
        Err(_) => Err(no_token(s)),
    }
}

/// Reads a variable between braces, such as `{@example}` or `{PATH}`
pub fn braced_var(s: &str) -> (r: Result<(String, Token), ExprError>)
    ensures
        r is Ok <==> (super::starts_kind(s@, 2) && super::lex_one(s@) is Some),
        r matches Ok((rest, t)) ==> super::lex_one(s@) matches Some((item, n)) && t@ == token_of(
            item,
        ) && rest@ == s@.skip(n),
{
    match super::braced_var(s) {
        Ok((rest, t)) => Ok((rest, from_lexed(t))),
        Err(_) => Err(no_token(s)),
    }
}

} // verus!
