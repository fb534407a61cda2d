//! Expressions of the schema language: text interleaved with variables.
use vstd::prelude::*;

use crate::text_util::{push_char, str_eq};

verus! {

broadcast use vstd::string::group_string_axioms;

/// The name given to a variable
#[derive(Debug, PartialEq, Eq, Hash, PartialOrd, Ord)]
pub struct Identifier(pub String);

impl View for Identifier {
    type V = Seq<char>;

    open spec fn view(&self) -> Seq<char> {
        self.0@
    }
}

impl Clone for Identifier {
    fn clone(&self) -> (r: Self)
        ensures
            r == *self,
    {
        Identifier(self.0.clone())
    }
}

impl Identifier {
    /// Creates a new Identifier from the given string
    pub fn new(s: &str) -> (r: Identifier)
        ensures
            r@ == s@,
    {
        Identifier(s.to_owned())
    }

    /// Returns a reference to the underlying string
    pub fn value(&self) -> (r: &str)
        ensures
            r@ == self@,
    {
        self.0.as_str()
    }

    /// The text form of this identifier (its name)
    pub fn to_text(&self) -> (r: String)
        ensures
            r@ == self@,
    {
        self.0.clone()
    }
}

/// A choice of built-in variables that are used to provide context information during traversal
#[derive(Debug, Clone, Copy, PartialEq, Eq, PartialOrd, Ord)]
pub enum Special {
    /// The current path relative to the active root
    PathRelative,
    /// The current absolute path
    PathAbsolute,
    /// The final component of the current path
    PathNameOnly,
    /// The current relative path without the final component
    ParentRelative,
    /// The current absolute path without the final component
    ParentAbsolute,
    /// The penultimate component of the current path
    ParentNameOnly,
    /// The absolute path of the active root
    RootPath,
}

/// The name by which a special variable is referred to in the schema language
pub open spec fn special_name(s: Special) -> Seq<char> {
    match s {
        Special::PathRelative => seq!['P', 'A', 'T', 'H'],
        Special::PathAbsolute => seq!['F', 'U', 'L', 'L', '_', 'P', 'A', 'T', 'H'],
        Special::PathNameOnly => seq!['N', 'A', 'M', 'E'],
        Special::ParentRelative => seq!['P', 'A', 'R', 'E', 'N', 'T', '_', 'P', 'A', 'T', 'H'],
        Special::ParentAbsolute => seq![
            'P', 'A', 'R', 'E', 'N', 'T', '_', 'F', 'U', 'L', 'L', '_', 'P', 'A', 'T', 'H',
        ],
        Special::ParentNameOnly => seq!['P', 'A', 'R', 'E', 'N', 'T', '_', 'N', 'A', 'M', 'E'],
        Special::RootPath => seq!['R', 'O', 'O', 'T', '_', 'P', 'A', 'T', 'H'],
    }
}

/// The special variable with the given name, if there is one
pub open spec fn special_named(name: Seq<char>) -> Option<Special> {
    if name == special_name(Special::PathRelative) {
        Some(Special::PathRelative)
    } else if name == special_name(Special::PathAbsolute) {
        Some(Special::PathAbsolute)
    } else if name == special_name(Special::PathNameOnly) {
        Some(Special::PathNameOnly)
    } else if name == special_name(Special::ParentRelative) {
        Some(Special::ParentRelative)
    } else if name == special_name(Special::ParentAbsolute) {
        Some(Special::ParentAbsolute)
    } else if name == special_name(Special::ParentNameOnly) {
        Some(Special::ParentNameOnly)
    } else if name == special_name(Special::RootPath) {
        Some(Special::RootPath)
    } else {
        None
    }
}

/// The current path relative to the active root
pub const SAME_PATH_RELATIVE: &'static str = "PATH";
/// The current absolute path
pub const SAME_PATH_ABSOLUTE: &'static str = "FULL_PATH";
/// The final component of the current path
pub const SAME_PATH_NAME: &'static str = "NAME";
/// The current relative path without the final component
pub const PARENT_PATH_RELATIVE: &'static str = "PARENT_PATH";
/// The current absolute path without the final component
pub const PARENT_PATH_ABSOLUTE: &'static str = "PARENT_FULL_PATH";
/// The penultimate component of the current path
pub const PARENT_PATH_NAME: &'static str = "PARENT_NAME";
/// The absolute path of the active root
pub const ROOT_PATH: &'static str = "ROOT_PATH";

impl Special {
    /// The name by which this special variable is referred to
    pub fn name(&self) -> (r: &'static str)
        ensures
            r@ == special_name(*self),
    {
        match self {
            Special::PathRelative => {
                proof {
                    reveal_strlit("PATH");
                }
                SAME_PATH_RELATIVE
            },
            Special::PathAbsolute => {
                proof {
                    reveal_strlit("FULL_PATH");
                }
                SAME_PATH_ABSOLUTE
            },
            Special::PathNameOnly => {
                proof {
                    reveal_strlit("NAME");
                }
                SAME_PATH_NAME
            },
            Special::ParentRelative => {
                proof {
                    reveal_strlit("PARENT_PATH");
                }
                PARENT_PATH_RELATIVE
            },
            Special::ParentAbsolute => {
                proof {
                    reveal_strlit("PARENT_FULL_PATH");
                }
                PARENT_PATH_ABSOLUTE
            },
            Special::ParentNameOnly => {
                proof {
                    reveal_strlit("PARENT_NAME");
                }
                PARENT_PATH_NAME
            },
            Special::RootPath => {
                proof {
                    reveal_strlit("ROOT_PATH");
                }
                ROOT_PATH
            },
        }
    }

    /// The special variable referred to by the given name, if any
    pub fn from_name(name: &str) -> (r: Option<Special>)
        ensures
            r == special_named(name@),
    {
        let all = [
            Special::PathRelative,
            Special::PathAbsolute,
            Special::PathNameOnly,
            Special::ParentRelative,
            Special::ParentAbsolute,
            Special::ParentNameOnly,
            Special::RootPath,
        ];
        let mut i: usize = 0;
        while i < 7
            invariant
                0 <= i <= 7,
                all@ == seq![
                    Special::PathRelative,
                    Special::PathAbsolute,
                    Special::PathNameOnly,
                    Special::ParentRelative,
                    Special::ParentAbsolute,
                    Special::ParentNameOnly,
                    Special::RootPath,
                ],
                forall|j: int| 0 <= j < i ==> name@ != special_name(#[trigger] all@[j]),
            decreases 7 - i,
        {
            let candidate = all[i];
            if str_eq(candidate.name(), name) {
                return Some(candidate);
            }
            i += 1;
        }
        None
    }
}

/// The abstract value of a [`Token`]
pub enum TokenView {
    Text(Seq<char>),
    Variable(Seq<char>),
    Special(Special),
}

/// Part of an [`Expression`]; a constant string, or a variable for later expansion to a string
#[derive(Debug, PartialEq, Eq, PartialOrd, Ord)]
pub enum Token {
    /// A constant string of plain text
    Text(String),
    /// The name of a variable
    Variable(Identifier),
    /// A special variable whose value is provided by the current scope
    Special(Special),
}

impl View for Token {
    type V = TokenView;

    open spec fn view(&self) -> TokenView {
        match self {
            Token::Text(s) => TokenView::Text(s@),
            Token::Variable(id) => TokenView::Variable(id@),
            Token::Special(s) => TokenView::Special(*s),
        }
    }
}

impl Clone for Token {
    fn clone(&self) -> (r: Self)
        ensures
            r == *self,
    {
        match self {
            Token::Text(s) => Token::Text(s.clone()),
            Token::Variable(id) => Token::Variable(id.clone()),
            Token::Special(s) => Token::Special(*s),
        }
    }
}

/// The text form of a token, as it would be written in a schema
pub open spec fn token_text(t: TokenView) -> Seq<char> {
    match t {
        TokenView::Text(s) => s,
        TokenView::Variable(v) => seq!['$', '{'] + v + seq!['}'],
        TokenView::Special(sp) => special_name(sp),
    }
}

/// The text form of a sequence of tokens
pub open spec fn tokens_text(ts: Seq<TokenView>) -> Seq<char>
    decreases ts.len(),
{
    if ts.len() == 0 {
        Seq::empty()
    } else {
        tokens_text(ts.drop_last()) + token_text(ts.last())
    }
}

impl Token {
    /// The text form of this token (`${name}` for variables)
    pub fn to_text(&self) -> (r: String)
        ensures
            r@ == token_text(self@),
    {
        match self {
            Token::Text(s) => s.clone(),
            Token::Variable(v) => {
                let mut r = String::new();
                push_char(&mut r, '$');
                push_char(&mut r, '{');
                r.append(v.value());
                push_char(&mut r, '}');
                assert(r@ =~= seq!['$', '{'] + v@ + seq!['}']);
                r
            },
            Token::Special(sp) => sp.name().to_owned(),
        }
    }
}

/// A string expression made from one or more [`Token`]s
#[derive(Debug, PartialEq, Eq, PartialOrd, Ord)]
pub struct Expression(pub Vec<Token>);

impl View for Expression {
    type V = Seq<TokenView>;

    open spec fn view(&self) -> Seq<TokenView> {
        self.0@.map_values(|t: Token| t@)
    }
}

impl Clone for Expression {
    fn clone(&self) -> (r: Self)
        ensures
            r@ == self@,
    {
        Expression(clone_tokens(&self.0))
    }
}

/// A copy of a slice of tokens
pub fn clone_tokens(ts: &[Token]) -> (r: Vec<Token>)
    ensures
        r@ == ts@,
{
    let mut r: Vec<Token> = Vec::new();
    let mut i: usize = 0;
    while i < ts.len()
        invariant
            i <= ts@.len(),
            r@ == ts@.take(i as int),
        decreases ts@.len() - i,
    {
        r.push(ts[i].clone());
        i += 1;
        assert(r@ =~= ts@.take(i as int));
    }
    assert(ts@.take(ts@.len() as int) =~= ts@);
    r
}

impl Expression {
    /// Constructs an expression from its tokens
    pub fn new(tokens: Vec<Token>) -> (r: Expression)
        ensures
            r.0 == tokens,
    {
        Expression(tokens)
    }

    /// Provides access to the slice of tokens that make up this expression
    pub fn tokens(&self) -> (r: &[Token])
        ensures
            r@ == self.0@,
    {
        self.0.as_slice()
    }

    /// An expression that only refers to the given variable
    pub fn from_identifier(id: Identifier) -> (r: Expression)
        ensures
            r@ == seq![TokenView::Variable(id@)],
    {
        let r = Expression(vec![Token::Variable(id)]);
        assert(r@ =~= seq![TokenView::Variable(r.0@[0]->Variable_0@)]);
        r
    }

    /// The text form of this expression, as it would be written in a schema
    pub fn to_text(&self) -> (r: String)
        ensures
            r@ == tokens_text(self@),
    {
        let mut r = String::new();
        let mut i: usize = 0;
        while i < self.0.len()
            invariant
                i <= self.0@.len(),
                r@ == tokens_text(self@.take(i as int)),
            decreases self.0@.len() - i,
        {
            let t = self.0[i].to_text();
            r.append(t.as_str());
            i += 1;
            assert(self@.take(i as int).drop_last() =~= self@.take(i - 1));
        }
        assert(self@.take(self.0@.len() as int) =~= self@);
        r
    }

    /// An expression is equal to a string only if it is a single text token with the same
    /// inner value
    pub fn eq_str(&self, other: &str) -> (r: bool)
        ensures
            r == (self@.len() == 1 && self@[0] == TokenView::Text(other@)),
    {
        if self.0.len() != 1 {
            return false;
        }
        match &self.0[0] {
            Token::Text(text) => str_eq(text.as_str(), other),
            _ => false,
        }
    }
}

} // verus!
