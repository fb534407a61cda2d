//! Name expressions such as `"static/@varA_{@varB}v2/{NAME}"`: text, `@` variables and braced
//! built-in variables.
use vstd::prelude::*;

use crate::text_util::{chars_of, string_of_range};

pub mod eval;
pub mod parse;

verus! {

/// A built-in variable, provided by the current location
#[derive(Debug, Clone, Copy, PartialEq, Eq)]
pub enum Global {
    /// The parent of the current path
    Parent,
    /// The current path
    Path,
    /// The final component of the current path
    Name,
}

/// The abstract value of a token of a name expression
pub enum LexItem {
    Text(Seq<char>),
    Var(Seq<char>),
    Global(Global),
}

/// A character with a meaning of its own in name expressions
pub open spec fn is_special_char(c: char) -> bool {
    c == '{' || c == '}' || c == '@'
}

/// An ASCII letter or digit
pub open spec fn is_alnum(c: char) -> bool {
    ('a' <= c && c <= 'z') || ('A' <= c && c <= 'Z') || ('0' <= c && c <= '9')
}

/// The number of leading characters that are not special
pub open spec fn text_run(s: Seq<char>) -> nat
    decreases s.len(),
{
    if s.len() > 0 && !is_special_char(s[0]) {
        1 + text_run(s.drop_first())
    } else {
        0
    }
}

/// The number of leading ASCII letters and digits
pub open spec fn alnum_run(s: Seq<char>) -> nat
    decreases s.len(),
{
    if s.len() > 0 && is_alnum(s[0]) {
        1 + alnum_run(s.drop_first())
    } else {
        0
    }
}

/// Whether `s` begins with `prefix`
pub open spec fn starts_with(s: Seq<char>, prefix: Seq<char>) -> bool {
    prefix.len() <= s.len() && s.take(prefix.len() as int) == prefix
}

/// The braced built-in variable that `s` begins with, and its length with braces
pub open spec fn braced_global(s: Seq<char>) -> Option<(Global, int)> {
    if starts_with(s, seq!['{', 'P', 'A', 'R', 'E', 'N', 'T', '}']) {
        Some((Global::Parent, 8))
    } else if starts_with(s, seq!['{', 'P', 'A', 'T', 'H', '}']) {
        Some((Global::Path, 6))
    } else if starts_with(s, seq!['{', 'N', 'A', 'M', 'E', '}']) {
        Some((Global::Name, 6))
    } else {
        None
    }
}

/// The token at the start of `s` and the number of characters it spans, if `s` starts with one
pub open spec fn lex_one(s: Seq<char>) -> Option<(LexItem, int)> {
    if s.len() == 0 {
        None
    } else if !is_special_char(s[0]) {
        Some((LexItem::Text(s.take(text_run(s) as int)), text_run(s) as int))
    } else if s[0] == '@' {
        let n = alnum_run(s.drop_first()) as int;
        if n > 0 {
            Some((LexItem::Var(s.subrange(1, 1 + n)), 1 + n))
        } else {
            None
        }
    } else if s[0] == '{' {
        if s.len() > 1 && s[1] == '@' {
            let n = alnum_run(s.skip(2)) as int;
            if n > 0 && s.len() > 2 + n && s[2 + n] == '}' {
                Some((LexItem::Var(s.subrange(2, 2 + n)), 3 + n))
            } else {
                None
            }
        } else {
            match braced_global(s) {
                Some((g, n)) => Some((LexItem::Global(g), n)),
                None => None,
            }
        }
    } else {
        None
    }
}

/// Text runs stay within their sequence
pub proof fn lemma_text_run_bound(s: Seq<char>)
    ensures
        text_run(s) <= s.len(),
        s.len() > 0 && !is_special_char(s[0]) ==> text_run(s) > 0,
    decreases s.len(),
{
    if s.len() > 0 && !is_special_char(s[0]) {
        lemma_text_run_bound(s.drop_first());
    }
}

/// Letter and digit runs stay within their sequence
pub proof fn lemma_alnum_run_bound(s: Seq<char>)
    ensures
        alnum_run(s) <= s.len(),
    decreases s.len(),
{
    if s.len() > 0 && is_alnum(s[0]) {
        lemma_alnum_run_bound(s.drop_first());
    }
}

/// The tokens of the longest prefix of `s` made of tokens, and what remains after them
pub open spec fn lex_all(s: Seq<char>) -> (Seq<LexItem>, Seq<char>)
    decreases s.len(),
{
    match lex_one(s) {
        Some((t, n)) => if 0 < n <= s.len() {
            let rest = lex_all(s.skip(n));
            (seq![t] + rest.0, rest.1)
        } else {
            (Seq::empty(), s)
        },
        None => (Seq::empty(), s),
    }
}

/// A token of a name expression, as the lexer produces it
pub enum Lexeme {
    Text(String),
    Var(String),
    Global(Global),
}

impl View for Lexeme {
    type V = LexItem;

    open spec fn view(&self) -> LexItem {
        match self {
            Lexeme::Text(s) => LexItem::Text(s@),
            Lexeme::Var(s) => LexItem::Var(s@),
            Lexeme::Global(g) => LexItem::Global(*g),
        }
    }
}

/// The length of the run of non-special characters starting at `pos`
fn text_run_at(cs: &[char], pos: usize) -> (n: usize)
    requires
        pos <= cs@.len(),
    ensures
        n == text_run(cs@.skip(pos as int)),
        pos + n <= cs@.len(),
{
    let mut i = pos;
    while i < cs.len() && !(cs[i] == '{' || cs[i] == '}' || cs[i] == '@')
        invariant
            pos <= i <= cs@.len(),
            text_run(cs@.skip(pos as int)) == (i - pos) + text_run(cs@.skip(i as int)),
        decreases cs@.len() - i,
    {
        assert(cs@.skip(i as int).drop_first() =~= cs@.skip(i + 1));
        i += 1;
    }
    i - pos
}

/// The length of the run of ASCII letters and digits starting at `pos`
fn alnum_run_at(cs: &[char], pos: usize) -> (n: usize)
    requires
        pos <= cs@.len(),
    ensures
        n == alnum_run(cs@.skip(pos as int)),
        pos + n <= cs@.len(),
{
    let mut i = pos;
    while i < cs.len() && (('a' <= cs[i] && cs[i] <= 'z') || ('A' <= cs[i] && cs[i] <= 'Z') || (
    '0' <= cs[i] && cs[i] <= '9'))
        invariant
            pos <= i <= cs@.len(),
            alnum_run(cs@.skip(pos as int)) == (i - pos) + alnum_run(cs@.skip(i as int)),
        decreases cs@.len() - i,
    {
        assert(cs@.skip(i as int).drop_first() =~= cs@.skip(i + 1));
        i += 1;
    }
    i - pos
}

/// Whether the characters from `pos` begin with those of `prefix`
fn starts_with_at(cs: &[char], pos: usize, prefix: &[char]) -> (r: bool)
    requires
        pos <= cs@.len(),
    ensures
        r == starts_with(cs@.skip(pos as int), prefix@),
{
    if prefix.len() > cs.len() - pos {
        return false;
    }
    let mut i: usize = 0;
    let len = cs.len();
    while i < prefix.len()
        invariant
            len == cs@.len(),
            pos <= cs@.len(),
            i <= prefix@.len(),
            prefix@.len() <= cs@.len() - pos,
            forall|j: int| 0 <= j < i ==> cs@[pos + j] == prefix@[j],
        decreases prefix@.len() - i,
    {
        if cs[pos + i] != prefix[i] {
            assert(cs@.skip(pos as int).take(prefix@.len() as int)[i as int] != prefix@[i as int]);
            return false;
        }
        i += 1;
    }
    assert(cs@.skip(pos as int).take(prefix@.len() as int) =~= prefix@);
    true
}

/// The braced built-in variable starting at `pos`, if any
fn braced_global_at(cs: &[char], pos: usize) -> (r: Option<(Global, usize)>)
    requires
        pos <= cs@.len(),
    ensures
        match r {
            None => braced_global(cs@.skip(pos as int)) is None,
            Some((g, n)) => braced_global(cs@.skip(pos as int)) == Some((g, n as int)),
        },
{
    let parent = ['{', 'P', 'A', 'R', 'E', 'N', 'T', '}'];
    let path = ['{', 'P', 'A', 'T', 'H', '}'];
    let name = ['{', 'N', 'A', 'M', 'E', '}'];
    assert(parent@ == seq!['{', 'P', 'A', 'R', 'E', 'N', 'T', '}']);
    assert(path@ == seq!['{', 'P', 'A', 'T', 'H', '}']);
    assert(name@ == seq!['{', 'N', 'A', 'M', 'E', '}']);
    if starts_with_at(cs, pos, &parent) {
        Some((Global::Parent, 8))
    } else if starts_with_at(cs, pos, &path) {
        Some((Global::Path, 6))
    } else if starts_with_at(cs, pos, &name) {
        Some((Global::Name, 6))
    } else {
        None
    }
}

/// The token starting at `pos`, if any, and the number of characters it spans
pub fn lex_one_at(cs: &[char], pos: usize) -> (r: Option<(Lexeme, usize)>)
    requires
        pos <= cs@.len(),
    ensures
        match r {
            None => lex_one(cs@.skip(pos as int)) is None,
            Some((t, n)) => lex_one(cs@.skip(pos as int)) == Some((t@, n as int)) && 0 < n
                && pos + n <= cs@.len(),
        },
{
    let ghost s = cs@.skip(pos as int);
    if pos == cs.len() {
        return None;
    }
    let c = cs[pos];
    assert(s[0] == c);
    if !(c == '{' || c == '}' || c == '@') {
        let n = text_run_at(cs, pos);
        proof {
            lemma_text_run_bound(s);
        }
        let text = string_of_range(cs, pos, pos + n);
        assert(text@ =~= s.take(n as int));
        Some((Lexeme::Text(text), n))
    } else if c == '@' {
        assert(s.drop_first() =~= cs@.skip(pos + 1));
        let n = alnum_run_at(cs, pos + 1);
        if n > 0 {
            let name = string_of_range(cs, pos + 1, pos + 1 + n);
            assert(name@ =~= s.subrange(1, 1 + n as int));
            Some((Lexeme::Var(name), 1 + n))
        } else {
            None
        }
    } else if c == '{' {
        if pos + 1 < cs.len() && cs[pos + 1] == '@' {
            assert(s.skip(2) =~= cs@.skip(pos + 2));
            let n = alnum_run_at(cs, pos + 2);
            if n > 0 && pos + 2 + n < cs.len() && cs[pos + 2 + n] == '}' {
                let name = string_of_range(cs, pos + 2, pos + 2 + n);
                assert(name@ =~= s.subrange(2, 2 + n as int));
                Some((Lexeme::Var(name), 3 + n))
            } else {
                None
            }
        } else {
            match braced_global_at(cs, pos) {
                Some((g, n)) => Some((Lexeme::Global(g), n)),
                None => None,
            }
        }
    } else {
        None
    }
}

/// The tokens of the longest prefix of `cs` made of tokens, and where that prefix ends
pub fn lex_all_exec(cs: &[char]) -> (r: (Vec<Lexeme>, usize))
    ensures
        r.1 <= cs@.len(),
        r.0@.map_values(|t: Lexeme| t@) == lex_all(cs@).0,
        cs@.skip(r.1 as int) == lex_all(cs@).1,
{
    let mut tokens: Vec<Lexeme> = Vec::new();
    let mut pos: usize = 0;
    let len = cs.len();
    assert(cs@.skip(0) =~= cs@);
    loop
        invariant
            len == cs@.len(),
            pos <= cs@.len(),
            lex_all(cs@) == (
                tokens@.map_values(|t: Lexeme| t@) + lex_all(cs@.skip(pos as int)).0,
                lex_all(cs@.skip(pos as int)).1,
            ),
        decreases cs@.len() - pos,
    {
        let ghost s = cs@.skip(pos as int);
        match lex_one_at(cs, pos) {
            None => {
                assert(tokens@.map_values(|t: Lexeme| t@) + lex_all(s).0 =~= tokens@.map_values(
                    |t: Lexeme| t@,
                ));
                return (tokens, pos);
            },
            Some((t, n)) => {
                assert(pos + n <= cs@.len());
                let ghost tv = t@;
                let ghost before = tokens@.map_values(|t: Lexeme| t@);
                assert(s.skip(n as int) =~= cs@.skip(pos + n));
                tokens.push(t);
                assert(tokens@.map_values(|t: Lexeme| t@) =~= before.push(tv));
                assert(before + (seq![tv] + lex_all(s.skip(n as int)).0) =~= before.push(tv)
                    + lex_all(s.skip(n as int)).0);
                pos = pos + n;
            },
        }
    }
}

/// Why a name expression could not be read
#[derive(Debug, Clone, PartialEq, Eq)]
pub enum ExprError {
    /// The expression is malformed
    SyntaxError,
}

/// A part of a name expression
#[derive(Debug, Clone, PartialEq, Eq)]
pub enum Token {
    /// Plain text
    Text(String),
    /// A variable, named without its `@`
    AtVar(String),
    /// A built-in variable
    Global(Global),
}

impl View for Token {
    type V = LexItem;

    open spec fn view(&self) -> LexItem {
        match self {
            Token::Text(s) => LexItem::Text(s@),
            Token::AtVar(s) => LexItem::Var(s@),
            Token::Global(g) => LexItem::Global(*g),
        }
    }
}

/// Reads a name expression, which must be made of tokens from start to end
pub fn parse(s: &str) -> (r: Result<Vec<Token>, ExprError>)
    ensures
        match r {
            Ok(tokens) => lex_all(s@).1.len() == 0 && tokens@.map_values(|t: Token| t@) == lex_all(
                s@,
            ).0,
            Err(_) => lex_all(s@).1.len() > 0,
        },
{
    let cs = chars_of(s);
    let (lexemes, end) = lex_all_exec(cs.as_slice());
    if end < cs.len() {
        return Err(ExprError::SyntaxError);
    }
    let mut tokens: Vec<Token> = Vec::new();
    let mut rest = lexemes;
    let ghost all = rest@.map_values(|t: Lexeme| t@);
    let mut i: usize = 0;
    let total = rest.len();
    while rest.len() > 0
        invariant
            i + rest@.len() == all.len(),
            all.len() == total,
            tokens@.map_values(|t: Token| t@) == all.take(i as int),
            rest@.map_values(|t: Lexeme| t@) == all.skip(i as int),
        decreases rest@.len(),
    {
        let ghost before = tokens@.map_values(|t: Token| t@);
        let ghost rest_before = rest@;
        let l = rest.remove(0);
        assert(rest@ =~= rest_before.drop_first());
        let t = match l {
            Lexeme::Text(x) => Token::Text(x),
            Lexeme::Var(x) => Token::AtVar(x),
            Lexeme::Global(g) => Token::Global(g),
        };
        let ghost tv = t@;
        assert(tv == all[i as int]) by {
            assert(all.skip(i as int)[0] == all[i as int]);
        }
        tokens.push(t);
        assert(tokens@.map_values(|t: Token| t@) =~= before.push(tv));
        assert(all.take(i + 1) =~= all.take(i as int).push(all[i as int]));
        assert(rest@.map_values(|t: Lexeme| t@) =~= rest_before.map_values(|t: Lexeme| t@).drop_first());
        assert(all.skip(i as int).drop_first() =~= all.skip(i + 1));
        i += 1;
    }
    assert(all.take(i as int) =~= all);
    assert(cs@.skip(end as int).len() == 0);
    Ok(tokens)
}

/// The token that a lexeme stands for
fn to_token(l: Lexeme) -> (t: Token)
    ensures
        t@ == l@,
{
    match l {
        Lexeme::Text(x) => Token::Text(x),
        Lexeme::Var(x) => Token::AtVar(x),
        Lexeme::Global(g) => Token::Global(g),
    }
}

/// Which kind of token a reader accepts: 0 text, 1 an `@` variable, 2 a braced variable
pub open spec fn starts_kind(s: Seq<char>, kind: u8) -> bool {
    s.len() > 0 && if kind == 0 {
        !is_special_char(s[0])
    } else if kind == 1 {
        s[0] == '@'
    } else {
        s[0] == '{'
    }
}

/// Reads one token of the given kind at the start of `s`: the rest and the token
fn token_of_kind(s: &str, kind: u8) -> (r: Result<(String, Token), ExprError>)
    ensures
        r is Ok <==> (starts_kind(s@, kind) && lex_one(s@) is Some),
        r matches Ok((rest, t)) ==> lex_one(s@) matches Some((item, n)) && t@ == item && rest@
            == s@.skip(n),
{
    let cs = chars_of(s);
    assert(cs@.skip(0) =~= cs@);
    if cs.len() == 0 {
        return Err(ExprError::SyntaxError);
    }
    let c = cs[0];
    let ok = if kind == 0 {
        !(c == '{' || c == '}' || c == '@')
    } else if kind == 1 {
        c == '@'
    } else {
        c == '{'
    };
    if !ok {
        return Err(ExprError::SyntaxError);
    }
    match lex_one_at(cs.as_slice(), 0) {
        None => Err(ExprError::SyntaxError),
        Some((l, n)) => {
            let rest = string_of_range(cs.as_slice(), n, cs.len());
            assert(rest@ =~= s@.skip(n as int));
            Ok((rest, to_token(l)))
        },
    }
}

/// Reads a run of characters that are not part of any variable
pub fn non_special(s: &str) -> (r: Result<(String, Token), ExprError>)
    ensures
        r is Ok <==> (starts_kind(s@, 0) && lex_one(s@) is Some),
        r matches Ok((rest, t)) ==> lex_one(s@) matches Some((item, n)) && t@ == item && rest@
            == s@.skip(n),
{
    token_of_kind(s, 0)
}

/// Reads a variable name prefixed with an at-sign, such as `@example`
pub fn at_var(s: &str) -> (r: Result<(String, Token), ExprError>)
    ensures
        r is Ok <==> (starts_kind(s@, 1) && lex_one(s@) is Some),
        r matches Ok((rest, t)) ==> lex_one(s@) matches Some((item, n)) && t@ == item && rest@
            == s@.skip(n),
{
    token_of_kind(s, 1)
}

/// Reads a variable between braces, such as `{@example}` or `{PATH}`
pub fn braced_var(s: &str) -> (r: Result<(String, Token), ExprError>)
    ensures
        r is Ok <==> (starts_kind(s@, 2) && lex_one(s@) is Some),
        r matches Ok((rest, t)) ==> lex_one(s@) matches Some((item, n)) && t@ == item && rest@
            == s@.skip(n),
{
    token_of_kind(s, 2)
}

/// Reads as many tokens as follow one another from the start of `s`: the rest and the tokens
pub fn expr(s: &str) -> (r: (String, Vec<Token>))
    ensures
        r.0@ == lex_all(s@).1,
        r.1@.map_values(|t: Token| t@) == lex_all(s@).0,
{
    let cs = chars_of(s);
    let (lexemes, end) = lex_all_exec(cs.as_slice());
    let rest = string_of_range(cs.as_slice(), end, cs.len());
    assert(rest@ =~= cs@.skip(end as int));
    let ghost all = lexemes@.map_values(|t: Lexeme| t@);
    let mut tokens: Vec<Token> = Vec::new();
    let mut i: usize = 0;
    while i < lexemes.len()
        invariant
            i <= lexemes@.len(),
            all == lexemes@.map_values(|t: Lexeme| t@),
            tokens@.map_values(|t: Token| t@) == all.take(i as int),
        decreases lexemes@.len() - i,
    {
        let ghost before = tokens@.map_values(|t: Token| t@);
        let t = match &lexemes[i] {
            Lexeme::Text(x) => Token::Text(x.clone()),
            Lexeme::Var(x) => Token::AtVar(x.clone()),
            Lexeme::Global(g) => Token::Global(*g),
        };
        assert(t@ == all[i as int]);
        tokens.push(t);
        assert(tokens@.map_values(|t: Token| t@) =~= before.push(all[i as int]));
        assert(all.take(i + 1) =~= all.take(i as int).push(all[i as int]));
        i += 1;
    }
    assert(all.take(i as int) =~= all);
    (rest, tokens)
}

/// Whether `p` is one token of a name expression written out: a run of characters other than
/// `{`, `}` and `@`; `@` and letters or digits; `{@`, letters or digits and `}`; or one of
/// `{PARENT}`, `{PATH}` and `{NAME}`
pub open spec fn is_token_text(p: Seq<char>) -> bool {
    ||| p.len() > 0 && forall|i: int| 0 <= i < p.len() ==> !is_special_char(#[trigger] p[i])
    ||| p.len() > 1 && p[0] == '@' && forall|i: int| 1 <= i < p.len() ==> is_alnum(#[trigger] p[i])
    ||| p.len() > 3 && p[0] == '{' && p[1] == '@' && p[p.len() - 1] == '}' && forall|i: int|
        2 <= i < p.len() - 1 ==> is_alnum(#[trigger] p[i])
    ||| p == seq!['{', 'P', 'A', 'R', 'E', 'N', 'T', '}']
    ||| p == seq!['{', 'P', 'A', 'T', 'H', '}']
    ||| p == seq!['{', 'N', 'A', 'M', 'E', '}']
}

/// Whether every piece is a token written out
pub open spec fn all_token_texts(ps: Seq<Seq<char>>) -> bool {
    forall|i: int| 0 <= i < ps.len() ==> is_token_text(#[trigger] ps[i])
}

/// The leading text run holds no special character
proof fn lemma_text_run_chars(s: Seq<char>)
    ensures
        text_run(s) <= s.len(),
        forall|i: int| 0 <= i < text_run(s) ==> !is_special_char(#[trigger] s[i]),
        text_run(s) < s.len() ==> is_special_char(s[text_run(s) as int]),
    decreases s.len(),
{
    if s.len() > 0 && !is_special_char(s[0]) {
        lemma_text_run_chars(s.drop_first());
        assert forall|i: int| 0 <= i < text_run(s) implies !is_special_char(#[trigger] s[i]) by {
            if i > 0 {
                assert(s[i] == s.drop_first()[i - 1]);
            }
        }
        if text_run(s) < s.len() {
            assert(s[text_run(s) as int] == s.drop_first()[text_run(s.drop_first()) as int]);
        }
    }
}

/// The leading run of letters and digits holds only letters and digits
proof fn lemma_alnum_run_chars(s: Seq<char>)
    ensures
        alnum_run(s) <= s.len(),
        forall|i: int| 0 <= i < alnum_run(s) ==> is_alnum(#[trigger] s[i]),
        alnum_run(s) < s.len() ==> !is_alnum(s[alnum_run(s) as int]),
    decreases s.len(),
{
    if s.len() > 0 && is_alnum(s[0]) {
        lemma_alnum_run_chars(s.drop_first());
        assert forall|i: int| 0 <= i < alnum_run(s) implies is_alnum(#[trigger] s[i]) by {
            if i > 0 {
                assert(s[i] == s.drop_first()[i - 1]);
            }
        }
        if alnum_run(s) < s.len() {
            assert(s[alnum_run(s) as int] == s.drop_first()[alnum_run(s.drop_first()) as int]);
        }
    }
}

/// A run of letters and digits continues through a prefix made of them
proof fn lemma_alnum_run_prefix(x: Seq<char>, r: Seq<char>)
    requires
        forall|i: int| 0 <= i < x.len() ==> is_alnum(#[trigger] x[i]),
    ensures
        alnum_run(x + r) == x.len() + alnum_run(r),
    decreases x.len(),
{
    if x.len() > 0 {
        assert((x + r).drop_first() =~= x.drop_first() + r);
        assert(x[0] == (x + r)[0]);
        lemma_alnum_run_prefix(x.drop_first(), r);
    } else {
        assert(x + r =~= r);
    }
}

/// A text run continues through a prefix free of special characters
proof fn lemma_text_run_prefix(x: Seq<char>, r: Seq<char>)
    requires
        forall|i: int| 0 <= i < x.len() ==> !is_special_char(#[trigger] x[i]),
    ensures
        text_run(x + r) == x.len() + text_run(r),
    decreases x.len(),
{
    if x.len() > 0 {
        assert((x + r).drop_first() =~= x.drop_first() + r);
        assert(x[0] == (x + r)[0]);
        lemma_text_run_prefix(x.drop_first(), r);
    } else {
        assert(x + r =~= r);
    }
}

/// What the lexer takes as one token is a token written out
proof fn lemma_lexed_token_text(s: Seq<char>)
    requires
        lex_one(s) is Some,
    ensures
        lex_one(s) matches Some((_, n)) && 0 < n <= s.len() && is_token_text(s.take(n)),
{
    lemma_text_run_chars(s);
    let (_, n) = lex_one(s).unwrap();
    let p = s.take(n);
    if !is_special_char(s[0]) {
        assert forall|i: int| 0 <= i < p.len() implies !is_special_char(#[trigger] p[i]) by {
            assert(p[i] == s[i]);
        }
    } else if s[0] == '@' {
        lemma_alnum_run_chars(s.drop_first());
        assert forall|i: int| 1 <= i < p.len() implies is_alnum(#[trigger] p[i]) by {
            assert(p[i] == s.drop_first()[i - 1]);
        }
    } else if s.len() > 1 && s[1] == '@' {
        lemma_alnum_run_chars(s.skip(2));
        assert forall|i: int| 2 <= i < p.len() - 1 implies is_alnum(#[trigger] p[i]) by {
            assert(p[i] == s.skip(2)[i - 2]);
        }
    } else {
        let g = braced_global(s).unwrap();
        if starts_with(s, seq!['{', 'P', 'A', 'R', 'E', 'N', 'T', '}']) {
        } else if starts_with(s, seq!['{', 'P', 'A', 'T', 'H', '}']) {
        } else {
        }
    }
}

/// Pieces of written tokens, after characters free of special ones are taken off the front,
/// are still pieces of written tokens
proof fn lemma_skip_text(ps: Seq<Seq<char>>, j: int) -> (qs: Seq<Seq<char>>)
    requires
        all_token_texts(ps),
        0 <= j <= ps.flatten().len(),
        forall|i: int| 0 <= i < j ==> !is_special_char(#[trigger] ps.flatten()[i]),
    ensures
        all_token_texts(qs),
        qs.flatten() == ps.flatten().skip(j),
    decreases ps.len(),
{
    if j == 0 {
        assert(ps.flatten().skip(0) =~= ps.flatten());
        ps
    } else {
        let q = ps[0];
        let rest = ps.drop_first();
        assert(ps.flatten() == q + rest.flatten());
        assert(is_token_text(q));
        assert(all_token_texts(rest)) by {
            assert forall|i: int| 0 <= i < rest.len() implies is_token_text(#[trigger] rest[i]) by {
                assert(rest[i] == ps[i + 1]);
            }
        }
        if q.len() == 0 {
            assert(false);
        }
        assert(!is_special_char(ps.flatten()[0]));
        assert(ps.flatten()[0] == q[0]);
        if j < q.len() {
            let q2 = q.skip(j);
            assert forall|i: int| 0 <= i < q2.len() implies !is_special_char(#[trigger] q2[i]) by {
                assert(q2[i] == q[i + j]);
                if q[0] == '@' || q[0] == '{' {
                    assert(false);
                }
            }
            let qs = seq![q2] + rest;
            assert(qs.drop_first() =~= rest);
            assert(qs.flatten() == q2 + rest.flatten());
            assert(q2 + rest.flatten() =~= (q + rest.flatten()).skip(j));
            assert forall|i: int| 0 <= i < qs.len() implies is_token_text(#[trigger] qs[i]) by {
                if i > 0 {
                    assert(qs[i] == rest[i - 1]);
                }
            }
            qs
        } else {
            let k = q.len() as int;
            assert forall|i: int| 0 <= i < j - k implies !is_special_char(#[trigger] rest.flatten()[i]) by {
                assert(rest.flatten()[i] == ps.flatten()[i + k]);
            }
            let qs = lemma_skip_text(rest, j - k);
            assert(rest.flatten().skip(j - k) =~= (q + rest.flatten()).skip(j));
            qs
        }
    }
}

/// A text made of written tokens, from start to end, is lexed to its end
proof fn lemma_token_texts_lex(s: Seq<char>, ps: Seq<Seq<char>>)
    requires
        all_token_texts(ps),
        ps.flatten() == s,
    ensures
        lex_all(s).1.len() == 0,
    decreases s.len(),
{
    if s.len() == 0 {
        assert(lex_one(s) is None);
    } else {
        if ps.len() == 0 {
            assert(false);
        }
        let p = ps[0];
        let rest = ps.drop_first();
        let r = rest.flatten();
        assert(s == p + r);
        assert(all_token_texts(rest)) by {
            assert forall|i: int| 0 <= i < rest.len() implies is_token_text(#[trigger] rest[i]) by {
                assert(rest[i] == ps[i + 1]);
            }
        }
        assert(is_token_text(p));
        if p.len() == 0 {
            assert(false);
        }
        assert(s[0] == p[0]);
        if !is_special_char(p[0]) {
            // a run of text: the lexer takes it and any text that follows
            assert(forall|i: int| 0 <= i < p.len() ==> !is_special_char(#[trigger] p[i])) by {
                if p[0] == '@' || p[0] == '{' {
                    assert(false);
                }
            }
            lemma_text_run_prefix(p, r);
            lemma_text_run_chars(r);
            let m = text_run(s) as int;
            let j = m - p.len();
            assert forall|i: int| 0 <= i < j implies !is_special_char(#[trigger] r[i]) by {}
            let qs = lemma_skip_text(rest, j);
            assert(s.skip(m) =~= r.skip(j));
            lemma_token_texts_lex(s.skip(m), qs);
        } else if p[0] == '@' {
            let x = p.drop_first();
            assert forall|i: int| 0 <= i < x.len() implies is_alnum(#[trigger] x[i]) by {
                assert(x[i] == p[i + 1]);
            }
            assert(s.drop_first() =~= x + r);
            lemma_alnum_run_prefix(x, r);
            lemma_alnum_run_chars(r);
            let a = alnum_run(r) as int;
            let m = 1 + x.len() + a;
            assert forall|i: int| 0 <= i < a implies !is_special_char(#[trigger] r[i]) by {
                assert(is_alnum(r[i]));
            }
            let qs = lemma_skip_text(rest, a);
            assert(s.skip(m) =~= r.skip(a));
            lemma_token_texts_lex(s.skip(m), qs);
        } else if p.len() > 3 && p[0] == '{' && p[1] == '@' && p[p.len() - 1] == '}' && forall|i: int|
            2 <= i < p.len() - 1 ==> is_alnum(#[trigger] p[i]) {
            let k = p.len() - 3;
            let x = p.subrange(2, 2 + k);
            assert forall|i: int| 0 <= i < x.len() implies is_alnum(#[trigger] x[i]) by {
                assert(x[i] == p[i + 2]);
            }
            assert(s.skip(2) =~= x + (seq!['}'] + r));
            lemma_alnum_run_prefix(x, seq!['}'] + r);
            assert(alnum_run(seq!['}'] + r) == 0) by {
                assert((seq!['}'] + r)[0] == '}');
            }
            assert(s[2 + k] == '}');
            assert(s[1] == '@');
            assert(s.skip(3 + k) =~= r);
            lemma_token_texts_lex(r, rest);
        } else {
            assert(p == seq!['{', 'P', 'A', 'R', 'E', 'N', 'T', '}'] || p == seq![
                '{',
                'P',
                'A',
                'T',
                'H',
                '}',
            ] || p == seq!['{', 'N', 'A', 'M', 'E', '}']);
            assert(s.take(p.len() as int) =~= p);
            assert(s.skip(p.len() as int) =~= r);
            assert(s[1] == p[1]);
            if p == seq!['{', 'P', 'A', 'T', 'H', '}'] {
                assert(s[3] == 'T');
                assert(!starts_with(s, seq!['{', 'P', 'A', 'R', 'E', 'N', 'T', '}'])) by {
                    if s.len() >= 8 {
                        assert(s.take(8)[3] == s[3]);
                        assert(seq!['{', 'P', 'A', 'R', 'E', 'N', 'T', '}'][3] == 'R');
                    }
                }
            }
            if p == seq!['{', 'N', 'A', 'M', 'E', '}'] {
                assert(!starts_with(s, seq!['{', 'P', 'A', 'R', 'E', 'N', 'T', '}'])) by {
                    if s.len() >= 8 {
                        assert(s.take(8)[1] == s[1]);
                    }
                }
                assert(!starts_with(s, seq!['{', 'P', 'A', 'T', 'H', '}'])) by {
                    assert(s.take(6)[1] == s[1]);
                }
            }
            lemma_token_texts_lex(r, rest);
        }
    }
}

/// The written tokens that the lexer reads, one after another
proof fn lemma_lexed_token_texts(s: Seq<char>) -> (ps: Seq<Seq<char>>)
    requires
        lex_all(s).1.len() == 0,
    ensures
        all_token_texts(ps),
        ps.flatten() == s,
    decreases s.len(),
{
    if s.len() == 0 {
        Seq::empty()
    } else {
        lemma_lexed_token_text(s);
        let (_, n) = lex_one(s).unwrap();
        let rest = lemma_lexed_token_texts(s.skip(n));
        let ps = seq![s.take(n)] + rest;
        assert(ps.drop_first() =~= rest);
        assert(ps.flatten() == s.take(n) + rest.flatten());
        assert(s.take(n) + s.skip(n) =~= s);
        assert forall|i: int| 0 <= i < ps.len() implies is_token_text(#[trigger] ps[i]) by {
            if i > 0 {
                assert(ps[i] == rest[i - 1]);
            }
        }
        ps
    }
}

/// A name expression is read to its end exactly when it is written as tokens one after
/// another: runs of characters other than `{`, `}` and `@`, `@` variables, braced `{@`
/// variables and the braced built-in variables
pub proof fn lemma_lexed_iff_token_texts(s: Seq<char>)
    ensures
        lex_all(s).1.len() == 0 <==> exists|ps: Seq<Seq<char>>| all_token_texts(ps) && ps.flatten() == s,
{
    if lex_all(s).1.len() == 0 {
        let ps = lemma_lexed_token_texts(s);
    }
    if exists|ps: Seq<Seq<char>>| all_token_texts(ps) && ps.flatten() == s {
        let ps = choose|ps: Seq<Seq<char>>| all_token_texts(ps) && ps.flatten() == s;
        lemma_token_texts_lex(s, ps);
    }
}

} // verus!
