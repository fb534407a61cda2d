//! The lexical pieces of the schema language: whitespace, line endings, blank lines,
//! identifiers, names and expressions.
use vstd::prelude::*;

use crate::expression::{special_named, Expression, Identifier, Special, Token, TokenView};
use crate::text_util::string_of_range;

verus! {

/// A space or a tab
pub open spec fn is_ws(c: char) -> bool {
    c == ' ' || c == '\t'
}

/// The number of leading spaces and tabs
pub open spec fn ws_run(s: Seq<char>) -> nat
    decreases s.len(),
{
    if s.len() > 0 && is_ws(s[0]) {
        1 + ws_run(s.drop_first())
    } else {
        0
    }
}

/// The length of the line ending `s` starts with (`\n` or `\r\n`), or 0 if none
pub open spec fn line_ending(s: Seq<char>) -> int {
    if s.len() > 0 && s[0] == '\n' {
        1
    } else if s.len() > 1 && s[0] == '\r' && s[1] == '\n' {
        2
    } else {
        0
    }
}

/// The number of leading characters before the first `\n`
pub open spec fn to_newline(s: Seq<char>) -> nat
    decreases s.len(),
{
    if s.len() > 0 && s[0] != '\n' {
        1 + to_newline(s.drop_first())
    } else {
        0
    }
}

/// The length of the comment (`#` up to the end of the line) that `s` starts with, or 0
pub open spec fn comment_len(s: Seq<char>) -> int {
    if s.len() > 0 && s[0] == '#' {
        to_newline(s) as int
    } else {
        0
    }
}

/// The length of a blank line at the start of `s` (spaces, an optional comment, then a line
/// ending or the end of the text)
pub open spec fn blank_line(s: Seq<char>) -> Option<int> {
    let a = ws_run(s) as int;
    let b = comment_len(s.skip(a));
    let rest = s.skip(a + b);
    if line_ending(rest) > 0 {
        Some(a + b + line_ending(rest))
    } else if rest.len() == 0 {
        Some(a + b)
    } else {
        None
    }
}

/// The length of the run of blank lines at the start of `s` (the last may end with the end of
/// the text instead of a line ending, if it is not empty)
pub open spec fn blank_lines(s: Seq<char>) -> int
    decreases s.len(),
{
    match blank_line(s) {
        Some(n) => if 0 < n <= s.len() {
            n + blank_lines(s.skip(n))
        } else {
            0
        },
        None => 0,
    }
}

/// The end of a line: the end of the text, or a line ending followed by any blank lines
pub open spec fn end_of_lines_spec(s: Seq<char>) -> Option<int> {
    if s.len() == 0 {
        Some(0)
    } else if line_ending(s) > 0 {
        Some(line_ending(s) + blank_lines(s.skip(line_ending(s))))
    } else {
        None
    }
}

/// An ASCII letter
pub open spec fn is_alpha(c: char) -> bool {
    ('a' <= c && c <= 'z') || ('A' <= c && c <= 'Z')
}

/// An ASCII letter, digit or underscore
pub open spec fn is_ident_char(c: char) -> bool {
    is_alpha(c) || ('0' <= c && c <= '9') || c == '_'
}

/// The number of leading identifier characters
pub open spec fn ident_char_run(s: Seq<char>) -> nat
    decreases s.len(),
{
    if s.len() > 0 && is_ident_char(s[0]) {
        1 + ident_char_run(s.drop_first())
    } else {
        0
    }
}

/// The length of the identifier (a letter or underscore, then letters, digits and
/// underscores) that `s` starts with, or 0
pub open spec fn ident_len(s: Seq<char>) -> int {
    if s.len() > 0 && (is_alpha(s[0]) || s[0] == '_') {
        ident_char_run(s) as int
    } else {
        0
    }
}

/// A character allowed in a static name
pub open spec fn is_name_char(c: char) -> bool {
    is_alpha(c) || ('0' <= c && c <= '9') || c == '_' || c == '-' || c == '.' || c == '@' || c
        == '^' || c == '+' || c == '%' || c == '='
}

/// The number of leading characters allowed in a static name
pub open spec fn name_run(s: Seq<char>) -> nat
    decreases s.len(),
{
    if s.len() > 0 && is_name_char(s[0]) {
        1 + name_run(s.drop_first())
    } else {
        0
    }
}

/// The number of leading characters that are plain text in an expression
pub open spec fn expr_text_run(s: Seq<char>) -> nat
    decreases s.len(),
{
    if s.len() > 0 && s[0] != '$' && s[0] != '\n' {
        1 + expr_text_run(s.drop_first())
    } else {
        0
    }
}

/// The token for a variable of the given name: special variables are recognized by name
pub open spec fn variable_token(name: Seq<char>) -> TokenView {
    match special_named(name) {
        Some(sp) => TokenView::Special(sp),
        None => TokenView::Variable(name),
    }
}

/// The variable (`$name` or `${name}`) that `s` starts with, and its length
pub open spec fn variable(s: Seq<char>) -> Option<(TokenView, int)> {
    if s.len() > 0 && s[0] == '$' {
        let braced = ident_len(s.skip(2));
        let plain = ident_len(s.skip(1));
        if s.len() > 1 && s[1] == '{' && braced > 0 && s.len() > 2 + braced && s[2 + braced]
            == '}' {
            Some((variable_token(s.subrange(2, 2 + braced)), 3 + braced))
        } else if plain > 0 {
            Some((variable_token(s.subrange(1, 1 + plain)), 1 + plain))
        } else {
            None
        }
    } else {
        None
    }
}

/// The expression token that `s` starts with, and its length
pub open spec fn expr_item(s: Seq<char>) -> Option<(TokenView, int)> {
    let t = expr_text_run(s) as int;
    if t > 0 {
        Some((TokenView::Text(s.take(t)), t))
    } else {
        variable(s)
    }
}

/// The longest run of expression tokens at the start of `s`, and its length
pub open spec fn expr_items(s: Seq<char>) -> (Seq<TokenView>, int)
    decreases s.len(),
{
    match expr_item(s) {
        Some((t, n)) => if 0 < n <= s.len() {
            let rest = expr_items(s.skip(n));
            (seq![t] + rest.0, n + rest.1)
        } else {
            (Seq::empty(), 0)
        },
        None => (Seq::empty(), 0),
    }
}

/// The expression (one or more tokens) that `s` starts with, and its length
pub open spec fn expression(s: Seq<char>) -> Option<(Seq<TokenView>, int)> {
    let items = expr_items(s);
    if items.0.len() > 0 {
        Some(items)
    } else {
        None
    }
}

/// The length of the run of characters at `pos` satisfying the character class
/// (0: spaces and tabs; 1: identifier characters; 2: name characters; 3: expression text;
/// 4: anything but a newline)
fn run_at(cs: &[char], pos: usize, class: u8) -> (n: usize)
    requires
        pos <= cs@.len(),
        class <= 4,
    ensures
        pos + n <= cs@.len(),
        class == 0 ==> n == ws_run(cs@.skip(pos as int)),
        class == 1 ==> n == ident_char_run(cs@.skip(pos as int)),
        class == 2 ==> n == name_run(cs@.skip(pos as int)),
        class == 3 ==> n == expr_text_run(cs@.skip(pos as int)),
        class == 4 ==> n == to_newline(cs@.skip(pos as int)),
{
    let mut i = pos;
    let len = cs.len();
    loop
        invariant
            len == cs@.len(),
            pos <= i <= cs@.len(),
            class <= 4,
            class == 0 ==> ws_run(cs@.skip(pos as int)) == (i - pos) + ws_run(cs@.skip(i as int)),
            class == 1 ==> ident_char_run(cs@.skip(pos as int)) == (i - pos) + ident_char_run(
                cs@.skip(i as int),
            ),
            class == 2 ==> name_run(cs@.skip(pos as int)) == (i - pos) + name_run(
                cs@.skip(i as int),
            ),
            class == 3 ==> expr_text_run(cs@.skip(pos as int)) == (i - pos) + expr_text_run(
                cs@.skip(i as int),
            ),
            class == 4 ==> to_newline(cs@.skip(pos as int)) == (i - pos) + to_newline(
                cs@.skip(i as int),
            ),
        ensures
            pos <= i <= cs@.len(),
            class == 0 ==> ws_run(cs@.skip(pos as int)) == i - pos,
            class == 1 ==> ident_char_run(cs@.skip(pos as int)) == i - pos,
            class == 2 ==> name_run(cs@.skip(pos as int)) == i - pos,
            class == 3 ==> expr_text_run(cs@.skip(pos as int)) == i - pos,
            class == 4 ==> to_newline(cs@.skip(pos as int)) == i - pos,
        decreases cs@.len() - i,
    {
        if i == len {
            assert(cs@.skip(i as int).len() == 0);
            break ;
        }
        let c = cs[i];
        let ok = if class == 0 {
            c == ' ' || c == '\t'
        } else if class == 1 {
            ('a' <= c && c <= 'z') || ('A' <= c && c <= 'Z') || ('0' <= c && c <= '9') || c == '_'
        } else if class == 2 {
            ('a' <= c && c <= 'z') || ('A' <= c && c <= 'Z') || ('0' <= c && c <= '9') || c == '_'
                || c == '-' || c == '.' || c == '@' || c == '^' || c == '+' || c == '%' || c == '='
        } else if class == 3 {
            c != '$' && c != '\n'
        } else {
            c != '\n'
        };
        assert(cs@.skip(i as int)[0] == c);
        if !ok {
            break ;
        }
        assert(cs@.skip(i as int).drop_first() =~= cs@.skip(i + 1));
        i += 1;
    }
    i - pos
}

/// The length of the line ending at `pos`, or 0
pub fn line_ending_at(cs: &[char], pos: usize) -> (n: usize)
    requires
        pos <= cs@.len(),
    ensures
        n == line_ending(cs@.skip(pos as int)),
        pos + n <= cs@.len(),
{
    let ghost s = cs@.skip(pos as int);
    if pos < cs.len() && cs[pos] == '\n' {
        assert(s[0] == '\n');
        1
    } else if pos < cs.len() && pos + 1 < cs.len() && cs[pos] == '\r' && cs[pos + 1] == '\n' {
        assert(s[0] == '\r' && s[1] == '\n');
        2
    } else {
        proof {
            if s.len() > 0 {
                assert(s[0] == cs@[pos as int]);
            }
            if s.len() > 1 {
                assert(s[1] == cs@[pos + 1]);
            }
        }
        0
    }
}

/// The length of the comment at `pos`, or 0
pub fn comment_len_at(cs: &[char], pos: usize) -> (n: usize)
    requires
        pos <= cs@.len(),
    ensures
        n == comment_len(cs@.skip(pos as int)),
        pos + n <= cs@.len(),
{
    if pos < cs.len() && cs[pos] == '#' {
        assert(cs@.skip(pos as int)[0] == '#');
        run_at(cs, pos, 4)
    } else {
        proof {
            if pos < cs@.len() {
                assert(cs@.skip(pos as int)[0] == cs@[pos as int]);
            }
        }
        0
    }
}

/// The length of the blank line at `pos`, if there is one
pub fn blank_line_at(cs: &[char], pos: usize) -> (r: Option<usize>)
    requires
        pos <= cs@.len(),
    ensures
        match r {
            Some(n) => blank_line(cs@.skip(pos as int)) == Some(n as int),
            None => blank_line(cs@.skip(pos as int)) is None,
        },
        r matches Some(n) ==> pos + n <= cs@.len(),
{
    let ghost s = cs@.skip(pos as int);
    let _len = cs.len();
    let a = run_at(cs, pos, 0);
    assert(s.skip(a as int) =~= cs@.skip(pos + a));
    let b = comment_len_at(cs, pos + a);
    assert(s.skip(a + b) =~= cs@.skip(pos + a + b));
    let e = line_ending_at(cs, pos + a + b);
    if e > 0 {
        Some(a + b + e)
    } else if pos + a + b == cs.len() {
        Some(a + b)
    } else {
        None
    }
}

/// The length of the run of blank lines at `pos` (the last may end with the end of the text,
/// if it is not empty)
pub fn blank_lines_at(cs: &[char], pos: usize) -> (n: usize)
    requires
        pos <= cs@.len(),
    ensures
        n == blank_lines(cs@.skip(pos as int)),
        pos + n <= cs@.len(),
{
    let mut i = pos;
    let len = cs.len();
    loop
        invariant
            len == cs@.len(),
            pos <= i <= cs@.len(),
            blank_lines(cs@.skip(pos as int)) == (i - pos) + blank_lines(cs@.skip(i as int)),
        ensures
            pos <= i <= cs@.len(),
            blank_lines(cs@.skip(pos as int)) == i - pos,
        decreases cs@.len() - i,
    {
        match blank_line_at(cs, i) {
            Some(n) => {
                if n == 0 {
                    break ;
                }
                assert(cs@.skip(i as int).skip(n as int) =~= cs@.skip(i + n));
                i = i + n;
            },
            None => {
                break ;
            },
        }
    }
    i - pos
}

/// The length of the end of a line at `pos` (the end of the text, or a line ending followed
/// by any blank lines), if there is one
pub fn end_of_lines_at(cs: &[char], pos: usize) -> (r: Option<usize>)
    requires
        pos <= cs@.len(),
    ensures
        match r {
            Some(n) => end_of_lines_spec(cs@.skip(pos as int)) == Some(n as int),
            None => end_of_lines_spec(cs@.skip(pos as int)) is None,
        },
        r matches Some(n) ==> pos + n <= cs@.len(),
{
    if pos == cs.len() {
        return Some(0);
    }
    let e = line_ending_at(cs, pos);
    if e == 0 {
        return None;
    }
    assert(cs@.skip(pos as int).skip(e as int) =~= cs@.skip(pos + e));
    let b = blank_lines_at(cs, pos + e);
    Some(e + b)
}

/// The length of the identifier at `pos`, or 0
pub fn ident_len_at(cs: &[char], pos: usize) -> (n: usize)
    requires
        pos <= cs@.len(),
    ensures
        n == ident_len(cs@.skip(pos as int)),
        pos + n <= cs@.len(),
{
    if pos < cs.len() && (('a' <= cs[pos] && cs[pos] <= 'z') || ('A' <= cs[pos] && cs[pos] <= 'Z')
        || cs[pos] == '_') {
        assert(cs@.skip(pos as int)[0] == cs@[pos as int]);
        run_at(cs, pos, 1)
    } else {
        proof {
            if pos < cs@.len() {
                assert(cs@.skip(pos as int)[0] == cs@[pos as int]);
            }
        }
        0
    }
}

/// The length of the run of static name characters at `pos`
pub fn name_run_at(cs: &[char], pos: usize) -> (n: usize)
    requires
        pos <= cs@.len(),
    ensures
        n == name_run(cs@.skip(pos as int)),
        pos + n <= cs@.len(),
{
    run_at(cs, pos, 2)
}

/// The number of spaces and tabs at `pos`
pub fn ws_run_at(cs: &[char], pos: usize) -> (n: usize)
    requires
        pos <= cs@.len(),
    ensures
        n == ws_run(cs@.skip(pos as int)),
        pos + n <= cs@.len(),
{
    run_at(cs, pos, 0)
}

/// The token for a variable with the name `cs[from..to]`
fn variable_token_exec(cs: &[char], from: usize, to: usize) -> (t: Token)
    requires
        from <= to <= cs@.len(),
    ensures
        t@ == variable_token(cs@.subrange(from as int, to as int)),
{
    let name = string_of_range(cs, from, to);
    match Special::from_name(name.as_str()) {
        Some(sp) => Token::Special(sp),
        None => Token::Variable(Identifier(name)),
    }
}

/// The expression token at `pos`, if any, and its length
fn expr_item_at(cs: &[char], pos: usize) -> (r: Option<(Token, usize)>)
    requires
        pos <= cs@.len(),
    ensures
        match r {
            None => expr_item(cs@.skip(pos as int)) is None,
            Some((t, n)) => expr_item(cs@.skip(pos as int)) == Some((t@, n as int)) && 0 < n
                && pos + n <= cs@.len(),
        },
{
    let ghost s = cs@.skip(pos as int);
    let _len = cs.len();
    let t = run_at(cs, pos, 3);
    if t > 0 {
        let text = string_of_range(cs, pos, pos + t);
        assert(text@ =~= s.take(t as int));
        return Some((Token::Text(text), t));
    }
    if pos < cs.len() && cs[pos] == '$' {
        assert(s[0] == '$');
        let braced = if pos + 1 < cs.len() {
            ident_len_at(cs, pos + 2)
        } else {
            0
        };
        assert(pos + 2 <= cs@.len() ==> s.skip(2) =~= cs@.skip(pos + 2));
        assert(s.skip(1) =~= cs@.skip(pos + 1));
        let plain = ident_len_at(cs, pos + 1);
        if pos + 1 < cs.len() && cs[pos + 1] == '{' && braced > 0 && pos + 2 + braced < cs.len()
            && cs[pos + 2 + braced] == '}' {
            assert(s[1] == '{' && s[2 + braced] == '}');
            let tok = variable_token_exec(cs, pos + 2, pos + 2 + braced);
            assert(cs@.subrange(pos + 2, pos + 2 + braced) =~= s.subrange(2, 2 + braced));
            Some((tok, 3 + braced))
        } else if plain > 0 {
            proof {
                if s.len() > 1 {
                    assert(s[1] == cs@[pos + 1]);
                }
                if s.len() > 2 + braced {
                    assert(s[2 + braced] == cs@[pos + 2 + braced]);
                }
            }
            let tok = variable_token_exec(cs, pos + 1, pos + 1 + plain);
            assert(cs@.subrange(pos + 1, pos + 1 + plain) =~= s.subrange(1, 1 + plain));
            Some((tok, 1 + plain))
        } else {
            proof {
                if s.len() > 1 {
                    assert(s[1] == cs@[pos + 1]);
                }
                if s.len() > 2 + braced {
                    assert(s[2 + braced] == cs@[pos + 2 + braced]);
                }
            }
            None
        }
    } else {
        proof {
            if pos < cs@.len() {
                assert(s[0] == cs@[pos as int]);
            }
        }
        None
    }
}

/// The expression at `pos`, if any, and its length
pub fn expression_at(cs: &[char], pos: usize) -> (r: Option<(Expression, usize)>)
    requires
        pos <= cs@.len(),
    ensures
        match r {
            None => expression(cs@.skip(pos as int)) is None,
            Some((e, n)) => expression(cs@.skip(pos as int)) == Some((e@, n as int)) && pos + n
                <= cs@.len(),
        },
{
    let mut tokens: Vec<Token> = Vec::new();
    let mut i = pos;
    let len = cs.len();
    assert(cs@.skip(pos as int) =~= cs@.skip(i as int));
    loop
        invariant
            len == cs@.len(),
            pos <= i <= cs@.len(),
            expr_items(cs@.skip(pos as int)) == (
                tokens@.map_values(|t: Token| t@) + expr_items(cs@.skip(i as int)).0,
                (i - pos) + expr_items(cs@.skip(i as int)).1,
            ),
        ensures
            pos <= i <= cs@.len(),
            expr_items(cs@.skip(pos as int)) == (tokens@.map_values(|t: Token| t@), i - pos),
        decreases cs@.len() - i,
    {
        let ghost s = cs@.skip(i as int);
        match expr_item_at(cs, i) {
            None => {
                assert(tokens@.map_values(|t: Token| t@) + expr_items(s).0 =~= tokens@.map_values(
                    |t: Token| t@,
                ));
                break ;
            },
            Some((t, n)) => {
                let ghost tv = t@;
                let ghost before = tokens@.map_values(|t: Token| t@);
                assert(s.skip(n as int) =~= cs@.skip(i + n));
                tokens.push(t);
                assert(tokens@.map_values(|t: Token| t@) =~= before.push(tv));
                assert(before + (seq![tv] + expr_items(s.skip(n as int)).0) =~= before.push(tv)
                    + expr_items(s.skip(n as int)).0);
                i = i + n;
            },
        }
    }
    if tokens.len() == 0 {
        None
    } else {
        Some((Expression(tokens), i - pos))
    }
}

} // verus!
