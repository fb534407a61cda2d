//! The operator written on a single line of a schema: an entry or a `:` tag.
use vstd::prelude::*;

use super::lexical::{
    expression, expression_at, ident_len, ident_len_at, name_run, name_run_at, ws_run, ws_run_at,
};
use crate::expr::starts_with;
use crate::expression::{Expression, Identifier, TokenView};
use crate::meta::{parse_octal, parse_octal_u16};
use crate::schema::{Binding, BindingView};
use crate::text_util::string_of_range;

verus! {

/// The abstract value of a [`LineOp`]
pub enum LineOpView {
    Item { binding: BindingView, is_directory: bool, link: Option<Seq<TokenView>> },
    Let { name: Seq<char>, expr: Seq<TokenView> },
    Def { name: Seq<char>, is_directory: bool, link: Option<Seq<TokenView>> },
    Use { name: Seq<char> },
    Match(Seq<TokenView>),
    Avoid(Seq<TokenView>),
    Mode(u16),
    Owner(Seq<TokenView>),
    Group(Seq<TokenView>),
    Source(Seq<TokenView>),
    Target(Seq<TokenView>),
}

/// The operator written on one line (without any children)
#[derive(Debug, PartialEq)]
pub enum LineOp {
    /// A file or directory entry, possibly a symlink
    Item { binding: Binding, is_directory: bool, link: Option<Expression> },
    /// `:let name = expr`
    Let { name: Identifier, expr: Expression },
    /// `:def name`, possibly a directory and possibly a symlink
    Def { name: Identifier, is_directory: bool, link: Option<Expression> },
    /// `:use name`
    Use { name: Identifier },
    /// `:match expr`
    Match(Expression),
    /// `:avoid expr`
    Avoid(Expression),
    /// `:mode octal`
    Mode(u16),
    /// `:owner expr`
    Owner(Expression),
    /// `:group expr`
    Group(Expression),
    /// `:source expr`
    Source(Expression),
    /// `:target expr`
    Target(Expression),
}

/// The view of an optional expression
pub open spec fn opt_expr_view(e: Option<Expression>) -> Option<Seq<TokenView>> {
    match e {
        None => None,
        Some(e) => Some(e@),
    }
}

impl View for LineOp {
    type V = LineOpView;

    open spec fn view(&self) -> LineOpView {
        match self {
            LineOp::Item { binding, is_directory, link } => LineOpView::Item {
                binding: binding@,
                is_directory: *is_directory,
                link: opt_expr_view(*link),
            },
            LineOp::Let { name, expr } => LineOpView::Let { name: name@, expr: expr@ },
            LineOp::Def { name, is_directory, link } => LineOpView::Def {
                name: name@,
                is_directory: *is_directory,
                link: opt_expr_view(*link),
            },
            LineOp::Use { name } => LineOpView::Use { name: name@ },
            LineOp::Match(e) => LineOpView::Match(e@),
            LineOp::Avoid(e) => LineOpView::Avoid(e@),
            LineOp::Mode(m) => LineOpView::Mode(*m),
            LineOp::Owner(e) => LineOpView::Owner(e@),
            LineOp::Group(e) => LineOpView::Group(e@),
            LineOp::Source(e) => LineOpView::Source(e@),
            LineOp::Target(e) => LineOpView::Target(e@),
        }
    }
}

/// A symlink target `-> expr` (with optional spaces around the arrow) at the start of `s`,
/// and its length
pub open spec fn link_suffix(s: Seq<char>) -> Option<(Seq<TokenView>, int)> {
    let a = ws_run(s) as int;
    let t = s.skip(a);
    if t.len() >= 2 && t[0] == '-' && t[1] == '>' {
        let b = ws_run(t.skip(2)) as int;
        match expression(t.skip(2 + b)) {
            Some((e, n)) => Some((e, a + 2 + b + n)),
            None => None,
        }
    } else {
        None
    }
}

/// After a name: an optional `/` (a directory), then an optional symlink target; and the
/// length of both
pub open spec fn header_tail(s: Seq<char>) -> (bool, Option<Seq<TokenView>>, int) {
    let d: int = if s.len() > 0 && s[0] == '/' {
        1
    } else {
        0
    };
    match link_suffix(s.skip(d)) {
        Some((e, n)) => (d == 1, Some(e), d + n),
        None => (d == 1, None, d),
    }
}

/// A tag `:keyword` followed by at least one space, at the start of `s`; the length of both
pub open spec fn tag_len(s: Seq<char>, keyword: Seq<char>) -> Option<int> {
    let k = seq![':'] + keyword;
    if starts_with(s, k) && ws_run(s.skip(k.len() as int)) > 0 {
        Some(k.len() as int + ws_run(s.skip(k.len() as int)) as int)
    } else {
        None
    }
}

/// The definition header `:def name[/][ -> target]` at the start of `s`: its name, whether it
/// is a directory, its symlink target and its length
pub open spec fn def_header_spec(s: Seq<char>) -> Option<(Seq<char>, bool, Option<Seq<TokenView>>, int)> {
    match tag_len(s, "def"@) {
        None => None,
        Some(p) => {
            let n = ident_len(s.skip(p));
            if n == 0 {
                None
            } else {
                let tail = header_tail(s.skip(p + n));
                Some((s.subrange(p, p + n), tail.0, tail.1, p + n + tail.2))
            }
        },
    }
}

/// An operator tag taking an expression (`:match`, `:avoid`, `:owner`, `:group`, `:source`,
/// `:target`) at the start of `s`
pub open spec fn expr_tag(s: Seq<char>, keyword: Seq<char>) -> Option<(Seq<TokenView>, int)> {
    match tag_len(s, keyword) {
        None => None,
        Some(p) => match expression(s.skip(p)) {
            None => None,
            Some((e, n)) => Some((e, p + n)),
        },
    }
}

/// The number of leading octal digits
pub open spec fn octal_run(s: Seq<char>) -> nat
    decreases s.len(),
{
    if s.len() > 0 && '0' <= s[0] && s[0] <= '7' {
        1 + octal_run(s.drop_first())
    } else {
        0
    }
}

/// `:let name = expr` at the start of `s`
pub open spec fn let_op_spec(s: Seq<char>) -> Option<(LineOpView, int)> {
    match tag_len(s, "let"@) {
        None => None,
        Some(p) => {
            let n = ident_len(s.skip(p));
            let q = p + n;
            let w1 = ws_run(s.skip(q)) as int;
            let after_eq = q + w1 + 1;
            let w2 = ws_run(s.skip(after_eq)) as int;
            if n > 0 && s.len() > q + w1 && s[q + w1] == '=' {
                match expression(s.skip(after_eq + w2)) {
                    Some((e, m)) => Some(
                        (LineOpView::Let { name: s.subrange(p, q), expr: e }, after_eq + w2 + m),
                    ),
                    None => None,
                }
            } else {
                None
            }
        },
    }
}

/// `:use name` at the start of `s`
pub open spec fn use_op_spec(s: Seq<char>) -> Option<(LineOpView, int)> {
    match tag_len(s, "use"@) {
        None => None,
        Some(p) => {
            let n = ident_len(s.skip(p));
            if n > 0 {
                Some((LineOpView::Use { name: s.subrange(p, p + n) }, p + n))
            } else {
                None
            }
        },
    }
}

/// `:mode octal` at the start of `s`
pub open spec fn mode_op_spec(s: Seq<char>) -> Option<(LineOpView, int)> {
    match tag_len(s, "mode"@) {
        None => None,
        Some(p) => {
            let n = octal_run(s.skip(p)) as int;
            if n > 0 && parse_octal_u16(s.subrange(p, p + n)) is Some {
                Some((LineOpView::Mode(parse_octal_u16(s.subrange(p, p + n))->0), p + n))
            } else {
                None
            }
        },
    }
}

/// A tag operator (starting with `:`) at the start of `s`, and its length
pub open spec fn tag_op_spec(s: Seq<char>) -> Option<(LineOpView, int)> {
    if tag_len(s, "let"@) is Some {
        let_op_spec(s)
    } else if def_header_spec(s) is Some {
        let (name, is_directory, link, n) = def_header_spec(s)->0;
        Some((LineOpView::Def { name, is_directory, link }, n))
    } else if tag_len(s, "use"@) is Some {
        use_op_spec(s)
    } else if expr_tag(s, "match"@) is Some {
        let (e, n) = expr_tag(s, "match"@)->0;
        Some((LineOpView::Match(e), n))
    } else if expr_tag(s, "avoid"@) is Some {
        let (e, n) = expr_tag(s, "avoid"@)->0;
        Some((LineOpView::Avoid(e), n))
    } else if tag_len(s, "mode"@) is Some {
        mode_op_spec(s)
    } else if expr_tag(s, "owner"@) is Some {
        let (e, n) = expr_tag(s, "owner"@)->0;
        Some((LineOpView::Owner(e), n))
    } else if expr_tag(s, "group"@) is Some {
        let (e, n) = expr_tag(s, "group"@)->0;
        Some((LineOpView::Group(e), n))
    } else if expr_tag(s, "source"@) is Some {
        let (e, n) = expr_tag(s, "source"@)->0;
        Some((LineOpView::Source(e), n))
    } else if expr_tag(s, "target"@) is Some {
        let (e, n) = expr_tag(s, "target"@)->0;
        Some((LineOpView::Target(e), n))
    } else {
        None
    }
}

/// The length of the binding (`$identifier` or a static name) at the start of `s`, or 0
pub open spec fn binding_len(s: Seq<char>) -> int {
    if s.len() > 0 && s[0] == '$' {
        let n = ident_len(s.skip(1));
        if n > 0 {
            1 + n
        } else {
            0
        }
    } else {
        name_run(s) as int
    }
}

/// An entry (a binding, an optional `/` and an optional symlink target) at the start of `s`
pub open spec fn item_op_spec(s: Seq<char>) -> Option<(LineOpView, int)> {
    let b = binding_len(s);
    if b == 0 {
        None
    } else {
        let binding = if s[0] == '$' {
            BindingView::Dynamic(s.subrange(1, b))
        } else {
            BindingView::Static(s.take(b))
        };
        let tail = header_tail(s.skip(b));
        Some((LineOpView::Item { binding, is_directory: tail.0, link: tail.1 }, b + tail.2))
    }
}

/// The operator written at the start of `s` (a line without indentation), and its length
pub open spec fn line_op_spec(s: Seq<char>) -> Option<(LineOpView, int)> {
    if s.len() > 0 && s[0] == ':' {
        tag_op_spec(s)
    } else {
        item_op_spec(s)
    }
}

/// The symlink target `-> expr` at `pos`, if any, and its length
fn link_suffix_at(cs: &[char], pos: usize) -> (r: Option<(Expression, usize)>)
    requires
        pos <= cs@.len(),
    ensures
        match r {
            None => link_suffix(cs@.skip(pos as int)) is None,
            Some((e, n)) => link_suffix(cs@.skip(pos as int)) == Some((e@, n as int)) && pos + n
                <= cs@.len(),
        },
{
    let ghost s = cs@.skip(pos as int);
    let _len = cs.len();
    let a = ws_run_at(cs, pos);
    let t = pos + a;
    let ghost ts = s.skip(a as int);
    assert(ts =~= cs@.skip(t as int));
    if t < cs.len() && t + 1 < cs.len() && cs[t] == '-' && cs[t + 1] == '>' {
        assert(ts[0] == '-' && ts[1] == '>');
        assert(ts.skip(2) =~= cs@.skip(t + 2));
        let b = ws_run_at(cs, t + 2);
        assert(ts.skip(2 + b) =~= cs@.skip(t + 2 + b));
        match expression_at(cs, t + 2 + b) {
            Some((e, n)) => Some((e, a + 2 + b + n)),
            None => None,
        }
    } else {
        proof {
            if ts.len() >= 2 {
                assert(ts[0] == cs@[t as int] && ts[1] == cs@[t + 1]);
            }
        }
        None
    }
}

/// The optional `/` and symlink target after a name at `pos`
fn header_tail_at(cs: &[char], pos: usize) -> (r: (bool, Option<Expression>, usize))
    requires
        pos <= cs@.len(),
    ensures
        header_tail(cs@.skip(pos as int)) == (r.0, opt_expr_view(r.1), r.2 as int),
        pos + r.2 <= cs@.len(),
{
    let ghost s = cs@.skip(pos as int);
    let d: usize = if pos < cs.len() && cs[pos] == '/' {
        1
    } else {
        0
    };
    proof {
        if s.len() > 0 {
            assert(s[0] == cs@[pos as int]);
        }
    }
    assert(s.skip(d as int) =~= cs@.skip(pos + d));
    match link_suffix_at(cs, pos + d) {
        Some((e, n)) => (d == 1, Some(e), d + n),
        None => (d == 1, None, d),
    }
}

/// Whether the text at `pos` starts with `:` then `keyword`
fn has_tag_at(cs: &[char], pos: usize, keyword: &str) -> (r: Option<usize>)
    requires
        pos <= cs@.len(),
    ensures
        match r {
            None => tag_len(cs@.skip(pos as int), keyword@) is None,
            Some(n) => tag_len(cs@.skip(pos as int), keyword@) == Some(n as int) && pos + n
                <= cs@.len() && n > 0,
        },
{
    let mut k: Vec<char> = Vec::new();
    k.push(':');
    let kw = crate::text_util::chars_of(keyword);
    let mut i: usize = 0;
    while i < kw.len()
        invariant
            i <= kw@.len(),
            k@ == seq![':'] + kw@.take(i as int),
        decreases kw@.len() - i,
    {
        k.push(kw[i]);
        i += 1;
        assert(kw@.take(i as int) =~= kw@.take(i - 1).push(kw@[i - 1]));
    }
    assert(kw@.take(kw@.len() as int) =~= kw@);
    let _len = cs.len();
    if !starts_with_slice(cs, pos, k.as_slice()) {
        return None;
    }
    assert(cs@.skip(pos as int).skip(k@.len() as int) =~= cs@.skip(pos + k@.len()));
    let w = ws_run_at(cs, pos + k.len());
    if w == 0 {
        None
    } else {
        Some(k.len() + w)
    }
}

/// Whether the text at `pos` starts with `prefix`
fn starts_with_slice(cs: &[char], pos: usize, prefix: &[char]) -> (r: bool)
    requires
        pos <= cs@.len(),
    ensures
        r == starts_with(cs@.skip(pos as int), prefix@),
{
    if prefix.len() > cs.len() - pos {
        return false;
    }
    let mut i: usize = 0;
    let len = cs.len();
    while i < prefix.len()
        invariant
            len == cs@.len(),
            pos <= cs@.len(),
            i <= prefix@.len(),
            prefix@.len() <= cs@.len() - pos,
            forall|j: int| 0 <= j < i ==> cs@[pos + j] == prefix@[j],
        decreases prefix@.len() - i,
    {
        if cs[pos + i] != prefix[i] {
            assert(cs@.skip(pos as int).take(prefix@.len() as int)[i as int] != prefix@[i as int]);
            return false;
        }
        i += 1;
    }
    assert(cs@.skip(pos as int).take(prefix@.len() as int) =~= prefix@);
    true
}

/// The definition header `:def name[/][ -> target]` at `pos`
pub fn def_header_at(cs: &[char], pos: usize) -> (r: Option<(Identifier, bool, Option<Expression>, usize)>)
    requires
        pos <= cs@.len(),
    ensures
        match r {
            None => def_header_spec(cs@.skip(pos as int)) is None,
            Some((name, d, link, n)) => def_header_spec(cs@.skip(pos as int)) == Some(
                (name@, d, opt_expr_view(link), n as int),
            ) && pos + n <= cs@.len() && n > 0,
        },
{
    let ghost s = cs@.skip(pos as int);
    let _len = cs.len();
    match has_tag_at(cs, pos, "def") {
        None => None,
        Some(p) => {
            assert(s.skip(p as int) =~= cs@.skip(pos + p));
            let n = ident_len_at(cs, pos + p);
            if n == 0 {
                return None;
            }
            assert(s.skip(p + n) =~= cs@.skip(pos + p + n));
            let name = string_of_range(cs, pos + p, pos + p + n);
            assert(name@ =~= s.subrange(p as int, p + n));
            let (d, link, t) = header_tail_at(cs, pos + p + n);
            Some((Identifier(name), d, link, p + n + t))
        },
    }
}

/// An operator tag taking an expression at `pos`
fn expr_tag_at(cs: &[char], pos: usize, keyword: &str) -> (r: Option<(Expression, usize)>)
    requires
        pos <= cs@.len(),
    ensures
        match r {
            None => expr_tag(cs@.skip(pos as int), keyword@) is None,
            Some((e, n)) => expr_tag(cs@.skip(pos as int), keyword@) == Some((e@, n as int)) && pos
                + n <= cs@.len() && n > 0,
        },
{
    let _len = cs.len();
    match has_tag_at(cs, pos, keyword) {
        None => None,
        Some(p) => {
            assert(cs@.skip(pos as int).skip(p as int) =~= cs@.skip(pos + p));
            match expression_at(cs, pos + p) {
                None => None,
                Some((e, n)) => Some((e, p + n)),
            }
        },
    }
}

/// The number of octal digits at `pos`
fn octal_run_at(cs: &[char], pos: usize) -> (n: usize)
    requires
        pos <= cs@.len(),
    ensures
        n == octal_run(cs@.skip(pos as int)),
        pos + n <= cs@.len(),
{
    let mut i = pos;
    let len = cs.len();
    while i < len && '0' <= cs[i] && cs[i] <= '7'
        invariant
            len == cs@.len(),
            pos <= i <= cs@.len(),
            octal_run(cs@.skip(pos as int)) == (i - pos) + octal_run(cs@.skip(i as int)),
        decreases cs@.len() - i,
    {
        assert(cs@.skip(i as int).drop_first() =~= cs@.skip(i + 1));
        i += 1;
    }
    proof {
        if i < cs@.len() {
            assert(cs@.skip(i as int)[0] == cs@[i as int]);
        }
    }
    i - pos
}

/// `:let name = expr` at `pos`
fn let_op_at(cs: &[char], pos: usize) -> (r: Option<(LineOp, usize)>)
    requires
        pos <= cs@.len(),
    ensures
        match r {
            None => let_op_spec(cs@.skip(pos as int)) is None,
            Some((op, n)) => let_op_spec(cs@.skip(pos as int)) == Some((op@, n as int)) && 0 < n
                && pos + n <= cs@.len(),
        },
{
    let ghost s = cs@.skip(pos as int);
    let _len = cs.len();
    let p = match has_tag_at(cs, pos, "let") {
        None => return None,
        Some(p) => p,
    };
    assert(s.skip(p as int) =~= cs@.skip(pos + p));
    let n = ident_len_at(cs, pos + p);
    let q = pos + p + n;
    assert(s.skip(p + n) =~= cs@.skip(q as int));
    let w1 = ws_run_at(cs, q);
    if n > 0 && q + w1 < cs.len() && cs[q + w1] == '=' {
        assert(s[p + n + w1] == cs@[q + w1]);
        let after_eq = q + w1 + 1;
        assert(s.skip(p + n + w1 + 1) =~= cs@.skip(after_eq as int));
        let w2 = ws_run_at(cs, after_eq);
        assert(s.skip(p + n + w1 + 1 + w2) =~= cs@.skip(after_eq + w2));
        match expression_at(cs, after_eq + w2) {
            Some((e, m)) => {
                let name = string_of_range(cs, pos + p, q);
                assert(name@ =~= s.subrange(p as int, p + n));
                Some((LineOp::Let { name: Identifier(name), expr: e }, after_eq + w2 + m - pos))
            },
            None => None,
        }
    } else {
        proof {
            if s.len() > p + n + w1 {
                assert(s[p + n + w1] == cs@[q + w1]);
            }
        }
        None
    }
}

/// `:use name` at `pos`
fn use_op_at(cs: &[char], pos: usize) -> (r: Option<(LineOp, usize)>)
    requires
        pos <= cs@.len(),
    ensures
        match r {
            None => use_op_spec(cs@.skip(pos as int)) is None,
            Some((op, n)) => use_op_spec(cs@.skip(pos as int)) == Some((op@, n as int)) && 0 < n
                && pos + n <= cs@.len(),
        },
{
    let ghost s = cs@.skip(pos as int);
    let _len = cs.len();
    let p = match has_tag_at(cs, pos, "use") {
        None => return None,
        Some(p) => p,
    };
    assert(s.skip(p as int) =~= cs@.skip(pos + p));
    let n = ident_len_at(cs, pos + p);
    if n > 0 {
        let name = string_of_range(cs, pos + p, pos + p + n);
        assert(name@ =~= s.subrange(p as int, p + n));
        Some((LineOp::Use { name: Identifier(name) }, p + n))
    } else {
        None
    }
}

/// `:mode octal` at `pos`
fn mode_op_at(cs: &[char], pos: usize) -> (r: Option<(LineOp, usize)>)
    requires
        pos <= cs@.len(),
    ensures
        match r {
            None => mode_op_spec(cs@.skip(pos as int)) is None,
            Some((op, n)) => mode_op_spec(cs@.skip(pos as int)) == Some((op@, n as int)) && 0 < n
                && pos + n <= cs@.len(),
        },
{
    let ghost s = cs@.skip(pos as int);
    let _len = cs.len();
    let p = match has_tag_at(cs, pos, "mode") {
        None => return None,
        Some(p) => p,
    };
    assert(s.skip(p as int) =~= cs@.skip(pos + p));
    let n = octal_run_at(cs, pos + p);
    if n == 0 {
        return None;
    }
    let digits = cs.split_at(pos + p).1.split_at(n).0;
    assert(digits@ =~= s.subrange(p as int, p + n));
    match parse_octal(digits) {
        Some(v) => Some((LineOp::Mode(v), p + n)),
        None => None,
    }
}

/// A tag operator at `pos`
fn tag_op_at(cs: &[char], pos: usize) -> (r: Option<(LineOp, usize)>)
    requires
        pos <= cs@.len(),
    ensures
        match r {
            None => tag_op_spec(cs@.skip(pos as int)) is None,
            Some((op, n)) => tag_op_spec(cs@.skip(pos as int)) == Some((op@, n as int)) && 0 < n
                && pos + n <= cs@.len(),
        },
{
    if has_tag_at(cs, pos, "let").is_some() {
        let_op_at(cs, pos)
    } else if let Some((name, d, link, n)) = def_header_at(cs, pos) {
        proof {
            assert(tag_len(cs@.skip(pos as int), "def"@) is Some);
        }
        Some((LineOp::Def { name, is_directory: d, link }, n))
    } else if has_tag_at(cs, pos, "use").is_some() {
        use_op_at(cs, pos)
    } else if let Some((e, n)) = expr_tag_at(cs, pos, "match") {
        Some((LineOp::Match(e), n))
    } else if let Some((e, n)) = expr_tag_at(cs, pos, "avoid") {
        Some((LineOp::Avoid(e), n))
    } else if has_tag_at(cs, pos, "mode").is_some() {
        mode_op_at(cs, pos)
    } else if let Some((e, n)) = expr_tag_at(cs, pos, "owner") {
        Some((LineOp::Owner(e), n))
    } else if let Some((e, n)) = expr_tag_at(cs, pos, "group") {
        Some((LineOp::Group(e), n))
    } else if let Some((e, n)) = expr_tag_at(cs, pos, "source") {
        Some((LineOp::Source(e), n))
    } else if let Some((e, n)) = expr_tag_at(cs, pos, "target") {
        Some((LineOp::Target(e), n))
    } else {
        None
    }
}

/// An entry at `pos`
fn item_op_at(cs: &[char], pos: usize) -> (r: Option<(LineOp, usize)>)
    requires
        pos <= cs@.len(),
    ensures
        match r {
            None => item_op_spec(cs@.skip(pos as int)) is None,
            Some((op, n)) => item_op_spec(cs@.skip(pos as int)) == Some((op@, n as int)) && 0 < n
                && pos + n <= cs@.len(),
        },
{
    let ghost s = cs@.skip(pos as int);
    let _len = cs.len();
    proof {
        if s.len() > 0 {
            assert(s[0] == cs@[pos as int]);
        }
    }
    let dynamic = pos < cs.len() && cs[pos] == '$';
    let b: usize = if dynamic {
        assert(s.skip(1) =~= cs@.skip(pos + 1));
        let n = ident_len_at(cs, pos + 1);
        if n > 0 {
            1 + n
        } else {
            0
        }
    } else {
        name_run_at(cs, pos)
    };
    assert(b == binding_len(s));
    if b == 0 {
        return None;
    }
    let binding = if dynamic {
        let name = string_of_range(cs, pos + 1, pos + b);
        assert(name@ =~= s.subrange(1, b as int));
        Binding::Dynamic(Identifier(name))
    } else {
        let name = string_of_range(cs, pos, pos + b);
        assert(name@ =~= s.take(b as int));
        Binding::Static(name)
    };
    assert(s.skip(b as int) =~= cs@.skip(pos + b));
    let (d, link, t) = header_tail_at(cs, pos + b);
    Some((LineOp::Item { binding, is_directory: d, link }, b + t))
}

/// The operator written at `pos` (a line without indentation), and its length
pub fn line_op_at(cs: &[char], pos: usize) -> (r: Option<(LineOp, usize)>)
    requires
        pos <= cs@.len(),
    ensures
        match r {
            None => line_op_spec(cs@.skip(pos as int)) is None,
            Some((op, n)) => line_op_spec(cs@.skip(pos as int)) == Some((op@, n as int)) && 0 < n
                && pos + n <= cs@.len(),
        },
{
    proof {
        if pos < cs@.len() {
            assert(cs@.skip(pos as int)[0] == cs@[pos as int]);
        }
    }
    if pos < cs.len() && cs[pos] == ':' {
        tag_op_at(cs, pos)
    } else {
        item_op_at(cs, pos)
    }
}

} // verus!
