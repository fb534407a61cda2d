//! Evaluating expressions of the schema to text, from the variables in scope and the current
//! location.
use vstd::prelude::*;

use super::stack::{frames_lookup, StackFrame, Value, ValueView, VariableSource};
use crate::expression::{Expression, Special, Token, TokenView};
use crate::filesystem::lemma_path_text_absolute;
use crate::paths::{
    is_absolute_path, lemma_parent_segments, path_from_segments, path_text, segments, segments_of,
    trim_slashes, PlantedPath,
};
use crate::text_util::{append_str, push_char, strings_view};

verus! {

broadcast use vstd::string::group_string_axioms;

/// How deeply variables whose values are expressions may refer to further such variables
pub const MAX_EVAL_DEPTH: usize = 64;

/// The segments joined by `/`, with no leading separator
pub open spec fn seg_join(segs: Seq<Seq<char>>) -> Seq<char>
    decreases segs.len(),
{
    if segs.len() == 0 {
        Seq::empty()
    } else if segs.len() == 1 {
        segs[0]
    } else {
        seg_join(segs.drop_last()) + seq!['/'] + segs.last()
    }
}

/// The final segment of a path, or nothing for the root
pub open spec fn last_segment(full: Seq<char>) -> Seq<char> {
    if segments_of(full).len() > 0 {
        segments_of(full).last()
    } else {
        Seq::empty()
    }
}

/// The value of a special variable at the planted path with root `root` and full path `full`
pub open spec fn special_value(sp: Special, root: Seq<char>, full: Seq<char>) -> Seq<char> {
    let rel = trim_slashes(full.skip(root.len() as int));
    let segs = segments_of(full);
    match sp {
        Special::PathRelative => rel,
        Special::PathAbsolute => full,
        Special::PathNameOnly => last_segment(full),
        Special::ParentRelative => if segments_of(rel).len() > 0 {
            seg_join(segments_of(rel).drop_last())
        } else {
            Seq::empty()
        },
        Special::ParentAbsolute => if segs.len() > 0 {
            path_text(segs.drop_last())
        } else {
            Seq::empty()
        },
        Special::ParentNameOnly => if segs.len() > 1 {
            segs[segs.len() - 2]
        } else {
            Seq::empty()
        },
        Special::RootPath => root,
    }
}

/// `PARENT_FULL_PATH` is the path without its final segment: at a path with at least one
/// segment, its segments are the path's segments but the last, so it is never the path itself
pub proof fn lemma_parent_full_path(root: Seq<char>, full: Seq<char>)
    requires
        segments_of(full).len() > 0,
    ensures
        segments_of(special_value(Special::ParentAbsolute, root, full)) == segments_of(full).drop_last(),
        special_value(Special::ParentAbsolute, root, full) != full,
        is_absolute_path(special_value(Special::ParentAbsolute, root, full)),
{
    lemma_parent_segments(full);
    lemma_path_text_absolute(segments_of(full).drop_last());
    let v = special_value(Special::ParentAbsolute, root, full);
    if v == full {
        assert(segments_of(v).len() == segments_of(full).len() - 1);
    }
}

/// `PARENT_FULL_PATH` and `NAME` split the path: the parent's segments followed by the name are
/// the path's segments; and `PARENT_NAME` is the `NAME` of `PARENT_FULL_PATH`
pub proof fn lemma_name_and_parent(root: Seq<char>, full: Seq<char>)
    requires
        segments_of(full).len() > 0,
    ensures
        segments_of(special_value(Special::ParentAbsolute, root, full)).push(
            special_value(Special::PathNameOnly, root, full),
        ) == segments_of(full),
        segments_of(full).len() > 1 ==> special_value(Special::ParentNameOnly, root, full)
            == special_value(
            Special::PathNameOnly,
            root,
            special_value(Special::ParentAbsolute, root, full),
        ),
{
    let segs = segments_of(full);
    lemma_parent_segments(full);
    assert(segs.drop_last().push(segs.last()) =~= segs);
    if segs.len() > 1 {
        assert(segs.drop_last().last() == segs[segs.len() - 2]);
    }
}

/// The text of one token, or `None` if it names an undefined variable or the expressions it
/// refers to nest deeper than `fuel`
pub open spec fn eval_token(
    t: TokenView,
    frames: Seq<VariableSource>,
    root: Seq<char>,
    full: Seq<char>,
    fuel: nat,
) -> Option<Seq<char>>
    decreases fuel, 0nat,
{
    match t {
        TokenView::Text(s) => Some(s),
        TokenView::Special(sp) => Some(special_value(sp, root, full)),
        TokenView::Variable(name) => match frames_lookup(frames, name) {
            None => None,
            Some(ValueView::Text(v)) => Some(v),
            Some(ValueView::Expression(e)) => if fuel == 0 {
                None
            } else {
                eval_spec(e, frames, root, full, (fuel - 1) as nat)
            },
        },
    }
}

/// The text of a sequence of tokens, or `None` if any of them has none
pub open spec fn eval_spec(
    tokens: Seq<TokenView>,
    frames: Seq<VariableSource>,
    root: Seq<char>,
    full: Seq<char>,
    fuel: nat,
) -> Option<Seq<char>>
    decreases fuel, tokens.len() + 1,
{
    if tokens.len() == 0 {
        Some(Seq::empty())
    } else {
        match eval_token(tokens[0], frames, root, full, fuel) {
            None => None,
            Some(first) => match eval_spec(tokens.drop_first(), frames, root, full, fuel) {
                None => None,
                Some(rest) => Some(first + rest),
            },
        }
    }
}

/// The segments joined by `/`
fn join_segments(segs: &[String]) -> (r: String)
    ensures
        r@ == seg_join(strings_view(segs@)),
{
    let mut s = String::new();
    let mut i: usize = 0;
    while i < segs.len()
        invariant
            i <= segs@.len(),
            s@ == seg_join(strings_view(segs@).take(i as int)),
        decreases segs@.len() - i,
    {
        let ghost sv = strings_view(segs@);
        if i > 0 {
            push_char(&mut s, '/');
        }
        append_str(&mut s, segs[i].as_str());
        proof {
            assert(sv.take(i + 1).drop_last() =~= sv.take(i as int));
            assert(sv.take(i + 1).last() == segs@[i as int]@);
            if i == 0 {
                assert(s@ =~= sv.take(1)[0]);
            }
        }
        i += 1;
    }
    assert(strings_view(segs@).take(segs@.len() as int) =~= strings_view(segs@));
    s
}

/// The value of a special variable at a planted path
pub fn special(sp: Special, path: &PlantedPath) -> (r: String)
    requires
        path.wf(),
    ensures
        r@ == special_value(sp, path.root_spec(), path.full_spec()),
{
    let full = path.absolute();
    let segs = segments(full.as_str());
    let n = segs.len();
    proof {
        assert(strings_view(segs@).len() == n);
    }
    match sp {
        Special::PathRelative => path.relative(),
        Special::PathAbsolute => full,
        Special::PathNameOnly => {
            if n > 0 {
                segs[n - 1].clone()
            } else {
                String::new()
            }
        },
        Special::ParentRelative => {
            let rel = path.relative();
            let rsegs = segments(rel.as_str());
            let m = rsegs.len();
            proof {
                assert(strings_view(rsegs@).len() == m);
            }
            if m > 0 {
                let r = join_segments(&rsegs.as_slice()[0..m - 1]);
                proof {
                    assert(strings_view(rsegs@.subrange(0, m - 1)) =~= strings_view(
                        rsegs@,
                    ).drop_last());
                }
                r
            } else {
                String::new()
            }
        },
        Special::ParentAbsolute => {
            if n > 0 {
                let r = path_from_segments(&segs.as_slice()[0..n - 1]);
                proof {
                    assert(strings_view(segs@.subrange(0, n - 1)) =~= strings_view(
                        segs@,
                    ).drop_last());
                }
                r
            } else {
                String::new()
            }
        },
        Special::ParentNameOnly => {
            if n > 1 {
                segs[n - 2].clone()
            } else {
                String::new()
            }
        },
        Special::RootPath => path.root(),
    }
}

/// The text of one token, following variables whose values are expressions at most `fuel`
/// deep
fn eval_token_exec(t: &Token, stack: &StackFrame, path: &PlantedPath, fuel: usize) -> (r: Result<
    String,
    String,
>)
    requires
        path.wf(),
    ensures
        match eval_token(t@, stack.frames_spec(), path.root_spec(), path.full_spec(), fuel as nat) {
            None => r is Err,
            Some(s) => r matches Ok(v) && v@ == s,
        },
    decreases fuel, 0nat,
{
    match t {
        Token::Text(s) => Ok(s.clone()),
        Token::Special(sp) => Ok(special(*sp, path)),
        Token::Variable(id) => match stack.lookup(id) {
            None => {
                let mut msg = "Undefined variable: ".to_owned();
                append_str(&mut msg, id.value());
                Err(msg)
            },
            Some(Value::Text(v)) => Ok(v),
            Some(Value::Expression(e)) => {
                if fuel == 0 {
                    let mut msg = "Variables refer to each other too deeply: ".to_owned();
                    append_str(&mut msg, id.value());
                    Err(msg)
                } else {
                    eval_tokens(e.tokens(), stack, path, fuel - 1)
                }
            },
        },
    }
}

/// The text of a sequence of tokens
fn eval_tokens(tokens: &[Token], stack: &StackFrame, path: &PlantedPath, fuel: usize) -> (r:
    Result<String, String>)
    requires
        path.wf(),
    ensures
        match eval_spec(
            tokens@.map_values(|t: Token| t@),
            stack.frames_spec(),
            path.root_spec(),
            path.full_spec(),
            fuel as nat,
        ) {
            None => r is Err,
            Some(s) => r matches Ok(v) && v@ == s,
        },
    decreases fuel, 1nat,
{
    let ghost frames = stack.frames_spec();
    let ghost root = path.root_spec();
    let ghost full = path.full_spec();
    let ghost tv = tokens@.map_values(|t: Token| t@);
    let mut acc = String::new();
    let mut i: usize = 0;
    proof {
        assert(tv.skip(0) =~= tv);
        assert(acc@ =~= Seq::<char>::empty());
        match eval_spec(tv, frames, root, full, fuel as nat) {
            None => {},
            Some(rest) => {
                assert(acc@ + rest =~= rest);
            },
        }
    }
    while i < tokens.len()
        invariant
            i <= tokens@.len(),
            path.wf(),
            tv == tokens@.map_values(|t: Token| t@),
            frames == stack.frames_spec(),
            root == path.root_spec(),
            full == path.full_spec(),
            eval_spec(tv, frames, root, full, fuel as nat) == match eval_spec(
                tv.skip(i as int),
                frames,
                root,
                full,
                fuel as nat,
            ) {
                None => None,
                Some(rest) => Some(acc@ + rest),
            },
        decreases tokens@.len() - i,
    {
        proof {
            let s = tv.skip(i as int);
            assert(s[0] == tokens@[i as int]@);
            assert(s.drop_first() =~= tv.skip(i + 1));
        }
        let v = eval_token_exec(&tokens[i], stack, path, fuel)?;
        let ghost prev = acc@;
        append_str(&mut acc, v.as_str());
        proof {
            match eval_spec(tv.skip(i + 1), frames, root, full, fuel as nat) {
                None => {},
                Some(rest) => {
                    assert(prev + (v@ + rest) =~= acc@ + rest);
                },
            }
        }
        i += 1;
    }
    proof {
        assert(tv.skip(i as int) =~= Seq::<TokenView>::empty());
        assert(acc@ + Seq::<char>::empty() =~= acc@);
    }
    Ok(acc)
}

/// Evaluates an expression at a planted path with the variables in scope
pub fn evaluate(expr: &Expression, stack: &StackFrame, path: &PlantedPath) -> (r: Result<
    String,
    String,
>)
    requires
        path.wf(),
    ensures
        match eval_spec(
            expr@,
            stack.frames_spec(),
            path.root_spec(),
            path.full_spec(),
            MAX_EVAL_DEPTH as nat,
        ) {
            None => r is Err,
            Some(s) => r matches Ok(v) && v@ == s,
        },
{
    eval_tokens(expr.tokens(), stack, path, MAX_EVAL_DEPTH)
}

} // verus!
