//! Patterns that the names of dynamic entries must match (`:match`) and must not match
//! (`:avoid`).
use vstd::prelude::*;

use super::eval::{eval_spec, evaluate, MAX_EVAL_DEPTH};
use super::stack::StackFrame;
use crate::expression::Expression;
use crate::paths::PlantedPath;
use crate::text_util::append_str;

verus! {

broadcast use vstd::string::group_string_axioms;

/// A compiled regular expression of the `regex` crate
#[verifier::external_type_specification]
#[verifier::external_body]
pub struct ExRegex(regex::Regex);

/// Whether `regex::Regex::new` accepts the pattern
pub uninterp spec fn regex_accepts(pattern: Seq<char>) -> bool;

/// Whether the regular expression `pattern` matches somewhere in `text`
/// (`regex::Regex::is_match` of the expression compiled from `pattern`)
pub uninterp spec fn regex_finds(pattern: Seq<char>, text: Seq<char>) -> bool;

/// A compiled regular expression, with the pattern it was compiled from
#[derive(Debug)]
pub struct CompiledRegex {
    re: regex::Regex,
    pattern: String,
}

impl View for CompiledRegex {
    type V = Seq<char>;

    /// The pattern the expression was compiled from
    closed spec fn view(&self) -> Seq<char> {
        self.pattern@
    }
}

/// Compiles a regular expression (`regex::Regex::new`): it succeeds exactly when the crate
/// accepts the pattern, which depends on the pattern alone; the error is its message. The
/// compiled expression keeps the pattern it was compiled from.
#[verifier::external_body]
pub(crate) fn regex_new(pattern: &str) -> (r: Result<CompiledRegex, String>)
    ensures
        r is Ok <==> regex_accepts(pattern@),
        r matches Ok(c) ==> c@ == pattern@,
{
    match regex::Regex::new(pattern) {
        Ok(re) => Ok(CompiledRegex { re, pattern: pattern.to_owned() }),
        Err(e) => Err(e.to_string()),
    }
}

/// Whether the compiled expression matches somewhere in `text` (`regex::Regex::is_match`),
/// which depends on its pattern and the text alone
#[verifier::external_body]
fn regex_is_match(re: &CompiledRegex, text: &str) -> (r: bool)
    ensures
        r == regex_finds(re@, text@),
{
    re.re.is_match(text)
}

/// The pattern matching exactly what `pattern` matches as a whole: `^(?:pattern)$`
pub open spec fn anchored(pattern: Seq<char>) -> Seq<char> {
    seq!['^', '(', '?', ':'] + pattern + seq![')', '$']
}

/// The pattern that a missing `:match` stands for
pub open spec fn match_all() -> Seq<char> {
    seq!['.', '*']
}

/// A compiled name pattern
#[derive(Debug)]
pub enum CompiledPattern {
    /// Matches every name
    Any,
    /// Matches names matching the pattern as a whole
    Regex(CompiledRegex),
    /// Matches names matching the first pattern and not the second, each as a whole
    RegexWithExclusions(CompiledRegex, CompiledRegex),
}

/// Whether `p` is the compiled form of the evaluated `:match` pattern `m` and `:avoid` pattern
/// `a`: each anchored to match a name as a whole, a missing `:match` standing for `.*`
pub open spec fn compiled_from(p: CompiledPattern, m: Option<Seq<char>>, a: Option<Seq<char>>) -> bool {
    match p {
        CompiledPattern::Any => m is None && a is None,
        CompiledPattern::Regex(re) => m matches Some(mp) && a is None && re@ == anchored(mp),
        CompiledPattern::RegexWithExclusions(re, ex) => a matches Some(ap) && re@ == anchored(
            match m {
                Some(mp) => mp,
                None => match_all(),
            },
        ) && ex@ == anchored(ap),
    }
}

/// Whether a compiled pattern accepts `text`: every name, or a name that the pattern matches
/// and the exclusion does not
pub open spec fn accepts(p: CompiledPattern, text: Seq<char>) -> bool {
    match p {
        CompiledPattern::Any => true,
        CompiledPattern::Regex(re) => regex_finds(re@, text),
        CompiledPattern::RegexWithExclusions(re, ex) => regex_finds(re@, text) && !regex_finds(
            ex@,
            text,
        ),
    }
}

/// The `:match` and `:avoid` patterns after evaluation, or `None` if an expression has no value
pub open spec fn evaluated_patterns(
    match_pattern: Option<Seq<crate::expression::TokenView>>,
    avoid_pattern: Option<Seq<crate::expression::TokenView>>,
    frames: Seq<super::stack::VariableSource>,
    root: Seq<char>,
    full: Seq<char>,
) -> Option<(Option<Seq<char>>, Option<Seq<char>>)> {
    let m = match match_pattern {
        None => Some(None),
        Some(e) => match eval_spec(e, frames, root, full, MAX_EVAL_DEPTH as nat) {
            None => None,
            Some(v) => Some(Some(v)),
        },
    };
    let a = match avoid_pattern {
        None => Some(None),
        Some(e) => match eval_spec(e, frames, root, full, MAX_EVAL_DEPTH as nat) {
            None => None,
            Some(v) => Some(Some(v)),
        },
    };
    match (m, a) {
        (Some(m), Some(a)) => Some((m, a)),
        _ => None,
    }
}

/// Whether the evaluated patterns compile: each given one alone and in its anchored form
pub open spec fn patterns_compile(m: Option<Seq<char>>, a: Option<Seq<char>>) -> bool {
    match (m, a) {
        (None, None) => true,
        (Some(p), None) => regex_accepts(p) && regex_accepts(anchored(p)),
        (_, Some(x)) => {
            let p = match m {
                Some(p) => p,
                None => match_all(),
            };
            &&& regex_accepts(p)
            &&& regex_accepts(x)
            &&& regex_accepts(anchored(p))
            &&& regex_accepts(anchored(x))
        },
    }
}

/// The view of an optional expression
pub open spec fn opt_expr(e: Option<&Expression>) -> Option<Seq<crate::expression::TokenView>> {
    match e {
        None => None,
        Some(e) => Some(e@),
    }
}

/// The view of an optional string
pub open spec fn opt_string_view(s: Option<String>) -> Option<Seq<char>> {
    match s {
        Some(v) => Some(v@),
        None => None,
    }
}

/// `^(?:pattern)$`
pub(crate) fn anchor(pattern: &str) -> (r: String)
    ensures
        r@ == anchored(pattern@),
{
    proof {
        reveal_strlit("^(?:");
        reveal_strlit(")$");
    }
    let mut s = "^(?:".to_owned();
    append_str(&mut s, pattern);
    append_str(&mut s, ")$");
    assert(s@ =~= anchored(pattern@));
    s
}

impl CompiledPattern {
    /// Evaluates and compiles the patterns of an entry; with neither, every name matches
    pub fn compile(
        match_pattern: Option<&Expression>,
        avoid_pattern: Option<&Expression>,
        stack: &StackFrame,
        path: &PlantedPath,
    ) -> (r: Result<CompiledPattern, String>)
        requires
            path.wf(),
        ensures
            r is Ok <==> match evaluated_patterns(
                opt_expr(match_pattern),
                opt_expr(avoid_pattern),
                stack.frames_spec(),
                path.root_spec(),
                path.full_spec(),
            ) {
                None => false,
                Some((m, a)) => patterns_compile(m, a),
            },
            r matches Ok(p) ==> evaluated_patterns(
                opt_expr(match_pattern),
                opt_expr(avoid_pattern),
                stack.frames_spec(),
                path.root_spec(),
                path.full_spec(),
            ) matches Some((m, a)) && compiled_from(p, m, a),
            r matches Ok(p) ==> ((p is Any) <==> (match_pattern is None && avoid_pattern is None)),
            r matches Ok(p) ==> ((p is Regex) <==> (match_pattern is Some && avoid_pattern is None)),
            r matches Ok(p) ==> ((p is RegexWithExclusions) <==> avoid_pattern is Some),
    {
        let ghost frames = stack.frames_spec();
        let ghost root = path.root_spec();
        let ghost full = path.full_spec();
        let m = match match_pattern {
            Some(expr) => match evaluate(expr, stack, path) {
                Ok(v) => Some(v),
                Err(e) => return Err(e),
            },
            None => None,
        };
        let a = match avoid_pattern {
            Some(expr) => match evaluate(expr, stack, path) {
                Ok(v) => Some(v),
                Err(e) => return Err(e),
            },
            None => None,
        };
        let ghost mv: Option<Seq<char>> = opt_string_view(m);
        let ghost av: Option<Seq<char>> = opt_string_view(a);
        assert(evaluated_patterns(opt_expr(match_pattern), opt_expr(avoid_pattern), frames, root, full)
            == Some((mv, av)));
        match (m, a) {
            (None, None) => Ok(CompiledPattern::Any),
            (Some(pattern), None) => {
                if let Err(e) = regex_new(pattern.as_str()) {
                    return Err(e);
                }
                match regex_new(anchor(pattern.as_str()).as_str()) {
                    Ok(re) => Ok(CompiledPattern::Regex(re)),
                    Err(e) => Err(e),
                }
            },
            (m, Some(avoiding)) => {
                let pattern = match m {
                    Some(p) => p,
                    None => {
                        proof {
                            reveal_strlit(".*");
                            assert(".*"@ =~= match_all());
                        }
                        ".*".to_owned()
                    },
                };
                if let Err(e) = regex_new(pattern.as_str()) {
                    return Err(e);
                }
                if let Err(e) = regex_new(avoiding.as_str()) {
                    return Err(e);
                }
                let re = match regex_new(anchor(pattern.as_str()).as_str()) {
                    Ok(re) => re,
                    Err(e) => return Err(e),
                };
                match regex_new(anchor(avoiding.as_str()).as_str()) {
                    Ok(excl) => Ok(CompiledPattern::RegexWithExclusions(re, excl)),
                    Err(e) => Err(e),
                }
            },
        }
    }

    /// Whether a name matches: every name for [`CompiledPattern::Any`], otherwise a name that
    /// the pattern matches and the exclusion does not (see [`accepts`])
    pub fn matches(&self, text: &str) -> (r: bool)
        ensures
            r == accepts(*self, text@),
    {
        match self {
            CompiledPattern::Any => true,
            CompiledPattern::Regex(re) => regex_is_match(re, text),
            CompiledPattern::RegexWithExclusions(re, excl) => regex_is_match(re, text)
                && !regex_is_match(excl, text),
        }
    }
}

} // verus!
