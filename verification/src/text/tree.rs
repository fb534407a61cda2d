//! The tree of operators written in a schema: each line at one level of indentation, with
//! the lines indented one level deeper below an entry or a definition as its children.
use vstd::prelude::*;

use super::lexical::{end_of_lines_at, end_of_lines_spec};
use super::line::{line_op_at, line_op_spec, LineOp, LineOpView};
use crate::text_util::string_of_range;

verus! {

/// The abstract value of an [`Operator`]
pub struct OperatorView {
    pub start: int,
    pub end: int,
    pub line: Seq<char>,
    pub op: LineOpView,
    pub children: Seq<OperatorView>,
}

/// One operator of a schema, with the operators nested below it
#[derive(Debug)]
pub struct Operator {
    /// Where its line starts in the text (counted in characters)
    pub start: usize,
    /// Where the text after it (its line, any blank lines, and its children) starts
    pub end: usize,
    /// The text of its line, without indentation or line ending
    pub line: String,
    /// What the line says
    pub op: LineOp,
    /// The operators on the lines indented below it
    pub children: Vec<Operator>,
}

/// The abstract value of an operator
pub open spec fn operator_view(o: Operator) -> OperatorView
    decreases o, 0int,
{
    OperatorView {
        start: o.start as int,
        end: o.end as int,
        line: o.line@,
        op: o.op@,
        children: operators_view(o.children@),
    }
}

/// The abstract values of a sequence of operators
pub open spec fn operators_view(s: Seq<Operator>) -> Seq<OperatorView>
    decreases s, 1int,
{
    if s.len() == 0 {
        Seq::empty()
    } else {
        seq![operator_view(s[0])] + operators_view(s.drop_first())
    }
}

impl View for Operator {
    type V = OperatorView;

    open spec fn view(&self) -> OperatorView {
        operator_view(*self)
    }
}

/// Appending an operator appends its view
pub proof fn lemma_operators_view_push(s: Seq<Operator>, o: Operator)
    ensures
        operators_view(s.push(o)) == operators_view(s).push(operator_view(o)),
    decreases s.len(),
{
    if s.len() == 0 {
        assert(s.push(o).drop_first() =~= Seq::<Operator>::empty());
        assert(s.push(o)[0] == o);
        assert(operators_view(s.push(o).drop_first()) =~= Seq::<OperatorView>::empty());
        assert(operators_view(s.push(o)) =~= seq![operator_view(o)]);
    } else {
        assert(s.push(o).drop_first() =~= s.drop_first().push(o));
        lemma_operators_view_push(s.drop_first(), o);
        assert(operators_view(s.push(o)) =~= operators_view(s).push(operator_view(o)));
    }
}

/// Whether a line operator opens a block of children (an entry or a definition)
pub open spec fn takes_children(op: LineOpView) -> bool {
    op is Item || op is Def
}

/// Whether `s` holds the indentation of `level` (four spaces each) at `pos`
pub open spec fn indented(s: Seq<char>, pos: int, level: nat) -> bool {
    &&& 0 <= pos
    &&& pos + 4 * level <= s.len()
    &&& forall|i: int| pos <= i < pos + 4 * level ==> s[i] == ' '
}

/// The operator at `pos` at indentation `level`: its line (indentation, line operator and the
/// end of the line with any blank lines after it) and, for an entry or a definition, the
/// operators one level deeper that follow; with the position after it
pub open spec fn operator_spec(s: Seq<char>, pos: int, level: nat) -> Option<(OperatorView, int)>
    decreases s.len() - pos, 0int,
{
    if indented(s, pos, level) {
        let p1 = pos + 4 * level;
        match line_op_spec(s.skip(p1)) {
            Some((op, n)) => match end_of_lines_spec(s.skip(p1 + n)) {
                Some(e) => {
                    let p2 = p1 + n + e;
                    if 0 < n && 0 <= e && p2 <= s.len() {
                        let line = s.subrange(p1, p1 + n);
                        if takes_children(op) {
                            let (children, p3) = operators_spec(s, p2, level + 1);
                            Some((OperatorView { start: pos, end: p3, line, op, children }, p3))
                        } else {
                            Some(
                                (
                                    OperatorView {
                                        start: pos,
                                        end: p2,
                                        line,
                                        op,
                                        children: Seq::empty(),
                                    },
                                    p2,
                                ),
                            )
                        }
                    } else {
                        None
                    }
                },
                None => None,
            },
            None => None,
        }
    } else {
        None
    }
}

/// The longest run of operators at indentation `level` from `pos`, with the position after it
pub open spec fn operators_spec(s: Seq<char>, pos: int, level: nat) -> (Seq<OperatorView>, int)
    decreases s.len() - pos, 1int,
{
    if 0 <= pos <= s.len() {
        match operator_spec(s, pos, level) {
            Some((o, p)) => if pos < p <= s.len() {
                let (rest, q) = operators_spec(s, p, level);
                (seq![o] + rest, q)
            } else {
                (Seq::empty(), pos)
            },
            None => (Seq::empty(), pos),
        }
    } else {
        (Seq::empty(), pos)
    }
}

/// Whether the indentation of `level` is at `pos`
fn indented_at(cs: &[char], pos: usize, level: usize) -> (r: bool)
    requires
        pos <= cs@.len(),
    ensures
        r == indented(cs@, pos as int, level as nat),
{
    if level > (cs.len() - pos) / 4 {
        return false;
    }
    let end = pos + 4 * level;
    let mut i = pos;
    while i < end
        invariant
            pos <= i <= end <= cs@.len(),
            end == pos + 4 * level,
            forall|j: int| pos <= j < i ==> cs@[j] == ' ',
        decreases end - i,
    {
        if cs[i] != ' ' {
            return false;
        }
        i += 1;
    }
    true
}

/// The operator at `pos` at indentation `level`, with the position after it
pub fn operator_at(cs: &[char], pos: usize, level: usize) -> (r: Option<(Operator, usize)>)
    requires
        pos <= cs@.len(),
        level < usize::MAX,
    ensures
        match r {
            None => operator_spec(cs@, pos as int, level as nat) is None,
            Some((o, p)) => operator_spec(cs@, pos as int, level as nat) == Some((o@, p as int)),
        },
        r matches Some((o, p)) ==> p <= cs@.len(),
    decreases cs@.len() - pos, 0int,
{
    let _len = cs.len();
    if !indented_at(cs, pos, level) {
        return None;
    }
    let p1 = pos + 4 * level;
    let (op, n) = match line_op_at(cs, p1) {
        Some(x) => x,
        None => return None,
    };
    let e = match end_of_lines_at(cs, p1 + n) {
        Some(e) => e,
        None => return None,
    };
    let p2 = p1 + n + e;
    let line = string_of_range(cs, p1, p1 + n);
    assert(line@ =~= cs@.subrange(p1 as int, p1 + n));
    let opens = match &op {
        LineOp::Item { .. } => true,
        LineOp::Def { .. } => true,
        _ => false,
    };
    if opens && level + 1 < usize::MAX {
        let (children, p3) = operators_at(cs, p2, level + 1);
        let o = Operator { start: pos, end: p3, line, op, children };
        Some((o, p3))
    } else if opens {
        // Indentation this deep cannot fit in any text
        proof {
            let (ch, p3) = operators_spec(cs@, p2 as int, (level + 1) as nat);
            assert(!indented(cs@, p2 as int, (level + 1) as nat));
            assert(operators_spec(cs@, p2 as int, (level + 1) as nat) == (
            Seq::<OperatorView>::empty(),
            p2 as int,
            ));
        }
        let o = Operator { start: pos, end: p2, line, op, children: Vec::new() };
        proof {
            assert(operators_view(o.children@) =~= Seq::<OperatorView>::empty());
        }
        Some((o, p2))
    } else {
        let o = Operator { start: pos, end: p2, line, op, children: Vec::new() };
        proof {
            assert(operators_view(o.children@) =~= Seq::<OperatorView>::empty());
        }
        Some((o, p2))
    }
}

/// The longest run of operators at indentation `level` from `pos`, with the position after it
pub fn operators_at(cs: &[char], pos: usize, level: usize) -> (r: (Vec<Operator>, usize))
    requires
        pos <= cs@.len(),
        level < usize::MAX,
    ensures
        operators_spec(cs@, pos as int, level as nat) == (operators_view(r.0@), r.1 as int),
        pos <= r.1 <= cs@.len(),
    decreases cs@.len() - pos, 1int,
{
    let mut ops: Vec<Operator> = Vec::new();
    let mut i = pos;
    loop
        invariant
            pos <= i <= cs@.len(),
            level < usize::MAX,
            operators_spec(cs@, pos as int, level as nat) == (
            operators_view(ops@) + operators_spec(cs@, i as int, level as nat).0,
            operators_spec(cs@, i as int, level as nat).1,
            ),
        ensures
            pos <= i <= cs@.len(),
            operators_spec(cs@, pos as int, level as nat) == (operators_view(ops@), i as int),
        decreases cs@.len() - i,
    {
        match operator_at(cs, i, level) {
            Some((o, p)) => {
                if i < p && p <= cs.len() {
                    let ghost old_ops = ops@;
                    let ghost ov = o@;
                    proof {
                        lemma_operators_view_push(old_ops, o);
                    }
                    ops.push(o);
                    proof {
                        assert(operators_view(ops@) == operators_view(old_ops).push(ov));
                        let rest = operators_spec(cs@, p as int, level as nat);
                        assert(operators_spec(cs@, i as int, level as nat).0 == seq![ov] + rest.0);
                        assert(operators_view(old_ops) + (seq![ov] + rest.0) =~= operators_view(
                            ops@,
                        ) + rest.0);
                    }
                    i = p;
                } else {
                    proof {
                        assert(operators_view(ops@) + Seq::<OperatorView>::empty() =~= operators_view(ops@));
                    }
                    break ;
                }
            },
            None => {
                proof {
                    assert(operators_view(ops@) + Seq::<OperatorView>::empty() =~= operators_view(ops@));
                }
                break ;
            },
        }
    }
    (ops, i)
}

} // verus!
