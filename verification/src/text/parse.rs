//! Turning the tree of operators into a [`SchemaNode`], and the whole text into a schema.
use vstd::prelude::*;

use super::builder::{built_node, NodeType, SchemaNodeBuilder, TypeSpecific};
use super::lexical::{
    blank_line, blank_line_at, blank_lines, blank_lines_at, end_of_lines_at, end_of_lines_spec,
};
use super::line::{def_header_at, def_header_spec, opt_expr_view, LineOp, LineOpView};
use super::tree::{
    operators_at, operators_spec, operators_view, takes_children, Operator, OperatorView,
};
use crate::expression::{Expression, Identifier, TokenView};
use crate::schema::{entries_sorted, Binding, SchemaNode, SchemaType};
use crate::text_util::{chars_of, string_of_range};

verus! {

/// What decides whether the next operator is accepted while a node is being built
pub struct BuildState {
    pub is_def: bool,
    pub is_dir: bool,
    pub has_match: bool,
    pub has_avoid: bool,
    pub has_symlink: bool,
    pub n_uses: nat,
    pub has_owner: bool,
    pub has_group: bool,
    pub has_mode: bool,
    pub has_source: bool,
    pub vars: Seq<Seq<char>>,
    pub defs: Seq<Seq<char>>,
}

/// The state of a node that has been given nothing yet
pub open spec fn fresh_state(is_def: bool, is_dir: bool, has_symlink: bool) -> BuildState {
    BuildState {
        is_def,
        is_dir,
        has_match: false,
        has_avoid: false,
        has_symlink,
        n_uses: 0,
        has_owner: false,
        has_group: false,
        has_mode: false,
        has_source: false,
        vars: Seq::empty(),
        defs: Seq::empty(),
    }
}

/// The state in which the node opened by an entry or a definition starts
pub open spec fn opened_state(op: LineOpView) -> BuildState {
    match op {
        LineOpView::Item { is_directory, link, .. } => fresh_state(false, is_directory, link is Some),
        LineOpView::Def { is_directory, link, .. } => fresh_state(true, is_directory, link is Some),
        _ => fresh_state(false, true, false),
    }
}

/// The state after the operator `op` of a line is applied to a node in state `st`, or `None`
/// if the node refuses it
pub open spec fn apply_line(st: BuildState, op: LineOpView) -> Option<BuildState> {
    match op {
        LineOpView::Item { .. } => if st.is_dir {
            Some(st)
        } else {
            None
        },
        LineOpView::Def { name, .. } => if st.is_dir && !st.defs.contains(name) {
            Some(BuildState { defs: st.defs.push(name), ..st })
        } else {
            None
        },
        LineOpView::Let { name, .. } => if st.is_dir && !st.vars.contains(name) {
            Some(BuildState { vars: st.vars.push(name), ..st })
        } else {
            None
        },
        LineOpView::Use { .. } => if !st.has_source {
            Some(BuildState { n_uses: st.n_uses + 1, ..st })
        } else {
            None
        },
        LineOpView::Match(_) => if !st.has_match && !st.is_def {
            Some(BuildState { has_match: true, ..st })
        } else {
            None
        },
        LineOpView::Avoid(_) => if !st.has_avoid && !st.is_def {
            Some(BuildState { has_avoid: true, ..st })
        } else {
            None
        },
        LineOpView::Mode(_) => if !st.has_mode {
            Some(BuildState { has_mode: true, ..st })
        } else {
            None
        },
        LineOpView::Owner(_) => if !st.has_owner {
            Some(BuildState { has_owner: true, ..st })
        } else {
            None
        },
        LineOpView::Group(_) => if !st.has_group {
            Some(BuildState { has_group: true, ..st })
        } else {
            None
        },
        LineOpView::Source(_) => if !st.is_dir && !st.has_source && st.n_uses == 0 {
            Some(BuildState { has_source: true, ..st })
        } else {
            None
        },
        LineOpView::Target(_) => if !st.has_symlink {
            Some(BuildState { has_symlink: true, ..st })
        } else {
            None
        },
    }
}

/// Whether a node in state `st` can be finished: a file needs a `:source`
pub open spec fn builds(st: BuildState) -> bool {
    st.is_dir || st.has_source
}

/// Applies the operators in turn to a node in state `st`: the final state, or the positions
/// of the lines that lead to the refused operator (outermost first)
pub open spec fn apply_ops(st: BuildState, ops: Seq<OperatorView>) -> Result<BuildState, Seq<int>>
    decreases ops, 2int,
{
    if ops.len() == 0 {
        Ok(st)
    } else {
        match apply_op(st, ops[0]) {
            Err(chain) => Err(chain),
            Ok(st2) => apply_ops(st2, ops.drop_first()),
        }
    }
}

/// Applies one operator to a node in state `st`; an entry or a definition first builds the
/// node that it opens
pub open spec fn apply_op(st: BuildState, o: OperatorView) -> Result<BuildState, Seq<int>>
    decreases o, 1int,
{
    let nested = if takes_children(o.op) {
        node_result(o)
    } else {
        Ok(())
    };
    match nested {
        Err(chain) => Err(chain),
        Ok(_) => match apply_line(st, o.op) {
            None => Err(seq![o.start]),
            Some(st2) => Ok(st2),
        },
    }
}

/// Whether the node opened by an entry or a definition is built from its children, or the
/// positions of the lines that lead to the refusal (starting with its own)
pub open spec fn node_result(o: OperatorView) -> Result<(), Seq<int>>
    decreases o, 0int,
{
    match apply_ops(opened_state(o.op), o.children) {
        Err(chain) => Err(seq![o.start] + chain),
        Ok(st) => if builds(st) {
            Ok(())
        } else {
            Err(seq![o.start])
        },
    }
}

/// The names under which the pairs are kept
pub open spec fn names_of<X>(s: Seq<(Identifier, X)>) -> Seq<Seq<char>> {
    s.map_values(|p: (Identifier, X)| p.0@)
}

/// The state that a builder is in
pub open spec fn state_of(b: SchemaNodeBuilder) -> BuildState {
    BuildState {
        is_def: b.is_def,
        is_dir: b.type_specific.is_dir(),
        has_match: b.match_pattern is Some,
        has_avoid: b.avoid_pattern is Some,
        has_symlink: b.symlink is Some,
        n_uses: b.uses@.len(),
        has_owner: b.attributes.owner is Some,
        has_group: b.attributes.group is Some,
        has_mode: b.attributes.mode is Some,
        has_source: b.type_specific.file_source() is Some,
        vars: names_of(b.type_specific.dir_vars()),
        defs: names_of(b.type_specific.dir_defs()),
    }
}

/// A key occurs among the pairs exactly when it is among their names
pub proof fn lemma_has_key_names<X>(s: Seq<(Identifier, X)>, key: Seq<char>)
    ensures
        super::builder::has_key(s, key) <==> names_of(s).contains(key),
{
    if super::builder::has_key(s, key) {
        let i = choose|i: int| 0 <= i < s.len() && (#[trigger] s[i]).0@ == key;
        assert(names_of(s)[i] == key);
    }
    if names_of(s).contains(key) {
        let i = choose|i: int| 0 <= i < names_of(s).len() && names_of(s)[i] == key;
        assert(s[i].0@ == key);
    }
}

/// Appending a pair appends its name
pub proof fn lemma_names_push<X>(s: Seq<(Identifier, X)>, p: (Identifier, X))
    ensures
        names_of(s.push(p)) == names_of(s).push(p.0@),
{
    assert(names_of(s.push(p)) =~= names_of(s).push(p.0@));
}

/// The size of an operator tree, which bounds the depth of recursion over it
pub open spec fn op_size(o: Operator) -> nat
    decreases o, 0int,
{
    1 + ops_size(o.children@)
}

/// The total size of a sequence of operator trees
pub open spec fn ops_size(s: Seq<Operator>) -> nat
    decreases s, 1int,
{
    if s.len() == 0 {
        0
    } else {
        op_size(s[0]) + ops_size(s.drop_first())
    }
}

/// The positions in an error chain
pub open spec fn chain_starts(c: Seq<(usize, String, String)>) -> Seq<int> {
    c.map_values(|e: (usize, String, String)| e.0 as int)
}

/// The properties of a node that its own lines set, as they stand after some of its lines
pub struct NodeProps {
    pub match_pattern: Option<Seq<TokenView>>,
    pub avoid_pattern: Option<Seq<TokenView>>,
    pub target: Option<Seq<TokenView>>,
    pub uses: Seq<Seq<char>>,
    pub owner: Option<Seq<TokenView>>,
    pub group: Option<Seq<TokenView>>,
    pub mode: Option<u16>,
    pub source: Option<Seq<TokenView>>,
}

/// The properties of a node before any of its lines: only the link of its header, if any
pub open spec fn fresh_props(link: Option<Seq<TokenView>>) -> NodeProps {
    NodeProps {
        match_pattern: None,
        avoid_pattern: None,
        target: link,
        uses: Seq::empty(),
        owner: None,
        group: None,
        mode: None,
        source: None,
    }
}

/// The properties after one more line
pub open spec fn props_step(p: NodeProps, op: LineOpView) -> NodeProps {
    match op {
        LineOpView::Use { name } => NodeProps { uses: p.uses.push(name), ..p },
        LineOpView::Match(e) => NodeProps { match_pattern: Some(e), ..p },
        LineOpView::Avoid(e) => NodeProps { avoid_pattern: Some(e), ..p },
        LineOpView::Mode(m) => NodeProps { mode: Some(m), ..p },
        LineOpView::Owner(e) => NodeProps { owner: Some(e), ..p },
        LineOpView::Group(e) => NodeProps { group: Some(e), ..p },
        LineOpView::Source(e) => NodeProps { source: Some(e), ..p },
        LineOpView::Target(e) => NodeProps { target: Some(e), ..p },
        _ => p,
    }
}

/// The properties after the lines `ops`, in order
pub open spec fn props_after(p: NodeProps, ops: Seq<OperatorView>) -> NodeProps
    decreases ops.len(),
{
    if ops.len() == 0 {
        p
    } else {
        props_after(props_step(p, ops[0].op), ops.drop_first())
    }
}

/// The names of identifiers
pub open spec fn ids_view(s: Seq<Identifier>) -> Seq<Seq<char>> {
    s.map_values(|i: Identifier| i@)
}

/// The properties a builder holds
pub open spec fn props_of(b: SchemaNodeBuilder) -> NodeProps {
    NodeProps {
        match_pattern: opt_expr_view(b.match_pattern),
        avoid_pattern: opt_expr_view(b.avoid_pattern),
        target: opt_expr_view(b.symlink),
        uses: ids_view(b.uses@),
        owner: opt_expr_view(b.attributes.owner),
        group: opt_expr_view(b.attributes.group),
        mode: b.attributes.mode,
        source: opt_expr_view(b.type_specific.file_source()),
    }
}

/// Whether `n` is the node that the line `line` describes (a directory when `is_dir`, a
/// symlink to `link` where one is given) with the lines `ops` nested below it: the properties
/// those lines set (the last of each kind), a file's source, and a directory's variables and
/// definitions in order and its entries sorted by binding, each built from its own lines
pub open spec fn node_fits(
    n: SchemaNode,
    line: Seq<char>,
    is_dir: bool,
    link: Option<Seq<TokenView>>,
    ops: Seq<OperatorView>,
) -> bool
    decreases ops, 1int,
{
    let p = props_after(fresh_props(link), ops);
    &&& n.line@ == line
    &&& opt_expr_view(n.match_pattern) == p.match_pattern
    &&& opt_expr_view(n.avoid_pattern) == p.avoid_pattern
    &&& opt_expr_view(n.symlink) == p.target
    &&& ids_view(n.uses@) == p.uses
    &&& opt_expr_view(n.attributes.owner) == p.owner
    &&& opt_expr_view(n.attributes.group) == p.group
    &&& n.attributes.mode == p.mode
    &&& match n.schema {
        SchemaType::File(f) => !is_dir && p.source == Some(f.source@) && children_fit(
            Seq::empty(),
            Seq::empty(),
            Seq::empty(),
            ops,
        ),
        SchemaType::Directory(d) => is_dir && entries_sorted(d.entries@) && exists|
            e: Seq<(Binding, SchemaNode)>,
        |
            d.entries@.to_multiset() == #[trigger] e.to_multiset() && children_fit(
                d.vars@,
                d.defs@,
                e,
                ops,
            ),
    }
}

/// Whether the variables, definitions and entries are, in order, those that the lines `ops`
/// add, each definition and entry built from the lines nested below its own
pub open spec fn children_fit(
    vars: Seq<(Identifier, Expression)>,
    defs: Seq<(Identifier, SchemaNode)>,
    items: Seq<(Binding, SchemaNode)>,
    ops: Seq<OperatorView>,
) -> bool
    decreases ops, 0int,
{
    if ops.len() == 0 {
        vars.len() == 0 && defs.len() == 0 && items.len() == 0
    } else {
        match ops[0].op {
            LineOpView::Let { name, expr } => vars.len() > 0 && vars[0].0@ == name && vars[0].1@
                == expr && children_fit(vars.drop_first(), defs, items, ops.drop_first()),
            LineOpView::Def { name, is_directory, link } => defs.len() > 0 && defs[0].0@ == name
                && node_fits(defs[0].1, ops[0].line, is_directory, link, ops[0].children)
                && children_fit(vars, defs.drop_first(), items, ops.drop_first()),
            LineOpView::Item { binding, is_directory, link } => items.len() > 0 && items[0].0@
                == binding && node_fits(items[0].1, ops[0].line, is_directory, link, ops[0].children)
                && children_fit(vars, defs, items.drop_first(), ops.drop_first()),
            _ => children_fit(vars, defs, items, ops.drop_first()),
        }
    }
}

/// Whether the builder `b1` holds the variables, definitions and entries of `b0` followed by
/// those that the lines `ops` add
pub open spec fn lists_extend(b0: SchemaNodeBuilder, b1: SchemaNodeBuilder, ops: Seq<OperatorView>) -> bool {
    let v0 = b0.type_specific.dir_vars();
    let d0 = b0.type_specific.dir_defs();
    let e0 = b0.type_specific.dir_entries();
    let v1 = b1.type_specific.dir_vars();
    let d1 = b1.type_specific.dir_defs();
    let e1 = b1.type_specific.dir_entries();
    &&& v0.len() <= v1.len() && v1.take(v0.len() as int) == v0
    &&& d0.len() <= d1.len() && d1.take(d0.len() as int) == d0
    &&& e0.len() <= e1.len() && e1.take(e0.len() as int) == e0
    &&& children_fit(
        v1.skip(v0.len() as int),
        d1.skip(d0.len() as int),
        e1.skip(e0.len() as int),
        ops,
    )
}

/// What one line adds, then what further lines add
proof fn lemma_fit_concat(
    v1: Seq<(Identifier, Expression)>,
    d1: Seq<(Identifier, SchemaNode)>,
    e1: Seq<(Binding, SchemaNode)>,
    o: OperatorView,
    v2: Seq<(Identifier, Expression)>,
    d2: Seq<(Identifier, SchemaNode)>,
    e2: Seq<(Binding, SchemaNode)>,
    ops: Seq<OperatorView>,
)
    requires
        children_fit(v1, d1, e1, seq![o]),
        children_fit(v2, d2, e2, ops),
    ensures
        children_fit(v1 + v2, d1 + d2, e1 + e2, seq![o] + ops),
{
    let all = seq![o] + ops;
    let none = Seq::<OperatorView>::empty();
    assert(all[0] == o);
    assert(all.drop_first() =~= ops);
    assert(seq![o][0] == o);
    assert(seq![o].drop_first() =~= none);
    match o.op {
        LineOpView::Let { .. } => {
            assert(children_fit(v1.drop_first(), d1, e1, none));
            assert(v1.drop_first().len() == 0);
            assert((v1 + v2)[0] == v1[0]);
            assert((v1 + v2).drop_first() =~= v2);
            assert(d1 + d2 =~= d2);
            assert(e1 + e2 =~= e2);
        },
        LineOpView::Def { .. } => {
            assert(children_fit(v1, d1.drop_first(), e1, none));
            assert(d1.drop_first().len() == 0);
            assert((d1 + d2)[0] == d1[0]);
            assert((d1 + d2).drop_first() =~= d2);
            assert(v1 + v2 =~= v2);
            assert(e1 + e2 =~= e2);
        },
        LineOpView::Item { .. } => {
            assert(children_fit(v1, d1, e1.drop_first(), none));
            assert(e1.drop_first().len() == 0);
            assert((e1 + e2)[0] == e1[0]);
            assert((e1 + e2).drop_first() =~= e2);
            assert(v1 + v2 =~= v2);
            assert(d1 + d2 =~= d2);
        },
        _ => {
            assert(children_fit(v1, d1, e1, none));
            assert(v1 + v2 =~= v2);
            assert(d1 + d2 =~= d2);
            assert(e1 + e2 =~= e2);
        },
    }
}

/// Extending by one line, then by further lines
proof fn lemma_extend_trans(
    b0: SchemaNodeBuilder,
    b1: SchemaNodeBuilder,
    b2: SchemaNodeBuilder,
    o: OperatorView,
    ops: Seq<OperatorView>,
)
    requires
        lists_extend(b0, b1, seq![o]),
        lists_extend(b1, b2, ops),
    ensures
        lists_extend(b0, b2, seq![o] + ops),
{
    let (v0, v1, v2) = (
        b0.type_specific.dir_vars(),
        b1.type_specific.dir_vars(),
        b2.type_specific.dir_vars(),
    );
    let (d0, d1, d2) = (
        b0.type_specific.dir_defs(),
        b1.type_specific.dir_defs(),
        b2.type_specific.dir_defs(),
    );
    let (e0, e1, e2) = (
        b0.type_specific.dir_entries(),
        b1.type_specific.dir_entries(),
        b2.type_specific.dir_entries(),
    );
    lemma_fit_concat(
        v1.skip(v0.len() as int),
        d1.skip(d0.len() as int),
        e1.skip(e0.len() as int),
        o,
        v2.skip(v1.len() as int),
        d2.skip(d1.len() as int),
        e2.skip(e1.len() as int),
        ops,
    );
    assert(v2.take(v0.len() as int) =~= v0) by {
        assert(v2.take(v0.len() as int) =~= v2.take(v1.len() as int).take(v0.len() as int));
    }
    assert(d2.take(d0.len() as int) =~= d0) by {
        assert(d2.take(d0.len() as int) =~= d2.take(d1.len() as int).take(d0.len() as int));
    }
    assert(e2.take(e0.len() as int) =~= e0) by {
        assert(e2.take(e0.len() as int) =~= e2.take(e1.len() as int).take(e0.len() as int));
    }
    assert(v1.skip(v0.len() as int) + v2.skip(v1.len() as int) =~= v2.skip(v0.len() as int)) by {
        assert(v1 =~= v2.take(v1.len() as int));
    }
    assert(d1.skip(d0.len() as int) + d2.skip(d1.len() as int) =~= d2.skip(d0.len() as int)) by {
        assert(d1 =~= d2.take(d1.len() as int));
    }
    assert(e1.skip(e0.len() as int) + e2.skip(e1.len() as int) =~= e2.skip(e0.len() as int)) by {
        assert(e1 =~= e2.take(e1.len() as int));
    }
}

/// Whether `b1` holds the variables, definitions and entries of `b0` with what the line `o`
/// adds
pub open spec fn lists_step(b0: SchemaNodeBuilder, b1: SchemaNodeBuilder, o: OperatorView) -> bool {
    let v0 = b0.type_specific.dir_vars();
    let d0 = b0.type_specific.dir_defs();
    let e0 = b0.type_specific.dir_entries();
    let v1 = b1.type_specific.dir_vars();
    let d1 = b1.type_specific.dir_defs();
    let e1 = b1.type_specific.dir_entries();
    match o.op {
        LineOpView::Let { name, expr } => {
            &&& v1.len() == v0.len() + 1 && v1.drop_last() == v0
            &&& v1.last().0@ == name && v1.last().1@ == expr
            &&& d1 == d0 && e1 == e0
        },
        LineOpView::Def { name, is_directory, link } => {
            &&& d1.len() == d0.len() + 1 && d1.drop_last() == d0
            &&& d1.last().0@ == name
            &&& node_fits(d1.last().1, o.line, is_directory, link, o.children)
            &&& v1 == v0 && e1 == e0
        },
        LineOpView::Item { binding, is_directory, link } => {
            &&& e1.len() == e0.len() + 1 && e1.drop_last() == e0
            &&& e1.last().0@ == binding
            &&& node_fits(e1.last().1, o.line, is_directory, link, o.children)
            &&& v1 == v0 && d1 == d0
        },
        _ => v1 == v0 && d1 == d0 && e1 == e0,
    }
}

/// One line's step extends the lists by what that line adds
proof fn lemma_extend_one(b0: SchemaNodeBuilder, b1: SchemaNodeBuilder, o: OperatorView)
    requires
        lists_step(b0, b1, o),
    ensures
        lists_extend(b0, b1, seq![o]),
{
    let v0 = b0.type_specific.dir_vars();
    let d0 = b0.type_specific.dir_defs();
    let e0 = b0.type_specific.dir_entries();
    let v1 = b1.type_specific.dir_vars();
    let d1 = b1.type_specific.dir_defs();
    let e1 = b1.type_specific.dir_entries();
    let none = Seq::<OperatorView>::empty();
    assert(seq![o][0] == o);
    assert(seq![o].drop_first() =~= none);
    assert(v1.take(v0.len() as int) =~= v0);
    assert(d1.take(d0.len() as int) =~= d0);
    assert(e1.take(e0.len() as int) =~= e0);
    let (vs, ds, es) = (v1.skip(v0.len() as int), d1.skip(d0.len() as int), e1.skip(e0.len() as int));
    match o.op {
        LineOpView::Let { .. } => {
            assert(vs =~= seq![v1.last()]);
            assert(vs.drop_first() =~= Seq::<(Identifier, Expression)>::empty());
            assert(ds =~= Seq::<(Identifier, SchemaNode)>::empty());
            assert(es =~= Seq::<(Binding, SchemaNode)>::empty());
            assert(children_fit(vs.drop_first(), ds, es, none));
        },
        LineOpView::Def { .. } => {
            assert(ds =~= seq![d1.last()]);
            assert(ds.drop_first() =~= Seq::<(Identifier, SchemaNode)>::empty());
            assert(vs =~= Seq::<(Identifier, Expression)>::empty());
            assert(es =~= Seq::<(Binding, SchemaNode)>::empty());
            assert(children_fit(vs, ds.drop_first(), es, none));
        },
        LineOpView::Item { .. } => {
            assert(es =~= seq![e1.last()]);
            assert(es.drop_first() =~= Seq::<(Binding, SchemaNode)>::empty());
            assert(vs =~= Seq::<(Identifier, Expression)>::empty());
            assert(ds =~= Seq::<(Identifier, SchemaNode)>::empty());
            assert(children_fit(vs, ds, es.drop_first(), none));
        },
        _ => {
            assert(vs =~= Seq::<(Identifier, Expression)>::empty());
            assert(ds =~= Seq::<(Identifier, SchemaNode)>::empty());
            assert(es =~= Seq::<(Binding, SchemaNode)>::empty());
            assert(children_fit(vs, ds, es, none));
        },
    }
}

/// A builder that starts fresh and takes the lines `ops` builds the node those lines describe
proof fn lemma_built_fits(
    b0: SchemaNodeBuilder,
    b1: SchemaNodeBuilder,
    n: SchemaNode,
    is_dir: bool,
    link: Option<Seq<TokenView>>,
    ops: Seq<OperatorView>,
)
    requires
        props_of(b0) == fresh_props(link),
        b0.type_specific.dir_vars().len() == 0,
        b0.type_specific.dir_defs().len() == 0,
        b0.type_specific.dir_entries().len() == 0,
        props_of(b1) == props_after(props_of(b0), ops),
        b1.line == b0.line,
        b1.type_specific.is_dir() == is_dir,
        lists_extend(b0, b1, ops),
        built_node(n, b1),
    ensures
        node_fits(n, b0.line@, is_dir, link, ops),
{
    let ts = b1.type_specific;
    assert(ts.dir_vars().skip(0) =~= ts.dir_vars());
    assert(ts.dir_defs().skip(0) =~= ts.dir_defs());
    assert(ts.dir_entries().skip(0) =~= ts.dir_entries());
    if let SchemaType::Directory(d) = n.schema {
        assert(d.entries@.to_multiset() == ts.dir_entries().to_multiset());
    }
}

/// The operators at the top of the schema text `s`
pub open spec fn top_operators(s: Seq<char>) -> Seq<OperatorView> {
    operators_spec(s, blank_lines(s), top_level(s)).0
}

/// Whether `n` is the schema that the text `s` describes: an unnamed directory built from the
/// lines at the top of the text
pub open spec fn schema_fits(n: SchemaNode, s: Seq<char>) -> bool {
    node_fits(n, Seq::empty(), true, None, top_operators(s))
}

/// Builds a node (one that a definition opens when `is_def`) from the operators below its
/// line at `start`; on a refusal, the chain of (position, line, message) that leads to it
pub fn build_node(
    start: usize,
    line: String,
    is_def: bool,
    is_directory: bool,
    link: Option<Expression>,
    children: Vec<Operator>,
) -> (r: Result<SchemaNode, Vec<(usize, String, String)>>)
    ensures
        match apply_ops(fresh_state(is_def, is_directory, link is Some), operators_view(children@)) {
            Err(chain) => r matches Err(c) && chain_starts(c@) == seq![start as int] + chain,
            Ok(st) => if builds(st) {
                r is Ok
            } else {
                r matches Err(c) && chain_starts(c@) == seq![start as int]
            },
        },
        r matches Ok(n) ==> node_fits(
            n,
            line@,
            is_directory,
            opt_expr_view(link),
            operators_view(children@),
        ),
    decreases 1 + ops_size(children@), 0int,
{
    let ghost text = line@;
    let ghost link_view = opt_expr_view(link);
    let ghost ops_view = operators_view(children@);
    let node_type = if is_directory {
        NodeType::Directory
    } else {
        NodeType::File
    };
    let mut b = SchemaNodeBuilder::new(line.clone(), is_def, node_type, link);
    proof {
        assert(state_of(b).vars =~= Seq::<Seq<char>>::empty());
        assert(state_of(b).defs =~= Seq::<Seq<char>>::empty());
        assert(state_of(b) == fresh_state(is_def, is_directory, link is Some));
        assert(ids_view(b.uses@) =~= Seq::<Seq<char>>::empty());
        assert(props_of(b) == fresh_props(link_view));
        lemma_apply_keeps_kind(state_of(b), ops_view);
    }
    let ghost b0 = b;
    match build_children(&mut b, children) {
        Err(chain) => {
            let mut chain = chain;
            let ghost inner = chain@;
            chain.insert(0, (start, line, "Error within this node".to_owned()));
            proof {
                assert(chain@ =~= seq![chain@[0]] + inner);
                assert(chain_starts(chain@) =~= seq![start as int] + chain_starts(inner));
            }
            Err(chain)
        },
        Ok(()) => {
            let ghost b1 = b;
            match b.build() {
                Ok(node) => {
                    proof {
                        lemma_built_fits(b0, b1, node, is_directory, link_view, ops_view);
                    }
                    Ok(node)
                },
                Err(msg) => {
                    let mut chain = Vec::new();
                    chain.push((start, line, msg));
                    proof {
                        assert(chain_starts(chain@) =~= seq![start as int]);
                    }
                    Err(chain)
                },
            }
        },
    }
}

/// A one-entry error chain
fn refusal(start: usize, line: String, msg: String) -> (c: Vec<(usize, String, String)>)
    ensures
        chain_starts(c@) == seq![start as int],
{
    let mut chain = Vec::new();
    chain.push((start, line, msg));
    proof {
        assert(chain_starts(chain@) =~= seq![start as int]);
    }
    chain
}

/// The size of the first of a sequence of trees is part of the total
proof fn lemma_ops_size_first(s: Seq<Operator>)
    requires
        s.len() > 0,
    ensures
        ops_size(s) == op_size(s[0]) + ops_size(s.drop_first()),
        op_size(s[0]) == 1 + ops_size(s[0].children@),
{
}

/// Applies the operators in turn to the builder; on a refusal, the chain of (position, line,
/// message) that leads to it
pub fn build_children(b: &mut SchemaNodeBuilder, ops: Vec<Operator>) -> (r: Result<
    (),
    Vec<(usize, String, String)>,
>)
    ensures
        r is Ok ==> apply_ops(state_of(*old(b)), operators_view(ops@)) == Ok::<
            BuildState,
            Seq<int>,
        >(state_of(*final(b))),
        r matches Err(c) ==> apply_ops(state_of(*old(b)), operators_view(ops@)) == Err::<
            BuildState,
            Seq<int>,
        >(chain_starts(c@)),
        r is Ok ==> props_of(*final(b)) == props_after(props_of(*old(b)), operators_view(ops@)),
        r is Ok ==> final(b).line == old(b).line && final(b).is_def == old(b).is_def,
        r is Ok ==> lists_extend(*old(b), *final(b), operators_view(ops@)),
    decreases ops_size(ops@), 2int,
{
    let mut ops = ops;
    if ops.len() == 0 {
        proof {
            assert(operators_view(ops@) =~= Seq::<OperatorView>::empty());
            let ts = b.type_specific;
            assert(ts.dir_vars().take(ts.dir_vars().len() as int) =~= ts.dir_vars());
            assert(ts.dir_defs().take(ts.dir_defs().len() as int) =~= ts.dir_defs());
            assert(ts.dir_entries().take(ts.dir_entries().len() as int) =~= ts.dir_entries());
            assert(ts.dir_vars().skip(ts.dir_vars().len() as int) =~= Seq::<
                (Identifier, Expression),
            >::empty());
            assert(ts.dir_defs().skip(ts.dir_defs().len() as int) =~= Seq::<
                (Identifier, SchemaNode),
            >::empty());
            assert(ts.dir_entries().skip(ts.dir_entries().len() as int) =~= Seq::<
                (Binding, SchemaNode),
            >::empty());
        }
        return Ok(());
    }
    let ghost before = ops@;
    proof {
        lemma_ops_size_first(before);
    }
    let o = ops.remove(0);
    proof {
        assert(before.drop_first() =~= ops@);
        assert(before[0] == o);
        assert(operators_view(before)[0] == o@);
        assert(operators_view(before).drop_first() == operators_view(ops@));
    }
    let ghost ov = o@;
    let ghost b0 = *b;
    match apply_operator(b, o) {
        Err(c) => Err(c),
        Ok(()) => {
            let ghost b_mid = *b;
            let r = build_children(b, ops);
            proof {
                if r is Ok {
                    lemma_extend_trans(b0, b_mid, *b, ov, operators_view(ops@));
                    assert(seq![ov] + operators_view(ops@) =~= operators_view(before));
                }
            }
            r
        },
    }
}

/// Applies one operator to the builder (an entry or a definition first builds the node it
/// opens); on a refusal, the chain of (position, line, message) that leads to it
#[verifier::rlimit(40)]
pub fn apply_operator(b: &mut SchemaNodeBuilder, o: Operator) -> (r: Result<
    (),
    Vec<(usize, String, String)>,
>)
    ensures
        r is Ok ==> apply_op(state_of(*old(b)), o@) == Ok::<BuildState, Seq<int>>(
            state_of(*final(b)),
        ),
        r matches Err(c) ==> apply_op(state_of(*old(b)), o@) == Err::<BuildState, Seq<int>>(
            chain_starts(c@),
        ),
        r is Ok ==> props_of(*final(b)) == props_step(props_of(*old(b)), o@.op),
        r is Ok ==> final(b).line == old(b).line && final(b).is_def == old(b).is_def,
        r is Ok ==> lists_extend(*old(b), *final(b), seq![o@]),
    decreases op_size(o), 1int,
{
    let ghost ov = o@;
    let ghost st = state_of(*b);
    let Operator { start, end: _, line, op, children } = o;
    proof {
        assert(ov.children == operators_view(children@));
        assert(ov.start == start as int);
        assert(ov.op == op@);
        assert(ov.line == line@);
    }
    let res = match op {
        LineOp::Item { binding, is_directory, link } => {
            proof {
                assert(opened_state(ov.op) == fresh_state(false, is_directory, link is Some));
            }
            match build_node(start, line.clone(), false, is_directory, link, children) {
                Err(c) => {
                    return Err(c);
                },
                Ok(node) => {
                    let res = b.add_entry(binding, node);
                    proof {
                        if res is Ok {
                            assert(b.type_specific.dir_entries().drop_last()
                                =~= old(b).type_specific.dir_entries());
                            lemma_extend_one(*old(b), *b, ov);
                        }
                    }
                    res
                },
            }
        },
        LineOp::Def { name, is_directory, link } => {
            proof {
                assert(opened_state(ov.op) == fresh_state(true, is_directory, link is Some));
            }
            match build_node(start, line.clone(), true, is_directory, link, children) {
                Err(c) => {
                    return Err(c);
                },
                Ok(node) => {
                    proof {
                        lemma_has_key_names(b.type_specific.dir_defs(), name@);
                        lemma_names_push(b.type_specific.dir_defs(), (name, node));
                    }
                    let res = b.define(name, node);
                    proof {
                        if res is Ok {
                            assert(b.type_specific.dir_defs().drop_last()
                                =~= old(b).type_specific.dir_defs());
                            lemma_extend_one(*old(b), *b, ov);
                        }
                    }
                    res
                },
            }
        },
        LineOp::Let { name, expr } => {
            proof {
                lemma_has_key_names(b.type_specific.dir_vars(), name@);
                lemma_names_push(b.type_specific.dir_vars(), (name, expr));
            }
            let res = b.let_var(name, expr);
            proof {
                if res is Ok {
                    assert(b.type_specific.dir_vars().drop_last() =~= old(b).type_specific.dir_vars());
                    lemma_extend_one(*old(b), *b, ov);
                }
            }
            res
        },
        LineOp::Use { name } => {
            let res = b.use_definition(name);
            proof {
                if res is Ok {
                    assert(ids_view(b.uses@) =~= ids_view(old(b).uses@).push(ov.op->Use_name));
                    lemma_extend_one(*old(b), *b, ov);
                }
            }
            res
        },
        LineOp::Match(e) => {
            let res = b.match_pattern(e);
            proof {
                if res is Ok {
                    lemma_extend_one(*old(b), *b, ov);
                }
            }
            res
        },
        LineOp::Avoid(e) => {
            let res = b.avoid_pattern(e);
            proof {
                if res is Ok {
                    lemma_extend_one(*old(b), *b, ov);
                }
            }
            res
        },
        LineOp::Mode(m) => {
            let res = b.mode(m);
            proof {
                if res is Ok {
                    lemma_extend_one(*old(b), *b, ov);
                }
            }
            res
        },
        LineOp::Owner(e) => {
            let res = b.owner(e);
            proof {
                if res is Ok {
                    lemma_extend_one(*old(b), *b, ov);
                }
            }
            res
        },
        LineOp::Group(e) => {
            let res = b.group(e);
            proof {
                if res is Ok {
                    lemma_extend_one(*old(b), *b, ov);
                }
            }
            res
        },
        LineOp::Source(e) => {
            let res = b.source(e);
            proof {
                if res is Ok {
                    lemma_extend_one(*old(b), *b, ov);
                }
            }
            res
        },
        LineOp::Target(e) => {
            let res = b.target(e);
            proof {
                if res is Ok {
                    lemma_extend_one(*old(b), *b, ov);
                }
            }
            res
        },
    };
    match res {
        Err(msg) => Err(refusal(start, line, msg)),
        Ok(()) => {
            proof {
                assert(state_of(*b).vars =~= apply_line(st, ov.op).unwrap().vars);
                assert(state_of(*b).defs =~= apply_line(st, ov.op).unwrap().defs);
            }
            Ok(())
        },
    }
}

/// The number of newlines in `s`
pub open spec fn newlines(s: Seq<char>) -> nat
    decreases s.len(),
{
    if s.len() == 0 {
        0
    } else {
        newlines(s.drop_last()) + if s.last() == '\n' {
            1nat
        } else {
            0nat
        }
    }
}

/// The number (counted from 1) of the line of `s` that position `pos` is on (the last line for
/// a position past the end)
pub open spec fn line_number_of(s: Seq<char>, pos: int) -> int {
    if pos <= s.len() {
        1 + newlines(s.take(pos)) as int
    } else {
        1 + newlines(s) as int
    }
}

/// The number of leading spaces
pub open spec fn space_run(s: Seq<char>) -> nat
    decreases s.len(),
{
    if s.len() > 0 && s[0] == ' ' {
        1 + space_run(s.drop_first())
    } else {
        0
    }
}

/// How a text fares as a schema
pub enum ParseOutcome {
    /// The text holds no valid line at this position
    Syntax(int),
    /// The node refused an operator: the positions of the lines leading to it
    Refused(Seq<int>),
    /// The text is a valid schema
    Accepted,
}

/// The state of the top level of a schema, an unnamed directory
pub open spec fn root_state() -> BuildState {
    fresh_state(false, true, false)
}

/// The indentation level of the top of a schema: that of its first line that is not blank
pub open spec fn top_level(s: Seq<char>) -> nat {
    space_run(s.skip(blank_lines(s))) / 4
}

/// How the text `s` fares as a schema: after any leading blank lines, the operators at the
/// indentation of the first line, then at most a blank line to the end of the text, all
/// accepted by the top-level directory
pub open spec fn parse_outcome(s: Seq<char>) -> ParseOutcome {
    let a = blank_lines(s);
    let (ops, p) = operators_spec(s, a, top_level(s));
    if blank_line(s.skip(p)) != Some(s.len() - p) {
        ParseOutcome::Syntax(p)
    } else {
        match apply_ops(root_state(), ops) {
            Err(chain) => ParseOutcome::Refused(chain),
            Ok(_) => ParseOutcome::Accepted,
        }
    }
}

/// One part of the explanation of a parse error, from the outermost to the innermost
#[derive(Debug, PartialEq, Eq)]
pub struct ErrorEntry {
    /// What went wrong
    pub message: String,
    /// The number (counted from 1) of the line it concerns
    pub line_number: usize,
    /// The text of that line
    pub line: String,
}

impl ErrorEntry {
    /// The number (counted from 1) of the line this part of the error concerns
    pub fn line_number(&self) -> (r: usize)
        ensures
            r == self.line_number,
    {
        self.line_number
    }
}

/// Why a text is not a valid schema: a chain of entries, from the outermost line to the line
/// where parsing failed
#[derive(Debug, PartialEq, Eq)]
pub struct ParseError {
    /// The entries of the chain, outermost first
    pub entries: Vec<ErrorEntry>,
}

impl ParseError {
    /// The entries of the chain, outermost first
    pub fn into_entries(self) -> (r: Vec<ErrorEntry>)
        ensures
            r == self.entries,
    {
        self.entries
    }
}

/// The line numbers of the entries of an error
pub open spec fn entry_lines(e: Seq<ErrorEntry>) -> Seq<int> {
    e.map_values(|x: ErrorEntry| x.line_number as int)
}

/// The number of the line that position `pos` is on
fn line_number_at(cs: &[char], pos: usize) -> (r: usize)
    requires
        cs@.len() < usize::MAX,
    ensures
        r == line_number_of(cs@, pos as int),
{
    let pos = if pos <= cs.len() {
        pos
    } else {
        cs.len()
    };
    assert(cs@.take(cs@.len() as int) =~= cs@);
    let mut count: usize = 0;
    let mut i: usize = 0;
    while i < pos
        invariant
            i <= pos <= cs@.len() < usize::MAX,
            count == newlines(cs@.take(i as int)),
            count <= i,
        decreases pos - i,
    {
        assert(cs@.take(i + 1).drop_last() =~= cs@.take(i as int));
        if cs[i] == '\n' {
            count += 1;
        }
        i += 1;
    }
    count + 1
}

/// The characters of `s` before its first newline (all of them, if it has none)
pub open spec fn line_rest(s: Seq<char>) -> Seq<char>
    decreases s.len(),
{
    if s.len() == 0 || s[0] == '\n' {
        Seq::empty()
    } else {
        seq![s[0]] + line_rest(s.drop_first())
    }
}

/// The text of the line from `pos` up to its end
fn line_text_at(cs: &[char], pos: usize) -> (r: String)
    requires
        pos <= cs@.len(),
    ensures
        r@ == line_rest(cs@.skip(pos as int)),
{
    let mut i = pos;
    assert(cs@.subrange(pos as int, pos as int) =~= Seq::<char>::empty());
    assert(line_rest(cs@.skip(pos as int)) =~= cs@.subrange(pos as int, pos as int) + line_rest(
        cs@.skip(pos as int),
    ));
    while i < cs.len() && cs[i] != '\n'
        invariant
            pos <= i <= cs@.len(),
            line_rest(cs@.skip(pos as int)) == cs@.subrange(pos as int, i as int) + line_rest(
                cs@.skip(i as int),
            ),
        decreases cs@.len() - i,
    {
        assert(cs@.skip(i as int)[0] == cs@[i as int]);
        assert(cs@.skip(i as int).drop_first() =~= cs@.skip(i + 1));
        assert(cs@.subrange(pos as int, i + 1) =~= cs@.subrange(pos as int, i as int) + seq![
            cs@[i as int],
        ]);
        i += 1;
    }
    proof {
        if i < cs@.len() {
            assert(cs@.skip(i as int)[0] == cs@[i as int]);
        }
        assert(line_rest(cs@.skip(i as int)) =~= Seq::<char>::empty());
        assert(cs@.subrange(pos as int, i as int) + Seq::<char>::empty() =~= cs@.subrange(
            pos as int,
            i as int,
        ));
    }
    string_of_range(cs, pos, i)
}

/// The error of a text that holds no valid line at `pos`
fn syntax_error(cs: &[char], pos: usize) -> (e: ParseError)
    requires
        pos <= cs@.len(),
        cs@.len() < usize::MAX,
    ensures
        entry_lines(e.entries@) == seq![line_number_of(cs@, pos as int)],
{
    let entry = ErrorEntry {
        message: "Syntax error".to_owned(),
        line_number: line_number_at(cs, pos),
        line: line_text_at(cs, pos),
    };
    let mut entries = Vec::new();
    entries.push(entry);
    proof {
        assert(entry_lines(entries@) =~= seq![line_number_of(cs@, pos as int)]);
    }
    ParseError { entries }
}

/// The error explaining a chain of refusals
fn refusal_error(cs: &[char], chain: Vec<(usize, String, String)>) -> (e: ParseError)
    requires
        cs@.len() < usize::MAX,
    ensures
        entry_lines(e.entries@) == chain_starts(chain@).map_values(
            |p: int| line_number_of(cs@, p),
        ),
{
    let mut entries: Vec<ErrorEntry> = Vec::new();
    let mut i: usize = 0;
    while i < chain.len()
        invariant
            i <= chain@.len(),
            cs@.len() < usize::MAX,
            entry_lines(entries@) == chain_starts(chain@).take(i as int).map_values(
                |p: int| line_number_of(cs@, p),
            ),
        decreases chain@.len() - i,
    {
        let (start, line, message) = (chain[i].0, chain[i].1.clone(), chain[i].2.clone());
        let entry = ErrorEntry { message, line_number: line_number_at(cs, start), line };
        let ghost prev = entries@;
        entries.push(entry);
        proof {
            assert(entry_lines(entries@) =~= chain_starts(chain@).take(i + 1).map_values(
                |p: int| line_number_of(cs@, p),
            )) by {
                assert(entry_lines(entries@) =~= entry_lines(prev).push(
                    line_number_of(cs@, start as int),
                ));
                assert(chain_starts(chain@).take(i + 1) =~= chain_starts(chain@).take(
                    i as int,
                ).push(start as int));
            }
        }
        i += 1;
    }
    proof {
        assert(chain_starts(chain@).take(chain@.len() as int) =~= chain_starts(chain@));
    }
    ParseError { entries }
}

/// The number of spaces at `pos`
fn space_run_at(cs: &[char], pos: usize) -> (n: usize)
    requires
        pos <= cs@.len(),
    ensures
        n == space_run(cs@.skip(pos as int)),
        pos + n <= cs@.len(),
{
    let mut i = pos;
    while i < cs.len() && cs[i] == ' '
        invariant
            pos <= i <= cs@.len(),
            space_run(cs@.skip(pos as int)) == (i - pos) + space_run(cs@.skip(i as int)),
        decreases cs@.len() - i,
    {
        assert(cs@.skip(i as int).drop_first() =~= cs@.skip(i + 1));
        i += 1;
    }
    proof {
        if i < cs@.len() {
            assert(cs@.skip(i as int)[0] == cs@[i as int]);
        }
    }
    i - pos
}

/// Applying operators never changes whether a node is a directory
pub proof fn lemma_apply_keeps_kind(st: BuildState, ops: Seq<OperatorView>)
    ensures
        apply_ops(st, ops) matches Ok(st2) ==> st2.is_dir == st.is_dir,
    decreases ops.len(),
{
    if ops.len() > 0 {
        if let Ok(st1) = apply_op(st, ops[0]) {
            lemma_apply_keeps_kind(st1, ops.drop_first());
        }
    }
}

/// Parses the text of a schema into the tree of nodes it describes
///
/// A syntax error is reported at the first line that cannot be read; a refused operator (one
/// given twice, or one that the node cannot have) with the chain of lines that lead to it.
pub fn parse_schema(text: &str) -> (r: Result<SchemaNode, ParseError>)
    requires
        text@.len() < usize::MAX,
    ensures
        match parse_outcome(text@) {
            ParseOutcome::Syntax(p) => r matches Err(e) && entry_lines(e.entries@) == seq![
                line_number_of(text@, p),
            ],
            ParseOutcome::Refused(c) => r matches Err(e) && entry_lines(e.entries@) == c.map_values(
                |p: int| line_number_of(text@, p),
            ),
            ParseOutcome::Accepted => r matches Ok(n) && schema_fits(n, text@),
        },
{
    let cs = chars_of(text);
    assert(cs@.skip(0) =~= cs@);
    let a = blank_lines_at(cs.as_slice(), 0);
    let n = space_run_at(cs.as_slice(), a);
    let level = n / 4;
    let (ops, p) = operators_at(cs.as_slice(), a, level);
    let tail_ok = match blank_line_at(cs.as_slice(), p) {
        Some(k) => p + k == cs.len(),
        None => false,
    };
    if !tail_ok {
        return Err(syntax_error(cs.as_slice(), p));
    }
    let mut root = SchemaNodeBuilder::new(String::new(), false, NodeType::Directory, None);
    proof {
        assert(state_of(root).vars =~= Seq::<Seq<char>>::empty());
        assert(state_of(root).defs =~= Seq::<Seq<char>>::empty());
        assert(ids_view(root.uses@) =~= Seq::<Seq<char>>::empty());
        assert(root.line@ =~= Seq::<char>::empty());
    }
    let ghost ops_view = operators_view(ops@);
    let ghost root0 = root;
    proof {
        lemma_apply_keeps_kind(root_state(), ops_view);
    }
    match build_children(&mut root, ops) {
        Err(chain) => Err(refusal_error(cs.as_slice(), chain)),
        Ok(()) => match root.build() {
            Ok(node) => {
                proof {
                    lemma_built_fits(root0, root, node, true, None, ops_view);
                }
                Ok(node)
            },
            Err(msg) => {
                let mut entries = Vec::new();
                entries.push(ErrorEntry { message: msg, line_number: 1, line: String::new() });
                Err(ParseError { entries })
            },
        },
    }
}

/// A failure to read a part of a schema
#[derive(Debug, PartialEq, Eq)]
pub struct SyntaxError {
    /// Where reading failed (counted in characters)
    pub position: usize,
}

/// Reads a definition header (`:def name`, then an optional `/` and `-> target`) at the start
/// of `s`: the rest of the text, with the name, whether it is a directory and the target
pub fn def_header(s: &str) -> (r: Result<(String, (Identifier, bool, Option<Expression>)), SyntaxError>)
    ensures
        match def_header_spec(s@) {
            None => r is Err,
            Some((name, d, link, n)) => r matches Ok((rest, (id, d2, l2))) && rest@ == s@.skip(n)
                && id@ == name && d2 == d && opt_expr_view(l2) == link,
        },
{
    let cs = chars_of(s);
    assert(cs@.skip(0) =~= cs@);
    match def_header_at(cs.as_slice(), 0) {
        None => Err(SyntaxError { position: 0 }),
        Some((name, d, link, n)) => {
            let rest = string_of_range(cs.as_slice(), n, cs.len());
            assert(rest@ =~= s@.skip(n as int));
            Ok((rest, (name, d, link)))
        },
    }
}

/// Reads the end of a line at the start of `s` (the end of the text, or a line ending and any
/// blank lines after it): the rest of the text and what was read
pub fn end_of_lines(s: &str) -> (r: Result<(String, String), SyntaxError>)
    ensures
        match end_of_lines_spec(s@) {
            None => r is Err,
            Some(n) => r matches Ok((rest, read)) && rest@ == s@.skip(n) && read@ == s@.take(n),
        },
{
    let cs = chars_of(s);
    assert(cs@.skip(0) =~= cs@);
    match end_of_lines_at(cs.as_slice(), 0) {
        None => Err(SyntaxError { position: 0 }),
        Some(n) => {
            let rest = string_of_range(cs.as_slice(), n, cs.len());
            let read = string_of_range(cs.as_slice(), 0, n);
            assert(rest@ =~= s@.skip(n as int));
            assert(read@ =~= s@.take(n as int));
            Ok((rest, read))
        },
    }
}

/// Reads the operator at indentation `level` at the start of `s` (its line, any blank lines
/// after it and, for an entry or a definition, the operators one level deeper below it): the
/// rest of the text, with the text read and the operator
pub fn operator(level: usize, s: &str) -> (r: Result<(String, (String, Operator)), SyntaxError>)
    requires
        level < usize::MAX,
    ensures
        match super::tree::operator_spec(s@, 0, level as nat) {
            None => r is Err,
            Some((o, p)) => r matches Ok((rest, (read, op))) && rest@ == s@.skip(p) && read@
                == s@.take(p) && op@ == o,
        },
{
    let cs = chars_of(s);
    match super::tree::operator_at(cs.as_slice(), 0, level) {
        None => Err(SyntaxError { position: 0 }),
        Some((o, p)) => {
            if p > cs.len() {
                return Err(SyntaxError { position: 0 });
            }
            let rest = string_of_range(cs.as_slice(), p, cs.len());
            let read = string_of_range(cs.as_slice(), 0, p);
            assert(rest@ =~= s@.skip(p as int));
            assert(read@ =~= s@.take(p as int));
            Ok((rest, (read, o)))
        },
    }
}

/// Reads a comment (`#` up to the end of the line) at the start of `s`: the rest of the text
/// and the comment
pub fn comment(s: &str) -> (r: Result<(String, String), SyntaxError>)
    ensures
        if super::lexical::comment_len(s@) == 0 {
            r is Err
        } else {
            r matches Ok((rest, read)) && rest@ == s@.skip(super::lexical::comment_len(s@))
                && read@ == s@.take(super::lexical::comment_len(s@))
        },
{
    let cs = chars_of(s);
    assert(cs@.skip(0) =~= cs@);
    let n = super::lexical::comment_len_at(cs.as_slice(), 0);
    if n == 0 {
        return Err(SyntaxError { position: 0 });
    }
    let rest = string_of_range(cs.as_slice(), n, cs.len());
    let read = string_of_range(cs.as_slice(), 0, n);
    assert(rest@ =~= s@.skip(n as int));
    assert(read@ =~= s@.take(n as int));
    Ok((rest, read))
}

/// Reads a blank line (spaces, an optional comment, then a line ending or the end of the
/// text) at the start of `s`: the rest of the text and the line
pub fn blank_line_of(s: &str) -> (r: Result<(String, String), SyntaxError>)
    ensures
        match blank_line(s@) {
            None => r is Err,
            Some(n) => r matches Ok((rest, read)) && rest@ == s@.skip(n) && read@ == s@.take(n),
        },
{
    let cs = chars_of(s);
    assert(cs@.skip(0) =~= cs@);
    match blank_line_at(cs.as_slice(), 0) {
        None => Err(SyntaxError { position: 0 }),
        Some(n) => {
            let rest = string_of_range(cs.as_slice(), n, cs.len());
            let read = string_of_range(cs.as_slice(), 0, n);
            assert(rest@ =~= s@.skip(n as int));
            assert(read@ =~= s@.take(n as int));
            Ok((rest, read))
        },
    }
}

/// Reads an expression (text and `$variables`, up to the end of the line) at the start of
/// `s`: the rest of the text and the expression
pub fn expression_of(s: &str) -> (r: Result<(String, Expression), SyntaxError>)
    ensures
        match super::lexical::expression(s@) {
            None => r is Err,
            Some((e, n)) => r matches Ok((rest, ex)) && rest@ == s@.skip(n) && ex@ == e,
        },
{
    let cs = chars_of(s);
    assert(cs@.skip(0) =~= cs@);
    match super::lexical::expression_at(cs.as_slice(), 0) {
        None => Err(SyntaxError { position: 0 }),
        Some((e, n)) => {
            let rest = string_of_range(cs.as_slice(), n, cs.len());
            assert(rest@ =~= s@.skip(n as int));
            Ok((rest, e))
        },
    }
}

} // verus!
