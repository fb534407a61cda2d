//! Walking from a root to the target path, then constructing everything the schema describes
//! there.
use vstd::prelude::*;

use super::eval::{eval_spec, evaluate, MAX_EVAL_DEPTH};
use super::pattern::{
    accepts, anchored, compiled_from, evaluated_patterns, match_all, opt_expr, regex_finds,
    CompiledPattern,
};
use super::plan::{
    candidates_of, claims, is_static_name, key_views, matches_at, plan_entries, plan_has, plan_view,
    planned, static_at, EntryKey, KeyView,
};
use super::stack::{StackFrame, Value, VariableSource};
use crate::attrs::{Mode, SetAttrs, DEFAULT_DIRECTORY_MODE, DEFAULT_FILE_MODE};
use crate::config::{is_best_root, within_some_root};
use crate::filesystem::{
    asked, create_directory_all, extends, grows, keeps, AttrsAsked, Filesystem,
    Request,
};
use crate::paths::{
    is_absolute, is_absolute_path, join, joined, path_from_segments, segments, split, PlantedPath,
    Root,
};
use crate::expression::Expression;
use crate::schema::{Binding, BindingView, DirectorySchema, SchemaNode, SchemaType};
use crate::text_util::{append_str, str_eq, strings_view};

verus! {

broadcast use {
    crate::filesystem::lemma_keeps_trans,
    crate::filesystem::lemma_keeps_step,
    crate::filesystem::lemma_step_keeps,
};

/// How deeply the walk may nest: each entry, use of a definition and symlink followed counts
pub const MAX_DEPTH: usize = 256;

/// A message naming the path it concerns
fn message(what: &str, path: &str) -> (r: String)
    ensures
        r@ == what@ + path@,
{
    let mut s = what.to_owned();
    append_str(&mut s, path);
    s
}

/// The value of an expression at `path` (within `root`) with the variables of `frames`, if it
/// has one
pub open spec fn value_in(
    e: Expression,
    frames: Seq<VariableSource>,
    root: Seq<char>,
    path: Seq<char>,
) -> Option<Seq<char>> {
    eval_spec(e@, frames, root, path, MAX_EVAL_DEPTH as nat)
}

/// The value of an expression at `at` with the variables of `stack`, if it has one
pub open spec fn value_at(e: Expression, stack: StackFrame, at: PlantedPath) -> Option<Seq<char>> {
    value_in(e, stack.frames_spec(), at.root_spec(), at.full_spec())
}

/// The name a node at `path` (within `root`) asks for, with the variables of `frames`: its
/// expression's value, mapped by `map`, or the inherited name
pub open spec fn name_asked(
    e: Option<Expression>,
    map: crate::namemap::NameMap,
    inherited: Seq<char>,
    frames: Seq<VariableSource>,
    root: Seq<char>,
    path: Seq<char>,
) -> Option<Seq<char>> {
    match e {
        Some(e) => match value_in(e, frames, root, path) {
            Some(v) => Some(map.map_spec(v)),
            None => None,
        },
        None => Some(inherited),
    }
}

/// The name a node asks for: its expression's value, mapped by `map`, or the inherited name
pub open spec fn asked_name(
    e: Option<Expression>,
    map: crate::namemap::NameMap,
    inherited: Seq<char>,
    stack: StackFrame,
    at: PlantedPath,
) -> Option<Seq<char>> {
    name_asked(e, map, inherited, stack.frames_spec(), at.root_spec(), at.full_spec())
}

/// Whether `log`, from position `since` on, asks at the root that `path` lies within (unless
/// its schema is a symbolic link) for the directory or file of the root's schema, with the
/// owner and group the schema names (evaluated with the variables of `frames` and mapped by
/// the configuration), or else `owner` and `group`, and with the schema's mode
pub open spec fn root_attrs_made(
    config: crate::config::Config,
    frames: Seq<VariableSource>,
    owner: Seq<char>,
    group: Seq<char>,
    path: Seq<char>,
    log: Seq<Request>,
    since: int,
) -> bool {
    forall|i: int| #[trigger]
        is_best_root(config.stems_spec().root_paths(), path, i) ==> {
            let rp = config.stems_spec().root_paths()[i];
            let node = config.stems_spec().cache_view()[config.stems_spec().schema_paths()[i]];
            node.symlink is None ==> requested(
                log,
                since,
                rp,
                node.schema is Directory,
                AttrsAsked {
                    owner: name_asked(node.attributes.owner, config.usermap_spec(), owner, frames, rp, rp),
                    group: name_asked(node.attributes.group, config.groupmap_spec(), group, frames, rp, rp),
                    mode: Some(asked_mode(node)),
                },
            )
        }
}

/// The mode a node asks for: its own, or the default for its type
pub open spec fn asked_mode(node: SchemaNode) -> u16 {
    match node.attributes.mode {
        Some(m) => m,
        None => match node.schema {
            SchemaType::Directory(_) => DEFAULT_DIRECTORY_MODE,
            SchemaType::File(_) => DEFAULT_FILE_MODE,
        },
    }
}

/// Whether `req` asks for a directory (`dir`) or a file at `path` with the attributes `a`, to be
/// made or set on what is there
pub open spec fn makes(req: Request, path: Seq<char>, dir: bool, a: AttrsAsked) -> bool {
    match req {
        Request::Directory { path: p, attrs } => dir && p == path && attrs == a,
        Request::File { path: p, attrs, .. } => !dir && p == path && attrs == a,
        Request::Attributes { path: p, attrs } => p == path && attrs == a,
        Request::Symlink { .. } => false,
    }
}

/// Whether some request of `log` from position `since` on asks for a directory (`dir`) or a
/// file at `path` with the attributes `a`
pub open spec fn requested(
    log: Seq<Request>,
    since: int,
    path: Seq<char>,
    dir: bool,
    a: AttrsAsked,
) -> bool {
    exists|k: int| 0 <= k && since <= k < log.len() && #[trigger] makes(log[k], path, dir, a)
}

/// Whether `log`, from position `since` on, asks for what `node` describes at `path`, with
/// the node's mode
pub open spec fn made_at(log: Seq<Request>, since: int, path: Seq<char>, node: SchemaNode) -> bool {
    exists|a: AttrsAsked|
        a.mode == Some(asked_mode(node)) && #[trigger] requested(
            log,
            since,
            path,
            node.schema is Directory,
            a,
        )
}

/// Whether some request of `log` from position `since` on asks for a symbolic link at `path`
/// to `target`
pub open spec fn link_requested(log: Seq<Request>, since: int, path: Seq<char>, target: Seq<char>) -> bool {
    exists|k: int|
        0 <= k && since <= k < log.len() && #[trigger] log[k] == (Request::Symlink { path, target })
}

/// Whether the evaluated `:match` pattern `m` and `:avoid` pattern `a` take the name `n`: the
/// whole name matches `m` (anything, where there is none) and not `a`
pub open spec fn takes(m: Option<Seq<char>>, a: Option<Seq<char>>, n: Seq<char>) -> bool {
    match (m, a) {
        (None, None) => true,
        (Some(p), None) => regex_finds(anchored(p), n),
        (_, Some(x)) => regex_finds(
            anchored(
                match m {
                    Some(p) => p,
                    None => match_all(),
                },
            ),
            n,
        ) && !regex_finds(anchored(x), n),
    }
}

/// The tokens of an optional expression
pub open spec fn opt_tokens(e: Option<Expression>) -> Option<Seq<crate::expression::TokenView>> {
    match e {
        Some(e) => Some(e@),
        None => None,
    }
}

/// Whether the patterns of `child`, evaluated with the variables of `frames` at `path` (within
/// `root`), take the name `n`
pub open spec fn patterns_take(
    child: SchemaNode,
    frames: Seq<VariableSource>,
    root: Seq<char>,
    path: Seq<char>,
    n: Seq<char>,
) -> bool {
    evaluated_patterns(
        opt_tokens(child.match_pattern),
        opt_tokens(child.avoid_pattern),
        frames,
        root,
        path,
    ) matches Some((m, a)) && takes(m, a, n)
}

/// Whether the patterns of `child`, evaluated in `scope` at `at`, take the name `n`
pub open spec fn pattern_takes(child: SchemaNode, scope: StackFrame, at: PlantedPath, n: Seq<char>) -> bool {
    patterns_take(child, scope.frames_spec(), at.root_spec(), at.full_spec(), n)
}

/// A compiled pattern takes what its evaluated patterns take
proof fn lemma_accepts_takes(p: CompiledPattern, m: Option<Seq<char>>, a: Option<Seq<char>>, n: Seq<char>)
    requires
        compiled_from(p, m, a),
    ensures
        accepts(p, n) == takes(m, a, n),
{
}

/// Whether the key `k` is a variable's and lists `n` among the names its patterns take
pub open spec fn key_takes(k: KeyView, n: Seq<char>) -> bool {
    &&& k is Dynamic
    &&& exists|c: int| 0 <= c < candidates_of(k).len() && #[trigger] candidates_of(k)[c] == (n, true)
}

/// Whether the key `k` of an entry bound to a variable (`b`), whose node is `child`, lists
/// every name of `names` that the entry's patterns take
pub open spec fn dynamic_agrees(
    b: BindingView,
    k: KeyView,
    child: SchemaNode,
    scope: StackFrame,
    at: PlantedPath,
    names: Seq<Seq<char>>,
) -> bool {
    b is Dynamic ==> {
        &&& k is Dynamic
        &&& forall|n: Seq<char>| #[trigger]
            names.contains(n) && pattern_takes(child, scope, at, n) ==> key_takes(k, n)
    }
}

/// Whether entry `i` of `entries` is bound to the variable `id` and is not a symbolic link
pub open spec fn dynamic_entry(entries: Seq<(Binding, SchemaNode)>, i: int, id: Seq<char>) -> bool {
    &&& 0 <= i < entries.len()
    &&& entries[i].0@ == BindingView::Dynamic(id)
    &&& entries[i].1.symlink is None
}

/// Whether some entry of `entries` has the fixed name `n`
pub open spec fn static_name(entries: Seq<(Binding, SchemaNode)>, n: Seq<char>) -> bool {
    exists|j: int| 0 <= j < entries.len() && #[trigger] entries[j].0@ == BindingView::Static(n)
}

/// Whether `log`, from position `since` on, asks below the directory at `path` (within `root`)
/// for what every entry bound to a variable (other than a symbolic link) describes, at every
/// name of `names` that its patterns (evaluated with the variables of `frames`) take and that
/// no fixed name of the directory has, `depth` levels down
pub open spec fn names_made(
    log: Seq<Request>,
    since: int,
    path: Seq<char>,
    entries: Seq<(Binding, SchemaNode)>,
    frames: Seq<VariableSource>,
    root: Seq<char>,
    names: Seq<Seq<char>>,
    depth: nat,
) -> bool {
    forall|i: int, id: Seq<char>, n: Seq<char>|
        #![trigger dynamic_entry(entries, i, id), names.contains(n)]
        dynamic_entry(entries, i, id) && names.contains(n) && patterns_take(
            entries[i].1,
            frames,
            root,
            path,
            n,
        ) && !static_name(entries, n) ==> tree_made(log, since, joined(path, n), entries[i].1, depth)
}

/// For a node describing a directory at `path` (within `root`), with the variables of `frames`
/// in scope above it: [`names_made`] of the directory's entries
pub open spec fn body_names_made<'g>(
    log: Seq<Request>,
    since: int,
    node: &'g SchemaNode,
    frames: Seq<VariableSource<'g>>,
    root: Seq<char>,
    path: Seq<char>,
    names: Seq<Seq<char>>,
    depth: nat,
) -> bool {
    match &node.schema {
        SchemaType::Directory(d) => names_made(
            log,
            since,
            path,
            d.entries@,
            frames.push(VariableSource::Directory(d)),
            root,
            names,
            depth,
        ),
        SchemaType::File(_) => true,
    }
}

/// Whether, where the root that `path` lies within was a directory of `before` (and its schema
/// is not a symbolic link), `log` from position `since` on asks below it for what every entry
/// of the root's schema bound to a variable describes, at every name `before` listed there that
/// its patterns take (evaluated with the variables of `frames`), `depth` levels down in all
pub open spec fn root_names_made<'g, FS: Filesystem>(
    config: crate::config::Config,
    frames: Seq<VariableSource<'g>>,
    path: Seq<char>,
    before: FS,
    log: Seq<Request>,
    since: int,
    depth: nat,
) -> bool {
    forall|i: int| #[trigger]
        is_best_root(config.stems_spec().root_paths(), path, i) ==> {
            let root = config.stems_spec().root_paths()[i];
            let node = config.stems_spec().cache_view()[config.stems_spec().schema_paths()[i]];
            node.symlink is None && before.dir_at(root) && before.listing_at(root) is Some
                ==> body_names_made(
                log,
                since,
                &node,
                frames.push(VariableSource::Empty),
                root,
                root,
                before.listing_at(root).unwrap(),
                (depth - 1) as nat,
            )
        }
}

/// What was asked for the entries bound to variables stays asked as more is asked
proof fn lemma_names_made_extends(
    a: Seq<Request>,
    b: Seq<Request>,
    m: int,
    l: int,
    path: Seq<char>,
    entries: Seq<(Binding, SchemaNode)>,
    frames: Seq<VariableSource>,
    root: Seq<char>,
    names: Seq<Seq<char>>,
    depth: nat,
)
    requires
        extends(a, b),
        l <= m,
        names_made(a, m, path, entries, frames, root, names, depth),
    ensures
        names_made(b, l, path, entries, frames, root, names, depth),
{
    assert forall|i: int, id: Seq<char>, n: Seq<char>|
        #![trigger dynamic_entry(entries, i, id), names.contains(n)]
        dynamic_entry(entries, i, id) && names.contains(n) && patterns_take(
            entries[i].1,
            frames,
            root,
            path,
            n,
        ) && !static_name(entries, n) implies tree_made(b, l, joined(path, n), entries[i].1, depth) by {
        lemma_tree_made_extends(a, b, m, l, joined(path, n), entries[i].1, depth);
    }
}

/// What was asked for the entries of a node's directory bound to variables stays asked as more
/// is asked, and was asked for fewer names
proof fn lemma_body_names_made_weaker<'g>(
    log: Seq<Request>,
    m: int,
    l: int,
    node: &'g SchemaNode,
    frames: Seq<VariableSource<'g>>,
    root: Seq<char>,
    path: Seq<char>,
    names: Seq<Seq<char>>,
    more: Seq<Seq<char>>,
    depth: nat,
)
    requires
        l <= m,
        body_names_made(log, m, node, frames, root, path, more, depth),
        forall|n: Seq<char>| #[trigger] names.contains(n) ==> more.contains(n),
    ensures
        body_names_made(log, l, node, frames, root, path, names, depth),
{
    if let SchemaType::Directory(d) = &node.schema {
        let inner = frames.push(VariableSource::Directory(d));
        lemma_names_made_extends(log, log, m, l, path, d.entries@, inner, root, more, depth);
        lemma_names_made_fewer(log, l, path, d.entries@, inner, root, names, more, depth);
    }
}

/// What was asked for every name of a list was asked for every name of a shorter one
proof fn lemma_names_made_fewer(
    log: Seq<Request>,
    since: int,
    path: Seq<char>,
    entries: Seq<(Binding, SchemaNode)>,
    frames: Seq<VariableSource>,
    root: Seq<char>,
    names: Seq<Seq<char>>,
    more: Seq<Seq<char>>,
    depth: nat,
)
    requires
        names_made(log, since, path, entries, frames, root, more, depth),
        forall|n: Seq<char>| #[trigger] names.contains(n) ==> more.contains(n),
    ensures
        names_made(log, since, path, entries, frames, root, names, depth),
{
    assert forall|i: int, id: Seq<char>, n: Seq<char>|
        #![trigger dynamic_entry(entries, i, id), names.contains(n)]
        dynamic_entry(entries, i, id) && names.contains(n) && patterns_take(
            entries[i].1,
            frames,
            root,
            path,
            n,
        ) && !static_name(entries, n) implies tree_made(log, since, joined(path, n), entries[i].1, depth) by {
        assert(more.contains(n));
    }
}

/// Whether the key of an entry bound by `b` is the entry's fixed name, where it has one
pub open spec fn key_agrees(b: BindingView, k: KeyView) -> bool {
    &&& b matches BindingView::Static(s) ==> k == KeyView::Static(s)
    &&& b is Dynamic ==> k is Dynamic
}

/// Whether entry `i` of `entries` has the fixed name `s` and is not a symbolic link
pub open spec fn static_entry(entries: Seq<(Binding, SchemaNode)>, i: int, s: Seq<char>) -> bool {
    &&& 0 <= i < entries.len()
    &&& entries[i].0@ == BindingView::Static(s)
    &&& entries[i].1.symlink is None
}

/// Whether `log`, from position `since` on, asks for what `node` describes at `path`, with
/// the node's mode, and, for a directory, for what its static entries (other than symbolic
/// links) describe below it, and so on down, `depth` levels in all
pub open spec fn tree_made(
    log: Seq<Request>,
    since: int,
    path: Seq<char>,
    node: SchemaNode,
    depth: nat,
) -> bool
    decreases depth,
{
    &&& made_at(log, since, path, node)
    &&& depth > 1 ==> (node.schema matches SchemaType::Directory(d) ==> forall|i: int, s: Seq<char>|
        #[trigger] static_entry(d.entries@, i, s) ==> tree_made(
            log,
            since,
            joined(path, s),
            d.entries@[i].1,
            (depth - 1) as nat,
        ))
}

/// Whether `log`, from position `since` on, asks below the directory at `path` for what every
/// static entry (other than a symbolic link) describes, `depth` levels down
pub open spec fn entries_made(
    log: Seq<Request>,
    since: int,
    path: Seq<char>,
    entries: Seq<(Binding, SchemaNode)>,
    depth: nat,
) -> bool {
    forall|i: int, s: Seq<char>| #[trigger]
        static_entry(entries, i, s) ==> tree_made(log, since, joined(path, s), entries[i].1, depth)
}

/// Whether `log`, from position `since` on, asks at the root that `path` lies within for what
/// the root's schema describes there and below, `depth` levels down (unless the schema is a
/// symbolic link)
pub open spec fn root_made(
    config: crate::config::Config,
    path: Seq<char>,
    log: Seq<Request>,
    since: int,
    depth: nat,
) -> bool {
    forall|i: int| #[trigger]
        is_best_root(config.stems_spec().root_paths(), path, i) ==> {
            let node = config.stems_spec().cache_view()[config.stems_spec().schema_paths()[i]];
            node.symlink is None ==> tree_made(
                log,
                since,
                config.stems_spec().root_paths()[i],
                node,
                depth,
            )
        }
}

/// Requests asked stay asked as more are asked, and were asked from any earlier position on
proof fn lemma_requested_extends(
    a: Seq<Request>,
    b: Seq<Request>,
    m: int,
    l: int,
    path: Seq<char>,
    dir: bool,
    x: AttrsAsked,
)
    requires
        extends(a, b),
        l <= m,
        requested(a, m, path, dir, x),
    ensures
        requested(b, l, path, dir, x),
{
    let k = choose|k: int| 0 <= k && m <= k < a.len() && #[trigger] makes(a[k], path, dir, x);
    assert(b[k] == a[k]);
    assert(makes(b[k], path, dir, x));
}

/// A link asked for stays asked for as more is asked
proof fn lemma_link_requested_extends(
    a: Seq<Request>,
    b: Seq<Request>,
    m: int,
    l: int,
    path: Seq<char>,
    target: Seq<char>,
)
    requires
        extends(a, b),
        l <= m,
        link_requested(a, m, path, target),
    ensures
        link_requested(b, l, path, target),
{
    let k = choose|k: int|
        0 <= k && m <= k < a.len() && #[trigger] a[k] == (Request::Symlink { path, target });
    assert(b[k] == a[k]);
}

/// What was asked for a node stays asked as more is asked
proof fn lemma_made_at_extends(
    a: Seq<Request>,
    b: Seq<Request>,
    m: int,
    l: int,
    path: Seq<char>,
    node: SchemaNode,
)
    requires
        extends(a, b),
        l <= m,
        made_at(a, m, path, node),
    ensures
        made_at(b, l, path, node),
{
    let x = choose|x: AttrsAsked|
        x.mode == Some(asked_mode(node)) && #[trigger] requested(
            a,
            m,
            path,
            node.schema is Directory,
            x,
        );
    lemma_requested_extends(a, b, m, l, path, node.schema is Directory, x);
}

/// What was asked for a tree stays asked for as more is asked
proof fn lemma_tree_made_extends(
    a: Seq<Request>,
    b: Seq<Request>,
    m: int,
    l: int,
    path: Seq<char>,
    node: SchemaNode,
    depth: nat,
)
    requires
        extends(a, b),
        l <= m,
        tree_made(a, m, path, node, depth),
    ensures
        tree_made(b, l, path, node, depth),
    decreases depth,
{
    lemma_made_at_extends(a, b, m, l, path, node);
    if depth > 1 {
        if let SchemaType::Directory(d) = node.schema {
            assert forall|i: int, s: Seq<char>| #[trigger] static_entry(d.entries@, i, s) implies tree_made(
                b,
                l,
                joined(path, s),
                d.entries@[i].1,
                (depth - 1) as nat,
            ) by {
                lemma_tree_made_extends(
                    a,
                    b,
                    m,
                    l,
                    joined(path, s),
                    d.entries@[i].1,
                    (depth - 1) as nat,
                );
            }
        }
    }
}

/// What was asked for the entries of a directory stays asked as more is asked
proof fn lemma_entries_made_extends(
    a: Seq<Request>,
    b: Seq<Request>,
    m: int,
    l: int,
    path: Seq<char>,
    entries: Seq<(Binding, SchemaNode)>,
    depth: nat,
)
    requires
        extends(a, b),
        l <= m,
        entries_made(a, m, path, entries, depth),
    ensures
        entries_made(b, l, path, entries, depth),
{
    assert forall|i: int, s: Seq<char>| #[trigger] static_entry(entries, i, s) implies tree_made(
        b,
        l,
        joined(path, s),
        entries[i].1,
        depth,
    ) by {
        lemma_tree_made_extends(a, b, m, l, joined(path, s), entries[i].1, depth);
    }
}

/// The owner and group a node asks for (evaluated and mapped, or inherited), and its mode
/// (given, or the default for its type)
fn node_attrs(node: &SchemaNode, stack: &StackFrame, at: &PlantedPath) -> (r: Result<
    SetAttrs,
    String,
>)
    requires
        at.wf(),
    ensures
        ({
            let owner = asked_name(
                node.attributes.owner,
                stack.config_spec().usermap_spec(),
                stack.owner_spec(),
                *stack,
                *at,
            );
            let group = asked_name(
                node.attributes.group,
                stack.config_spec().groupmap_spec(),
                stack.group_spec(),
                *stack,
                *at,
            );
            &&& r is Ok <==> (owner is Some && group is Some)
            &&& r matches Ok(a) ==> {
                &&& a.owner matches Some(o) && Some(o@) == owner
                &&& a.group matches Some(g) && Some(g@) == group
                &&& a.mode == Some(Mode(asked_mode(*node)))
            }
        }),
{
    let config = stack.config();
    let owner = match &node.attributes.owner {
        Some(e) => {
            let v = evaluate(e, stack, at)?;
            config.map_user(v.as_str()).to_owned()
        },
        None => stack.owner().to_owned(),
    };
    let group = match &node.attributes.group {
        Some(e) => {
            let v = evaluate(e, stack, at)?;
            config.map_group(v.as_str()).to_owned()
        },
        None => stack.group().to_owned(),
    };
    let mode = match node.attributes.mode {
        Some(m) => m,
        None => match &node.schema {
            SchemaType::Directory(_) => DEFAULT_DIRECTORY_MODE,
            SchemaType::File(_) => DEFAULT_FILE_MODE,
        },
    };
    Ok(SetAttrs { owner: Some(owner), group: Some(group), mode: Some(Mode(mode)) })
}

/// The scope below a node: the stack with the node's owner and group to inherit
fn inner_stack<'g>(stack: &StackFrame<'g>, attrs: &SetAttrs) -> (r: StackFrame<'g>)
    ensures
        r.config_spec() == stack.config_spec(),
        r.frames_spec() == stack.frames_spec().push(VariableSource::Empty),
{
    let mut inner = stack.push(VariableSource::Empty);
    if let Some(owner) = &attrs.owner {
        inner.put_owner(owner.as_str());
    }
    if let Some(group) = &attrs.group {
        inner.put_group(group.as_str());
    }
    inner
}

/// Makes sure a directory is at the path, with the given attributes
fn ensure_directory<FS: Filesystem>(fs: &mut FS, path: &str, attrs: SetAttrs) -> (r: Result<
    (),
    String,
>)
    ensures
        keeps(*old(fs), *final(fs)),
        old(fs).records() && r is Ok ==> requested(
            final(fs).requests(),
            old(fs).requests().len() as int,
            path@,
            true,
            asked(attrs),
        ),
        old(fs).described() ==> final(fs).described() && grows(*old(fs), *final(fs)),
{
    let ghost a = asked(attrs);
    let r = if fs.is_directory(path) {
        fs.set_attributes(path, attrs)
    } else {
        fs.create_directory(path, attrs)
    };
    proof {
        if old(fs).records() {
            let log = fs.requests();
            assert(makes(log[log.len() - 1], path@, true, a));
        }
    }
    r
}

/// The absolute path a symlink at `link` pointing to `target` leads to
fn link_destination(link: &str, target: &str) -> (r: String)
    ensures
        is_absolute_path(target@) ==> r@ == target@,
{
    if is_absolute(target) {
        target.to_owned()
    } else {
        let parent = match split(link) {
            Some((parent, _)) => parent,
            None => "/".to_owned(),
        };
        join(parent.as_str(), target)
    }
}

/// Applies a schema to the given absolute path: its root (the longest configured root it lies
/// within) is created if missing, and the schema is applied from there, each directory on the
/// way to the path in full, with the path's next component among the names its entries may
/// take. Nothing is ever removed, and no existing file's content changes (whatever the outcome).
/// On success, the file system was asked for the directory or file of the schema's root node at
/// the root, with the owner and group it names (or those of the stack) and its mode, and for
/// that of every node below it that is reached through fixed names and is not a symbolic link,
/// each with its mode; and, on a file system that describes its directories, for what each entry
/// of the root's schema bound to a variable describes at every name that was already in the
/// root directory and that the entry's patterns take (no fixed name of the directory having it).
pub fn traverse<FS: Filesystem>(path: &str, stack: &StackFrame, fs: &mut FS) -> (r: Result<
    (),
    String,
>)
    ensures
        keeps(*old(fs), *final(fs)),
        !is_absolute_path(path@) ==> r is Err,
        !within_some_root(stack.config_spec().stems_spec().root_paths(), path@) ==> r is Err,
        forall|i: int| #[trigger]
            is_best_root(stack.config_spec().stems_spec().root_paths(), path@, i)
                && !stack.config_spec().stems_spec().cache_view().dom().contains(
                stack.config_spec().stems_spec().schema_paths()[i],
            ) ==> r is Err,
        old(fs).records() && r is Ok ==> root_made(
            stack.config_spec(),
            path@,
            final(fs).requests(),
            old(fs).requests().len() as int,
            MAX_DEPTH as nat,
        ),
        old(fs).records() && old(fs).described() && r is Ok ==> root_names_made(
            stack.config_spec(),
            stack.frames_spec(),
            path@,
            *old(fs),
            final(fs).requests(),
            old(fs).requests().len() as int,
            MAX_DEPTH as nat,
        ),
        old(fs).records() && r is Ok ==> root_attrs_made(
            stack.config_spec(),
            stack.frames_spec(),
            stack.owner_spec(),
            stack.group_spec(),
            path@,
            final(fs).requests(),
            old(fs).requests().len() as int,
        ),
{
    let mut following: Vec<String> = Vec::new();
    traverse_within(path, stack, fs, &mut following, MAX_DEPTH)
}

/// Whether `path` is among the links being followed
fn is_followed(following: &Vec<String>, path: &str) -> (r: bool)
    ensures
        r == exists|j: int| 0 <= j < following@.len() && #[trigger] following@[j]@ == path@,
{
    let mut i: usize = 0;
    while i < following.len()
        invariant
            i <= following@.len(),
            forall|j: int| 0 <= j < i ==> #[trigger] following@[j]@ != path@,
        decreases following@.len() - i,
    {
        if str_eq(following[i].as_str(), path) {
            assert(following@[i as int]@ == path@);
            return true;
        }
        i += 1;
    }
    false
}

/// [`traverse`], nesting at most `fuel` deep, with the links being followed
fn traverse_within<'g, FS: Filesystem>(
    path: &str,
    stack: &StackFrame<'g>,
    fs: &mut FS,
    following: &mut Vec<String>,
    fuel: usize,
) -> (r: Result<(), String>)
    ensures
        keeps(*old(fs), *final(fs)),
        !is_absolute_path(path@) ==> r is Err,
        !within_some_root(stack.config_spec().stems_spec().root_paths(), path@) ==> r is Err,
        forall|i: int| #[trigger]
            is_best_root(stack.config_spec().stems_spec().root_paths(), path@, i)
                && !stack.config_spec().stems_spec().cache_view().dom().contains(
                stack.config_spec().stems_spec().schema_paths()[i],
            ) ==> r is Err,
        old(fs).records() && r is Ok ==> root_made(
            stack.config_spec(),
            path@,
            final(fs).requests(),
            old(fs).requests().len() as int,
            fuel as nat,
        ),
        old(fs).records() && old(fs).described() && r is Ok ==> root_names_made(
            stack.config_spec(),
            stack.frames_spec(),
            path@,
            *old(fs),
            final(fs).requests(),
            old(fs).requests().len() as int,
            fuel as nat,
        ),
        old(fs).records() && r is Ok ==> root_attrs_made(
            stack.config_spec(),
            stack.frames_spec(),
            stack.owner_spec(),
            stack.group_spec(),
            path@,
            final(fs).requests(),
            old(fs).requests().len() as int,
        ),
    decreases fuel, 3nat,
{
    if !is_absolute(path) {
        return Err(message("Only absolute paths can be traversed: ", path));
    }
    let config: &'g crate::config::Config = stack.config();
    let (schema, root) = config.schema_for(path)?;
    create_directory_all(fs, root.path(), SetAttrs::none())?;
    let start = PlantedPath::new(root, None)?;
    let all = segments(path);
    let root_segments = segments(root.path());
    let skip = if root_segments.len() <= all.len() {
        root_segments.len()
    } else {
        all.len()
    };
    let rest = &all.as_slice()[skip..all.len()];
    let ghost started = fs.requests().len();
    let ghost prepared = *fs;
    let r = apply_node(schema, stack, fs, &start, rest, following, fuel);
    match r {
        Err(e) => Err(e),
        Ok(true) => {
            proof {
                if old(fs).records() {
                    let c = stack.config_spec();
                    assert forall|i: int| #[trigger]
                        is_best_root(c.stems_spec().root_paths(), path@, i) implies {
                        let node = c.stems_spec().cache_view()[c.stems_spec().schema_paths()[i]];
                        node.symlink is None ==> tree_made(
                            fs.requests(),
                            old(fs).requests().len() as int,
                            c.stems_spec().root_paths()[i],
                            node,
                            fuel as nat,
                        )
                    } by {
                        assert(root@ == c.stems_spec().root_paths()[i]);
                        if schema.symlink is None {
                            lemma_tree_made_extends(
                                fs.requests(),
                                fs.requests(),
                                started as int,
                                old(fs).requests().len() as int,
                                start.full_spec(),
                                *schema,
                                fuel as nat,
                            );
                        }
                    }
                    assert forall|i: int| #[trigger]
                        is_best_root(c.stems_spec().root_paths(), path@, i) implies {
                        let rp = c.stems_spec().root_paths()[i];
                        let node = c.stems_spec().cache_view()[c.stems_spec().schema_paths()[i]];
                        node.symlink is None ==> requested(
                            fs.requests(),
                            old(fs).requests().len() as int,
                            rp,
                            node.schema is Directory,
                            AttrsAsked {
                                owner: name_asked(node.attributes.owner, c.usermap_spec(), stack.owner_spec(), stack.frames_spec(), rp, rp),
                                group: name_asked(node.attributes.group, c.groupmap_spec(), stack.group_spec(), stack.frames_spec(), rp, rp),
                                mode: Some(asked_mode(node)),
                            },
                        )
                    } by {
                        let rp = c.stems_spec().root_paths()[i];
                        assert(root@ == rp);
                        if schema.symlink is None {
                            lemma_requested_extends(
                                fs.requests(),
                                fs.requests(),
                                started as int,
                                old(fs).requests().len() as int,
                                rp,
                                schema.schema is Directory,
                                AttrsAsked {
                                    owner: asked_name(schema.attributes.owner, c.usermap_spec(), stack.owner_spec(), *stack, start),
                                    group: asked_name(schema.attributes.group, c.groupmap_spec(), stack.group_spec(), *stack, start),
                                    mode: Some(asked_mode(*schema)),
                                },
                            );
                        }
                    }
                    if old(fs).described() {
                        assert forall|i: int| #[trigger]
                            is_best_root(c.stems_spec().root_paths(), path@, i) implies {
                            let rp = c.stems_spec().root_paths()[i];
                            let node = c.stems_spec().cache_view()[c.stems_spec().schema_paths()[i]];
                            node.symlink is None && old(fs).dir_at(rp) && old(fs).listing_at(rp) is Some
                                ==> body_names_made(
                                fs.requests(),
                                old(fs).requests().len() as int,
                                &node,
                                stack.frames_spec().push(VariableSource::Empty),
                                rp,
                                rp,
                                old(fs).listing_at(rp).unwrap(),
                                (fuel - 1) as nat,
                            )
                        } by {
                            let rp = c.stems_spec().root_paths()[i];
                            assert(root@ == rp);
                            if schema.symlink is None && old(fs).dir_at(rp) && old(fs).listing_at(rp) is Some {
                                assert(prepared.dir_at(rp));
                                let before = old(fs).listing_at(rp).unwrap();
                                let during = prepared.listing_at(rp).unwrap();
                                assert forall|n: Seq<char>| #[trigger] before.contains(n) implies during.contains(n) by {
                                    assert(old(fs).listing_at(rp).unwrap().contains(n));
                                }
                                lemma_body_names_made_weaker(
                                    fs.requests(),
                                    started as int,
                                    old(fs).requests().len() as int,
                                    schema,
                                    stack.frames_spec().push(VariableSource::Empty),
                                    rp,
                                    rp,
                                    before,
                                    during,
                                    (fuel - 1) as nat,
                                );
                            }
                        }
                    }
                }
            }
            Ok(())
        },
        Ok(false) => Err(no_entry(rest, root.path())),
    }
}

/// The error of a path component that no entry takes
fn no_entry(rest: &[String], at: &str) -> (r: String)
    ensures
        r@ == "No schema entry for "@ + (if rest@.len() > 0 {
            rest@[0]@
        } else {
            Seq::empty()
        }) + " in "@ + at@,
{
    let mut msg = "No schema entry for ".to_owned();
    let ghost head = msg@;
    if rest.len() > 0 {
        append_str(&mut msg, rest[0].as_str());
    } else {
        assert(msg@ =~= head + Seq::<char>::empty());
    }
    append_str(&mut msg, " in ");
    append_str(&mut msg, at);
    msg
}

/// Applies a node at `at`, continuing down the remaining path components `rest`. For a
/// symlink, the link is made if missing; unless the link is already being followed, the far
/// end is traversed with its own schema (or, outside every root, only made); then this node's
/// attributes and children are applied at the far end. Whether the remaining components were
/// all taken (always, when there are none).
fn apply_node<'g, FS: Filesystem>(
    node: &'g SchemaNode,
    stack: &StackFrame<'g>,
    fs: &mut FS,
    at: &PlantedPath,
    rest: &[String],
    following: &mut Vec<String>,
    fuel: usize,
) -> (r: Result<bool, String>)
    requires
        at.wf(),
    ensures
        keeps(*old(fs), *final(fs)),
        fuel == 0 ==> r is Err,
        rest@.len() == 0 ==> (r matches Ok(taken) ==> taken),
        old(fs).records() && r is Ok && node.symlink is None ==> {
            &&& tree_made(
                final(fs).requests(),
                old(fs).requests().len() as int,
                at.full_spec(),
                *node,
                fuel as nat,
            )
            &&& requested(
                final(fs).requests(),
                old(fs).requests().len() as int,
                at.full_spec(),
                node.schema is Directory,
                AttrsAsked {
                    owner: asked_name(
                        node.attributes.owner,
                        stack.config_spec().usermap_spec(),
                        stack.owner_spec(),
                        *stack,
                        *at,
                    ),
                    group: asked_name(
                        node.attributes.group,
                        stack.config_spec().groupmap_spec(),
                        stack.group_spec(),
                        *stack,
                        *at,
                    ),
                    mode: Some(asked_mode(*node)),
                },
            )
        },
        old(fs).records() && r is Ok ==> (node.symlink matches Some(t) ==> (value_at(t, *stack, *at) matches Some(v) && (link_requested(
            final(fs).requests(),
            old(fs).requests().len() as int,
            at.full_spec(),
            v,
        ) || !old(fs).links_known() || old(fs).link_at(at.full_spec()) is Some))),
        old(fs).records() && old(fs).described() && r is Ok && node.symlink is None && old(
            fs,
        ).dir_at(at.full_spec()) && old(fs).listing_at(at.full_spec()) is Some ==> body_names_made(
            final(fs).requests(),
            old(fs).requests().len() as int,
            node,
            stack.frames_spec().push(VariableSource::Empty),
            at.root_spec(),
            at.full_spec(),
            old(fs).listing_at(at.full_spec()).unwrap(),
            (fuel - 1) as nat,
        ),
    decreases fuel, 2nat,
{
    if fuel == 0 {
        return Err(message("Schema nests too deeply at ", at.absolute().as_str()));
    }
    let attrs = node_attrs(node, stack, at)?;
    let inner = inner_stack(stack, &attrs);
    let ghost a = asked(attrs);
    match &node.symlink {
        None => {
            let r = apply_body(node, &inner, fs, at, attrs, rest, following, fuel);
            proof {
                if old(fs).records() && r is Ok {
                    assert(a.mode == Some(asked_mode(*node)));
                    assert(made_at(fs.requests(), old(fs).requests().len() as int, at.full_spec(), *node));
                }
            }
            r
        },
        Some(target) => {
            let here = at.absolute();
            let target = evaluate(target, stack, at)?;
            let ghost start_len = fs.requests().len();
            if !fs.is_link(here.as_str()) {
                fs.create_symlink(here.as_str(), target.as_str())?;
                proof {
                    if old(fs).records() {
                        let log = fs.requests();
                        assert(log[log.len() - 1] == (Request::Symlink {
                            path: at.full_spec(),
                            target: target@,
                        }));
                        assert(link_requested(log, start_len as int, at.full_spec(), target@));
                    }
                }
            }
            let ghost linked_state = *fs;
            let far = link_destination(here.as_str(), target.as_str());
            let config = stack.config();
            let far_at = if config.has_root_for(far.as_str()) {
                // The far end has a schema of its own, applied first
                if !is_followed(following, here.as_str()) {
                    following.push(here.clone());
                    let r = traverse_within(far.as_str(), stack, fs, following, fuel - 1);
                    following.pop();
                    r?;
                }
                let (_schema, far_root) = config.schema_for(far.as_str())?;
                PlantedPath::new(far_root, Some(far.as_str()))?
            } else {
                // Outside every root: only what leads to the far end is made
                let base = match &node.schema {
                    SchemaType::Directory(_) => Some(far.clone()),
                    SchemaType::File(_) => match split(far.as_str()) {
                        Some((parent, _)) => Some(parent),
                        None => None,
                    },
                };
                if let Some(base) = base {
                    create_directory_all(fs, base.as_str(), SetAttrs::none())?;
                }
                let top = Root::try_from_str("/")?;
                PlantedPath::new(&top, Some(far.as_str()))?
            };
            let r = apply_body(node, &inner, fs, &far_at, attrs, rest, following, fuel);
            proof {
                if old(fs).records() && link_requested(
                    linked_state.requests(),
                    start_len as int,
                    at.full_spec(),
                    target@,
                ) {
                    lemma_link_requested_extends(
                        linked_state.requests(),
                        fs.requests(),
                        start_len as int,
                        old(fs).requests().len() as int,
                        at.full_spec(),
                        target@,
                    );
                }
            }
            r
        },
    }
}

/// Makes the file or directory of a node at `at` with the given attributes; for a directory,
/// its entries and the definitions it uses are applied below it, one of them taking the next
/// of the remaining path components `rest`; whether they were all taken
fn apply_body<'g, FS: Filesystem>(
    node: &'g SchemaNode,
    stack: &StackFrame<'g>,
    fs: &mut FS,
    at: &PlantedPath,
    attrs: SetAttrs,
    rest: &[String],
    following: &mut Vec<String>,
    fuel: usize,
) -> (r: Result<bool, String>)
    requires
        at.wf(),
        fuel > 0,
    ensures
        keeps(*old(fs), *final(fs)),
        node.schema is File && rest@.len() > 0 ==> r is Err,
        rest@.len() == 0 ==> (r matches Ok(taken) ==> taken),
        old(fs).records() && r is Ok ==> {
            &&& requested(
                final(fs).requests(),
                old(fs).requests().len() as int,
                at.full_spec(),
                node.schema is Directory,
                asked(attrs),
            )
            &&& node.schema matches SchemaType::Directory(d) ==> entries_made(
                final(fs).requests(),
                old(fs).requests().len() as int,
                at.full_spec(),
                d.entries@,
                (fuel - 1) as nat,
            )
        },
        old(fs).records() && old(fs).described() && r is Ok && old(fs).dir_at(at.full_spec())
            && old(fs).listing_at(at.full_spec()) is Some ==> body_names_made(
            final(fs).requests(),
            old(fs).requests().len() as int,
            node,
            stack.frames_spec(),
            at.root_spec(),
            at.full_spec(),
            old(fs).listing_at(at.full_spec()).unwrap(),
            (fuel - 1) as nat,
        ),
    decreases fuel, 1nat,
{
    let ghost a = asked(attrs);
    let here = at.absolute();
    match &node.schema {
        SchemaType::File(f) => {
            if rest.len() > 0 {
                return Err(message("Cannot go below a file: ", here.as_str()));
            }
            let source = evaluate(&f.source, stack, at)?;
            let content = fs.read_file(source.as_str())?;
            if fs.is_file(here.as_str()) {
                fs.set_attributes(here.as_str(), attrs)?;
            } else {
                fs.create_file(here.as_str(), attrs, content)?;
            }
            proof {
                if old(fs).records() {
                    let log = fs.requests();
                    assert(makes(log[log.len() - 1], at.full_spec(), false, a));
                }
            }
            Ok(true)
        },
        SchemaType::Directory(d) => {
            ensure_directory(fs, here.as_str(), attrs)?;
            let ghost made = fs.requests();
            let ghost entered = fs.requests().len();
            let ghost ensured = *fs;
            let scope = stack.push(VariableSource::Directory(d));
            let mut taken = handle_entries(d, &scope, fs, at, rest, following, fuel)?;
            proof {
                if old(fs).records() && old(fs).described() && old(fs).dir_at(at.full_spec())
                    && old(fs).listing_at(at.full_spec()) is Some {
                    assert(ensured.dir_at(at.full_spec()));
                    let before = old(fs).listing_at(at.full_spec()).unwrap();
                    let during = ensured.listing_at(at.full_spec()).unwrap();
                    assert forall|n: Seq<char>| #[trigger] before.contains(n) implies during.contains(n) by {
                        assert(old(fs).listing_at(at.full_spec()).unwrap().contains(n));
                    }
                    lemma_names_made_fewer(
                        fs.requests(),
                        entered as int,
                        at.full_spec(),
                        d.entries@,
                        scope.frames_spec(),
                        at.root_spec(),
                        before,
                        during,
                        (fuel - 1) as nat,
                    );
                }
                if old(fs).records() {
                    lemma_requested_extends(
                        made,
                        fs.requests(),
                        old(fs).requests().len() as int,
                        old(fs).requests().len() as int,
                        at.full_spec(),
                        true,
                        a,
                    );
                }
            }
            let ghost listed = *fs;
            let mut u: usize = 0;
            while u < node.uses.len()
                invariant
                    u <= node.uses@.len(),
                    at.wf(),
                    fuel > 0,
                    keeps(*old(fs), *fs),
                    keeps(listed, *fs),
                    old(fs).records() ==> listed.records(),
                decreases node.uses@.len() - u,
            {
                let def = match scope.find_definition(&node.uses[u]) {
                    Some(def) => def,
                    None => {
                        return Err(message("No definition found for ", node.uses[u].value()));
                    },
                };
                let none: [String; 0] = [];
                let remaining: &[String] = if taken {
                    &none
                } else {
                    rest
                };
                let t = apply_node(def, &scope, fs, at, remaining, following, fuel - 1)?;
                taken = taken || t;
                u += 1;
            }
            proof {
                if old(fs).records() {
                    lemma_requested_extends(
                        listed.requests(),
                        fs.requests(),
                        old(fs).requests().len() as int,
                        old(fs).requests().len() as int,
                        at.full_spec(),
                        true,
                        a,
                    );
                    lemma_entries_made_extends(
                        listed.requests(),
                        fs.requests(),
                        entered as int,
                        old(fs).requests().len() as int,
                        at.full_spec(),
                        d.entries@,
                        (fuel - 1) as nat,
                    );
                    if old(fs).described() && old(fs).dir_at(at.full_spec()) && old(fs).listing_at(
                        at.full_spec(),
                    ) is Some {
                        lemma_names_made_extends(
                            listed.requests(),
                            fs.requests(),
                            entered as int,
                            old(fs).requests().len() as int,
                            at.full_spec(),
                            d.entries@,
                            scope.frames_spec(),
                            at.root_spec(),
                            old(fs).listing_at(at.full_spec()).unwrap(),
                            (fuel - 1) as nat,
                        );
                    }
                }
            }
            Ok(rest.len() == 0 || taken)
        },
    }
}

/// Applies the entries of a directory at `at`: static entries to their names, dynamic entries
/// to the matching names among the variable's value, what is already in the directory and
/// the next of the remaining path components `rest` (see [`plan_entries`]); whether some entry
/// took that component
fn handle_entries<'g, FS: Filesystem>(
    dir: &'g DirectorySchema,
    scope: &StackFrame<'g>,
    fs: &mut FS,
    at: &PlantedPath,
    rest: &[String],
    following: &mut Vec<String>,
    fuel: usize,
) -> (r: Result<bool, String>)
    requires
        at.wf(),
        fuel > 0,
    ensures
        keeps(*old(fs), *final(fs)),
        r matches Ok(taken) ==> (taken ==> rest@.len() > 0),
        old(fs).records() && r is Ok ==> entries_made(
            final(fs).requests(),
            old(fs).requests().len() as int,
            at.full_spec(),
            dir.entries@,
            (fuel - 1) as nat,
        ),
        old(fs).records() && old(fs).described() && r is Ok && old(fs).dir_at(at.full_spec())
            ==> names_made(
            final(fs).requests(),
            old(fs).requests().len() as int,
            at.full_spec(),
            dir.entries@,
            scope.frames_spec(),
            at.root_spec(),
            old(fs).listing_at(at.full_spec()).unwrap(),
            (fuel - 1) as nat,
        ),
    decreases fuel, 0nat,
{
    let here = at.absolute();
    let mut names = if fs.is_directory(here.as_str()) {
        fs.list_directory(here.as_str())?
    } else {
        Vec::new()
    };
    let ghost listed = strings_view(names@);
    proof {
        if old(fs).described() && old(fs).dir_at(at.full_spec()) {
            assert(listed == old(fs).listing_at(at.full_spec()).unwrap());
        }
    }
    if rest.len() > 0 {
        names.push(rest[0].clone());
    }
    let ghost names_view = strings_view(names@);
    proof {
        assert forall|n: Seq<char>| listed.contains(n) implies names_view.contains(n) by {
            let l = choose|l: int| 0 <= l < listed.len() && listed[l] == n;
            assert(names_view[l] == n);
        }
    }
    let entries = dir.entries();
    let mut keys: Vec<EntryKey> = Vec::new();
    let mut i: usize = 0;
    while i < entries.len()
        invariant
            i <= entries@.len(),
            at.wf(),
            entries@ == dir.entries@,
            keys@.len() == i,
            forall|j: int| 0 <= j < i ==> key_agrees(entries@[j].0@, #[trigger] key_views(keys@)[j]),
            names_view == strings_view(names@),
            forall|j: int|
                0 <= j < i ==> dynamic_agrees(
                    entries@[j].0@,
                    #[trigger] key_views(keys@)[j],
                    entries@[j].1,
                    *scope,
                    *at,
                    names_view,
                ),
        decreases entries@.len() - i,
    {
        let (binding, child) = (&entries[i].0, &entries[i].1);
        let ghost before = keys@;
        match binding {
            Binding::Static(s) => {
                keys.push(EntryKey::Static(s.clone()));
                proof {
                    assert forall|j: int| 0 <= j < i + 1 implies dynamic_agrees(
                        entries@[j].0@,
                        #[trigger] key_views(keys@)[j],
                        entries@[j].1,
                        *scope,
                        *at,
                        names_view,
                    ) by {
                        if j < i {
                            assert(keys@[j] == before[j]);
                            assert(key_views(keys@)[j] == keys@[j]@);
                            assert(key_views(before)[j] == before[j]@);
                        } else {
                            assert(entries@[j].0 == *binding);
                        }
                    }
                    assert forall|j: int| 0 <= j < i + 1 implies key_agrees(
                        entries@[j].0@,
                        #[trigger] key_views(keys@)[j],
                    ) by {
                        if j < i {
                            assert(keys@[j] == before[j]);
                            assert(key_views(keys@)[j] == keys@[j]@);
                            assert(key_views(before)[j] == before[j]@);
                        } else {
                            assert(key_views(keys@)[j] == keys@[j]@);
                            assert(entries@[j].0 == *binding);
                        }
                    }
                }
            },
            Binding::Dynamic(id) => {
                let pattern = CompiledPattern::compile(
                    child.match_pattern.as_ref(),
                    child.avoid_pattern.as_ref(),
                    scope,
                    at,
                )?;
                let ghost ma = evaluated_patterns(
                    opt_tokens(child.match_pattern),
                    opt_tokens(child.avoid_pattern),
                    scope.frames_spec(),
                    at.root_spec(),
                    at.full_spec(),
                );
                assert(ma matches Some((m, a)) && compiled_from(pattern, m, a));
                let mut candidates: Vec<(String, bool)> = Vec::new();
                match scope.lookup(id) {
                    Some(Value::Text(v)) => {
                        let m = pattern.matches(v.as_str());
                        candidates.push((v, m));
                    },
                    Some(Value::Expression(e)) => {
                        let v = evaluate(e, scope, at)?;
                        let m = pattern.matches(v.as_str());
                        candidates.push((v, m));
                    },
                    None => {},
                }
                let ghost base = candidates@.len();
                let mut j: usize = 0;
                while j < names.len()
                    invariant
                        j <= names@.len(),
                        names_view == strings_view(names@),
                        candidates@.len() == base + j,
                        forall|l: int|
                            0 <= l < j ==> (#[trigger] candidates@[base + l]).0@ == names_view[l]
                                && candidates@[base + l].1 == accepts(pattern, names_view[l]),
                    decreases names@.len() - j,
                {
                    let m = pattern.matches(names[j].as_str());
                    candidates.push((names[j].clone(), m));
                    j += 1;
                }
                let ghost cands = candidates@;
                let ghost idv = id@;
                keys.push(EntryKey::Dynamic { id: id.value().to_owned(), candidates });
                proof {
                    let (m, a) = ma.unwrap();
                    let kv_i = key_views(keys@)[i as int];
                    assert(kv_i == keys@[i as int]@);
                    assert(candidates_of(kv_i) == cands.map_values(|c: (String, bool)| (c.0@, c.1)));
                    assert forall|n: Seq<char>| #[trigger]
                        names_view.contains(n) && pattern_takes(*child, *scope, *at, n) implies key_takes(
                        kv_i,
                        n,
                    ) by {
                        let l = choose|l: int| 0 <= l < names_view.len() && names_view[l] == n;
                        lemma_accepts_takes(pattern, m, a, n);
                        assert(cands[base + l].0@ == names_view[l]);
                        assert(candidates_of(kv_i)[base + l] == (n, true));
                    }
                    assert forall|j: int| 0 <= j < i + 1 implies dynamic_agrees(
                        entries@[j].0@,
                        #[trigger] key_views(keys@)[j],
                        entries@[j].1,
                        *scope,
                        *at,
                        names_view,
                    ) by {
                        if j < i {
                            assert(keys@[j] == before[j]);
                            assert(key_views(keys@)[j] == keys@[j]@);
                            assert(key_views(before)[j] == before[j]@);
                        } else {
                            assert(entries@[j].0 == *binding);
                            assert(entries@[j].1 == *child);
                        }
                    }
                    assert forall|j: int| 0 <= j < i + 1 implies key_agrees(
                        entries@[j].0@,
                        #[trigger] key_views(keys@)[j],
                    ) by {
                        if j < i {
                            assert(keys@[j] == before[j]);
                            assert(key_views(keys@)[j] == keys@[j]@);
                            assert(key_views(before)[j] == before[j]@);
                        } else {
                            assert(key_views(keys@)[j] == keys@[j]@);
                            assert(entries@[j].0 == *binding);
                        }
                    }
                }
            },
        }
        i += 1;
    }
    let plan = plan_entries(keys.as_slice())?;
    let none: [String; 0] = [];
    let mut taken = false;
    let mut k: usize = 0;
    let ghost here_path = at.full_spec();
    while k < plan.len()
        invariant
            k <= plan@.len(),
            taken ==> rest@.len() > 0,
            at.wf(),
            fuel > 0,
            keeps(*old(fs), *fs),
            here_path == at.full_spec(),
            entries@ == dir.entries@,
            old(fs).records() ==> forall|j: int|
                0 <= j < k && plan@[j].0 < entries@.len() && entries@[plan@[j].0 as int].1.symlink is None
                    ==> tree_made(
                    fs.requests(),
                    old(fs).requests().len() as int,
                    #[trigger] joined(here_path, plan@[j].1@),
                    entries@[plan@[j].0 as int].1,
                    (fuel - 1) as nat,
                ),
        decreases plan@.len() - k,
    {
        let ghost log0 = fs.requests();
        let (idx, name) = (plan[k].0, &plan[k].1);
        if idx < entries.len() {
            let (binding, child) = (&entries[idx].0, &entries[idx].1);
            let child_at = at.join(name.as_str())?;
            let child_scope = match binding {
                Binding::Dynamic(id) => scope.push(VariableSource::Binding(id, name.clone())),
                Binding::Static(_) => scope.push(VariableSource::Empty),
            };
            let sought = rest.len() > 0 && str_eq(rest[0].as_str(), name.as_str());
            let remaining: &[String] = if sought {
                taken = true;
                &rest[1..rest.len()]
            } else {
                &none
            };
            let all_taken = apply_node(child, &child_scope, fs, &child_at, remaining, following, fuel - 1)?;
            if !all_taken {
                return Err(no_entry(remaining, child_at.absolute().as_str()));
            }
            proof {
                if old(fs).records() {
                    if child.symlink is None {
                        lemma_tree_made_extends(
                            fs.requests(),
                            fs.requests(),
                            log0.len() as int,
                            old(fs).requests().len() as int,
                            child_at.full_spec(),
                            *child,
                            (fuel - 1) as nat,
                        );
                    }
                    assert forall|j: int|
                        0 <= j < k + 1 && plan@[j].0 < entries@.len() && entries@[plan@[j].0 as int].1.symlink is None
                            implies tree_made(
                            fs.requests(),
                            old(fs).requests().len() as int,
                            #[trigger] joined(here_path, plan@[j].1@),
                            entries@[plan@[j].0 as int].1,
                            (fuel - 1) as nat,
                        ) by {
                        if j < k {
                            lemma_tree_made_extends(
                                log0,
                                fs.requests(),
                                old(fs).requests().len() as int,
                                old(fs).requests().len() as int,
                                joined(here_path, plan@[j].1@),
                                entries@[plan@[j].0 as int].1,
                                (fuel - 1) as nat,
                            );
                        }
                    }
                }
            }
        }
        k += 1;
    }
    proof {
        if old(fs).records() {
            let kv = key_views(keys@);
            assert forall|i: int, s: Seq<char>| #[trigger]
                static_entry(dir.entries@, i, s) implies tree_made(
                fs.requests(),
                old(fs).requests().len() as int,
                joined(at.full_spec(), s),
                dir.entries@[i].1,
                (fuel - 1) as nat,
            ) by {
                assert(key_agrees(dir.entries@[i].0@, kv[i]));
                assert(kv[i] == KeyView::Static(s));
                assert(static_at(kv, i, s));
                assert(planned(kv, i, s));
                assert(plan_has(plan_view(plan@), i, s));
                let j = choose|j: int| 0 <= j < plan_view(plan@).len() && #[trigger] plan_view(plan@)[j] == (i, s);
                assert(plan@[j].0 == i && plan@[j].1@ == s);
            }
            if old(fs).described() && old(fs).dir_at(at.full_spec()) {
                let ls = old(fs).listing_at(at.full_spec()).unwrap();
                assert(ls == listed);
                assert forall|i: int, id: Seq<char>, n: Seq<char>|
                    #![trigger dynamic_entry(dir.entries@, i, id), ls.contains(n)]
                    dynamic_entry(dir.entries@, i, id) && ls.contains(n) && pattern_takes(
                        dir.entries@[i].1,
                        *scope,
                        *at,
                        n,
                    ) && !static_name(dir.entries@, n) implies tree_made(
                    fs.requests(),
                    old(fs).requests().len() as int,
                    joined(at.full_spec(), n),
                    dir.entries@[i].1,
                    (fuel - 1) as nat,
                ) by {
                    assert(names_view.contains(n));
                    assert(dynamic_agrees(
                        dir.entries@[i].0@,
                        kv[i],
                        dir.entries@[i].1,
                        *scope,
                        *at,
                        names_view,
                    ));
                    assert(key_takes(kv[i], n));
                    assert(matches_at(kv, i, n));
                    if is_static_name(kv, n) {
                        let j = choose|j: int| #[trigger] static_at(kv, j, n);
                        assert(key_agrees(dir.entries@[j].0@, kv[j]));
                        assert(dir.entries@[j].0@ == BindingView::Static(n));
                        assert(static_name(dir.entries@, n));
                    }
                    assert(claims(kv, i, n));
                    assert(planned(kv, i, n));
                    assert(plan_has(plan_view(plan@), i, n));
                    let j = choose|j: int| 0 <= j < plan_view(plan@).len() && #[trigger] plan_view(plan@)[j] == (i, n);
                    assert(plan@[j].0 == i && plan@[j].1@ == n);
                }
            }
        }
    }
    Ok(taken)
}

} // verus!
