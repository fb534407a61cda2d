//! Schemas laid out as directory trees: each schema node is a directory whose `_.is.file`,
//! `_.is.link` or `_.is.use` entry gives its kind, whose `_.let.@*` and `_.def.@*` entries give
//! variables and definitions, whose `_.owner`, `_.group` and `_.perms` links give its
//! properties, and whose other entries are its children: a name, or `@` and a variable
//! (optionally with a `_.match` pattern), ordered by their `_.order`.
use vstd::prelude::*;

use crate::expression::{Expression, Token, TokenView};
use crate::item::{
    after_prefix, disk_views, lemma_key_pos_first, lemma_key_pos_none, link_of, name_of, put,
    DiskEntry, DiskView,
};
use crate::meta::{parse_permissions, ItemMeta, MetaError, RawItemMeta, RawPerms};
use crate::paths::{join, joined};
use crate::traversal::pattern::{anchor, anchored, regex_accepts, regex_new, CompiledRegex};
use crate::text_util::{chars_of, str_eq, string_of_range};

verus! {

/// How the names of a directory are matched against an entry of the schema
#[derive(Debug)]
pub enum Match {
    /// Match the exact name
    Fixed(String),
    /// Match the (anchored) regular expression, binding the name to a variable
    Regex { pattern: CompiledRegex, binding: String },
    /// Match any name, binding it to a variable
    Any { binding: String },
}

/// The abstract value of a [`Match`]
pub enum MatchView {
    Fixed(Seq<char>),
    Regex { pattern: Seq<char>, binding: Seq<char> },
    Any { binding: Seq<char> },
}

impl View for Match {
    type V = MatchView;

    open spec fn view(&self) -> MatchView {
        match self {
            Match::Fixed(n) => MatchView::Fixed(n@),
            Match::Regex { pattern, binding } => MatchView::Regex {
                pattern: pattern@,
                binding: binding@,
            },
            Match::Any { binding } => MatchView::Any { binding: binding@ },
        }
    }
}

impl Match {
    /// Matching the whole name against `pattern`, which must compile both as it is and
    /// anchored at both ends; the error of the regular expression library otherwise
    pub fn from_regex(pattern: &str, binding: &str) -> (r: Result<Match, String>)
        ensures
            r is Ok <==> regex_accepts(pattern@) && regex_accepts(anchored(pattern@)),
            r matches Ok(m) ==> m@ == (MatchView::Regex {
                pattern: anchored(pattern@),
                binding: binding@,
            }),
    {
        let _ = regex_new(pattern)?;
        let regex = regex_new(anchor(pattern).as_str())?;
        Ok(Match::Regex { pattern: regex, binding: binding.to_owned() })
    }
}

/// Criteria for matching against names in a directory: lower orders are tried first
#[derive(Debug)]
pub struct MatchCriteria {
    /// The place among the entries of a directory
    pub order: i16,
    /// How names are matched
    pub mode: Match,
}

impl MatchCriteria {
    /// Criteria with the given order and way of matching
    pub fn new(order: i16, mode: Match) -> (r: MatchCriteria)
        ensures
            r.order == order,
            r.mode@ == mode@,
    {
        MatchCriteria { order, mode }
    }

    /// The place among the entries of a directory
    pub fn order(&self) -> (r: i16)
        ensures
            r == self.order,
    {
        self.order
    }

    /// How names are matched
    pub fn mode(&self) -> (r: &Match)
        ensures
            r@ == self.mode@,
    {
        &self.mode
    }
}

/// A schema node
#[derive(Debug)]
pub enum Schema {
    /// A directory
    Directory(DirectorySchema),
    /// A file
    File(FileSchema),
    /// A symbolic link, with what to ensure at the far end
    Symlink(LinkSchema),
    /// A use of a definition
    Use(String),
}

/// A directory: variables, definitions, properties and entries
#[derive(Debug)]
pub struct DirectorySchema {
    /// Text replacement variables
    pub vars: Vec<(String, Expression)>,
    /// Definitions of sub-schemas
    pub defs: Vec<(String, Schema)>,
    /// Properties of this directory
    pub meta: ItemMeta,
    /// Entries to be created within this directory, by order
    pub entries: Vec<(MatchCriteria, Schema)>,
}

/// A file: properties and where its content comes from
#[derive(Debug)]
pub struct FileSchema {
    /// Properties of the file
    pub meta: ItemMeta,
    /// Path to the resource to be copied as file content
    pub source: String,
}

/// A symbolic link: its target and the schema of its far end
#[derive(Debug)]
pub struct LinkSchema {
    /// The link's target
    pub target: Expression,
    /// What to ensure at the far end
    pub far_schema: Box<Schema>,
}

/// The abstract value of item properties
pub struct MetaView {
    pub owner: Option<Seq<char>>,
    pub group: Option<Seq<char>>,
    pub permissions: Option<u16>,
}

/// The abstract value of a [`Schema`]
pub enum SchemaView {
    Directory {
        vars: Seq<(Seq<char>, Seq<TokenView>)>,
        defs: Seq<(Seq<char>, SchemaView)>,
        meta: MetaView,
        entries: Seq<((int, MatchView), SchemaView)>,
    },
    File { meta: MetaView, source: Seq<char> },
    Symlink { target: Seq<TokenView>, far: Box<SchemaView> },
    Use(Seq<char>),
}

/// The abstract value of item properties
pub open spec fn meta_view(m: ItemMeta) -> MetaView {
    MetaView {
        owner: match m.owner {
            Some(o) => Some(o@),
            None => None,
        },
        group: match m.group {
            Some(g) => Some(g@),
            None => None,
        },
        permissions: match m.permissions {
            Some(p) => Some(p.0),
            None => None,
        },
    }
}

impl Schema {
    /// The abstract value of this schema
    pub open spec fn schema_view(&self) -> SchemaView
        decreases self,
    {
        match self {
            Schema::Directory(d) => SchemaView::Directory {
                vars: vars_view(d.vars@),
                defs: defs_view(d.defs@),
                meta: meta_view(d.meta),
                entries: entries_view(d.entries@),
            },
            Schema::File(f) => SchemaView::File { meta: meta_view(f.meta), source: f.source@ },
            Schema::Symlink(l) => SchemaView::Symlink {
                target: l.target@,
                far: Box::new(l.far_schema.schema_view()),
            },
            Schema::Use(d) => SchemaView::Use(d@),
        }
    }
}

/// The abstract value of definitions by name
pub open spec fn defs_view(v: Seq<(String, Schema)>) -> Seq<(Seq<char>, SchemaView)>
    decreases v,
{
    Seq::new(
        v.len(),
        |i: int|
            if 0 <= i < v.len() {
                (v[i].0@, v[i].1.schema_view())
            } else {
                (Seq::empty(), SchemaView::Use(Seq::empty()))
            },
    )
}

/// The abstract value of entries with their criteria
pub open spec fn entries_view(v: Seq<(MatchCriteria, Schema)>) -> Seq<((int, MatchView), SchemaView)>
    decreases v,
{
    Seq::new(
        v.len(),
        |i: int|
            if 0 <= i < v.len() {
                ((v[i].0.order as int, v[i].0.mode@), v[i].1.schema_view())
            } else {
                ((0, MatchView::Fixed(Seq::empty())), SchemaView::Use(Seq::empty()))
            },
    )
}

/// The abstract value of variables by name
pub open spec fn vars_view(v: Seq<(String, Expression)>) -> Seq<(Seq<char>, Seq<TokenView>)> {
    v.map_values(|p: (String, Expression)| (p.0@, p.1@))
}

/// Why a directory tree is no schema (with the path concerned)
#[derive(Debug)]
pub enum SchemaError {
    /// An entry named by a fixed name has a `_.match` pattern
    NonVariableWithPattern(String),
    /// A schema entry that is not a directory
    NonDirectorySchemaEntry(String),
    /// The properties could not be read
    MetaError(String, MetaError),
    /// More than one of `_.is.file`, `_.is.link` and `_.is.use`
    MultipleTypeAnnotation(String),
    /// A value that could not be read (the path and the value)
    PropertyParseFailure(String, String),
    /// A `_.match` pattern that is no regular expression (with the library's error)
    RegexParseFailure(String, String),
    /// An `_.` entry that means nothing
    UnexpectedItemError(String),
    /// An entry whose value (a link target) could not be read
    IOError(String),
}

/// The abstract value of a [`SchemaError`]
pub enum SchemaErrorView {
    NonVariableWithPattern(Seq<char>),
    NonDirectorySchemaEntry(Seq<char>),
    BadPermissions(Seq<char>, Seq<char>),
    MultipleTypeAnnotation(Seq<char>),
    PropertyParseFailure(Seq<char>, Seq<char>),
    RegexParseFailure(Seq<char>),
    UnexpectedItemError(Seq<char>),
    IOError(Seq<char>),
    Other,
}

impl View for SchemaError {
    type V = SchemaErrorView;

    open spec fn view(&self) -> SchemaErrorView {
        match self {
            SchemaError::NonVariableWithPattern(p) => SchemaErrorView::NonVariableWithPattern(p@),
            SchemaError::NonDirectorySchemaEntry(p) => SchemaErrorView::NonDirectorySchemaEntry(p@),
            SchemaError::MetaError(p, MetaError::PermissionFormatError(t)) => {
                SchemaErrorView::BadPermissions(p@, t@)
            },
            SchemaError::MetaError(_, _) => SchemaErrorView::Other,
            SchemaError::MultipleTypeAnnotation(p) => SchemaErrorView::MultipleTypeAnnotation(p@),
            SchemaError::PropertyParseFailure(p, v) => SchemaErrorView::PropertyParseFailure(
                p@,
                v@,
            ),
            SchemaError::RegexParseFailure(p, _) => SchemaErrorView::RegexParseFailure(p@),
            SchemaError::UnexpectedItemError(p) => SchemaErrorView::UnexpectedItemError(p@),
            SchemaError::IOError(p) => SchemaErrorView::IOError(p@),
        }
    }
}

/// The abstract value of the outcome of reading a schema
pub open spec fn schema_result_view(r: Result<Schema, SchemaError>) -> Result<
    SchemaView,
    SchemaErrorView,
> {
    match r {
        Ok(s) => Ok(s.schema_view()),
        Err(e) => Err(e@),
    }
}

/// The position of the first entry of `ds` named `n`, if any
pub open spec fn child_named(ds: Seq<DiskView>, n: Seq<char>) -> Option<int>
    decreases ds.len(),
{
    if ds.len() == 0 {
        None
    } else {
        match child_named(ds.drop_last(), n) {
            Some(i) => Some(i),
            None => if name_of(ds.last()) == n {
                Some(ds.len() - 1)
            } else {
                None
            },
        }
    }
}

/// The entries of a directory (none for anything else)
pub open spec fn entries_of(d: DiskView) -> Seq<DiskView> {
    match d {
        DiskView::Directory { children, .. } => children,
        _ => Seq::empty(),
    }
}

/// The link target of the entry named `n` among `ds`: `None` where there is no such entry,
/// an error where it is no link
pub open spec fn linked(ds: Seq<DiskView>, n: Seq<char>, p: Seq<char>) -> Result<
    Option<Seq<char>>,
    SchemaErrorView,
> {
    match child_named(ds, n) {
        None => Ok(None),
        Some(i) => match link_of(ds[i]) {
            Some(t) => Ok(Some(t)),
            None => Err(SchemaErrorView::IOError(p)),
        },
    }
}

/// The properties of the node at `path` with entries `ds`
pub open spec fn meta_spec(path: Seq<char>, ds: Seq<DiskView>) -> Result<MetaView, SchemaErrorView> {
    match linked(ds, "_.owner"@, joined(path, "_.owner"@)) {
        Err(e) => Err(e),
        Ok(owner) => match linked(ds, "_.group"@, joined(path, "_.group"@)) {
            Err(e) => Err(e),
            Ok(group) => match linked(ds, "_.perms"@, joined(path, "_.perms"@)) {
                Err(e) => Err(e),
                Ok(None) => Ok(MetaView { owner, group, permissions: None }),
                Ok(Some(t)) => match parse_permissions(t) {
                    Some(m) => Ok(MetaView { owner, group, permissions: Some(m) }),
                    None => Err(SchemaErrorView::BadPermissions(path, t)),
                },
            },
        },
    }
}

/// The value of a decimal digit
pub open spec fn digit_value(c: char) -> int {
    c as int - '0' as int
}

/// The value of a sequence of decimal digits
pub open spec fn decimal_value(ds: Seq<char>) -> int
    decreases ds.len(),
{
    if ds.len() == 0 {
        0
    } else {
        decimal_value(ds.drop_last()) * 10 + digit_value(ds.last())
    }
}

/// Whether every character is a decimal digit
pub open spec fn all_decimal(ds: Seq<char>) -> bool {
    forall|i: int| 0 <= i < ds.len() ==> '0' <= #[trigger] ds[i] && ds[i] <= '9'
}

/// A signed 16 bit number written in decimal, with an optional leading `+` or `-`, as
/// `str::parse::<i16>` reads it
pub open spec fn parse_i16_spec(s: Seq<char>) -> Option<i16> {
    let neg = s.len() > 0 && s[0] == '-';
    let digits = if s.len() > 0 && (s[0] == '-' || s[0] == '+') {
        s.skip(1)
    } else {
        s
    };
    if digits.len() == 0 || !all_decimal(digits) {
        None
    } else {
        let v = if neg {
            -decimal_value(digits)
        } else {
            decimal_value(digits)
        };
        if i16::MIN <= v <= i16::MAX {
            Some(v as i16)
        } else {
            None
        }
    }
}

/// An expression holding the text `t` alone
pub open spec fn text_expression(t: Seq<char>) -> Seq<TokenView> {
    seq![TokenView::Text(t)]
}

/// What has been read of the entries of a directory so far
pub struct DirScan {
    pub vars: Seq<(Seq<char>, Seq<TokenView>)>,
    pub defs: Seq<(Seq<char>, SchemaView)>,
    pub entries: Seq<((int, MatchView), SchemaView)>,
}

/// The order of an entry `d` at `p`: its `_.order` link read as a number, 0 if it has none
pub open spec fn order_spec(d: DiskView, p: Seq<char>) -> Result<int, SchemaErrorView> {
    let op = joined(p, "_.order"@);
    match linked(entries_of(d), "_.order"@, op) {
        Err(e) => Err(e),
        Ok(None) => Ok(0),
        Ok(Some(t)) => match parse_i16_spec(t) {
            Some(o) => Ok(o as int),
            None => Err(SchemaErrorView::PropertyParseFailure(op, t)),
        },
    }
}

/// How the entry `d` at `p`, in the directory at `path`, matches names
pub open spec fn mode_spec(path: Seq<char>, d: DiskView, p: Seq<char>) -> Result<
    MatchView,
    SchemaErrorView,
> {
    let n = name_of(d);
    let mp = joined(p, "_.match"@);
    let pattern = child_named(entries_of(d), "_.match"@) is Some;
    match after_prefix(n, "@"@) {
        Some(b) => if !pattern {
            Ok(MatchView::Any { binding: b })
        } else {
            match linked(entries_of(d), "_.match"@, mp) {
                Err(e) => Err(e),
                Ok(None) => Err(SchemaErrorView::Other),
                Ok(Some(t)) => if regex_accepts(t) && regex_accepts(anchored(t)) {
                    Ok(MatchView::Regex { pattern: anchored(t), binding: b })
                } else {
                    Err(SchemaErrorView::RegexParseFailure(path))
                },
            }
        },
        None => if !pattern {
            Ok(MatchView::Fixed(n))
        } else {
            Err(SchemaErrorView::NonVariableWithPattern(path))
        },
    }
}

/// Whether `n` is one of the `_.` entries that the directory's own reading handles
pub open spec fn handled_elsewhere(n: Seq<char>) -> bool {
    ||| n == "_.is.file"@
    ||| n == "_.is.link"@
    ||| n == "_.is.use"@
    ||| n == "_.owner"@
    ||| n == "_.group"@
    ||| n == "_.perms"@
    ||| n == "_.match"@
    ||| n == "_.order"@
}

/// Reading one more entry `d` of the directory at `path`
pub open spec fn dir_step(path: Seq<char>, st: DirScan, d: DiskView) -> Result<DirScan, SchemaErrorView>
    decreases d, 1int,
{
    let n = name_of(d);
    let p = joined(path, n);
    if after_prefix(n, "_."@) is Some {
        if after_prefix(n, "_.let.@"@) is Some {
            match link_of(d) {
                None => Err(SchemaErrorView::IOError(p)),
                Some(t) => Ok(
                    DirScan {
                        vars: put(st.vars, after_prefix(n, "_.let.@"@).unwrap(), text_expression(t)),
                        ..st
                    },
                ),
            }
        } else if after_prefix(n, "_.def.@"@) is Some {
            match schema_spec(p, d) {
                Err(e) => Err(e),
                Ok(s) => Ok(DirScan { defs: put(st.defs, after_prefix(n, "_.def.@"@).unwrap(), s), ..st }),
            }
        } else if handled_elsewhere(n) {
            Ok(st)
        } else {
            Err(SchemaErrorView::UnexpectedItemError(p))
        }
    } else {
        match order_spec(d, p) {
            Err(e) => Err(e),
            Ok(o) => match mode_spec(path, d, p) {
                Err(e) => Err(e),
                Ok(m) => match schema_spec(p, d) {
                    Err(e) => Err(e),
                    Ok(s) => Ok(DirScan { entries: st.entries.push(((o, m), s)), ..st }),
                },
            },
        }
    }
}

/// Reading the entries `ds` of the directory at `path`, one after another
pub open spec fn dir_scan(path: Seq<char>, ds: Seq<DiskView>) -> Result<DirScan, SchemaErrorView>
    decreases ds, 1int,
{
    if ds.len() == 0 {
        Ok(DirScan { vars: Seq::empty(), defs: Seq::empty(), entries: Seq::empty() })
    } else {
        match dir_scan(path, ds.drop_last()) {
            Err(e) => Err(e),
            Ok(st) => dir_step(path, st, ds.last()),
        }
    }
}

/// The position at which an entry of order `o` goes among entries ordered by order: after
/// every entry whose order is not greater
pub open spec fn insert_pos<X>(s: Seq<((int, MatchView), X)>, o: int) -> int
    decreases s.len(),
{
    if s.len() == 0 {
        0
    } else if s[0].0.0 > o {
        0
    } else {
        1 + insert_pos(s.drop_first(), o)
    }
}

/// Entries ordered by their order, those of equal order as they were given
pub open spec fn by_order<X>(s: Seq<((int, MatchView), X)>) -> Seq<((int, MatchView), X)>
    decreases s.len(),
{
    if s.len() == 0 {
        s
    } else {
        let rest = by_order(s.drop_last());
        rest.insert(insert_pos(rest, s.last().0.0), s.last())
    }
}

/// The directory with entries `ds` at `path`: its properties, then its entries in order
pub open spec fn dir_spec(path: Seq<char>, ds: Seq<DiskView>) -> Result<SchemaView, SchemaErrorView>
    decreases ds, 2int,
{
    match meta_spec(path, ds) {
        Err(e) => Err(e),
        Ok(meta) => match dir_scan(path, ds) {
            Err(e) => Err(e),
            Ok(st) => Ok(
                SchemaView::Directory {
                    vars: st.vars,
                    defs: st.defs,
                    meta,
                    entries: by_order(st.entries),
                },
            ),
        },
    }
}

/// The schema that the entry `d` at `path` describes
pub open spec fn schema_spec(path: Seq<char>, d: DiskView) -> Result<SchemaView, SchemaErrorView>
    decreases d, 0int,
{
    match d {
        DiskView::Directory { children, .. } => {
            let f = child_named(children, "_.is.file"@) is Some;
            let l = child_named(children, "_.is.link"@) is Some;
            let u = child_named(children, "_.is.use"@) is Some;
            if (f && l) || (f && u) || (l && u) {
                Err(SchemaErrorView::MultipleTypeAnnotation(path))
            } else if f {
                match meta_spec(path, children) {
                    Err(e) => Err(e),
                    Ok(meta) => Ok(SchemaView::File { meta, source: joined(path, "_.is.file"@) }),
                }
            } else if l {
                match linked(children, "_.is.link"@, joined(path, "_.is.link"@)) {
                    Err(e) => Err(e),
                    Ok(None) => Err(SchemaErrorView::Other),
                    Ok(Some(t)) => match dir_spec(path, children) {
                        Err(e) => Err(e),
                        Ok(far) => Ok(SchemaView::Symlink { target: text_expression(t), far: Box::new(far) }),
                    },
                }
            } else if u {
                let ip = joined(path, "_.is.use"@);
                match linked(children, "_.is.use"@, ip) {
                    Err(e) => Err(e),
                    Ok(None) => Err(SchemaErrorView::Other),
                    Ok(Some(v)) => match after_prefix(v, "@"@) {
                        Some(x) => Ok(SchemaView::Use(x)),
                        None => Err(SchemaErrorView::PropertyParseFailure(ip, v)),
                    },
                }
            } else {
                dir_spec(path, children)
            }
        },
        _ => Err(SchemaErrorView::NonDirectorySchemaEntry(path)),
    }
}

/// Whether an entry whose link target becomes an expression (a `_.let.@*` variable or an
/// `_.is.link` target) holds no `$`
pub open spec fn plain_reading(c: DiskView) -> bool {
    match c {
        DiskView::Link { name, target } => (after_prefix(name, "_.let.@"@) is Some || name
            == "_.is.link"@) ==> !target.contains('$'),
        _ => true,
    }
}

/// Whether no text that becomes an expression (a variable's value or a link's target) holds
/// a `$`, anywhere in the tree
pub open spec fn dollar_free(d: DiskView) -> bool
    decreases d,
{
    match d {
        DiskView::Directory { children, .. } => forall|i: int|
            0 <= i < children.len() ==> {
                &&& plain_reading(#[trigger] children[i])
                &&& dollar_free(children[i])
            },
        _ => true,
    }
}

/// The position of the first entry of `v` named `n`, if any
fn child_index(v: &Vec<DiskEntry>, n: &str) -> (r: Option<usize>)
    ensures
        match child_named(disk_views(v@), n@) {
            None => r is None,
            Some(i) => r matches Some(j) && j as int == i,
        },
        r matches Some(i) ==> i < v@.len(),
        child_named(disk_views(v@), n@) matches Some(i) ==> 0 <= i < v@.len(),
{
    let ghost ds = disk_views(v@);
    let mut j: usize = 0;
    while j < v.len()
        invariant
            j <= v@.len(),
            ds == disk_views(v@),
            forall|l: int| 0 <= l < j ==> name_of(#[trigger] ds[l]) != n@,
        decreases v@.len() - j,
    {
        if str_eq(v[j].name(), n) {
            proof {
                lemma_child_named_first(ds, n@, j as int);
            }
            return Some(j);
        }
        j += 1;
    }
    proof {
        lemma_child_named_none(ds, n@);
    }
    None
}

/// The first entry named `n` is at `j`
proof fn lemma_child_named_first(ds: Seq<DiskView>, n: Seq<char>, j: int)
    requires
        0 <= j < ds.len(),
        name_of(ds[j]) == n,
        forall|l: int| 0 <= l < j ==> name_of(#[trigger] ds[l]) != n,
    ensures
        child_named(ds, n) == Some(j),
    decreases ds.len(),
{
    let d = ds.drop_last();
    if j == ds.len() - 1 {
        assert forall|l: int| 0 <= l < d.len() implies name_of(#[trigger] d[l]) != n by {
            assert(d[l] == ds[l]);
        }
        lemma_child_named_none(d, n);
    } else {
        assert forall|l: int| 0 <= l < j implies name_of(#[trigger] d[l]) != n by {
            assert(d[l] == ds[l]);
        }
        assert(d[j] == ds[j]);
        lemma_child_named_first(d, n, j);
    }
}

/// No entry is named `n`
proof fn lemma_child_named_none(ds: Seq<DiskView>, n: Seq<char>)
    requires
        forall|l: int| 0 <= l < ds.len() ==> name_of(#[trigger] ds[l]) != n,
    ensures
        child_named(ds, n) is None,
    decreases ds.len(),
{
    if ds.len() > 0 {
        let d = ds.drop_last();
        assert forall|l: int| 0 <= l < d.len() implies name_of(#[trigger] d[l]) != n by {
            assert(d[l] == ds[l]);
        }
        lemma_child_named_none(d, n);
        assert(name_of(ds[ds.len() - 1]) != n);
    }
}

/// The link target of the entry named `n` among `v` (see [`linked`])
fn linked_exec(v: &Vec<DiskEntry>, n: &str, p: &str) -> (r: Result<Option<String>, SchemaError>)
    ensures
        match linked(disk_views(v@), n@, p@) {
            Ok(None) => r matches Ok(None),
            Ok(Some(t)) => r matches Ok(Some(s)) && s@ == t,
            Err(x) => r matches Err(y) && y@ == x,
        },
{
    match child_index(v, n) {
        None => Ok(None),
        Some(i) => {
            assert(disk_views(v@)[i as int] == v@[i as int].disk_view());
            assert(child_named(disk_views(v@), n@) == Some(i as int));
            match &v[i] {
                DiskEntry::Link { target, .. } => {
                    assert(link_of(disk_views(v@)[i as int]) == Some(target@));
                    Ok(Some(target.clone()))
                },
                _ => {
                    assert(link_of(disk_views(v@)[i as int]) is None);
                    Err(SchemaError::IOError(p.to_owned()))
                },
            }
        },
    }
}

/// The properties of the node at `path` with entries `v` (see [`meta_spec`])
fn meta_exec(path: &str, v: &Vec<DiskEntry>) -> (r: Result<ItemMeta, SchemaError>)
    ensures
        match meta_spec(path@, disk_views(v@)) {
            Ok(m) => r matches Ok(x) && meta_view(x) == m,
            Err(x) => r matches Err(y) && y@ == x,
        },
{
    let owner = linked_exec(v, "_.owner", join(path, "_.owner").as_str())?;
    let group = linked_exec(v, "_.group", join(path, "_.group").as_str())?;
    let perms = linked_exec(v, "_.perms", join(path, "_.perms").as_str())?;
    let raw = RawItemMeta {
        owner,
        group,
        permissions: match perms {
            Some(p) => Some(RawPerms(p)),
            None => None,
        },
    };
    match ItemMeta::try_from_raw(raw) {
        Ok(m) => Ok(m),
        Err(e) => Err(SchemaError::MetaError(path.to_owned(), e)),
    }
}

/// Decimal values only grow as digits are appended
proof fn lemma_decimal_value_grows(ds: Seq<char>, n: int)
    requires
        0 <= n <= ds.len(),
        all_decimal(ds),
    ensures
        decimal_value(ds.take(n)) <= decimal_value(ds),
        decimal_value(ds) >= 0,
    decreases ds.len(),
{
    if ds.len() > 0 {
        if n == ds.len() {
            assert(ds.take(n) =~= ds);
        }
        let d = ds.drop_last();
        assert forall|i: int| 0 <= i < d.len() implies '0' <= #[trigger] d[i] && d[i] <= '9' by {
            assert(d[i] == ds[i]);
        }
        if n < ds.len() {
            assert(d.take(n) =~= ds.take(n));
            lemma_decimal_value_grows(d, n);
        } else {
            lemma_decimal_value_grows(d, 0);
        }
        assert('0' <= ds[ds.len() - 1] && ds[ds.len() - 1] <= '9');
    } else {
        assert(ds.take(n) =~= ds);
    }
}

/// Reads a signed 16 bit number written in decimal (see [`parse_i16_spec`])
pub fn parse_i16(s: &str) -> (r: Option<i16>)
    ensures
        r == parse_i16_spec(s@),
{
    let cs = chars_of(s);
    let neg = cs.len() > 0 && cs[0] == '-';
    let start: usize = if cs.len() > 0 && (cs[0] == '-' || cs[0] == '+') {
        1
    } else {
        0
    };
    let ghost digits = cs@.skip(start as int);
    assert(digits == (if s@.len() > 0 && (s@[0] == '-' || s@[0] == '+') {
        s@.skip(1)
    } else {
        s@
    }));
    if start == cs.len() {
        return None;
    }
    // every character must be a digit
    let mut i: usize = start;
    while i < cs.len()
        invariant
            start <= i <= cs@.len(),
            digits == cs@.skip(start as int),
            digits == (if s@.len() > 0 && (s@[0] == '-' || s@[0] == '+') {
                s@.skip(1)
            } else {
                s@
            }),
            digits.len() > 0,
            neg == (s@.len() > 0 && s@[0] == '-'),
            forall|l: int| 0 <= l < i - start ==> '0' <= #[trigger] digits[l] && digits[l] <= '9',
        decreases cs@.len() - i,
    {
        let c = cs[i];
        assert(digits[i - start] == c);
        if !('0' <= c && c <= '9') {
            assert(!all_decimal(digits));
            return None;
        }
        i += 1;
    }
    assert(all_decimal(digits));
    let mut v: i32 = 0;
    let mut i: usize = start;
    while i < cs.len()
        invariant
            start <= i <= cs@.len(),
            digits == cs@.skip(start as int),
            digits == (if s@.len() > 0 && (s@[0] == '-' || s@[0] == '+') {
                s@.skip(1)
            } else {
                s@
            }),
            digits.len() > 0,
            neg == (s@.len() > 0 && s@[0] == '-'),
            all_decimal(digits),
            v == decimal_value(digits.take(i - start)),
            0 <= v <= 32768,
        decreases cs@.len() - i,
    {
        let c = cs[i];
        assert(digits[i - start] == c);
        let ghost prev = digits.take(i - start);
        let ghost next = digits.take(i - start + 1);
        assert(next.drop_last() =~= prev);
        assert(next.last() == c);
        let d: i32 = (c as u32 - '0' as u32) as i32;
        let w: i32 = v * 10 + d;
        assert(d as int == digit_value(c));
        assert(decimal_value(next) == w as int);
        if w > 32768 {
            proof {
                lemma_decimal_value_grows(digits, i - start + 1);
            }
            return None;
        }
        v = w;
        i += 1;
    }
    assert(digits.take(i - start) =~= digits);
    if neg {
        Some((-v) as i16)
    } else {
        if v > 32767 {
            return None;
        }
        Some(v as i16)
    }
}

/// The order of the entry `e` at `p` (see [`order_spec`])
fn order_exec(e: &DiskEntry, p: &str) -> (r: Result<i16, SchemaError>)
    ensures
        match order_spec(e.disk_view(), p@) {
            Ok(o) => r matches Ok(x) && x as int == o,
            Err(x) => r matches Err(y) && y@ == x,
        },
{
    let op = join(p, "_.order");
    let t = match e {
        DiskEntry::Directory { children, .. } => linked_exec(children, "_.order", op.as_str())?,
        _ => {
            assert(entries_of(e.disk_view()) =~= Seq::<DiskView>::empty());
            assert(child_named(Seq::<DiskView>::empty(), "_.order"@) is None);
            None
        },
    };
    match t {
        None => Ok(0),
        Some(t) => match parse_i16(t.as_str()) {
            Some(o) => Ok(o),
            None => Err(SchemaError::PropertyParseFailure(op, t)),
        },
    }
}

/// How the entry `e` at `p`, in the directory at `path`, matches names (see [`mode_spec`])
fn mode_exec(path: &str, e: &DiskEntry, p: &str) -> (r: Result<Match, SchemaError>)
    ensures
        match mode_spec(path@, e.disk_view(), p@) {
            Ok(m) => r matches Ok(x) && x@ == m,
            Err(x) => r matches Err(y) && y@ == x,
        },
{
    let mp = join(p, "_.match");
    let no_children: Vec<DiskEntry> = Vec::new();
    let kids: &Vec<DiskEntry> = match e {
        DiskEntry::Directory { children, .. } => children,
        _ => &no_children,
    };
    assert(disk_views(kids@) =~= entries_of(e.disk_view()));
    let pattern = child_index(kids, "_.match").is_some();
    let n = e.name();
    match strip_at(n) {
        Some(b) => if !pattern {
            Ok(Match::Any { binding: b })
        } else {
            match linked_exec(kids, "_.match", mp.as_str())? {
                None => Err(SchemaError::IOError(mp)),
                Some(t) => match Match::from_regex(t.as_str(), b.as_str()) {
                    Ok(m) => Ok(m),
                    Err(x) => Err(SchemaError::RegexParseFailure(path.to_owned(), x)),
                },
            }
        },
        None => if !pattern {
            Ok(Match::Fixed(n.to_owned()))
        } else {
            Err(SchemaError::NonVariableWithPattern(path.to_owned()))
        },
    }
}

/// `s` without a leading `@`, if it has one
fn strip_at(s: &str) -> (r: Option<String>)
    ensures
        match after_prefix(s@, "@"@) {
            Some(b) => r matches Some(x) && x@ == b,
            None => r is None,
        },
{
    proof {
        reveal_strlit("@");
    }
    let cs = chars_of(s);
    if cs.len() > 0 && cs[0] == '@' {
        assert(cs@.take(1) =~= "@"@);
        let r = string_of_range(cs.as_slice(), 1, cs.len());
        assert(r@ =~= s@.skip(1));
        Some(r)
    } else {
        assert(!("@"@.len() <= s@.len() && s@.take(1) == "@"@)) by {
            if "@"@.len() <= s@.len() && s@.take(1) == "@"@ {
                assert(s@.take(1)[0] == '@');
            }
        }
        None
    }
}

/// The entry of order `o` goes at `j`
proof fn lemma_insert_pos<X>(s: Seq<((int, MatchView), X)>, o: int, j: int)
    requires
        0 <= j <= s.len(),
        forall|l: int| 0 <= l < j ==> (#[trigger] s[l]).0.0 <= o,
        j < s.len() ==> s[j].0.0 > o,
    ensures
        insert_pos(s, o) == j,
    decreases j,
{
    if j > 0 {
        let d = s.drop_first();
        assert(s[0].0.0 <= o);
        assert forall|l: int| 0 <= l < j - 1 implies (#[trigger] d[l]).0.0 <= o by {
            assert(d[l] == s[l + 1]);
        }
        if j < s.len() {
            assert(d[j - 1] == s[j]);
        }
        lemma_insert_pos(d, o, j - 1);
    }
}

impl DirectorySchema {
    /// The variables
    pub fn vars(&self) -> (r: &Vec<(String, Expression)>)
        ensures
            r == &self.vars,
    {
        &self.vars
    }

    /// The definitions
    pub fn defs(&self) -> (r: &Vec<(String, Schema)>)
        ensures
            r == &self.defs,
    {
        &self.defs
    }

    /// The properties
    pub fn meta(&self) -> (r: &ItemMeta)
        ensures
            r == &self.meta,
    {
        &self.meta
    }

    /// The entries, by order
    pub fn entries(&self) -> (r: &Vec<(MatchCriteria, Schema)>)
        ensures
            r == &self.entries,
    {
        &self.entries
    }

    /// Whether applying the directory would do nothing more than make it: no entries and no
    /// properties
    pub fn is_no_op(&self) -> (r: bool)
        ensures
            r == (self.entries@.len() == 0 && self.meta.owner is None && self.meta.group is None
                && self.meta.permissions is None),
    {
        self.entries.len() == 0 && self.meta.owner.is_none() && self.meta.group.is_none()
            && self.meta.permissions.is_none()
    }
}

impl FileSchema {
    /// A file with the given properties and source
    pub fn new(meta: ItemMeta, source: String) -> (r: FileSchema)
        ensures
            r.meta == meta,
            r.source == source,
    {
        FileSchema { meta, source }
    }

    /// The properties
    pub fn meta(&self) -> (r: &ItemMeta)
        ensures
            r == &self.meta,
    {
        &self.meta
    }

    /// Where the content comes from
    pub fn source(&self) -> (r: &String)
        ensures
            r == &self.source,
    {
        &self.source
    }
}

impl LinkSchema {
    /// A link to `target`, with what to ensure at the far end
    pub fn new(target: Expression, far_schema: Schema) -> (r: LinkSchema)
        ensures
            r.target == target,
            *r.far_schema == far_schema,
    {
        LinkSchema { target, far_schema: Box::new(far_schema) }
    }

    /// The target
    pub fn target(&self) -> (r: &Expression)
        ensures
            r == &self.target,
    {
        &self.target
    }

    /// What to ensure at the far end
    pub fn far_schema(&self) -> (r: &Schema)
        ensures
            *r == *self.far_schema,
    {
        &self.far_schema
    }
}

/// Entries ordered by their order, those of equal order as they were given (see [`by_order`])
pub fn sort_by_order(entries: Vec<(MatchCriteria, Schema)>) -> (r: Vec<(MatchCriteria, Schema)>)
    ensures
        entries_view(r@) == by_order(entries_view(entries@)),
{
    let ghost given = entries_view(entries@);
    let mut input = entries;
    let mut out: Vec<(MatchCriteria, Schema)> = Vec::new();
    let ghost mut k: int = 0;
    proof {
        assert(given.take(0) =~= Seq::<((int, MatchView), SchemaView)>::empty());
        assert(entries_view(out@) =~= Seq::<((int, MatchView), SchemaView)>::empty());
        assert(entries_view(input@) =~= given.skip(0));
    }
    while input.len() > 0
        invariant
            0 <= k <= given.len(),
            entries_view(input@) =~= given.skip(k),
            entries_view(out@) == by_order(given.take(k)),
        decreases input@.len(),
    {
        let ghost before_in = input@;
        let x = input.remove(0);
        let ghost xv = ((x.0.order as int, x.0.mode@), x.1.schema_view());
        proof {
            assert(entries_view(before_in).len() == before_in.len());
            assert(input@.len() == before_in.len() - 1);
            assert(k < given.len());
            assert(x == before_in[0]);
            assert(entries_view(before_in)[0] == xv);
            assert(given.skip(k)[0] == given[k]);
            assert(xv == given[k]);
            assert forall|l: int| 0 <= l < input@.len() implies #[trigger] entries_view(input@)[l]
                == given.skip(k + 1)[l] by {
                assert(input@[l] == before_in[l + 1]);
                assert(entries_view(before_in)[l + 1] == given.skip(k)[l + 1]);
                assert(entries_view(input@)[l] == entries_view(before_in)[l + 1]);
            }
            assert(entries_view(input@) =~= given.skip(k + 1));
        }
        let ghost cur = entries_view(out@);
        let mut j: usize = 0;
        while j < out.len() && out[j].0.order <= x.0.order
            invariant
                j <= out@.len(),
                cur == entries_view(out@),
                forall|l: int| 0 <= l < j ==> (#[trigger] cur[l]).0.0 <= xv.0.0,
                xv.0.0 == x.0.order as int,
            decreases out@.len() - j,
        {
            assert(cur[j as int].0.0 == out@[j as int].0.order as int);
            j += 1;
        }
        proof {
            if j < out@.len() {
                assert(cur[j as int].0.0 == out@[j as int].0.order as int);
            }
        }
        proof {
            lemma_insert_pos(cur, xv.0.0, j as int);
            let t = given.take(k + 1);
            assert(t.drop_last() =~= given.take(k));
            assert(t.last() == xv);
        }
        out.insert(j, x);
        proof {
            assert(entries_view(out@) =~= cur.insert(j as int, xv));
            k = k + 1;
        }
    }
    proof {
        assert(given.take(k) =~= given);
    }
    out
}

/// Gives `k` the value `x` among the variables `v`
fn put_var(v: &mut Vec<(String, Expression)>, k: String, x: Expression)
    ensures
        vars_view(final(v)@) == put(vars_view(old(v)@), k@, x@),
{
    let ghost before = vars_view(v@);
    let mut j: usize = 0;
    while j < v.len()
        invariant
            j <= v@.len(),
            v@ == old(v)@,
            before == vars_view(v@),
            forall|l: int| 0 <= l < j ==> (#[trigger] before[l]).0 != k@,
        decreases v@.len() - j,
    {
        if str_eq(v[j].0.as_str(), k.as_str()) {
            proof {
                lemma_key_pos_first(before, k@, j as int);
            }
            let ghost xv = x@;
            v.set(j, (k, x));
            assert(vars_view(v@) =~= before.update(j as int, (k@, xv)));
            return;
        }
        assert(before[j as int].0 != k@);
        j += 1;
    }
    proof {
        lemma_key_pos_none(before, k@);
    }
    let ghost kv = k@;
    let ghost xv = x@;
    v.push((k, x));
    assert(vars_view(v@) =~= before.push((kv, xv)));
}

/// Gives `k` the definition `x` among the definitions `v`
fn put_def(v: &mut Vec<(String, Schema)>, k: String, x: Schema)
    ensures
        defs_view(final(v)@) == put(defs_view(old(v)@), k@, x.schema_view()),
{
    let ghost before = defs_view(v@);
    let mut j: usize = 0;
    while j < v.len()
        invariant
            j <= v@.len(),
            v@ == old(v)@,
            before == defs_view(v@),
            forall|l: int| 0 <= l < j ==> (#[trigger] before[l]).0 != k@,
        decreases v@.len() - j,
    {
        if str_eq(v[j].0.as_str(), k.as_str()) {
            proof {
                lemma_key_pos_first(before, k@, j as int);
            }
            let ghost xv = x.schema_view();
            v.set(j, (k, x));
            assert(defs_view(v@) =~= before.update(j as int, (k@, xv)));
            return;
        }
        assert(before[j as int].0 != k@);
        j += 1;
    }
    proof {
        lemma_key_pos_none(before, k@);
    }
    let ghost kv = k@;
    let ghost xv = x.schema_view();
    v.push((k, x));
    assert(defs_view(v@) =~= before.push((kv, xv)));
}

/// An expression holding the text `t` alone
fn text_expr(t: String) -> (r: Expression)
    ensures
        r@ == text_expression(t@),
{
    let r = Expression::new(vec![Token::Text(t)]);
    assert(r@ =~= text_expression(t@));
    r
}

/// Once reading a directory's entries fails, reading more of them fails the same way
proof fn lemma_dir_scan_err(path: Seq<char>, ds: Seq<DiskView>, k: int)
    requires
        0 <= k <= ds.len(),
        dir_scan(path, ds.take(k)) is Err,
    ensures
        dir_scan(path, ds) == dir_scan(path, ds.take(k)),
    decreases ds.len(),
{
    if ds.len() == k {
        assert(ds.take(k) =~= ds);
    } else {
        let d = ds.drop_last();
        assert(d.take(k) =~= ds.take(k));
        lemma_dir_scan_err(path, d, k);
    }
}

impl DirectorySchema {
    /// A directory with the given variables, definitions, properties and entries, the
    /// entries ordered by their order (those of equal order as given)
    pub fn new(
        vars: Vec<(String, Expression)>,
        defs: Vec<(String, Schema)>,
        meta: ItemMeta,
        entries: Vec<(MatchCriteria, Schema)>,
    ) -> (r: DirectorySchema)
        ensures
            vars_view(r.vars@) == vars_view(vars@),
            defs_view(r.defs@) == defs_view(defs@),
            r.meta == meta,
            entries_view(r.entries@) == by_order(entries_view(entries@)),
    {
        let entries = sort_by_order(entries);
        DirectorySchema { vars, defs, meta, entries }
    }
}

/// The directory with entries `v` at `path` (see [`dir_spec`])
fn dir_from_entries(path: &str, v: &Vec<DiskEntry>) -> (r: Result<DirectorySchema, SchemaError>)
    requires
        forall|i: int|
            0 <= i < disk_views(v@).len() ==> plain_reading(#[trigger] disk_views(v@)[i])
                && dollar_free(disk_views(v@)[i]),
    ensures
        match dir_spec(path@, disk_views(v@)) {
            Ok(s) => r matches Ok(d) && Schema::Directory(d).schema_view() == s,
            Err(x) => r matches Err(y) && y@ == x,
        },
    decreases disk_views(v@), 2int,
{
    let ghost ds = disk_views(v@);
    let meta = meta_exec(path, v)?;
    let mut vars: Vec<(String, Expression)> = Vec::new();
    let mut defs: Vec<(String, Schema)> = Vec::new();
    let mut entries: Vec<(MatchCriteria, Schema)> = Vec::new();
    proof {
        assert(vars_view(vars@) =~= Seq::<(Seq<char>, Seq<TokenView>)>::empty());
        assert(defs_view(defs@) =~= Seq::<(Seq<char>, SchemaView)>::empty());
        assert(entries_view(entries@) =~= Seq::<((int, MatchView), SchemaView)>::empty());
        assert(ds.take(0) =~= Seq::<DiskView>::empty());
    }
    let mut k: usize = 0;
    while k < v.len()
        invariant
            k <= v@.len(),
            ds == disk_views(v@),
            forall|i: int|
                0 <= i < ds.len() ==> plain_reading(#[trigger] ds[i]) && dollar_free(ds[i]),
            meta_spec(path@, ds) == Ok::<MetaView, SchemaErrorView>(meta_view(meta)),
            dir_scan(path@, ds.take(k as int)) == Ok::<DirScan, SchemaErrorView>(
                DirScan {
                    vars: vars_view(vars@),
                    defs: defs_view(defs@),
                    entries: entries_view(entries@),
                },
            ),
        decreases v@.len() - k,
    {
        let c = &v[k];
        assert(plain_reading(ds[k as int]) && dollar_free(ds[k as int]));
        let ghost st = DirScan {
            vars: vars_view(vars@),
            defs: defs_view(defs@),
            entries: entries_view(entries@),
        };
        proof {
            assert(ds[k as int] == c.disk_view());
            assert(decreases_to!(ds => ds[k as int]));
            assert(ds.take(k + 1).drop_last() =~= ds.take(k as int));
            assert(ds.take(k + 1).last() == c.disk_view());
            assert(dir_scan(path@, ds.take(k + 1)) == dir_step(path@, st, c.disk_view()));
        }
        let cn = c.name();
        let cp = join(path, cn);
        let step: Result<(), SchemaError> = if strip_prefix_ds(cn, "_.").is_some() {
            if let Some(var) = strip_prefix_ds(cn, "_.let.@") {
                match c {
                    DiskEntry::Link { target, .. } => {
                        put_var(&mut vars, var, text_expr(target.clone()));
                        Ok(())
                    },
                    _ => Err(SchemaError::IOError(cp)),
                }
            } else if let Some(def) = strip_prefix_ds(cn, "_.def.@") {
                match schema_from_entry(cp.as_str(), c) {
                    Ok(s) => {
                        put_def(&mut defs, def, s);
                        Ok(())
                    },
                    Err(x) => Err(x),
                }
            } else if str_eq(cn, "_.is.file") || str_eq(cn, "_.is.link") || str_eq(cn, "_.is.use")
                || str_eq(cn, "_.owner") || str_eq(cn, "_.group") || str_eq(cn, "_.perms") || str_eq(
                cn,
                "_.match",
            ) || str_eq(cn, "_.order") {
                Ok(())
            } else {
                Err(SchemaError::UnexpectedItemError(cp))
            }
        } else {
            match order_exec(c, cp.as_str()) {
                Err(x) => Err(x),
                Ok(o) => match mode_exec(path, c, cp.as_str()) {
                    Err(x) => Err(x),
                    Ok(m) => match schema_from_entry(cp.as_str(), c) {
                        Err(x) => Err(x),
                        Ok(s) => {
                            let ghost ev = entries_view(entries@);
                            let crit = MatchCriteria::new(o, m);
                            let ghost item = ((crit.order as int, crit.mode@), s.schema_view());
                            entries.push((crit, s));
                            assert(entries_view(entries@) =~= ev.push(item));
                            Ok(())
                        },
                    },
                },
            }
        };
        match step {
            Err(x) => {
                proof {
                    assert(dir_step(path@, st, c.disk_view()) == Err::<DirScan, SchemaErrorView>(x@));
                    lemma_dir_scan_err(path@, ds, k + 1);
                }
                return Err(x);
            },
            Ok(()) => {},
        }
        k += 1;
    }
    proof {
        assert(ds.take(k as int) =~= ds);
    }
    Ok(DirectorySchema::new(vars, defs, meta, entries))
}

/// `s` without the prefix `p`, if it begins with it
fn strip_prefix_ds(s: &str, p: &str) -> (r: Option<String>)
    ensures
        match after_prefix(s@, p@) {
            Some(b) => r matches Some(x) && x@ == b,
            None => r is None,
        },
{
    let sc = chars_of(s);
    let pc = chars_of(p);
    if pc.len() > sc.len() {
        return None;
    }
    let mut i: usize = 0;
    while i < pc.len()
        invariant
            i <= pc@.len() <= sc@.len(),
            sc@ == s@,
            pc@ == p@,
            forall|l: int| 0 <= l < i ==> sc@[l] == pc@[l],
        decreases pc@.len() - i,
    {
        if sc[i] != pc[i] {
            assert(sc@.take(pc@.len() as int)[i as int] != pc@[i as int]);
            assert(sc@.take(pc@.len() as int) != pc@);
            return None;
        }
        i += 1;
    }
    assert(sc@.take(pc@.len() as int) =~= pc@);
    let r = string_of_range(sc.as_slice(), pc.len(), sc.len());
    assert(r@ =~= sc@.skip(pc@.len() as int));
    Some(r)
}

/// The schema that the directory tree `e`, read at `path`, describes: it must be a
/// directory; at most one of `_.is.file` (a file, whose content is that entry),
/// `_.is.link` (a link to that entry's target, with the directory as the far end's schema)
/// and `_.is.use` (a use of the definition that entry's target names after `@`); otherwise a
/// directory of its `_.let.@*` variables, `_.def.@*` definitions and its other entries (named,
/// or bound to a variable by `@`, with an optional `_.match` pattern), ordered by their
/// `_.order`
pub fn schema_from_entry(path: &str, e: &DiskEntry) -> (r: Result<Schema, SchemaError>)
    requires
        dollar_free(e.disk_view()),
    ensures
        schema_result_view(r) == schema_spec(path@, e.disk_view()),
    decreases e.disk_view(), 0int,
{
    match e {
        DiskEntry::Directory { children, .. } => {
            let ghost ds = disk_views(children@);
            assert(e.disk_view()->children == ds);
            assert(decreases_to!(e.disk_view() => ds));
            let f = child_index(children, "_.is.file").is_some();
            let l = child_index(children, "_.is.link").is_some();
            let u = child_index(children, "_.is.use").is_some();
            if (f && l) || (f && u) || (l && u) {
                Err(SchemaError::MultipleTypeAnnotation(path.to_owned()))
            } else if f {
                let meta = meta_exec(path, children)?;
                Ok(Schema::File(FileSchema { meta, source: join(path, "_.is.file") }))
            } else if l {
                let ip = join(path, "_.is.link");
                match linked_exec(children, "_.is.link", ip.as_str())? {
                    None => Err(SchemaError::IOError(ip)),
                    Some(t) => {
                        let far = dir_from_entries(path, children)?;
                        Ok(
                            Schema::Symlink(
                                LinkSchema {
                                    target: text_expr(t),
                                    far_schema: Box::new(Schema::Directory(far)),
                                },
                            ),
                        )
                    },
                }
            } else if u {
                let ip = join(path, "_.is.use");
                match linked_exec(children, "_.is.use", ip.as_str())? {
                    None => Err(SchemaError::IOError(ip)),
                    Some(v) => match strip_at(v.as_str()) {
                        Some(x) => Ok(Schema::Use(x)),
                        None => Err(SchemaError::PropertyParseFailure(ip, v)),
                    },
                }
            } else {
                let d = dir_from_entries(path, children)?;
                Ok(Schema::Directory(d))
            }
        },
        _ => Err(SchemaError::NonDirectorySchemaEntry(path.to_owned())),
    }
}

} // verus!
