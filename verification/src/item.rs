//! Items described by a directory tree: every item is a directory whose `_.`-prefixed entries
//! give its type (`_.is.file`, `_.is.link`, `_.is.reuse`), its variables (`_.let.*`), its
//! definitions (`_.def.*`) and its properties (`_.owner`, `_.group`, `_.perms`, `_.match`),
//! and whose other entries are its children.
use vstd::prelude::*;

use crate::meta::{parse_permissions, ItemMeta, MetaError, Permissions, RawItemMeta, RawPerms};
use crate::paths::{join, joined};
use crate::text_util::{chars_of, str_eq, string_of_range};

verus! {

/// An entry of a directory tree as read from disk; symbolic links are not followed
pub enum DiskEntry {
    /// A regular file
    File { name: String },
    /// A directory with its entries, in the order they were read
    Directory { name: String, children: Vec<DiskEntry> },
    /// A symbolic link with its target
    Link { name: String, target: String },
}

/// The abstract value of a [`DiskEntry`]
pub enum DiskView {
    File { name: Seq<char> },
    Directory { name: Seq<char>, children: Seq<DiskView> },
    Link { name: Seq<char>, target: Seq<char> },
}

impl DiskEntry {
    /// The abstract value of this entry
    pub open spec fn disk_view(&self) -> DiskView
        decreases self,
    {
        match self {
            DiskEntry::File { name } => DiskView::File { name: name@ },
            DiskEntry::Directory { name, children } => DiskView::Directory {
                name: name@,
                children: disk_views(children@),
            },
            DiskEntry::Link { name, target } => DiskView::Link { name: name@, target: target@ },
        }
    }

    /// The name of this entry
    pub fn name(&self) -> (r: &str)
        ensures
            r@ == name_of(self.disk_view()),
    {
        match self {
            DiskEntry::File { name } => name.as_str(),
            DiskEntry::Directory { name, .. } => name.as_str(),
            DiskEntry::Link { name, .. } => name.as_str(),
        }
    }
}

/// The abstract values of a sequence of entries
pub open spec fn disk_views(v: Seq<DiskEntry>) -> Seq<DiskView>
    decreases v,
{
    Seq::new(
        v.len(),
        |i: int|
            if 0 <= i < v.len() {
                v[i].disk_view()
            } else {
                DiskView::File { name: Seq::empty() }
            },
    )
}

/// The name of an entry
pub open spec fn name_of(d: DiskView) -> Seq<char> {
    match d {
        DiskView::File { name } => name,
        DiskView::Directory { name, .. } => name,
        DiskView::Link { name, .. } => name,
    }
}

/// The type of an item
#[derive(Debug, Clone, PartialEq, Eq)]
pub enum ItemType {
    /// A file
    File,
    /// A directory
    Directory,
    /// A symbolic link to the given target
    Symlink(String),
    /// A reuse of the given definition
    Reuse(String),
}

/// The abstract value of an [`ItemType`]
pub enum TypeView {
    File,
    Directory,
    Symlink(Seq<char>),
    Reuse(Seq<char>),
}

impl View for ItemType {
    type V = TypeView;

    open spec fn view(&self) -> TypeView {
        match self {
            ItemType::File => TypeView::File,
            ItemType::Directory => TypeView::Directory,
            ItemType::Symlink(t) => TypeView::Symlink(t@),
            ItemType::Reuse(d) => TypeView::Reuse(d@),
        }
    }
}

/// How an item's name is matched
#[derive(Debug, Clone, PartialEq, Eq)]
pub enum Filter {
    /// Match the exact name of the item
    Exact,
    /// Match the regular expression
    Pattern(String),
    /// Match any name
    Freeform,
}

/// The abstract value of a [`Filter`]
pub enum FilterView {
    Exact,
    Pattern(Seq<char>),
    Freeform,
}

impl View for Filter {
    type V = FilterView;

    open spec fn view(&self) -> FilterView {
        match self {
            Filter::Exact => FilterView::Exact,
            Filter::Pattern(p) => FilterView::Pattern(p@),
            Filter::Freeform => FilterView::Freeform,
        }
    }
}

/// An item: its type, variables, children by name, properties and name filter
#[derive(Debug, PartialEq)]
pub struct Item {
    /// What the item is
    pub itemtype: ItemType,
    /// Variables by name, each name once
    pub vars: Vec<(String, String)>,
    /// Children by name, each name once
    pub children: Vec<(String, Item)>,
    /// Owner, group and permissions
    pub meta: ItemMeta,
    /// How the item's name is matched
    pub filter: Filter,
}

/// The abstract value of an [`Item`]
pub struct ItemView {
    pub itemtype: TypeView,
    pub vars: Seq<(Seq<char>, Seq<char>)>,
    pub children: Seq<(Seq<char>, ItemView)>,
    pub owner: Option<Seq<char>>,
    pub group: Option<Seq<char>>,
    pub permissions: Option<u16>,
    pub filter: FilterView,
}

/// The abstract value of a list of name and value pairs
pub open spec fn pairs_view(v: Seq<(String, String)>) -> Seq<(Seq<char>, Seq<char>)> {
    v.map_values(|p: (String, String)| (p.0@, p.1@))
}

/// The view of an optional string
pub open spec fn opt_chars(s: Option<String>) -> Option<Seq<char>> {
    match s {
        Some(v) => Some(v@),
        None => None,
    }
}

impl Item {
    /// The abstract value of this item
    pub open spec fn item_view(&self) -> ItemView
        decreases self,
    {
        ItemView {
            itemtype: self.itemtype@,
            vars: pairs_view(self.vars@),
            children: children_view(self.children@),
            owner: opt_chars(self.meta.owner),
            group: opt_chars(self.meta.group),
            permissions: match self.meta.permissions {
                Some(p) => Some(p.0),
                None => None,
            },
            filter: self.filter@,
        }
    }

    /// An item of the given type with nothing else: no variables or children, no properties,
    /// and its exact name as filter
    pub fn default_typed(itemtype: ItemType) -> (r: Item)
        ensures
            r.item_view() == default_view(itemtype@),
    {
        let r = Item {
            itemtype,
            vars: Vec::new(),
            children: Vec::new(),
            meta: ItemMeta { owner: None, group: None, permissions: None },
            filter: Filter::Exact,
        };
        assert(children_view(r.children@) =~= Seq::<(Seq<char>, ItemView)>::empty());
        assert(pairs_view(r.vars@) =~= Seq::<(Seq<char>, Seq<char>)>::empty());
        r
    }

    /// The item that the directory tree `e`, read at `path`, describes (see
    /// [`item_from_entry`])
    pub fn from_entry(path: &str, e: &DiskEntry) -> (r: Result<Item, ItemError>)
        ensures
            item_result_view(r) == item_spec(path@, e.disk_view()),
    {
        item_from_entry(path, e)
    }
}

/// The abstract value of a list of children by name
pub open spec fn children_view(v: Seq<(String, Item)>) -> Seq<(Seq<char>, ItemView)>
    decreases v,
{
    Seq::new(
        v.len(),
        |i: int|
            if 0 <= i < v.len() {
                (v[i].0@, v[i].1.item_view())
            } else {
                (Seq::empty(), default_view(TypeView::Directory))
            },
    )
}

/// An item of type `t` with nothing else
pub open spec fn default_view(t: TypeView) -> ItemView {
    ItemView {
        itemtype: t,
        vars: Seq::empty(),
        children: Seq::empty(),
        owner: None,
        group: None,
        permissions: None,
        filter: FilterView::Exact,
    }
}

/// Why a directory tree does not describe an item (with the path concerned)
#[derive(Debug, Clone, PartialEq, Eq)]
pub enum ItemError {
    /// An `_.is.*` entry names no known type
    UnknownItemType(String),
    /// A second `_.is.*` entry
    DuplicateTypeAnnotation(String),
    /// A file item with children
    ItemHasChildren(String),
    /// The properties could not be read
    MetaError(MetaError),
    /// The path is not a directory that can be read
    DirectoryIOError(String),
    /// A `_.match` for an item whose name is matched exactly, or a second one
    ConflictingFilter(String),
    /// An `_.` entry that is no known property
    InvalidPropertyEntry(String),
    /// An entry whose value (a link target) could not be read
    IOError(String),
    /// A path without a file name
    UnexpectedItemError(String),
}

/// The abstract value of an [`ItemError`]
pub enum ItemErrorView {
    UnknownItemType(Seq<char>),
    DuplicateTypeAnnotation(Seq<char>),
    ItemHasChildren(Seq<char>),
    BadPermissions(Seq<char>),
    DirectoryIOError(Seq<char>),
    ConflictingFilter(Seq<char>),
    InvalidPropertyEntry(Seq<char>),
    IOError(Seq<char>),
    UnexpectedItemError(Seq<char>),
    Other,
}

impl View for ItemError {
    type V = ItemErrorView;

    open spec fn view(&self) -> ItemErrorView {
        match self {
            ItemError::UnknownItemType(p) => ItemErrorView::UnknownItemType(p@),
            ItemError::DuplicateTypeAnnotation(p) => ItemErrorView::DuplicateTypeAnnotation(p@),
            ItemError::ItemHasChildren(p) => ItemErrorView::ItemHasChildren(p@),
            ItemError::MetaError(MetaError::PermissionFormatError(t)) => ItemErrorView::BadPermissions(
                t@,
            ),
            ItemError::MetaError(_) => ItemErrorView::Other,
            ItemError::DirectoryIOError(p) => ItemErrorView::DirectoryIOError(p@),
            ItemError::ConflictingFilter(p) => ItemErrorView::ConflictingFilter(p@),
            ItemError::InvalidPropertyEntry(p) => ItemErrorView::InvalidPropertyEntry(p@),
            ItemError::IOError(p) => ItemErrorView::IOError(p@),
            ItemError::UnexpectedItemError(p) => ItemErrorView::UnexpectedItemError(p@),
        }
    }
}

/// The abstract value of the outcome of reading an item
pub open spec fn item_result_view(r: Result<Item, ItemError>) -> Result<ItemView, ItemErrorView> {
    match r {
        Ok(item) => Ok(item.item_view()),
        Err(e) => Err(e@),
    }
}

/// What has been read of an item's entries so far
pub struct ScanState {
    pub vars: Seq<(Seq<char>, Seq<char>)>,
    pub children: Seq<(Seq<char>, ItemView)>,
    pub owner: Option<Seq<char>>,
    pub group: Option<Seq<char>>,
    pub perms: Option<Seq<char>>,
    pub itemtype: Option<TypeView>,
    pub filter: Option<FilterView>,
}

/// `s` without the prefix `p`, if it begins with it
pub open spec fn after_prefix(s: Seq<char>, p: Seq<char>) -> Option<Seq<char>> {
    if p.len() <= s.len() && s.take(p.len() as int) == p {
        Some(s.skip(p.len() as int))
    } else {
        None
    }
}

/// The position of the first pair of `s` with name `k`, if any
pub open spec fn key_pos<V>(s: Seq<(Seq<char>, V)>, k: Seq<char>) -> Option<int>
    decreases s.len(),
{
    if s.len() == 0 {
        None
    } else {
        match key_pos(s.drop_last(), k) {
            Some(i) => Some(i),
            None => if s.last().0 == k {
                Some(s.len() - 1)
            } else {
                None
            },
        }
    }
}

/// `s` with `k` given the value `v`: in place where `k` has a value, else at the end
pub open spec fn put<V>(s: Seq<(Seq<char>, V)>, k: Seq<char>, v: V) -> Seq<(Seq<char>, V)> {
    match key_pos(s, k) {
        Some(i) => s.update(i, (k, v)),
        None => s.push((k, v)),
    }
}

/// The target of a link, which is how the value of a property entry is given
pub open spec fn link_of(d: DiskView) -> Option<Seq<char>> {
    match d {
        DiskView::Link { target, .. } => Some(target),
        _ => None,
    }
}

/// Nothing read yet of the entries of an item named `name`: a name that does not begin with
/// `@` is matched exactly
pub open spec fn scan_start(name: Seq<char>) -> ScanState {
    ScanState {
        vars: Seq::empty(),
        children: Seq::empty(),
        owner: None,
        group: None,
        perms: None,
        itemtype: None,
        filter: if after_prefix(name, "@"@) is Some {
            None
        } else {
            Some(FilterView::Exact)
        },
    }
}

/// The value of a property entry at `p`: its link target, else an error
pub open spec fn read_value(d: DiskView, p: Seq<char>) -> Result<Seq<char>, ItemErrorView> {
    match link_of(d) {
        Some(t) => Ok(t),
        None => Err(ItemErrorView::IOError(p)),
    }
}

/// Reading one more entry `d` of the item at `path`
pub open spec fn scan_step(path: Seq<char>, st: ScanState, d: DiskView) -> Result<
    ScanState,
    ItemErrorView,
>
    decreases d, 1int,
{
    let n = name_of(d);
    let p = joined(path, n);
    if after_prefix(n, "_.is."@) is Some {
        let t = after_prefix(n, "_.is."@).unwrap();
        if st.itemtype is Some {
            Err(ItemErrorView::DuplicateTypeAnnotation(p))
        } else if t == "file"@ {
            Ok(ScanState { itemtype: Some(TypeView::File), ..st })
        } else if t == "link"@ {
            match read_value(d, p) {
                Ok(v) => Ok(ScanState { itemtype: Some(TypeView::Symlink(v)), ..st }),
                Err(e) => Err(e),
            }
        } else if t == "reuse"@ {
            match read_value(d, p) {
                Ok(v) => Ok(ScanState { itemtype: Some(TypeView::Reuse(v)), ..st }),
                Err(e) => Err(e),
            }
        } else {
            Err(ItemErrorView::UnknownItemType(p))
        }
    } else if after_prefix(n, "_.let."@) is Some {
        match read_value(d, p) {
            Ok(v) => Ok(ScanState { vars: put(st.vars, after_prefix(n, "_.let."@).unwrap(), v), ..st }),
            Err(e) => Err(e),
        }
    } else if after_prefix(n, "_.def."@) is Some {
        match item_spec(p, d) {
            Ok(_) => Ok(st),
            Err(e) => Err(e),
        }
    } else if after_prefix(n, "_."@) is Some {
        let q = after_prefix(n, "_."@).unwrap();
        if q == "owner"@ {
            match read_value(d, p) {
                Ok(v) => Ok(ScanState { owner: Some(v), ..st }),
                Err(e) => Err(e),
            }
        } else if q == "group"@ {
            match read_value(d, p) {
                Ok(v) => Ok(ScanState { group: Some(v), ..st }),
                Err(e) => Err(e),
            }
        } else if q == "perms"@ {
            match read_value(d, p) {
                Ok(v) => Ok(ScanState { perms: Some(v), ..st }),
                Err(e) => Err(e),
            }
        } else if q == "match"@ {
            if st.filter is Some {
                Err(ItemErrorView::ConflictingFilter(p))
            } else {
                match read_value(d, p) {
                    Ok(v) => Ok(ScanState { filter: Some(FilterView::Pattern(v)), ..st }),
                    Err(e) => Err(e),
                }
            }
        } else {
            Err(ItemErrorView::InvalidPropertyEntry(p))
        }
    } else {
        match d {
            DiskView::File { .. } => Ok(
                ScanState { children: put(st.children, n, default_view(TypeView::File)), ..st },
            ),
            DiskView::Directory { .. } => match item_spec(p, d) {
                Ok(c) => Ok(ScanState { children: put(st.children, n, c), ..st }),
                Err(e) => Err(e),
            },
            DiskView::Link { target, .. } => Ok(
                ScanState {
                    children: put(st.children, n, default_view(TypeView::Symlink(target))),
                    ..st
                },
            ),
        }
    }
}

/// Reading the entries `ds` of the item named `name` at `path`, one after another
pub open spec fn scan(path: Seq<char>, name: Seq<char>, ds: Seq<DiskView>) -> Result<
    ScanState,
    ItemErrorView,
>
    decreases ds, 0int,
{
    if ds.len() == 0 {
        Ok(scan_start(name))
    } else {
        match scan(path, name, ds.drop_last()) {
            Ok(st) => scan_step(path, st, ds.last()),
            Err(e) => Err(e),
        }
    }
}

/// The item once all entries are read: a directory unless a type was given, a file without
/// children, and properties whose permissions can be read
pub open spec fn scan_finish(path: Seq<char>, st: ScanState) -> Result<ItemView, ItemErrorView> {
    let itemtype = match st.itemtype {
        Some(t) => t,
        None => TypeView::Directory,
    };
    if itemtype is File && st.children.len() > 0 {
        Err(ItemErrorView::ItemHasChildren(path))
    } else {
        let permissions = match st.perms {
            None => Some(None),
            Some(t) => match parse_permissions(t) {
                Some(m) => Some(Some(m)),
                None => None,
            },
        };
        match permissions {
            None => Err(ItemErrorView::BadPermissions(st.perms.unwrap())),
            Some(m) => Ok(
                ItemView {
                    itemtype,
                    vars: st.vars,
                    children: st.children,
                    owner: st.owner,
                    group: st.group,
                    permissions: m,
                    filter: match st.filter {
                        Some(f) => f,
                        None => FilterView::Freeform,
                    },
                },
            ),
        }
    }
}

/// The item that the entry `d` at `path` describes: it needs a name, must be a directory, and
/// its entries are read in order (see [`scan_step`])
pub open spec fn item_spec(path: Seq<char>, d: DiskView) -> Result<ItemView, ItemErrorView>
    decreases d, 0int,
{
    let n = name_of(d);
    if n.len() == 0 || n == seq!['.', '.'] {
        Err(ItemErrorView::UnexpectedItemError(path))
    } else {
        match d {
            DiskView::Directory { name, children } => match scan(path, name, children) {
                Ok(st) => scan_finish(path, st),
                Err(e) => Err(e),
            },
            _ => Err(ItemErrorView::DirectoryIOError(path)),
        }
    }
}

/// The view of what has been read of an item's entries
pub open spec fn state_view(
    vars: Seq<(String, String)>,
    children: Seq<(String, Item)>,
    owner: Option<String>,
    group: Option<String>,
    perms: Option<String>,
    itemtype: Option<ItemType>,
    filter: Option<Filter>,
) -> ScanState {
    ScanState {
        vars: pairs_view(vars),
        children: children_view(children),
        owner: opt_chars(owner),
        group: opt_chars(group),
        perms: opt_chars(perms),
        itemtype: match itemtype {
            Some(t) => Some(t@),
            None => None,
        },
        filter: match filter {
            Some(f) => Some(f@),
            None => None,
        },
    }
}

/// The first pair with name `k` is at `j`
pub proof fn lemma_key_pos_first<V>(s: Seq<(Seq<char>, V)>, k: Seq<char>, j: int)
    requires
        0 <= j < s.len(),
        s[j].0 == k,
        forall|l: int| 0 <= l < j ==> (#[trigger] s[l]).0 != k,
    ensures
        key_pos(s, k) == Some(j),
    decreases s.len(),
{
    let d = s.drop_last();
    if j == s.len() - 1 {
        assert forall|l: int| 0 <= l < d.len() implies (#[trigger] d[l]).0 != k by {
            assert(d[l] == s[l]);
        }
        lemma_key_pos_none(d, k);
    } else {
        assert forall|l: int| 0 <= l < j implies (#[trigger] d[l]).0 != k by {
            assert(d[l] == s[l]);
        }
        assert(d[j] == s[j]);
        lemma_key_pos_first(d, k, j);
    }
}

/// No pair has name `k`
pub proof fn lemma_key_pos_none<V>(s: Seq<(Seq<char>, V)>, k: Seq<char>)
    requires
        forall|l: int| 0 <= l < s.len() ==> (#[trigger] s[l]).0 != k,
    ensures
        key_pos(s, k) is None,
    decreases s.len(),
{
    if s.len() > 0 {
        let d = s.drop_last();
        assert forall|l: int| 0 <= l < d.len() implies (#[trigger] d[l]).0 != k by {
            assert(d[l] == s[l]);
        }
        lemma_key_pos_none(d, k);
        assert(s[s.len() - 1].0 != k);
    }
}

/// `s` without the prefix `p`, if it begins with it
fn strip_prefix(s: &str, p: &str) -> (r: Option<String>)
    ensures
        opt_chars(r) == after_prefix(s@, p@),
{
    let sc = chars_of(s);
    let pc = chars_of(p);
    if pc.len() > sc.len() {
        return None;
    }
    let mut i: usize = 0;
    while i < pc.len()
        invariant
            i <= pc@.len() <= sc@.len(),
            sc@ == s@,
            pc@ == p@,
            forall|l: int| 0 <= l < i ==> sc@[l] == pc@[l],
        decreases pc@.len() - i,
    {
        if sc[i] != pc[i] {
            assert(sc@.take(pc@.len() as int)[i as int] != pc@[i as int]);
            assert(sc@.take(pc@.len() as int) != pc@);
            return None;
        }
        i += 1;
    }
    assert(sc@.take(pc@.len() as int) =~= pc@);
    let r = string_of_range(sc.as_slice(), pc.len(), sc.len());
    assert(r@ =~= sc@.skip(pc@.len() as int));
    Some(r)
}

/// Gives `k` the value `x` among the pairs `v`
fn put_pair(v: &mut Vec<(String, String)>, k: String, x: String)
    ensures
        pairs_view(final(v)@) == put(pairs_view(old(v)@), k@, x@),
{
    let ghost before = pairs_view(v@);
    let mut j: usize = 0;
    while j < v.len()
        invariant
            j <= v@.len(),
            v@ == old(v)@,
            before == pairs_view(v@),
            forall|l: int| 0 <= l < j ==> (#[trigger] before[l]).0 != k@,
        decreases v@.len() - j,
    {
        if str_eq(v[j].0.as_str(), k.as_str()) {
            proof {
                lemma_key_pos_first(before, k@, j as int);
            }
            v.set(j, (k, x));
            assert(pairs_view(v@) =~= before.update(j as int, (k@, x@)));
            return;
        }
        assert(before[j as int].0 != k@);
        j += 1;
    }
    proof {
        lemma_key_pos_none(before, k@);
    }
    let ghost kv = k@;
    let ghost xv = x@;
    v.push((k, x));
    assert(pairs_view(v@) =~= before.push((kv, xv)));
}

/// Gives `k` the child `x` among the children `v`
fn put_child(v: &mut Vec<(String, Item)>, k: String, x: Item)
    ensures
        children_view(final(v)@) == put(children_view(old(v)@), k@, x.item_view()),
{
    let ghost before = children_view(v@);
    let mut j: usize = 0;
    while j < v.len()
        invariant
            j <= v@.len(),
            v@ == old(v)@,
            before == children_view(v@),
            forall|l: int| 0 <= l < j ==> (#[trigger] before[l]).0 != k@,
        decreases v@.len() - j,
    {
        if str_eq(v[j].0.as_str(), k.as_str()) {
            proof {
                lemma_key_pos_first(before, k@, j as int);
            }
            let ghost xv = x.item_view();
            v.set(j, (k, x));
            assert(children_view(v@) =~= before.update(j as int, (k@, xv)));
            return;
        }
        assert(before[j as int].0 != k@);
        j += 1;
    }
    proof {
        lemma_key_pos_none(before, k@);
    }
    let ghost kv = k@;
    let ghost xv = x.item_view();
    v.push((k, x));
    assert(children_view(v@) =~= before.push((kv, xv)));
}

/// Once reading an item's entries fails, reading more of them fails the same way
proof fn lemma_scan_err(path: Seq<char>, name: Seq<char>, ds: Seq<DiskView>, k: int)
    requires
        0 <= k <= ds.len(),
        scan(path, name, ds.take(k)) is Err,
    ensures
        scan(path, name, ds) == scan(path, name, ds.take(k)),
    decreases ds.len(),
{
    if ds.len() == k {
        assert(ds.take(k) =~= ds);
    } else {
        let d = ds.drop_last();
        assert(d.take(k) =~= ds.take(k));
        lemma_scan_err(path, name, d, k);
    }
}

/// The value of a property entry: its link target
fn read_value_of(e: &DiskEntry, p: &str) -> (r: Result<String, ItemError>)
    ensures
        match read_value(e.disk_view(), p@) {
            Ok(v) => r matches Ok(s) && s@ == v,
            Err(x) => r matches Err(y) && y@ == x,
        },
{
    match e {
        DiskEntry::Link { target, .. } => Ok(target.clone()),
        _ => Err(ItemError::IOError(p.to_owned())),
    }
}

/// The item that the directory tree `e`, read at `path`, describes: `path` must have a file
/// name and lead to a directory; its `_.is.file`, `_.is.link` and `_.is.reuse` entries give
/// the item's type (at most one), `_.let.*` its variables, `_.def.*` definitions (read and
/// checked), `_.owner`, `_.group`, `_.perms` and `_.match` its properties (as link targets),
/// and every other entry is a child by its name
pub fn item_from_entry(path: &str, e: &DiskEntry) -> (r: Result<Item, ItemError>)
    ensures
        item_result_view(r) == item_spec(path@, e.disk_view()),
    decreases e.disk_view(),
{
    let n = e.name();
    let nc = chars_of(n);
    if nc.len() == 0 || (nc.len() == 2 && nc[0] == '.' && nc[1] == '.') {
        assert(nc.len() == 2 ==> nc@ =~= seq!['.', '.']);
        return Err(ItemError::UnexpectedItemError(path.to_owned()));
    }
    assert(n@ != seq!['.', '.']) by {
        if n@ == seq!['.', '.'] {
            assert(nc@.len() == 2 && nc@[0] == '.' && nc@[1] == '.');
        }
    }
    match e {
        DiskEntry::Directory { name, children } => {
            let ghost ds = e.disk_view()->children;
            assert(ds.len() == children@.len());
            let mut vars: Vec<(String, String)> = Vec::new();
            let mut kids: Vec<(String, Item)> = Vec::new();
            let mut owner: Option<String> = None;
            let mut group: Option<String> = None;
            let mut perms: Option<String> = None;
            let mut itemtype: Option<ItemType> = None;
            let mut filter: Option<Filter> = match strip_prefix(name.as_str(), "@") {
                Some(_) => None,
                None => Some(Filter::Exact),
            };
            proof {
                assert(pairs_view(vars@) =~= Seq::<(Seq<char>, Seq<char>)>::empty());
                assert(children_view(kids@) =~= Seq::<(Seq<char>, ItemView)>::empty());
                assert(ds.take(0) =~= Seq::<DiskView>::empty());
            }
            let mut k: usize = 0;
            while k < children.len()
                invariant
                    k <= children@.len(),
                    ds.len() == children@.len(),
                    forall|i: int| 0 <= i < ds.len() ==> #[trigger] ds[i] == children@[i].disk_view(),
                    ds == e.disk_view()->children,
                    e.disk_view() is Directory,
                    name@ == e.disk_view()->Directory_name,
                    !(name_of(e.disk_view()).len() == 0 || name_of(e.disk_view()) == seq!['.', '.']),
                    scan(path@, name@, ds.take(k as int)) == Ok::<ScanState, ItemErrorView>(
                        state_view(vars@, kids@, owner, group, perms, itemtype, filter),
                    ),
                decreases children@.len() - k,
            {
                let c = &children[k];
                proof {
                    assert(ds[k as int] == c.disk_view());
                    assert(decreases_to!(e.disk_view() => ds));
                    assert(decreases_to!(ds => ds[k as int]));
                }
                let ghost st = state_view(vars@, kids@, owner, group, perms, itemtype, filter);
                proof {
                    assert(ds.take(k + 1).drop_last() =~= ds.take(k as int));
                    assert(ds.take(k + 1).last() == c.disk_view());
                    assert(scan(path@, name@, ds.take(k + 1)) == scan_step(path@, st, c.disk_view()));
                }
                let cn = c.name();
                let cp = join(path, cn);
                let step: Result<(), ItemError> = if let Some(t) = strip_prefix(cn, "_.is.") {
                    if itemtype.is_some() {
                        Err(ItemError::DuplicateTypeAnnotation(cp))
                    } else if str_eq(t.as_str(), "file") {
                        itemtype = Some(ItemType::File);
                        Ok(())
                    } else if str_eq(t.as_str(), "link") {
                        match read_value_of(c, cp.as_str()) {
                            Ok(v) => {
                                itemtype = Some(ItemType::Symlink(v));
                                Ok(())
                            },
                            Err(x) => Err(x),
                        }
                    } else if str_eq(t.as_str(), "reuse") {
                        match read_value_of(c, cp.as_str()) {
                            Ok(v) => {
                                itemtype = Some(ItemType::Reuse(v));
                                Ok(())
                            },
                            Err(x) => Err(x),
                        }
                    } else {
                        Err(ItemError::UnknownItemType(cp))
                    }
                } else if let Some(var) = strip_prefix(cn, "_.let.") {
                    match read_value_of(c, cp.as_str()) {
                        Ok(v) => {
                            put_pair(&mut vars, var, v);
                            Ok(())
                        },
                        Err(x) => Err(x),
                    }
                } else if strip_prefix(cn, "_.def.").is_some() {
                    match item_from_entry(cp.as_str(), c) {
                        Ok(_) => Ok(()),
                        Err(x) => Err(x),
                    }
                } else if let Some(q) = strip_prefix(cn, "_.") {
                    if str_eq(q.as_str(), "owner") {
                        match read_value_of(c, cp.as_str()) {
                            Ok(v) => {
                                owner = Some(v);
                                Ok(())
                            },
                            Err(x) => Err(x),
                        }
                    } else if str_eq(q.as_str(), "group") {
                        match read_value_of(c, cp.as_str()) {
                            Ok(v) => {
                                group = Some(v);
                                Ok(())
                            },
                            Err(x) => Err(x),
                        }
                    } else if str_eq(q.as_str(), "perms") {
                        match read_value_of(c, cp.as_str()) {
                            Ok(v) => {
                                perms = Some(v);
                                Ok(())
                            },
                            Err(x) => Err(x),
                        }
                    } else if str_eq(q.as_str(), "match") {
                        if filter.is_some() {
                            Err(ItemError::ConflictingFilter(cp))
                        } else {
                            match read_value_of(c, cp.as_str()) {
                                Ok(v) => {
                                    filter = Some(Filter::Pattern(v));
                                    Ok(())
                                },
                                Err(x) => Err(x),
                            }
                        }
                    } else {
                        Err(ItemError::InvalidPropertyEntry(cp))
                    }
                } else {
                    match c {
                        DiskEntry::File { .. } => {
                            put_child(&mut kids, cn.to_owned(), Item::default_typed(ItemType::File));
                            Ok(())
                        },
                        DiskEntry::Directory { .. } => match item_from_entry(cp.as_str(), c) {
                            Ok(item) => {
                                put_child(&mut kids, cn.to_owned(), item);
                                Ok(())
                            },
                            Err(x) => Err(x),
                        },
                        DiskEntry::Link { target, .. } => {
                            put_child(
                                &mut kids,
                                cn.to_owned(),
                                Item::default_typed(ItemType::Symlink(target.clone())),
                            );
                            Ok(())
                        },
                    }
                };
                match step {
                    Err(x) => {
                        proof {
                            assert(scan_step(path@, st, c.disk_view()) == Err::<ScanState, ItemErrorView>(x@));
                            lemma_scan_err(path@, name@, ds, k + 1);
                        }
                        return Err(x);
                    },
                    Ok(()) => {},
                }
                k += 1;
            }
            proof {
                assert(ds.take(k as int) =~= ds);
            }
            let t = match itemtype {
                Some(t) => t,
                None => ItemType::Directory,
            };
            let is_file = match &t {
                ItemType::File => true,
                _ => false,
            };
            if is_file && kids.len() > 0 {
                return Err(ItemError::ItemHasChildren(path.to_owned()));
            }
            let raw = RawItemMeta {
                owner,
                group,
                permissions: match perms {
                    Some(p) => Some(RawPerms(p)),
                    None => None,
                },
            };
            let meta = match ItemMeta::try_from_raw(raw) {
                Ok(m) => m,
                Err(x) => {
                    return Err(ItemError::MetaError(x));
                },
            };
            let f = match filter {
                Some(f) => f,
                None => Filter::Freeform,
            };
            Ok(Item { itemtype: t, vars, children: kids, meta, filter: f })
        },
        _ => Err(ItemError::DirectoryIOError(path.to_owned())),
    }
}

} // verus!
