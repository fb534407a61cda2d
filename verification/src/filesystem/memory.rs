//! A file system held in memory, used to simulate changes before (or instead of) making them.
use vstd::prelude::*;

use super::system::{current_gid, current_uid, gid_of_group, group_name_of, uid_of_user, user_name_of};
use super::{
    asked, canonical_spec, canonicalize, names_entry, lemma_canonical_same_links, lemma_resolve_concat,
    lemma_resolve_plain, lemma_resolve_same_links, resolve_spec, Filesystem, Links, Request,
    MAX_LINK_DEPTH,
};
use crate::attrs::{Attrs, Mode, SetAttrs, DEFAULT_DIRECTORY_MODE, DEFAULT_FILE_MODE};
use crate::paths::{
    join, joined, keep_segment, lemma_path_text_push, lemma_segments_plain, lemma_split_segments,
    path_text, segments_of, split, split_spec,
};
use crate::text_util::{append_str, decimal, decimal_spec, push_char, str_eq, strings_view};

verus! {

/// Ownership (by numeric IDs) and permissions of an entry
#[derive(Debug, Clone, Copy, PartialEq, Eq)]
pub struct FsAttrs {
    /// The owner's user ID
    pub uid: u32,
    /// The group ID
    pub gid: u32,
    /// The permissions
    pub mode: u16,
}

/// An entry of the in-memory file system
#[derive(Debug)]
pub enum FsNode {
    /// A regular file
    File { attrs: FsAttrs, content: String },
    /// A directory, with the names of its entries
    Directory { attrs: FsAttrs, children: Vec<String> },
    /// A symbolic link
    Symlink { target: String },
}

/// What an entry of the in-memory file system holds, as plain values
pub enum NodeView {
    /// A regular file
    File { attrs: FsAttrs, content: Seq<char> },
    /// A directory, with the names of its entries
    Directory { attrs: FsAttrs, children: Seq<Seq<char>> },
    /// A symbolic link
    Symlink { target: Seq<char> },
}

impl View for FsNode {
    type V = NodeView;

    open spec fn view(&self) -> NodeView {
        match self {
            FsNode::File { attrs, content } => NodeView::File { attrs: *attrs, content: content@ },
            FsNode::Directory { attrs, children } => NodeView::Directory {
                attrs: *attrs,
                children: strings_view(children@),
            },
            FsNode::Symlink { target } => NodeView::Symlink { target: target@ },
        }
    }
}

/// The attributes of an entry, which a symbolic link does not have
pub open spec fn node_attrs(n: NodeView) -> Option<FsAttrs> {
    match n {
        NodeView::File { attrs, .. } => Some(attrs),
        NodeView::Directory { attrs, .. } => Some(attrs),
        NodeView::Symlink { .. } => None,
    }
}

/// The content of a file entry
pub open spec fn file_content(n: Option<NodeView>) -> Option<Seq<char>> {
    match n {
        Some(NodeView::File { content, .. }) => Some(content),
        _ => None,
    }
}

/// A directory entry with one more name among its entries (anything else as it is)
pub open spec fn with_child(n: Option<NodeView>, name: Seq<char>) -> Option<NodeView> {
    match n {
        Some(NodeView::Directory { attrs, children }) => Some(
            NodeView::Directory { attrs, children: children.push(name) },
        ),
        other => other,
    }
}

/// Whether `n2` is the file or directory `n` with other attributes, whose mode is `mode`
pub open spec fn attrs_changed(n: NodeView, n2: NodeView, mode: u16) -> bool {
    match (n, n2) {
        (NodeView::File { content, .. }, NodeView::File { attrs, content: content2 }) => content2
            == content && attrs.mode == mode,
        (
            NodeView::Directory { children, .. },
            NodeView::Directory { attrs, children: children2 },
        ) => children2 == children && attrs.mode == mode,
        _ => false,
    }
}

/// Whether the owner and group of `a` are those the file system gives where `req` names none:
/// `uid` and `gid`
pub open spec fn ids_or(a: FsAttrs, req: SetAttrs, uid: u32, gid: u32) -> bool {
    &&& req.owner is None ==> a.uid == uid
    &&& req.group is None ==> a.gid == gid
}

/// [`ids_or`] of the attributes of a file or directory
pub open spec fn node_ids_or(n: NodeView, req: SetAttrs, uid: u32, gid: u32) -> bool {
    match node_attrs(n) {
        Some(a) => ids_or(a, req, uid, gid),
        None => false,
    }
}

/// The mode that was asked for, or the default
pub open spec fn mode_or(mode: Option<Mode>, default: u16) -> u16 {
    match mode {
        Some(m) => m.0,
        None => default,
    }
}

/// Whether position `i` of the entries `m` holds the first one under the path `p`
pub open spec fn first_slot(m: Seq<(Seq<char>, NodeView)>, p: Seq<char>, i: int) -> bool {
    &&& 0 <= i < m.len()
    &&& m[i].0 == p
    &&& forall|j: int| 0 <= j < i ==> #[trigger] m[j].0 != p
}

/// The entry under the path `p`: the first one held under it
pub open spec fn node_in(m: Seq<(Seq<char>, NodeView)>, p: Seq<char>) -> Option<NodeView> {
    if exists|i: int| first_slot(m, p, i) {
        Some(m[choose|i: int| first_slot(m, p, i)].1)
    } else {
        None
    }
}

/// A path has at most one first slot
proof fn lemma_first_slot_unique(m: Seq<(Seq<char>, NodeView)>, p: Seq<char>, i: int, j: int)
    requires
        first_slot(m, p, i),
        first_slot(m, p, j),
    ensures
        i == j,
{
    if i < j {
        assert(m[i].0 != p);
    }
    if j < i {
        assert(m[j].0 != p);
    }
}

/// The entry under a path is the one in its first slot
proof fn lemma_node_at_slot(m: Seq<(Seq<char>, NodeView)>, p: Seq<char>, i: int)
    requires
        first_slot(m, p, i),
    ensures
        node_in(m, p) == Some(m[i].1),
{
    let k = choose|k: int| first_slot(m, p, k);
    lemma_first_slot_unique(m, p, i, k);
}

/// A path under which nothing is held has no entry
proof fn lemma_node_absent(m: Seq<(Seq<char>, NodeView)>, p: Seq<char>)
    requires
        forall|i: int| 0 <= i < m.len() ==> #[trigger] m[i].0 != p,
    ensures
        node_in(m, p) is None,
{
}

/// Appending an entry under a new path adds that entry and changes no other
proof fn lemma_node_push(m: Seq<(Seq<char>, NodeView)>, k: Seq<char>, v: NodeView, q: Seq<char>)
    requires
        forall|i: int| 0 <= i < m.len() ==> #[trigger] m[i].0 != k,
    ensures
        node_in(m.push((k, v)), q) == if q == k {
            Some(v)
        } else {
            node_in(m, q)
        },
{
    let m2 = m.push((k, v));
    if q == k {
        assert(first_slot(m2, k, m.len() as int));
        lemma_node_at_slot(m2, k, m.len() as int);
    } else if exists|i: int| first_slot(m, q, i) {
        let i = choose|i: int| first_slot(m, q, i);
        assert(first_slot(m2, q, i));
        lemma_node_at_slot(m2, q, i);
        lemma_node_at_slot(m, q, i);
    } else {
        assert forall|i: int| !first_slot(m2, q, i) by {
            if first_slot(m2, q, i) {
                assert(i < m.len());
                assert forall|l: int| 0 <= l < i implies #[trigger] m[l].0 != q by {
                    assert(m2[l].0 != q);
                }
                assert(first_slot(m, q, i));
            }
        }
    }
}

/// Replacing what the first slot of a path holds changes the entry under that path alone
proof fn lemma_node_update(m: Seq<(Seq<char>, NodeView)>, i: int, v: NodeView, q: Seq<char>)
    requires
        first_slot(m, m[i].0, i),
    ensures
        node_in(m.update(i, (m[i].0, v)), q) == if q == m[i].0 {
            Some(v)
        } else {
            node_in(m, q)
        },
{
    let m2 = m.update(i, (m[i].0, v));
    assert forall|j: int| first_slot(m2, q, j) <==> first_slot(m, q, j) by {
        if first_slot(m2, q, j) {
            assert forall|l: int| 0 <= l < j implies #[trigger] m[l].0 != q by {
                assert(m2[l].0 != q);
            }
        }
        if first_slot(m, q, j) {
            assert forall|l: int| 0 <= l < j implies #[trigger] m2[l].0 != q by {
                assert(m[l].0 != q);
            }
        }
    }
    if exists|j: int| first_slot(m, q, j) {
        let j = choose|j: int| first_slot(m, q, j);
        lemma_node_at_slot(m, q, j);
        lemma_node_at_slot(m2, q, j);
        if q == m[i].0 {
            lemma_first_slot_unique(m, q, i, j);
        } else {
            assert(j != i);
        }
    } else {
        assert(!first_slot(m, q, i));
    }
}

/// An in-memory representation of a file system, keyed by canonical path
pub struct MemoryFilesystem {
    entries: Vec<(String, FsNode)>,
    uid: u32,
    gid: u32,
    /// Every change asked of this file system, in order
    asked: Ghost<Seq<Request>>,
}

/// The UID and GID of the root user and group
pub const ROOT_ID: u32 = 0;

/// Whether `new` is `old` with the attributes of the file or directory that `path` leads to
/// set as `req` asks: the mode given (or the default for the kind of entry), and the owner and
/// group named (or those the file system gives); nothing else changes
pub open spec fn attributes_set(
    old: MemoryFilesystem,
    new: MemoryFilesystem,
    path: Seq<char>,
    req: SetAttrs,
) -> bool {
    &&& old.canonical(path) matches Some(c)
    &&& old.node(c) matches Some(n)
    &&& new.node(c) matches Some(n2)
    &&& attrs_changed(
        n,
        n2,
        mode_or(
            req.mode,
            if n is Directory {
                DEFAULT_DIRECTORY_MODE
            } else {
                DEFAULT_FILE_MODE
            },
        ),
    )
    &&& node_ids_or(n2, req, old.default_uid(), old.default_gid())
    &&& forall|q: Seq<char>| q != c ==> #[trigger] new.node(q) == old.node(q)
}

/// Whether every directory of `old` is one of `new`, listing at least the same names
pub open spec fn listings_kept(old: MemoryFilesystem, new: MemoryFilesystem) -> bool {
    &&& forall|p: Seq<char>| #[trigger] old.is_directory_spec(p) ==> new.is_directory_spec(p)
    &&& forall|p: Seq<char>| #[trigger] old.listing_spec(p) is Some ==> new.listing_spec(p) is Some
    &&& forall|p: Seq<char>, n: Seq<char>|
        old.listing_spec(p) is Some && #[trigger] old.listing_spec(p).unwrap().contains(n)
            ==> new.listing_spec(p) is Some && new.listing_spec(p).unwrap().contains(n)
}

/// Whether `new` is `old` with the entry `v` added as `name` in the directory `parent`
pub open spec fn added(
    old: MemoryFilesystem,
    new: MemoryFilesystem,
    parent: Seq<char>,
    name: Seq<char>,
    v: NodeView,
) -> bool {
    &&& new.keys() == old.keys().push(joined(parent, name))
    &&& new.node(joined(parent, name)) == Some(v)
    &&& new.node(parent) == with_child(old.node(parent), name)
    &&& forall|q: Seq<char>|
        q != joined(parent, name) && q != parent ==> #[trigger] new.node(q) == old.node(q)
}

impl MemoryFilesystem {
    /// The UID given to what is created or changed without an owner: that of the process
    /// that made the file system
    pub closed spec fn default_uid(&self) -> u32 {
        self.uid
    }

    /// The GID given to what is created or changed without a group: that of the process that
    /// made the file system
    pub closed spec fn default_gid(&self) -> u32 {
        self.gid
    }

    /// The entries as pairs of path and contents, in the order they were created
    pub closed spec fn model(&self) -> Seq<(Seq<char>, NodeView)> {
        self.entries@.map_values(|e: (String, FsNode)| (e.0@, e.1@))
    }

    /// The paths of the entries, in the order they were created
    pub open spec fn keys(&self) -> Seq<Seq<char>> {
        self.model().map_values(|e: (Seq<char>, NodeView)| e.0)
    }

    /// The entry at exactly this path
    pub open spec fn node(&self, p: Seq<char>) -> Option<NodeView> {
        node_in(self.model(), p)
    }

    /// The canonical form of a path in this file system
    pub open spec fn canonical(&self, p: Seq<char>) -> Option<Seq<char>> {
        canonical_spec(self, p, MAX_LINK_DEPTH as nat)
    }

    /// Where an entry created at `path` goes: its canonical parent and its name
    pub open spec fn creation_site(&self, path: Seq<char>) -> Option<(Seq<char>, Seq<char>)> {
        match split_spec(path) {
            None => None,
            Some((parent, name)) => match self.canonical(parent) {
                None => None,
                Some(cp) => Some((cp, name)),
            },
        }
    }

    /// Whether an entry can be added as `name` in `parent`: a directory in which that name
    /// is free
    pub open spec fn can_add(&self, parent: Seq<char>, name: Seq<char>) -> bool {
        &&& self.node(parent) matches Some(NodeView::Directory { .. })
        &&& self.node(joined(parent, name)) is None
    }

    /// Whether an entry can be created at `path`
    pub open spec fn can_create(&self, path: Seq<char>) -> bool {
        match self.creation_site(path) {
            Some((parent, name)) => self.can_add(parent, name),
            None => false,
        }
    }

    /// Whether `path` leads to a directory
    pub open spec fn is_directory_spec(&self, path: Seq<char>) -> bool {
        self.canonical(path) matches Some(c) && self.node(c) matches Some(
            NodeView::Directory { .. },
        )
    }

    /// The names of the entries of the directory that `path` leads to, if it leads to one
    pub open spec fn listing_spec(&self, path: Seq<char>) -> Option<Seq<Seq<char>>> {
        match self.canonical(path) {
            Some(c) => match self.node(c) {
                Some(NodeView::Directory { children, .. }) => Some(children),
                _ => None,
            },
            None => None,
        }
    }

    /// The attributes of what `path` leads to, if it leads to a file or a directory
    pub open spec fn attrs_at(&self, path: Seq<char>) -> Option<FsAttrs> {
        match self.canonical(path) {
            Some(c) => match self.node(c) {
                Some(n) => node_attrs(n),
                None => None,
            },
            None => None,
        }
    }

    /// A file system holding only the root directory, owned by root
    pub fn new() -> (r: MemoryFilesystem)
        ensures
            r.keys() == seq![seq!['/']],
            r.node(seq!['/']) == Some(
                NodeView::Directory {
                    attrs: FsAttrs { uid: ROOT_ID, gid: ROOT_ID, mode: DEFAULT_DIRECTORY_MODE },
                    children: Seq::empty(),
                },
            ),
            forall|q: Seq<char>| q != seq!['/'] ==> #[trigger] r.node(q) is None,
    {
        let mut entries: Vec<(String, FsNode)> = Vec::new();
        proof {
            reveal_strlit("/");
            assert("/"@ =~= seq!['/']);
        }
        let root = "/".to_owned();
        let children: Vec<String> = Vec::new();
        assert(strings_view(children@) =~= Seq::<Seq<char>>::empty());
        entries.push(
            (
                root,
                FsNode::Directory {
                    attrs: FsAttrs { uid: ROOT_ID, gid: ROOT_ID, mode: DEFAULT_DIRECTORY_MODE },
                    children,
                },
            ),
        );
        let r = MemoryFilesystem {
            entries,
            uid: current_uid(),
            gid: current_gid(),
            asked: Ghost(Seq::empty()),
        };
        proof {
            let m = r.model();
            assert(r.keys() =~= seq![seq!['/']]);
            assert(first_slot(m, seq!['/'], 0));
            lemma_node_at_slot(m, seq!['/'], 0);
            assert forall|q: Seq<char>| q != seq!['/'] implies #[trigger] r.node(q) is None by {
                lemma_node_absent(m, q);
            }
        }
        r
    }

    /// The position of the entry at exactly this path
    fn find(&self, path: &str) -> (r: Option<usize>)
        ensures
            match r {
                None => self.node(path@) is None && forall|j: int|
                    0 <= j < self.model().len() ==> #[trigger] self.model()[j].0 != path@,
                Some(i) => i < self.entries@.len() && first_slot(self.model(), path@, i as int)
                    && self.node(path@) == Some(self.entries@[i as int].1@),
            },
    {
        let mut i: usize = 0;
        while i < self.entries.len()
            invariant
                i <= self.entries@.len(),
                forall|j: int| 0 <= j < i ==> #[trigger] self.model()[j].0 != path@,
            decreases self.entries@.len() - i,
        {
            if str_eq(self.entries[i].0.as_str(), path) {
                proof {
                    assert(self.model()[i as int].0 == path@);
                    assert(first_slot(self.model(), path@, i as int));
                    lemma_node_at_slot(self.model(), path@, i as int);
                }
                return Some(i);
            }
            assert(self.model()[i as int].0 != path@);
            i += 1;
        }
        proof {
            lemma_node_absent(self.model(), path@);
        }
        None
    }

    /// The paths of all entries
    pub fn to_path_set(&self) -> (r: Vec<String>)
        ensures
            strings_view(r@) == self.keys(),
    {
        let mut r: Vec<String> = Vec::new();
        let mut i: usize = 0;
        while i < self.entries.len()
            invariant
                i <= self.entries@.len(),
                strings_view(r@) == self.keys().take(i as int),
            decreases self.entries@.len() - i,
        {
            let ghost prev = r@;
            r.push(self.entries[i].0.clone());
            assert(strings_view(r@) =~= strings_view(prev).push(self.entries@[i as int].0@));
            assert(strings_view(r@) =~= self.keys().take(i + 1));
            i += 1;
        }
        assert(self.keys().take(self.entries@.len() as int) =~= self.keys());
        r
    }

    /// The path after following all symlinks, normalized and absolute
    pub fn canonicalize(&self, path: &str) -> (r: Result<String, String>)
        ensures
            match self.canonical(path@) {
                Some(c) => r matches Ok(s) && s@ == c,
                None => r is Err,
            },
    {
        canonicalize(self, path)
    }

    /// The stored attributes for the requested ones: names are looked up in the system's
    /// databases, and what is not given falls back to the running user and group and the
    /// default mode
    fn internal_attrs(&self, attrs: SetAttrs, default_mode: u16) -> (r: Result<FsAttrs, String>)
        ensures
            r matches Ok(a) ==> a.mode == mode_or(attrs.mode, default_mode) && ids_or(
                a,
                attrs,
                self.default_uid(),
                self.default_gid(),
            ),
            attrs.owner is None && attrs.group is None ==> r is Ok,
    {
        let uid = match &attrs.owner {
            Some(owner) => match uid_of_user(owner.as_str()) {
                Some(uid) => uid,
                None => return Err(format_no_such("user", owner.as_str())),
            },
            None => self.uid,
        };
        let gid = match &attrs.group {
            Some(group) => match gid_of_group(group.as_str()) {
                Some(gid) => gid,
                None => return Err(format_no_such("group", group.as_str())),
            },
            None => self.gid,
        };
        let mode = match attrs.mode {
            Some(m) => m.0,
            None => default_mode,
        };
        Ok(FsAttrs { uid, gid, mode })
    }

    /// The canonical parent of a path, and its final component
    fn canonical_split(&self, path: &str) -> (r: Result<(String, String), String>)
        ensures
            match self.creation_site(path@) {
                Some((cp, name)) => r matches Ok((p, n)) && p@ == cp && n@ == name,
                None => r is Err,
            },
    {
        match split(path) {
            None => Err(format_no_such("parent for", path)),
            Some((parent, name)) => {
                let parent = canonicalize(self, parent.as_str())?;
                Ok((parent, name))
            },
        }
    }

    /// Inserts a new entry under the given canonical parent directory
    fn insert_node(&mut self, parent: &str, name: &str, node: FsNode) -> (r: Result<(), String>)
        ensures
            r is Ok <==> old(self).can_add(parent@, name@),
            r is Ok ==> added(*old(self), *final(self), parent@, name@, node@),
            final(self).uid == old(self).uid,
            final(self).gid == old(self).gid,
            final(self).asked == old(self).asked,
            r is Err ==> final(self).model() == old(self).model(),
    {
        let path = join(parent, name);
        if self.find(path.as_str()).is_some() {
            return Err(format_no_such("free path at", path.as_str()));
        }
        let idx = match self.find(parent) {
            Some(i) => i,
            None => return Err(format_no_such("parent directory", parent)),
        };
        let ghost m0 = self.model();
        let ghost before = self.entries@;
        let (key, pnode) = self.entries.remove(idx);
        let pnode = match pnode {
            FsNode::Directory { attrs, mut children } => {
                let ghost kids = children@;
                children.push(name.to_owned());
                proof {
                    assert(strings_view(children@) =~= strings_view(kids).push(name@));
                }
                FsNode::Directory { attrs, children }
            },
            other => {
                self.entries.insert(idx, (key, other));
                proof {
                    assert(self.entries@ =~= before);
                }
                return Err(format_no_such("directory at", parent));
            },
        };
        let ghost pview = pnode@;
        self.entries.insert(idx, (key, pnode));
        let ghost m1 = self.model();
        proof {
            assert(m1 =~= m0.update(idx as int, (m0[idx as int].0, pview)));
            assert forall|q: Seq<char>| #[trigger] node_in(m1, q) == if q == parent@ {
                Some(pview)
            } else {
                node_in(m0, q)
            } by {
                lemma_node_update(m0, idx as int, pview, q);
            }
            assert forall|i: int| 0 <= i < m1.len() implies #[trigger] m1[i].0 != path@ by {
                assert(m0[i].0 != path@);
            }
        }
        let ghost nview = node@;
        self.entries.push((path, node));
        proof {
            let m2 = self.model();
            assert(m2 =~= m1.push((joined(parent@, name@), nview)));
            assert forall|q: Seq<char>| #[trigger] node_in(m2, q) == if q == joined(
                parent@,
                name@,
            ) {
                Some(nview)
            } else {
                node_in(m1, q)
            } by {
                lemma_node_push(m1, joined(parent@, name@), nview, q);
            }
            assert(self.keys() =~= old(self).keys().push(joined(parent@, name@)));
        }
        Ok(())
    }

    /// The node at exactly this path
    fn node_at(&self, path: &str) -> (r: Result<&FsNode, String>)
        ensures
            match self.node(path@) {
                Some(v) => r matches Ok(n) && n@ == v,
                None => r is Err,
            },
    {
        match self.find(path) {
            Some(i) => Ok(&self.entries[i].1),
            None => Err(format_no_such("file or directory", path)),
        }
    }
}

/// How a user or group ID is shown: by the name the system gives it, or in decimal where the
/// system has no name for it
pub fn id_text(name: Option<String>, id: u32) -> (r: String)
    ensures
        r@ == match name {
            Some(n) => n@,
            None => decimal_spec(id as nat),
        },
{
    match name {
        Some(n) => n,
        None => decimal(id as usize),
    }
}

/// A message that something does not exist
fn format_no_such(what: &str, name: &str) -> (r: String)
    ensures
        r@ == "No such "@ + what@ + ": "@ + name@,
{
    let mut s = "No such ".to_owned();
    append_str(&mut s, what);
    append_str(&mut s, ": ");
    append_str(&mut s, name);
    assert(s@ =~= "No such "@ + what@ + ": "@ + name@);
    s
}

impl Links for MemoryFilesystem {
    open spec fn links_known(&self) -> bool {
        true
    }

    open spec fn link_at(&self, path: Seq<char>) -> Option<Seq<char>> {
        match self.node(path) {
            Some(NodeView::Symlink { target }) => Some(target),
            _ => None,
        }
    }

    fn is_link(&self, path: &str) -> (r: bool) {
        match self.find(path) {
            Some(i) => match &self.entries[i].1 {
                FsNode::Symlink { .. } => true,
                _ => false,
            },
            None => false,
        }
    }

    fn read_link(&self, path: &str) -> (r: Result<String, String>) {
        match self.node_at(path)? {
            FsNode::Symlink { target } => Ok(target.clone()),
            _ => Err(format_no_such("symlink at", path)),
        }
    }
}

impl Filesystem for MemoryFilesystem {
    open spec fn described(&self) -> bool {
        true
    }

    open spec fn dir_at(&self, path: Seq<char>) -> bool {
        self.is_directory_spec(path)
    }

    open spec fn listing_at(&self, path: Seq<char>) -> Option<Seq<Seq<char>>> {
        self.listing_spec(path)
    }

    open spec fn mode_at(&self, path: Seq<char>) -> Option<u16> {
        match self.attrs_at(path) {
            Some(a) => Some(a.mode),
            None => None,
        }
    }

    open spec fn records(&self) -> bool {
        true
    }

    closed spec fn requests(&self) -> Seq<Request> {
        self.asked@
    }

    open spec fn paths(&self) -> Set<Seq<char>> {
        self.keys().to_set()
    }

    open spec fn contents(&self) -> Map<Seq<char>, Seq<char>> {
        Map::new(
            |p: Seq<char>| file_content(self.node(p)) is Some,
            |p: Seq<char>| file_content(self.node(p)).unwrap(),
        )
    }

    fn create_directory(&mut self, path: &str, attrs: SetAttrs) -> (r: Result<(), String>)
        ensures
            final(self).default_uid() == old(self).default_uid(),
            final(self).default_gid() == old(self).default_gid(),
            r is Err ==> final(self).model() == old(self).model(),
            r is Ok ==> old(self).can_create(path@),
            r is Ok ==> (old(self).creation_site(path@) matches Some((parent, name)) && exists|
                a: FsAttrs,
            |
                a.mode == mode_or(attrs.mode, DEFAULT_DIRECTORY_MODE) && ids_or(
                    a,
                    attrs,
                    old(self).default_uid(),
                    old(self).default_gid(),
                ) && #[trigger] added(
                    *old(self),
                    *final(self),
                    parent,
                    name,
                    NodeView::Directory { attrs: a, children: Seq::empty() },
                )),
            attrs.owner is None && attrs.group is None && old(self).can_create(path@) ==> r is Ok,
    {
        proof {
            self.asked@ = self.asked@.push(Request::Directory { path: path@, attrs: asked(attrs) });
            lemma_same_model(*old(self), *self);
            lemma_same_model_kept(*old(self), *self);
        }
        let ghost req = attrs;
        let (parent, name) = self.canonical_split(path)?;
        let attrs = self.internal_attrs(attrs, DEFAULT_DIRECTORY_MODE)?;
        let children: Vec<String> = Vec::new();
        proof {
            assert(strings_view(children@) =~= Seq::<Seq<char>>::empty());
        }
        let r = self.insert_node(
            parent.as_str(),
            name.as_str(),
            FsNode::Directory { attrs, children },
        );
        proof {
            lemma_push_grows(old(self).keys(), joined(parent@, name@));
            if r is Ok {
                assert(added(
                    *old(self),
                    *final(self),
                    parent@,
                    name@,
                    NodeView::Directory { attrs, children: Seq::empty() },
                ));
                if names_entry(path@) {
                    lemma_created_entry_found(
                        *old(self),
                        *final(self),
                        path@,
                        NodeView::Directory { attrs, children: Seq::empty() },
                    );
                }
                lemma_added_keeps_files(
                    *old(self),
                    *final(self),
                    parent@,
                    name@,
                    NodeView::Directory { attrs, children: Seq::empty() },
                );
                lemma_added_kept(
                    *old(self),
                    *final(self),
                    parent@,
                    name@,
                    NodeView::Directory { attrs, children: Seq::empty() },
                );
            } else {
                lemma_same_nodes_keep_files(*old(self), *final(self));
                lemma_same_model_kept(*old(self), *final(self));
            }
        }
        r
    }

    fn create_file(&mut self, path: &str, attrs: SetAttrs, content: String) -> (r: Result<
        (),
        String,
    >)
        ensures
            final(self).default_uid() == old(self).default_uid(),
            final(self).default_gid() == old(self).default_gid(),
            r is Err ==> final(self).model() == old(self).model(),
            r is Ok ==> old(self).can_create(path@),
            r is Ok ==> (old(self).creation_site(path@) matches Some((parent, name)) && exists|
                a: FsAttrs,
            |
                a.mode == mode_or(attrs.mode, DEFAULT_FILE_MODE) && ids_or(
                    a,
                    attrs,
                    old(self).default_uid(),
                    old(self).default_gid(),
                ) && #[trigger] added(
                    *old(self),
                    *final(self),
                    parent,
                    name,
                    NodeView::File { attrs: a, content: content@ },
                )),
            attrs.owner is None && attrs.group is None && old(self).can_create(path@) ==> r is Ok,
    {
        proof {
            self.asked@ = self.asked@.push(Request::File { path: path@, attrs: asked(attrs), content: content@ });
            lemma_same_model(*old(self), *self);
        }
        let (parent, name) = self.canonical_split(path)?;
        let attrs = self.internal_attrs(attrs, DEFAULT_FILE_MODE)?;
        let ghost text = content@;
        let r = self.insert_node(parent.as_str(), name.as_str(), FsNode::File { attrs, content });
        proof {
            lemma_push_grows(old(self).keys(), joined(parent@, name@));
            if r is Ok {
                assert(added(
                    *old(self),
                    *final(self),
                    parent@,
                    name@,
                    NodeView::File { attrs, content: text },
                ));
                lemma_added_keeps_files(
                    *old(self),
                    *final(self),
                    parent@,
                    name@,
                    NodeView::File { attrs, content: text },
                );
            } else {
                lemma_same_nodes_keep_files(*old(self), *final(self));
            }
        }
        r
    }

    fn create_symlink(&mut self, path: &str, target: &str) -> (r: Result<(), String>)
        ensures
            final(self).default_uid() == old(self).default_uid(),
            final(self).default_gid() == old(self).default_gid(),
            r is Err ==> final(self).model() == old(self).model(),
            r is Ok <==> old(self).can_create(path@),
            r is Ok ==> (old(self).creation_site(path@) matches Some((parent, name)) && added(
                *old(self),
                *final(self),
                parent,
                name,
                NodeView::Symlink { target: target@ },
            )),
    {
        proof {
            self.asked@ = self.asked@.push(Request::Symlink { path: path@, target: target@ });
            lemma_same_model(*old(self), *self);
        }
        let (parent, name) = self.canonical_split(path)?;
        let r = self.insert_node(
            parent.as_str(),
            name.as_str(),
            FsNode::Symlink { target: target.to_owned() },
        );
        proof {
            lemma_push_grows(old(self).keys(), joined(parent@, name@));
            if r is Ok {
                lemma_added_keeps_files(
                    *old(self),
                    *final(self),
                    parent@,
                    name@,
                    NodeView::Symlink { target: target@ },
                );
            } else {
                lemma_same_nodes_keep_files(*old(self), *final(self));
            }
        }
        r
    }

    fn path_exists(&self, path: &str) -> (r: bool)
        ensures
            r == (self.canonical(path@) matches Some(c) && self.node(c) is Some),
    {
        match canonicalize(self, path) {
            Ok(p) => self.find(p.as_str()).is_some(),
            Err(_) => false,
        }
    }

    fn is_directory(&self, path: &str) -> (r: bool)
        ensures
            r == (self.canonical(path@) matches Some(c) && self.node(c) matches Some(
                NodeView::Directory { .. },
            )),
    {
        match canonicalize(self, path) {
            Err(_) => false,
            Ok(p) => match self.node_at(p.as_str()) {
                Ok(FsNode::Directory { .. }) => true,
                _ => false,
            },
        }
    }

    fn is_file(&self, path: &str) -> (r: bool)
        ensures
            r == (self.canonical(path@) matches Some(c) && self.node(c) matches Some(
                NodeView::File { .. },
            )),
    {
        match canonicalize(self, path) {
            Err(_) => false,
            Ok(p) => match self.node_at(p.as_str()) {
                Ok(FsNode::File { .. }) => true,
                _ => false,
            },
        }
    }

    fn list_directory(&self, path: &str) -> (r: Result<Vec<String>, String>)
        ensures
            match self.canonical(path@) {
                Some(c) => match self.node(c) {
                    Some(NodeView::Directory { children, .. }) => r matches Ok(v) && strings_view(
                        v@,
                    ) == children,
                    _ => r is Err,
                },
                None => r is Err,
            },
    {
        let p = canonicalize(self, path)?;
        match self.node_at(p.as_str())? {
            FsNode::Directory { children, .. } => Ok(clone_strings(children)),
            FsNode::File { .. } => Err(format_no_such("directory (found a file) at", p.as_str())),
            FsNode::Symlink { .. } => Err(format_no_such("directory (found a link) at", p.as_str())),
        }
    }

    fn read_file(&self, path: &str) -> (r: Result<String, String>)
        ensures
            match self.canonical(path@) {
                Some(c) => match self.node(c) {
                    Some(NodeView::File { content, .. }) => r matches Ok(s) && s@ == content,
                    _ => r is Err,
                },
                None => r is Err,
            },
    {
        let p = canonicalize(self, path)?;
        match self.node_at(p.as_str())? {
            FsNode::File { content, .. } => Ok(content.clone()),
            _ => Err(format_no_such("file at", p.as_str())),
        }
    }

    /// The attributes of the entry (through any symlinks), with the names that the system gives
    /// its owner and group; an ID that the system does not name is given in decimal
    fn attributes(&self, path: &str) -> (r: Result<Attrs, String>)
        ensures
            match self.attrs_at(path@) {
                Some(a) => r matches Ok(x) && x.mode.0 == a.mode,
                None => r is Err,
            },
    {
        let p = canonicalize(self, path)?;
        let attrs = match self.node_at(p.as_str())? {
            FsNode::Directory { attrs, .. } => *attrs,
            FsNode::File { attrs, .. } => *attrs,
            FsNode::Symlink { .. } => return Err(format_no_such("canonical path", p.as_str())),
        };
        let owner = id_text(user_name_of(attrs.uid), attrs.uid);
        let group = id_text(group_name_of(attrs.gid), attrs.gid);
        Ok(Attrs { owner, group, mode: Mode(attrs.mode) })
    }

    /// Sets the attributes of the entry (through any symlinks); a mode that is not given
    /// becomes the default for the kind of entry
    fn set_attributes(&mut self, path: &str, set_attrs: SetAttrs) -> (r: Result<(), String>)
        ensures
            final(self).default_uid() == old(self).default_uid(),
            final(self).default_gid() == old(self).default_gid(),
            final(self).keys() == old(self).keys(),
            r is Err ==> final(self).model() == old(self).model(),
            r is Ok ==> attributes_set(*old(self), *final(self), path@, set_attrs),
            old(self).attrs_at(path@) is None ==> r is Err,
            set_attrs.owner is None && set_attrs.group is None && old(self).attrs_at(path@) is Some
                ==> r is Ok,
    {
        proof {
            self.asked@ = self.asked@.push(Request::Attributes { path: path@, attrs: asked(set_attrs) });
            lemma_same_model(*old(self), *self);
            lemma_same_model_kept(*old(self), *self);
        }
        let ghost req_mode = set_attrs.mode;
        let use_default = set_attrs.mode.is_none();
        let fs_attrs = self.internal_attrs(set_attrs, 0)?;
        let p = canonicalize(self, path)?;
        let idx = match self.find(p.as_str()) {
            Some(i) => i,
            None => return Err(format_no_such("file or directory", p.as_str())),
        };
        let ghost m0 = self.model();
        let ghost before = self.entries@;
        let ghost old_view = self.entries@[idx as int].1@;
        let (key, node) = self.entries.remove(idx);
        let (node, res) = match node {
            FsNode::Directory { attrs: _, children } => {
                let mode = if use_default {
                    DEFAULT_DIRECTORY_MODE
                } else {
                    fs_attrs.mode
                };
                (
                    FsNode::Directory {
                        attrs: FsAttrs { uid: fs_attrs.uid, gid: fs_attrs.gid, mode },
                        children,
                    },
                    Ok(()),
                )
            },
            FsNode::File { attrs: _, content } => {
                let mode = if use_default {
                    DEFAULT_FILE_MODE
                } else {
                    fs_attrs.mode
                };
                (
                    FsNode::File {
                        attrs: FsAttrs { uid: fs_attrs.uid, gid: fs_attrs.gid, mode },
                        content,
                    },
                    Ok(()),
                )
            },
            FsNode::Symlink { target } => (
                FsNode::Symlink { target },
                Err(format_no_such("canonical path", p.as_str())),
            ),
        };
        let ghost new_view = node@;
        self.entries.insert(idx, (key, node));
        proof {
            let m1 = self.model();
            assert(m1 =~= m0.update(idx as int, (m0[idx as int].0, new_view)));
            assert(self.keys() =~= old(self).keys());
            assert forall|q: Seq<char>| #[trigger] node_in(m1, q) == if q == p@ {
                Some(new_view)
            } else {
                node_in(m0, q)
            } by {
                lemma_node_update(m0, idx as int, new_view, q);
            }
            if res is Err {
                assert(self.entries@ =~= before);
            }
            assert forall|q: Seq<char>| #[trigger] old(self).contents().dom().contains(q) implies self.contents().dom().contains(
                q,
            ) && self.contents()[q] == old(self).contents()[q] by {
                if q == p@ {
                    assert(old(self).node(q) == Some(old_view));
                }
            }
            if res is Ok {
                assert(attributes_set(*old(self), *self, path@, set_attrs));
                lemma_attributes_set_kept(*old(self), *self, path@, set_attrs);
            } else {
                lemma_same_model_kept(*old(self), *self);
            }
        }
        res
    }
}

/// File systems with the same entries resolve every path alike
proof fn lemma_same_model(a: MemoryFilesystem, b: MemoryFilesystem)
    requires
        a.model() == b.model(),
    ensures
        forall|p: Seq<char>| #[trigger] a.canonical(p) == b.canonical(p),
        forall|p: Seq<char>| #[trigger] a.node(p) == b.node(p),
{
    assert forall|q: Seq<char>| #[trigger] a.link_at(q) == b.link_at(q) by {}
    assert forall|p: Seq<char>| #[trigger] a.canonical(p) == b.canonical(p) by {
        lemma_canonical_same_links(&a, &b, p, MAX_LINK_DEPTH as nat);
    }
}

/// File systems with the same entries have the same directories, listing the same names
proof fn lemma_same_model_kept(a: MemoryFilesystem, b: MemoryFilesystem)
    requires
        a.model() == b.model(),
    ensures
        listings_kept(a, b),
{
    lemma_same_model(a, b);
    assert forall|p: Seq<char>| #[trigger] a.is_directory_spec(p) implies b.is_directory_spec(p) by {}
    assert forall|p: Seq<char>| #[trigger] a.listing_spec(p) is Some implies b.listing_spec(p) is Some by {}
    assert forall|p: Seq<char>, n: Seq<char>|
        a.listing_spec(p) is Some && #[trigger] a.listing_spec(p).unwrap().contains(n) implies b.listing_spec(
        p,
    ) is Some && b.listing_spec(p).unwrap().contains(n) by {}
}

/// Adding a file or directory keeps every directory, listing at least the same names
proof fn lemma_added_kept(
    old: MemoryFilesystem,
    new: MemoryFilesystem,
    parent: Seq<char>,
    name: Seq<char>,
    v: NodeView,
)
    requires
        old.can_add(parent, name),
        added(old, new, parent, name, v),
        !(v is Symlink),
    ensures
        listings_kept(old, new),
{
    let target = joined(parent, name);
    assert forall|q: Seq<char>| #[trigger] new.link_at(q) == old.link_at(q) by {
        if q != target && q != parent {
            assert(new.node(q) == old.node(q));
        }
    }
    assert forall|p: Seq<char>| #[trigger] new.canonical(p) == old.canonical(p) by {
        lemma_canonical_same_links(&new, &old, p, MAX_LINK_DEPTH as nat);
    }
    assert forall|p: Seq<char>| #[trigger] old.is_directory_spec(p) implies new.is_directory_spec(p) by {
        let c = old.canonical(p).unwrap();
        assert(new.canonical(p) == old.canonical(p));
        if c != target && c != parent {
            assert(new.node(c) == old.node(c));
        }
    }
    assert forall|p: Seq<char>| #[trigger] old.listing_spec(p) is Some implies new.listing_spec(p) is Some by {
        let c = old.canonical(p).unwrap();
        assert(new.canonical(p) == old.canonical(p));
        if c != target && c != parent {
            assert(new.node(c) == old.node(c));
        }
    }
    assert forall|p: Seq<char>, n: Seq<char>|
        old.listing_spec(p) is Some && #[trigger] old.listing_spec(p).unwrap().contains(n) implies new.listing_spec(
        p,
    ) is Some && new.listing_spec(p).unwrap().contains(n) by {
        let c = old.canonical(p).unwrap();
        assert(new.canonical(p) == old.canonical(p));
        if c == parent {
            let ns = old.listing_spec(p).unwrap();
            let i = choose|i: int| 0 <= i < ns.len() && ns[i] == n;
            assert(ns.push(name)[i] == n);
        } else if c != target {
            assert(new.node(c) == old.node(c));
        }
    }
}

/// Setting attributes keeps every directory, listing the same names
proof fn lemma_attributes_set_kept(
    old: MemoryFilesystem,
    new: MemoryFilesystem,
    path: Seq<char>,
    req: SetAttrs,
)
    requires
        attributes_set(old, new, path, req),
    ensures
        listings_kept(old, new),
{
    let c = old.canonical(path).unwrap();
    assert forall|q: Seq<char>| #[trigger] new.link_at(q) == old.link_at(q) by {
        if q != c {
            assert(new.node(q) == old.node(q));
        }
    }
    assert forall|p: Seq<char>| #[trigger] new.canonical(p) == old.canonical(p) by {
        lemma_canonical_same_links(&new, &old, p, MAX_LINK_DEPTH as nat);
    }
    assert forall|p: Seq<char>| #[trigger] old.is_directory_spec(p) implies new.is_directory_spec(p) by {
        let d = old.canonical(p).unwrap();
        assert(new.canonical(p) == old.canonical(p));
        if d != c {
            assert(new.node(d) == old.node(d));
        }
    }
    assert forall|p: Seq<char>| #[trigger] old.listing_spec(p) is Some implies new.listing_spec(p) is Some by {
        let d = old.canonical(p).unwrap();
        assert(new.canonical(p) == old.canonical(p));
        if d != c {
            assert(new.node(d) == old.node(d));
        }
    }
    assert forall|p: Seq<char>, n: Seq<char>|
        old.listing_spec(p) is Some && #[trigger] old.listing_spec(p).unwrap().contains(n) implies new.listing_spec(
        p,
    ) is Some && new.listing_spec(p).unwrap().contains(n) by {
        let d = old.canonical(p).unwrap();
        assert(new.canonical(p) == old.canonical(p));
        if d != c {
            assert(new.node(d) == old.node(d));
        }
    }
}

/// What is set is what is read back: after the attributes at a path are set, the attributes
/// that path leads to have the mode given (or the default for the kind of entry), and the
/// owner and group named (or those the file system gives)
pub proof fn lemma_set_attributes_read_back(
    old: MemoryFilesystem,
    new: MemoryFilesystem,
    path: Seq<char>,
    req: SetAttrs,
)
    requires
        attributes_set(old, new, path, req),
    ensures
        new.canonical(path) == old.canonical(path),
        new.attrs_at(path) matches Some(a) && ids_or(a, req, old.default_uid(), old.default_gid())
            && a.mode == mode_or(
            req.mode,
            if new.is_directory_spec(path) {
                DEFAULT_DIRECTORY_MODE
            } else {
                DEFAULT_FILE_MODE
            },
        ),
{
    let c = old.canonical(path).unwrap();
    assert forall|q: Seq<char>| #[trigger] new.link_at(q) == old.link_at(q) by {
        if q != c {
            assert(new.node(q) == old.node(q));
        }
    }
    lemma_canonical_same_links(&new, &old, path, MAX_LINK_DEPTH as nat);
}

/// What is created at a path is what the path then leads to: reading the path back finds the
/// new file (with its content) or directory
///
/// This holds when the final component of the path is a name, not `.`, `..` or empty.
pub proof fn lemma_created_entry_found(
    old: MemoryFilesystem,
    new: MemoryFilesystem,
    path: Seq<char>,
    v: NodeView,
)
    requires
        old.can_create(path),
        old.creation_site(path) matches Some((parent, name)) && added(old, new, parent, name, v),
        !(v is Symlink),
        split_spec(path) matches Some((_, name)) && keep_segment(name) && name != seq!['.', '.'],
    ensures
        old.creation_site(path) matches Some((parent, name)) && new.canonical(path) == Some(
            joined(parent, name),
        ),
        new.canonical(path) matches Some(c) && new.node(c) == Some(v),
{
    let (pp, name) = split_spec(path).unwrap();
    let (cp, _) = old.creation_site(path).unwrap();
    let target = joined(cp, name);
    let depth = MAX_LINK_DEPTH as nat;
    assert forall|q: Seq<char>| #[trigger] new.link_at(q) == old.link_at(q) by {
        if q == target {
        } else if q == cp {
        } else {
            assert(new.node(q) == old.node(q));
        }
    }
    lemma_split_segments(path);
    lemma_canonical_same_links(&new, &old, pp, depth);
    let c2 = resolve_spec(&old, segments_of(pp), Seq::empty(), depth).unwrap();
    assert(path_text(c2) == cp);
    lemma_resolve_same_links(&new, &old, segments_of(pp), Seq::empty(), depth);
    lemma_resolve_concat(&new, segments_of(pp), seq![name], Seq::empty(), depth);
    assert(segments_of(path) =~= segments_of(pp) + seq![name]);
    lemma_segments_plain(pp);
    lemma_resolve_plain(&old, segments_of(pp), Seq::empty(), depth);
    lemma_path_text_push(c2, name);
    let next = c2.push(name);
    assert(seq![name][0] == name);
    assert(seq![name].drop_first() =~= Seq::<Seq<char>>::empty());
    assert(path_text(next) == target);
    assert(new.link_at(target) is None);
    assert(resolve_spec(&new, Seq::<Seq<char>>::empty(), next, depth) == Some(next));
    assert(resolve_spec(&new, seq![name], c2, depth) == Some(next));
}

/// Adding an entry keeps every file with its content
proof fn lemma_added_keeps_files(
    old: MemoryFilesystem,
    new: MemoryFilesystem,
    parent: Seq<char>,
    name: Seq<char>,
    v: NodeView,
)
    requires
        old.can_add(parent, name),
        added(old, new, parent, name, v),
    ensures
        old.contents().submap_of(new.contents()),
{
    assert forall|q: Seq<char>| #[trigger] old.contents().dom().contains(q) implies new.contents().dom().contains(
        q,
    ) && new.contents()[q] == old.contents()[q] by {
        assert(q != joined(parent, name));
        assert(q != parent);
        assert(new.node(q) == old.node(q));
    }
}

/// Entries that stay as they were keep every file with its content
proof fn lemma_same_nodes_keep_files(old: MemoryFilesystem, new: MemoryFilesystem)
    requires
        old.model() == new.model(),
    ensures
        old.contents() == new.contents(),
{
    assert(old.contents() =~= new.contents());
}

/// Appending to a sequence keeps its elements
proof fn lemma_push_grows(s: Seq<Seq<char>>, k: Seq<char>)
    ensures
        s.to_set().subset_of(s.push(k).to_set()),
{
    assert forall|x: Seq<char>| s.to_set().contains(x) implies s.push(k).to_set().contains(x) by {
        let i = choose|i: int| 0 <= i < s.len() && s[i] == x;
        assert(s.push(k)[i] == x);
    }
}

/// A copy of a list of strings
fn clone_strings(v: &Vec<String>) -> (r: Vec<String>)
    ensures
        strings_view(r@) == strings_view(v@),
{
    let mut r: Vec<String> = Vec::new();
    let mut i: usize = 0;
    while i < v.len()
        invariant
            i <= v@.len(),
            strings_view(r@) == strings_view(v@).take(i as int),
        decreases v@.len() - i,
    {
        let ghost prev = r@;
        r.push(v[i].clone());
        assert(strings_view(r@) =~= strings_view(prev).push(v@[i as int]@));
        assert(strings_view(r@) =~= strings_view(v@).take(i + 1));
        i += 1;
    }
    assert(strings_view(v@).take(v@.len() as int) =~= strings_view(v@));
    r
}

} // verus!
