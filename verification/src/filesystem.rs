//! The operations of a file system that a schema is applied to, with an in-memory
//! implementation ([`MemoryFilesystem`]).
use vstd::prelude::*;

use crate::attrs::{opt_view, Attrs, SetAttrs};
use crate::paths::{
    is_absolute, is_absolute_path, join, joined, keep_segment, lemma_segments_plain, path_from_segments,
    path_text, plain_segment, plain_segments, segments, segments_of, split, split_spec,
};
use crate::text_util::{str_eq, strings_view};

pub mod memory;
pub mod system;

pub use self::memory::MemoryFilesystem;

verus! {

/// Reading symbolic links, which is what resolving a path needs
pub trait Links {
    /// Whether [`Links::link_at`] says where this file system's links point; an
    /// implementation that does not say so promises nothing of its results
    closed spec fn links_known(&self) -> bool {
        false
    }

    /// Where the symbolic link at exactly this path points, or `None` where there is no link
    closed spec fn link_at(&self, path: Seq<char>) -> Option<Seq<char>> {
        None
    }

    /// Whether the path is a symbolic link
    fn is_link(&self, path: &str) -> (r: bool)
        ensures
            self.links_known() ==> r == self.link_at(path@) is Some,
    ;

    /// The path that the given symbolic link points to
    fn read_link(&self, path: &str) -> (r: Result<String, String>)
        ensures
            self.links_known() ==> match self.link_at(path@) {
                Some(t) => r matches Ok(s) && s@ == t,
                None => r is Err,
            },
    ;
}

/// The attributes asked for in a request: owner, group and mode, each where given
pub struct AttrsAsked {
    /// The owner's name
    pub owner: Option<Seq<char>>,
    /// The group's name
    pub group: Option<Seq<char>>,
    /// The permissions
    pub mode: Option<u16>,
}

/// The attributes asked for by `attrs`
pub open spec fn asked(attrs: SetAttrs) -> AttrsAsked {
    AttrsAsked {
        owner: opt_view(attrs.owner),
        group: opt_view(attrs.group),
        mode: match attrs.mode {
            Some(m) => Some(m.0),
            None => None,
        },
    }
}

/// A change asked of a file system, with the path and what was handed over with it
pub enum Request {
    /// A directory to be made
    Directory { path: Seq<char>, attrs: AttrsAsked },
    /// A file to be made, with its content
    File { path: Seq<char>, attrs: AttrsAsked, content: Seq<char> },
    /// A symbolic link to be made
    Symlink { path: Seq<char>, target: Seq<char> },
    /// Attributes to be set on what is there
    Attributes { path: Seq<char>, attrs: AttrsAsked },
}

/// Whether the final component of `path` names an entry: not empty, `.` or `..`
pub open spec fn names_entry(path: Seq<char>) -> bool {
    split_spec(path) matches Some((_, n)) && keep_segment(n) && n != seq!['.', '.']
}

/// Whether `p` is `path` or one of the parents that [`create_directory_all`] makes on the way
/// to it (the root aside)
pub open spec fn on_way_to(p: Seq<char>, path: Seq<char>) -> bool
    decreases path.len(),
{
    ||| p == path
    ||| split_spec(path) matches Some((parent, _)) && parent != seq!['/'] && parent.len()
        < path.len() && on_way_to(p, parent)
}

/// Whether every request of `log` from position `since` on asks for a directory on the way to
/// `path`, with the attributes `attrs`
pub open spec fn directories_on_way(
    log: Seq<Request>,
    since: int,
    path: Seq<char>,
    attrs: AttrsAsked,
) -> bool {
    forall|k: int| since <= k < log.len() ==> directory_on_way(#[trigger] log[k], path, attrs)
}

/// Whether `req` asks for a directory on the way to `path`, with the attributes `attrs`
pub open spec fn directory_on_way(req: Request, path: Seq<char>, attrs: AttrsAsked) -> bool {
    match req {
        Request::Directory { path: p, attrs: a } => a == attrs && on_way_to(p, path),
        _ => false,
    }
}

/// Whether, among the requests of `log` from position `since` on, each directory asked for lies
/// strictly on the way to every directory asked for after it: parents come first
pub open spec fn parents_first(log: Seq<Request>, since: int) -> bool {
    forall|j: int, k: int|
        #![trigger log[j], log[k]]
        since <= j < k < log.len() ==> (log[j] matches Request::Directory { path: a, .. } && log[k] matches Request::Directory { path: b, .. }
            ==> on_way_to(a, b) && a != b)
}

/// What lies on the way to a path is no longer than it
pub proof fn lemma_on_way_no_longer(p: Seq<char>, path: Seq<char>)
    requires
        on_way_to(p, path),
    ensures
        p.len() <= path.len(),
    decreases path.len(),
{
    if p != path {
        let (parent, _) = split_spec(path).unwrap();
        lemma_on_way_no_longer(p, parent);
    }
}

/// Whether `after` begins with all of `before`
pub open spec fn extends<T>(before: Seq<T>, after: Seq<T>) -> bool {
    &&& before.len() <= after.len()
    &&& forall|k: int| 0 <= k < before.len() ==> #[trigger] after[k] == before[k]
}

/// Operations of a file system
///
/// Nothing is ever removed: every operation keeps the paths that were there, and the content
/// of every file (as far as the implementation describes them).
pub trait Filesystem: Links {
    /// The paths that the file system holds (none that the proofs know of, for an
    /// implementation that does not say)
    closed spec fn paths(&self) -> Set<Seq<char>> {
        Set::empty()
    }

    /// The content of each file that the file system holds (none that the proofs know of, for
    /// an implementation that does not say)
    closed spec fn contents(&self) -> Map<Seq<char>, Seq<char>> {
        Map::empty()
    }

    /// Whether [`Filesystem::dir_at`], [`Filesystem::listing_at`] and [`Filesystem::mode_at`]
    /// describe this file system; an implementation that does not say so promises nothing of
    /// them
    closed spec fn described(&self) -> bool {
        false
    }

    /// Whether `path` leads to a directory
    closed spec fn dir_at(&self, path: Seq<char>) -> bool {
        false
    }

    /// The names of the entries of the directory that `path` leads to, if it leads to one
    closed spec fn listing_at(&self, path: Seq<char>) -> Option<Seq<Seq<char>>> {
        None
    }

    /// The mode of the file or directory that `path` leads to, if it leads to one
    closed spec fn mode_at(&self, path: Seq<char>) -> Option<u16> {
        None
    }

    /// Whether [`Filesystem::requests`] records the changes asked of this file system; an
    /// implementation that does not say so promises nothing of them
    closed spec fn records(&self) -> bool {
        false
    }

    /// The changes asked of this file system, in the order they were asked, whatever came of
    /// them
    closed spec fn requests(&self) -> Seq<Request> {
        Seq::empty()
    }

    /// Creates a directory at the given path, with any number of attributes set
    fn create_directory(&mut self, path: &str, attrs: SetAttrs) -> (r: Result<(), String>)
        ensures
            old(self).described() ==> final(self).described(),
            old(self).described() && r is Ok && names_entry(path@) ==> final(self).dir_at(path@),
            old(self).described() ==> forall|p: Seq<char>|
                #[trigger] old(self).dir_at(p) ==> final(self).dir_at(p),
            old(self).described() ==> forall|p: Seq<char>|
                #[trigger] old(self).listing_at(p) is Some ==> final(self).listing_at(p) is Some,
            old(self).described() ==> forall|p: Seq<char>, n: Seq<char>|
                old(self).listing_at(p) is Some && #[trigger] old(self).listing_at(p).unwrap().contains(n)
                    ==> final(self).listing_at(p) is Some && final(self).listing_at(p).unwrap().contains(n),
            old(self).records() ==> final(self).records() && final(self).requests() == old(
                self,
            ).requests().push(Request::Directory { path: path@, attrs: asked(attrs) }),
            old(self).paths().subset_of(final(self).paths()),
            old(self).contents().submap_of(final(self).contents()),
    ;

    /// Creates a file with the given content and any number of attributes set
    fn create_file(&mut self, path: &str, attrs: SetAttrs, content: String) -> (r: Result<
        (),
        String,
    >)
        ensures
            old(self).records() ==> final(self).records() && final(self).requests() == old(
                self,
            ).requests().push(Request::File { path: path@, attrs: asked(attrs), content: content@ }),
            old(self).paths().subset_of(final(self).paths()),
            old(self).contents().submap_of(final(self).contents()),
    ;

    /// Creates a symlink pointing to the given target
    fn create_symlink(&mut self, path: &str, target: &str) -> (r: Result<(), String>)
        ensures
            old(self).records() ==> final(self).records() && final(self).requests() == old(
                self,
            ).requests().push(Request::Symlink { path: path@, target: target@ }),
            old(self).paths().subset_of(final(self).paths()),
            old(self).contents().submap_of(final(self).contents()),
    ;

    /// Whether the path exists
    fn path_exists(&self, path: &str) -> (r: bool);

    /// Whether the path is a directory
    fn is_directory(&self, path: &str) -> (r: bool)
        ensures
            self.described() ==> r == self.dir_at(path@),
    ;

    /// Whether the path is a regular file
    fn is_file(&self, path: &str) -> (r: bool);

    /// The names of the entries of the given directory
    fn list_directory(&self, path: &str) -> (r: Result<Vec<String>, String>)
        ensures
            self.described() ==> match self.listing_at(path@) {
                Some(ns) => r matches Ok(v) && strings_view(v@) == ns,
                None => r is Err,
            },
    ;

    /// The contents of the given file
    fn read_file(&self, path: &str) -> (r: Result<String, String>);

    /// The attributes of the given file or directory (through any symlinks)
    fn attributes(&self, path: &str) -> (r: Result<Attrs, String>)
        ensures
            self.described() ==> match self.mode_at(path@) {
                Some(m) => r matches Ok(a) && a.mode.0 == m,
                None => r is Err,
            },
    ;

    /// Sets the attributes of the given file or directory (through any symlinks)
    fn set_attributes(&mut self, path: &str, attrs: SetAttrs) -> (r: Result<(), String>)
        ensures
            old(self).described() ==> final(self).described(),
            old(self).described() ==> forall|p: Seq<char>|
                #[trigger] old(self).dir_at(p) ==> final(self).dir_at(p),
            old(self).described() ==> forall|p: Seq<char>|
                #[trigger] old(self).listing_at(p) is Some ==> final(self).listing_at(p) is Some,
            old(self).described() ==> forall|p: Seq<char>, n: Seq<char>|
                old(self).listing_at(p) is Some && #[trigger] old(self).listing_at(p).unwrap().contains(n)
                    ==> final(self).listing_at(p) is Some && final(self).listing_at(p).unwrap().contains(n),
            old(self).records() ==> final(self).records() && final(self).requests() == old(
                self,
            ).requests().push(Request::Attributes { path: path@, attrs: asked(attrs) }),
            old(self).paths() == final(self).paths(),
            old(self).contents().submap_of(final(self).contents()),
    ;
}

/// Whether `after` still holds every path of `before`, and every file of `before` with the
/// same content; and, where `before` records requests, whether `after` does too, beginning
/// with those of `before`
pub open spec fn keeps<FS: Filesystem>(before: FS, after: FS) -> bool {
    &&& before.paths().subset_of(after.paths())
    &&& before.contents().submap_of(after.contents())
    &&& before.records() ==> after.records() && extends(before.requests(), after.requests())
}


/// Whether every directory of `before` is one of `after`, listing at least the same names
pub open spec fn grows<FS: Filesystem>(before: FS, after: FS) -> bool {
    &&& forall|p: Seq<char>| #[trigger] before.dir_at(p) ==> after.dir_at(p)
    &&& forall|p: Seq<char>| #[trigger] before.listing_at(p) is Some ==> after.listing_at(p) is Some
    &&& forall|p: Seq<char>, n: Seq<char>|
        before.listing_at(p) is Some && #[trigger] before.listing_at(p).unwrap().contains(n)
            ==> after.listing_at(p) is Some && after.listing_at(p).unwrap().contains(n)
}

/// Growing is transitive
pub proof fn lemma_grows_trans<FS: Filesystem>(a: FS, b: FS, c: FS)
    requires
        grows(a, b),
        grows(b, c),
    ensures
        grows(a, c),
{
    assert forall|p: Seq<char>| #[trigger] a.dir_at(p) implies c.dir_at(p) by {
        assert(b.dir_at(p));
    }
    assert forall|p: Seq<char>| #[trigger] a.listing_at(p) is Some implies c.listing_at(p) is Some by {
        assert(b.listing_at(p) is Some);
    }
    assert forall|p: Seq<char>, n: Seq<char>|
        a.listing_at(p) is Some && #[trigger] a.listing_at(p).unwrap().contains(n) implies c.listing_at(
        p,
    ) is Some && c.listing_at(p).unwrap().contains(n) by {
        assert(b.listing_at(p).unwrap().contains(n));
    }
}

/// Keeping is transitive
pub broadcast proof fn lemma_keeps_trans<FS: Filesystem>(a: FS, b: FS, c: FS)
    requires
        #[trigger] keeps(a, b),
        #[trigger] keeps(b, c),
    ensures
        keeps(a, c),
{
    vstd::map_lib::lemma_submap_of_trans(a.contents(), b.contents(), c.contents());
    if a.records() {
        assert forall|k: int| 0 <= k < a.requests().len() implies #[trigger] c.requests()[k]
            == a.requests()[k] by {
            assert(b.requests()[k] == a.requests()[k]);
        }
    }
}

/// Keeping, then one operation that keeps paths and files, is keeping
pub broadcast proof fn lemma_keeps_step<FS: Filesystem>(a: FS, b: FS, c: FS)
    requires
        #[trigger] keeps(a, b),
        b.paths().subset_of(c.paths()),
        #[trigger] b.contents().submap_of(c.contents()),
        b.records() ==> c.records() && extends(b.requests(), c.requests()),
    ensures
        keeps(a, c),
{
    lemma_keeps_trans(a, b, c);
}

/// One operation that keeps paths and files, then keeping, is keeping
pub broadcast proof fn lemma_step_keeps<FS: Filesystem>(a: FS, b: FS, c: FS)
    requires
        a.paths().subset_of(b.paths()),
        #[trigger] a.contents().submap_of(b.contents()),
        a.records() ==> b.records() && extends(a.requests(), b.requests()),
        #[trigger] keeps(b, c),
    ensures
        keeps(a, c),
{
    lemma_keeps_trans(a, b, c);
}

/// How many symbolic links are followed while resolving one path
pub const MAX_LINK_DEPTH: usize = 40;

/// Whether a string is `..`
fn is_parent_dir(s: &str) -> (r: bool)
    ensures
        r == (s@ == seq!['.', '.']),
{
    proof {
        reveal_strlit("..");
        assert(".."@ =~= seq!['.', '.']);
    }
    str_eq(s, "..")
}

/// The text of the canonical path that resolving ends with, if it ends with one
pub open spec fn finished(o: Option<Seq<Seq<char>>>) -> Option<Seq<char>> {
    match o {
        Some(c) => Some(path_text(c)),
        None => None,
    }
}

/// The canonical form of `path`: absolute, with every symbolic link on the way followed (at
/// most `depth` of them in a row) and every `..` taking away the segment before it; `None`
/// where the path is relative, climbs above the root or leads through too many links
pub open spec fn canonical_spec<FS: Links>(fs: &FS, path: Seq<char>, depth: nat) -> Option<
    Seq<char>,
>
    decreases depth, 1int, 0int,
{
    if !is_absolute_path(path) {
        None
    } else {
        finished(resolve_spec(fs, segments_of(path), Seq::empty(), depth))
    }
}

/// Resolves the segments `parts` one by one after the canonical segments `canon`
pub open spec fn resolve_spec<FS: Links>(
    fs: &FS,
    parts: Seq<Seq<char>>,
    canon: Seq<Seq<char>>,
    depth: nat,
) -> Option<Seq<Seq<char>>>
    decreases depth, 0int, parts.len(),
{
    if parts.len() == 0 {
        Some(canon)
    } else if parts[0] == seq!['.', '.'] {
        if canon.len() == 0 {
            None
        } else {
            resolve_spec(fs, parts.drop_first(), canon.drop_last(), depth)
        }
    } else {
        let next = canon.push(parts[0]);
        match fs.link_at(path_text(next)) {
            None => resolve_spec(fs, parts.drop_first(), next, depth),
            Some(link) => if depth == 0 {
                None
            } else {
                let combined = if is_absolute_path(link) {
                    link
                } else {
                    joined(path_text(canon), link)
                };
                match canonical_spec(fs, combined, (depth - 1) as nat) {
                    None => None,
                    Some(resolved) => resolve_spec(
                        fs,
                        parts.drop_first(),
                        segments_of(resolved),
                        depth,
                    ),
                }
            },
        }
    }
}

/// The path after following all symlinks, normalized and absolute; at most `depth` further
/// links are followed
pub fn canonicalize_within<FS: Links>(fs: &FS, path: &str, depth: usize) -> (r: Result<
    String,
    String,
>)
    ensures
        fs.links_known() ==> match canonical_spec(fs, path@, depth as nat) {
            Some(c) => r matches Ok(s) && s@ == c,
            None => r is Err,
        },
        !is_absolute_path(path@) ==> r is Err,
        r matches Ok(c) ==> is_absolute_path(c@),
    decreases depth,
{
    if !is_absolute(path) {
        return Err("Only absolute paths supported".to_owned());
    }
    let parts = segments(path);
    let ghost all = strings_view(parts@);
    let mut canon: Vec<String> = Vec::new();
    let mut i: usize = 0;
    proof {
        assert(all.skip(0) =~= all);
        assert(strings_view(canon@) =~= Seq::<Seq<char>>::empty());
    }
    while i < parts.len()
        invariant
            i <= parts@.len(),
            all == strings_view(parts@),
            all == segments_of(path@),
            is_absolute_path(path@),
            fs.links_known() ==> canonical_spec(fs, path@, depth as nat) == finished(
                resolve_spec(fs, all.skip(i as int), strings_view(canon@), depth as nat),
            ),
        decreases parts@.len() - i,
    {
        let ghost rest = all.skip(i as int);
        let ghost before = strings_view(canon@);
        proof {
            assert(rest[0] == parts@[i as int]@);
            assert(rest.drop_first() =~= all.skip(i + 1));
        }
        let part = &parts[i];
        if is_parent_dir(part.as_str()) {
            if canon.len() == 0 {
                return Err("Cannot go above the root directory".to_owned());
            }
            canon.pop();
            proof {
                assert(strings_view(canon@) =~= before.drop_last());
            }
        } else {
            canon.push(part.clone());
            proof {
                assert(strings_view(canon@) =~= before.push(rest[0]));
            }
            let current = path_from_segments(canon.as_slice());
            if fs.is_link(current.as_str()) {
                let link = fs.read_link(current.as_str())?;
                if depth == 0 {
                    return Err("Too many levels of symbolic links".to_owned());
                }
                let combined = if is_absolute(link.as_str()) {
                    link
                } else {
                    canon.pop();
                    proof {
                        assert(strings_view(canon@) =~= before);
                    }
                    let parent = path_from_segments(canon.as_slice());
                    join(parent.as_str(), link.as_str())
                };
                let resolved = canonicalize_within(fs, combined.as_str(), depth - 1)?;
                canon = segments(resolved.as_str());
            }
        }
        i += 1;
    }
    proof {
        assert(all.skip(i as int) =~= Seq::<Seq<char>>::empty());
    }
    let r = path_from_segments(canon.as_slice());
    proof {
        lemma_path_text_absolute(strings_view(canon@));
    }
    Ok(r)
}

/// Resolving depends on where links point and on nothing else
pub proof fn lemma_canonical_same_links<A: Links, B: Links>(
    a: &A,
    b: &B,
    path: Seq<char>,
    depth: nat,
)
    requires
        forall|q: Seq<char>| #[trigger] a.link_at(q) == b.link_at(q),
    ensures
        canonical_spec(a, path, depth) == canonical_spec(b, path, depth),
    decreases depth, 1int, 0int,
{
    lemma_resolve_same_links(a, b, segments_of(path), Seq::empty(), depth);
}

/// Resolving segments depends on where links point and on nothing else
pub proof fn lemma_resolve_same_links<A: Links, B: Links>(
    a: &A,
    b: &B,
    parts: Seq<Seq<char>>,
    canon: Seq<Seq<char>>,
    depth: nat,
)
    requires
        forall|q: Seq<char>| #[trigger] a.link_at(q) == b.link_at(q),
    ensures
        resolve_spec(a, parts, canon, depth) == resolve_spec(b, parts, canon, depth),
    decreases depth, 0int, parts.len(),
{
    if parts.len() > 0 {
        if parts[0] == seq!['.', '.'] {
            if canon.len() > 0 {
                lemma_resolve_same_links(a, b, parts.drop_first(), canon.drop_last(), depth);
            }
        } else {
            let next = canon.push(parts[0]);
            assert(a.link_at(path_text(next)) == b.link_at(path_text(next)));
            match a.link_at(path_text(next)) {
                None => lemma_resolve_same_links(a, b, parts.drop_first(), next, depth),
                Some(link) => if depth > 0 {
                    let combined = if is_absolute_path(link) {
                        link
                    } else {
                        joined(path_text(canon), link)
                    };
                    lemma_canonical_same_links(a, b, combined, (depth - 1) as nat);
                    if let Some(resolved) = canonical_spec(a, combined, (depth - 1) as nat) {
                        lemma_resolve_same_links(
                            a,
                            b,
                            parts.drop_first(),
                            segments_of(resolved),
                            depth,
                        );
                    }
                },
            }
        }
    }
}

/// Resolving segments in two runs: the second run starts where the first ended
pub proof fn lemma_resolve_concat<FS: Links>(
    fs: &FS,
    first: Seq<Seq<char>>,
    second: Seq<Seq<char>>,
    canon: Seq<Seq<char>>,
    depth: nat,
)
    ensures
        resolve_spec(fs, first + second, canon, depth) == match resolve_spec(
            fs,
            first,
            canon,
            depth,
        ) {
            Some(c) => resolve_spec(fs, second, c, depth),
            None => None,
        },
    decreases first.len(),
{
    if first.len() == 0 {
        assert(first + second =~= second);
    } else {
        let all = first + second;
        assert(all[0] == first[0]);
        assert(all.drop_first() =~= first.drop_first() + second);
        if first[0] == seq!['.', '.'] {
            if canon.len() > 0 {
                lemma_resolve_concat(fs, first.drop_first(), second, canon.drop_last(), depth);
            }
        } else {
            let next = canon.push(first[0]);
            match fs.link_at(path_text(next)) {
                None => lemma_resolve_concat(fs, first.drop_first(), second, next, depth),
                Some(link) => if depth > 0 {
                    let combined = if is_absolute_path(link) {
                        link
                    } else {
                        joined(path_text(canon), link)
                    };
                    if let Some(resolved) = canonical_spec(fs, combined, (depth - 1) as nat) {
                        lemma_resolve_concat(
                            fs,
                            first.drop_first(),
                            second,
                            segments_of(resolved),
                            depth,
                        );
                    }
                },
            }
        }
    }
}

/// Resolving plain segments after plain canonical ones ends with plain segments
pub proof fn lemma_resolve_plain<FS: Links>(
    fs: &FS,
    parts: Seq<Seq<char>>,
    canon: Seq<Seq<char>>,
    depth: nat,
)
    requires
        plain_segments(parts),
        plain_segments(canon),
    ensures
        resolve_spec(fs, parts, canon, depth) matches Some(c) ==> plain_segments(c),
    decreases parts.len(),
{
    if parts.len() > 0 {
        let rest = parts.drop_first();
        assert(plain_segments(rest)) by {
            assert forall|i: int| 0 <= i < rest.len() implies #[trigger] plain_segment(rest[i]) by {
                assert(rest[i] == parts[i + 1]);
            }
        }
        if parts[0] == seq!['.', '.'] {
            if canon.len() > 0 {
                let shorter = canon.drop_last();
                assert(plain_segments(shorter)) by {
                    assert forall|i: int| 0 <= i < shorter.len() implies #[trigger] plain_segment(
                        shorter[i],
                    ) by {
                        assert(shorter[i] == canon[i]);
                    }
                }
                lemma_resolve_plain(fs, rest, shorter, depth);
            }
        } else {
            let next = canon.push(parts[0]);
            assert(plain_segments(next)) by {
                assert forall|i: int| 0 <= i < next.len() implies #[trigger] plain_segment(next[i]) by {
                    if i < canon.len() {
                        assert(next[i] == canon[i]);
                    } else {
                        assert(plain_segment(parts[0]));
                    }
                }
            }
            match fs.link_at(path_text(next)) {
                None => lemma_resolve_plain(fs, rest, next, depth),
                Some(link) => if depth > 0 {
                    let combined = if is_absolute_path(link) {
                        link
                    } else {
                        joined(path_text(canon), link)
                    };
                    if let Some(resolved) = canonical_spec(fs, combined, (depth - 1) as nat) {
                        lemma_segments_plain(resolved);
                        lemma_resolve_plain(fs, rest, segments_of(resolved), depth);
                    }
                },
            }
        }
    }
}

/// The text of a path made of segments is absolute
pub proof fn lemma_path_text_absolute(segs: Seq<Seq<char>>)
    ensures
        is_absolute_path(crate::paths::path_text(segs)),
    decreases segs.len(),
{
    if segs.len() > 1 {
        lemma_path_text_absolute(segs.drop_last());
    }
}

/// The path after following all symlinks, normalized and absolute
pub fn canonicalize<FS: Links>(fs: &FS, path: &str) -> (r: Result<String, String>)
    ensures
        fs.links_known() ==> match canonical_spec(fs, path@, MAX_LINK_DEPTH as nat) {
            Some(c) => r matches Ok(s) && s@ == c,
            None => r is Err,
        },
        !is_absolute_path(path@) ==> r is Err,
        r matches Ok(c) ==> is_absolute_path(c@),
{
    canonicalize_within(fs, path, MAX_LINK_DEPTH)
}

/// Creates a directory and all of its missing parents
pub fn create_directory_all<FS: Filesystem>(fs: &mut FS, path: &str, attrs: SetAttrs) -> (r:
    Result<(), String>)
    ensures
        keeps(*old(fs), *final(fs)),
        old(fs).records() ==> directories_on_way(
            final(fs).requests(),
            old(fs).requests().len() as int,
            path@,
            asked(attrs),
        ),
        old(fs).records() ==> parents_first(final(fs).requests(), old(fs).requests().len() as int),
        old(fs).described() ==> final(fs).described() && grows(*old(fs), *final(fs)),
        old(fs).described() && r is Ok ==> forall|p: Seq<char>|
            #[trigger] on_way_to(p, path@) && names_entry(p) ==> final(fs).dir_at(p),
    decreases path@.len(),
{
    let ghost asked_attrs = asked(attrs);
    if let Some((parent, _name)) = split(path) {
        proof {
            lemma_split_shorter(path@);
            reveal_strlit("/");
            assert("/"@ =~= seq!['/']);
        }
        if !str_eq(parent.as_str(), "/") {
            let ghost before = *fs;
            let sub = create_directory_all(fs, parent.as_str(), attrs.duplicate());
            proof {
                if before.records() {
                    assert forall|k: int|
                        before.requests().len() <= k < fs.requests().len() implies directory_on_way(
                        #[trigger] fs.requests()[k],
                        path@,
                        asked_attrs,
                    ) && !(fs.requests()[k] matches Request::Directory { path: p, .. } && p == path@) by {
                        if let Request::Directory { path: p, attrs: a } = fs.requests()[k] {
                            assert(on_way_to(p, parent@));
                            lemma_on_way_no_longer(p, parent@);
                        }
                    }
                }
            }
            sub?;
        }
    }
    let ghost middle = *fs;
    if !fs.is_directory(path) {
        let r = fs.create_directory(path, attrs);
        proof {
            lemma_keeps_trans(*old(fs), middle, *fs);
            if old(fs).records() {
                let log = fs.requests();
                let since = old(fs).requests().len() as int;
                assert forall|j: int, k: int|
                    #![trigger log[j], log[k]]
                    since <= j < k < log.len() implies (log[j] matches Request::Directory { path: a, .. } && log[k] matches Request::Directory { path: b, .. }
                        ==> on_way_to(a, b) && a != b) by {
                    assert(log[j] == middle.requests()[j]);
                    if k < log.len() - 1 {
                        assert(log[k] == middle.requests()[k]);
                    } else if let Request::Directory { path: a, .. } = log[j] {
                        assert(directory_on_way(middle.requests()[j], path@, asked_attrs));
                        let (parent, _) = split_spec(path@).unwrap();
                        assert(on_way_to(a, parent));
                        lemma_on_way_no_longer(a, parent);
                    }
                }
            }
            if old(fs).described() {
                lemma_grows_trans(*old(fs), middle, *fs);
            }
            if old(fs).records() {
                let log = fs.requests();
                assert(log[log.len() - 1] == Request::Directory { path: path@, attrs: asked_attrs });
                assert forall|k: int|
                    old(fs).requests().len() <= k < log.len() implies directory_on_way(
                        #[trigger] log[k],
                        path@,
                        asked_attrs,
                    ) by {
                    if k < log.len() - 1 {
                        assert(log[k] == middle.requests()[k]);
                    }
                }
            }
        }
        r?;
    }
    proof {
        if old(fs).described() {
            assert forall|p: Seq<char>| #[trigger] on_way_to(p, path@) && names_entry(p) implies fs.dir_at(
                p,
            ) by {
                if p != path@ {
                    let (parent, _) = split_spec(path@).unwrap();
                    assert(on_way_to(p, parent));
                    assert(middle.dir_at(p));
                }
            }
        }
    }
    Ok(())
}

/// The parent of a split path is the root or shorter than the path
pub proof fn lemma_split_shorter(s: Seq<char>)
    ensures
        split_spec(s) matches Some((p, n)) ==> p == seq!['/'] || p.len() < s.len(),
{
    lemma_last_slash_in(s);
}

/// The last `/` of a sequence is within it
pub proof fn lemma_last_slash_in(s: Seq<char>)
    ensures
        crate::paths::last_slash(s) matches Some(i) ==> 0 <= i < s.len(),
    decreases s.len(),
{
    if s.len() > 0 && s.last() != '/' {
        lemma_last_slash_in(s.drop_last());
    }
}

} // verus!
