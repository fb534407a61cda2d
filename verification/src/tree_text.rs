//! Drawings of directory trees, as `tree` prints them, read into the entries they show:
//!
//! ```text
//! /
//! ├── dir/
//! │   └── file
//! └── link -> /target
//! ```
use vstd::prelude::*;

use crate::text_util::{split_chars, split_on, string_of_range, strings_view};

verus! {

broadcast use vstd::string::group_string_axioms;

/// A character that draws the tree rather than naming an entry
pub open spec fn is_drawing(c: char) -> bool {
    c == '│' || c == '└' || c == '├' || c == '─' || c == ' '
}

/// A character that may appear in a name
pub open spec fn is_name_char(c: char) -> bool {
    c != '/' && c != ' '
}

/// The number of leading drawing characters
pub open spec fn drawing_run(s: Seq<char>) -> nat
    decreases s.len(),
{
    if s.len() > 0 && is_drawing(s[0]) {
        1 + drawing_run(s.drop_first())
    } else {
        0
    }
}

/// The number of leading name characters
pub open spec fn name_run(s: Seq<char>) -> nat
    decreases s.len(),
{
    if s.len() > 0 && is_name_char(s[0]) {
        1 + name_run(s.drop_first())
    } else {
        0
    }
}

/// The arrow before a symlink's target
pub open spec fn arrow() -> Seq<char> {
    seq![' ', '-', '>', ' ']
}

/// A line of a drawing: its indentation (counted in characters), the name, whether a `/`
/// follows, and the symlink target after ` -> `, if any; `None` for a line of another form
pub open spec fn tree_line(line: Seq<char>) -> Option<(nat, Seq<char>, bool, Option<Seq<char>>)> {
    let a = drawing_run(line) as int;
    let n = name_run(line.skip(a)) as int;
    let after_name = line.skip(a + n);
    let dir = after_name.len() > 0 && after_name[0] == '/';
    let after_dir = if dir {
        after_name.drop_first()
    } else {
        after_name
    };
    let name = line.subrange(a, a + n);
    if after_dir.len() == 0 {
        Some((a as nat, name, dir, None))
    } else if after_dir.len() >= 4 && after_dir.take(4) == arrow() {
        Some((a as nat, name, dir, Some(after_dir.skip(4))))
    } else {
        None
    }
}

/// A line as `str::lines` gives it: without a final carriage return
pub open spec fn strip_cr(piece: Seq<char>) -> Seq<char> {
    if piece.len() > 0 && piece.last() == '\r' {
        piece.drop_last()
    } else {
        piece
    }
}

/// The number of names kept for the levels of a drawing
pub const MAX_LEVELS: usize = 10;

/// The abstract value of a [`TreeEntry`]
pub struct TreeEntryView {
    pub path: Seq<char>,
    pub is_dir: bool,
    pub link_target: Option<Seq<char>>,
}

/// An entry shown in a drawing of a tree
#[derive(Debug, Clone, PartialEq, Eq)]
pub struct TreeEntry {
    /// Its absolute path
    pub path: String,
    /// Whether it is a directory
    pub is_dir: bool,
    /// Where it points to, if it is a symlink
    pub link_target: Option<String>,
}

impl View for TreeEntry {
    type V = TreeEntryView;

    open spec fn view(&self) -> TreeEntryView {
        TreeEntryView {
            path: self.path@,
            is_dir: self.is_dir,
            link_target: match self.link_target {
                Some(t) => Some(t@),
                None => None,
            },
        }
    }
}

/// The names joined by `/` (the root, `/`, when that leaves nothing)
pub open spec fn joined_path(names: Seq<Seq<char>>) -> Seq<char> {
    let p = join_slash(names);
    if p.len() == 0 {
        seq!['/']
    } else {
        p
    }
}

/// The names joined by `/`
pub open spec fn join_slash(names: Seq<Seq<char>>) -> Seq<char>
    decreases names.len(),
{
    if names.len() == 0 {
        Seq::empty()
    } else if names.len() == 1 {
        names[0]
    } else {
        join_slash(names.drop_last()) + seq!['/'] + names.last()
    }
}

/// The entries shown by the lines, with `parts` holding the names of the levels so far; `None`
/// if a line has another form or is indented too deeply
pub open spec fn tree_entries(lines: Seq<Seq<char>>, parts: Seq<Seq<char>>) -> Option<
    Seq<TreeEntryView>,
>
    decreases lines.len(),
{
    if lines.len() == 0 {
        Some(Seq::empty())
    } else {
        match tree_line(lines[0]) {
            None => None,
            Some((indent, name, dir, link)) => if name.len() == 0 && !dir {
                tree_entries(lines.drop_first(), parts)
            } else {
                let level = indent / 4;
                if level >= parts.len() {
                    None
                } else {
                    let parts2 = parts.update(level as int, name);
                    let entry = TreeEntryView {
                        path: joined_path(parts2.take(level + 1 as int)),
                        is_dir: dir && link is None,
                        link_target: link,
                    };
                    match tree_entries(lines.drop_first(), parts2) {
                        None => None,
                        Some(rest) => Some(seq![entry] + rest),
                    }
                }
            },
        }
    }
}

/// The entries a drawing of a tree shows, in the order of its lines
pub open spec fn parse_tree_spec(tree: Seq<char>) -> Option<Seq<TreeEntryView>> {
    tree_entries(
        split_on(tree, '\n').map_values(|p: Seq<char>| strip_cr(p)),
        Seq::new(MAX_LEVELS as nat, |i: int| Seq::<char>::empty()),
    )
}

/// Reads one line of a drawing
fn tree_line_exec(line: &[char]) -> (r: Option<(usize, String, bool, Option<String>)>)
    ensures
        match tree_line(line@) {
            None => r is None,
            Some((a, name, dir, link)) => r matches Some((a2, name2, dir2, link2)) && a2 == a
                && name2@ == name && dir2 == dir && match link {
                None => link2 is None,
                Some(t) => link2 matches Some(t2) && t2@ == t,
            },
        },
{
    let len = line.len();
    let mut a: usize = 0;
    assert(line@.skip(0) =~= line@);
    while a < len && (line[a] == '│' || line[a] == '└' || line[a] == '├' || line[a] == '─'
        || line[a] == ' ')
        invariant
            a <= len == line@.len(),
            drawing_run(line@) == a + drawing_run(line@.skip(a as int)),
        decreases len - a,
    {
        assert(line@.skip(a as int).drop_first() =~= line@.skip(a + 1));
        a += 1;
    }
    proof {
        if a < len {
            assert(line@.skip(a as int)[0] == line@[a as int]);
        }
    }
    let mut b = a;
    while b < len && line[b] != '/' && line[b] != ' '
        invariant
            a <= b <= len == line@.len(),
            name_run(line@.skip(a as int)) == (b - a) + name_run(line@.skip(b as int)),
        decreases len - b,
    {
        assert(line@.skip(b as int).drop_first() =~= line@.skip(b + 1));
        b += 1;
    }
    proof {
        if b < len {
            assert(line@.skip(b as int)[0] == line@[b as int]);
        }
    }
    let name = string_of_range(line, a, b);
    let dir = b < len && line[b] == '/';
    let c = if dir {
        b + 1
    } else {
        b
    };
    proof {
        assert(line@.skip(a + (b - a)) =~= line@.skip(b as int));
        if dir {
            assert(line@.skip(b as int).drop_first() =~= line@.skip(c as int));
        }
    }
    if c == len {
        return Some((a, name, dir, None));
    }
    if len - c >= 4 && line[c] == ' ' && line[c + 1] == '-' && line[c + 2] == '>' && line[c + 3]
        == ' ' {
        assert(line@.skip(c as int).take(4) =~= arrow());
        let target = string_of_range(line, c + 4, len);
        assert(target@ =~= line@.skip(c as int).skip(4));
        return Some((a, name, dir, Some(target)));
    }
    proof {
        let rest = line@.skip(c as int);
        if rest.len() >= 4 && rest.take(4) == arrow() {
            assert(rest.take(4)[0] == line@[c as int]);
            assert(rest.take(4)[1] == line@[c + 1]);
            assert(rest.take(4)[2] == line@[c + 2]);
            assert(rest.take(4)[3] == line@[c + 3]);
        }
    }
    None
}

/// The names joined by `/` (the root, `/`, when that leaves nothing)
fn joined_path_exec(names: &[String]) -> (r: String)
    ensures
        r@ == joined_path(strings_view(names@)),
{
    let mut s = String::new();
    let mut i: usize = 0;
    while i < names.len()
        invariant
            i <= names@.len(),
            s@ == join_slash(strings_view(names@).take(i as int)),
        decreases names@.len() - i,
    {
        let ghost sv = strings_view(names@);
        if i > 0 {
            crate::text_util::push_char(&mut s, '/');
        }
        crate::text_util::append_str(&mut s, names[i].as_str());
        proof {
            assert(sv.take(i + 1).drop_last() =~= sv.take(i as int));
            assert(sv.take(i + 1).last() == names@[i as int]@);
            if i == 0 {
                assert(s@ =~= sv.take(1)[0]);
            }
        }
        i += 1;
    }
    assert(strings_view(names@).take(names@.len() as int) =~= strings_view(names@));
    if crate::text_util::chars_of(s.as_str()).len() == 0 {
        let mut root = String::new();
        crate::text_util::push_char(&mut root, '/');
        assert(root@ =~= seq!['/']);
        root
    } else {
        s
    }
}

/// Reads a drawing of a tree into the entries it shows, in the order of its lines
pub fn parse_tree(tree: &str) -> (r: Result<Vec<TreeEntry>, String>)
    ensures
        match parse_tree_spec(tree@) {
            None => r is Err,
            Some(entries) => r matches Ok(v) && v@.map_values(|e: TreeEntry| e@) == entries,
        },
{
    let cs = crate::text_util::chars_of(tree);
    let pieces = split_chars(cs.as_slice(), '\n');
    let ghost lines = split_on(tree@, '\n').map_values(|p: Seq<char>| strip_cr(p));
    let mut parts: Vec<String> = Vec::new();
    let mut k: usize = 0;
    while k < MAX_LEVELS
        invariant
            k <= MAX_LEVELS,
            parts@.len() == k,
            forall|j: int| 0 <= j < k ==> (#[trigger] parts@[j])@ == Seq::<char>::empty(),
        decreases MAX_LEVELS - k,
    {
        parts.push(String::new());
        k += 1;
    }
    proof {
        assert(strings_view(parts@) =~= Seq::new(MAX_LEVELS as nat, |i: int| Seq::<char>::empty()));
    }
    let mut entries: Vec<TreeEntry> = Vec::new();
    let mut i: usize = 0;
    proof {
        assert(lines.skip(0) =~= lines);
        match tree_entries(lines, strings_view(parts@)) {
            None => {},
            Some(rest) => {
                assert(entries@.map_values(|e: TreeEntry| e@) + rest =~= rest);
            },
        }
    }
    while i < pieces.len()
        invariant
            i <= pieces@.len(),
            strings_view(pieces@) == split_on(tree@, '\n'),
            lines == split_on(tree@, '\n').map_values(|p: Seq<char>| strip_cr(p)),
            parts@.len() == MAX_LEVELS,
            parse_tree_spec(tree@) == match tree_entries(lines.skip(i as int), strings_view(parts@)) {
                None => None,
                Some(rest) => Some(entries@.map_values(|e: TreeEntry| e@) + rest),
            },
        decreases pieces@.len() - i,
    {
        let pcs = crate::text_util::chars_of(pieces[i].as_str());
        let plen = pcs.len();
        let line: &[char] = if plen > 0 && pcs[plen - 1] == '\r' {
            &pcs.as_slice()[0..plen - 1]
        } else {
            pcs.as_slice()
        };
        proof {
            assert(strings_view(pieces@)[i as int] == pieces@[i as int]@);
            assert(lines.skip(i as int)[0] == lines[i as int]);
            assert(line@ =~= strip_cr(pcs@));
            assert(lines.skip(i as int).drop_first() =~= lines.skip(i + 1));
        }
        match tree_line_exec(line) {
            None => {
                return Err("Bad line in tree drawing".to_owned());
            },
            Some((indent, name, dir, link)) => {
                let nlen = crate::text_util::chars_of(name.as_str()).len();
                let skip = nlen == 0 && !dir;
                if !skip {
                    let level = indent / 4;
                    if level >= parts.len() {
                        return Err("Tree drawing nests too deeply".to_owned());
                    }
                    let ghost before_parts = strings_view(parts@);
                    parts.set(level, name.clone());
                    proof {
                        assert(strings_view(parts@) =~= before_parts.update(level as int, name@));
                    }
                    let path = joined_path_exec(&parts.as_slice()[0..level + 1]);
                    proof {
                        assert(strings_view(parts@.subrange(0, level + 1)) =~= strings_view(
                            parts@,
                        ).take(level + 1));
                    }
                    let is_dir = dir && link.is_none();
                    let entry = TreeEntry { path, is_dir, link_target: link };
                    let ghost before = entries@.map_values(|e: TreeEntry| e@);
                    let ghost ev = entry@;
                    entries.push(entry);
                    proof {
                        assert(entries@.map_values(|e: TreeEntry| e@) =~= before.push(ev));
                        match tree_entries(lines.skip(i + 1), strings_view(parts@)) {
                            None => {},
                            Some(rest) => {
                                assert(before + (seq![ev] + rest) =~= before.push(ev) + rest);
                            },
                        }
                    }
                }
            },
        }
        i += 1;
    }
    proof {
        assert(lines.skip(i as int) =~= Seq::<Seq<char>>::empty());
        assert(entries@.map_values(|e: TreeEntry| e@) + Seq::<TreeEntryView>::empty()
            =~= entries@.map_values(|e: TreeEntry| e@));
    }
    Ok(entries)
}

} // verus!
