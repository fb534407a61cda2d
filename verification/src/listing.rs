//! A file system shown as lines of text: kind and permissions, owner, group, then the name,
//! indented two spaces per level, with the entries of each directory in name order.
use vstd::prelude::*;
use vstd::multiset::Multiset;

use crate::filesystem::Filesystem;
use crate::paths::{join, joined, segments, segments_of};
use crate::schema::{chars_le, chars_le_exec, lemma_chars_le_total, lemma_chars_le_transitive};
use crate::text_util::{append_str, chars_of, push_char, string_of, strings_view};

verus! {

broadcast use vstd::seq_lib::group_to_multiset_ensures;

/// How one permission shows: its letter when the bit is set
pub open spec fn flag(set: bool, c: char) -> char {
    if set {
        c
    } else {
        '-'
    }
}

/// How an execute permission shows: `special` when the special bit is set, otherwise `x` when
/// the bit is set
pub open spec fn exec_flag(special_set: bool, special: char, set: bool) -> char {
    if special_set {
        special
    } else {
        flag(set, 'x')
    }
}

/// The ten characters that show the kind and permissions of an entry, as `ls -l` shows them
pub open spec fn mode_text_spec(is_dir: bool, mode: u16) -> Seq<char> {
    seq![
        flag(is_dir, 'd'),
        flag(mode & 0o400u16 != 0, 'r'),
        flag(mode & 0o200u16 != 0, 'w'),
        exec_flag(mode & 0o4000u16 != 0, 's', mode & 0o100u16 != 0),
        flag(mode & 0o40u16 != 0, 'r'),
        flag(mode & 0o20u16 != 0, 'w'),
        exec_flag(mode & 0o2000u16 != 0, 's', mode & 0o10u16 != 0),
        flag(mode & 0o4u16 != 0, 'r'),
        flag(mode & 0o2u16 != 0, 'w'),
        exec_flag(mode & 0o1000u16 != 0, 't', mode & 0o1u16 != 0),
    ]
}

/// The character of a permission
fn flag_char(set: bool, c: char) -> (r: char)
    ensures
        r == flag(set, c),
{
    if set {
        c
    } else {
        '-'
    }
}

/// The character of an execute permission
fn exec_flag_char(special_set: bool, special: char, set: bool) -> (r: char)
    ensures
        r == exec_flag(special_set, special, set),
{
    if special_set {
        special
    } else {
        flag_char(set, 'x')
    }
}

/// The kind and permissions of an entry as ten characters
pub fn mode_text(is_dir: bool, mode: u16) -> (r: String)
    ensures
        r@ == mode_text_spec(is_dir, mode),
{
    let mut s = String::new();
    push_char(&mut s, flag_char(is_dir, 'd'));
    push_char(&mut s, flag_char(mode & 0o400u16 != 0, 'r'));
    push_char(&mut s, flag_char(mode & 0o200u16 != 0, 'w'));
    push_char(&mut s, exec_flag_char(mode & 0o4000u16 != 0, 's', mode & 0o100u16 != 0));
    push_char(&mut s, flag_char(mode & 0o40u16 != 0, 'r'));
    push_char(&mut s, flag_char(mode & 0o20u16 != 0, 'w'));
    push_char(&mut s, exec_flag_char(mode & 0o2000u16 != 0, 's', mode & 0o10u16 != 0));
    push_char(&mut s, flag_char(mode & 0o4u16 != 0, 'r'));
    push_char(&mut s, flag_char(mode & 0o2u16 != 0, 'w'));
    push_char(&mut s, exec_flag_char(mode & 0o1000u16 != 0, 't', mode & 0o1u16 != 0));
    assert(s@ =~= mode_text_spec(is_dir, mode));
    s
}

/// `n` spaces
pub open spec fn spaces(n: nat) -> Seq<char> {
    Seq::new(n, |i: int| ' ')
}

/// `s` with spaces after it up to `width` characters (as it is, if it is that long already)
pub open spec fn padded(s: Seq<char>, width: nat) -> Seq<char> {
    if s.len() >= width {
        s
    } else {
        s + spaces((width - s.len()) as nat)
    }
}

/// Appends `n` spaces
fn push_spaces(s: &mut String, n: usize)
    ensures
        final(s)@ == old(s)@ + spaces(n as nat),
{
    let mut i: usize = 0;
    while i < n
        invariant
            i <= n,
            s@ == old(s)@ + spaces(i as nat),
        decreases n - i,
    {
        push_char(s, ' ');
        assert(old(s)@ + spaces((i + 1) as nat) =~= (old(s)@ + spaces(i as nat)).push(' '));
        i += 1;
    }
}

/// Appends `t` padded to `width` characters
fn push_padded(s: &mut String, t: &str, width: usize)
    ensures
        final(s)@ == old(s)@ + padded(t@, width as nat),
{
    let n = chars_of(t).len();
    append_str(s, t);
    if n < width {
        push_spaces(s, width - n);
        assert(old(s)@ + t@ + spaces((width - n) as nat) =~= old(s)@ + padded(t@, width as nat));
    }
}

/// The line that shows one entry: kind and permissions, owner and group (each padded to ten
/// characters), the name indented two spaces per level of `depth` and followed by `/` for a
/// directory, and ` -> ` and the target for a symbolic link
pub open spec fn entry_line_spec(
    is_dir: bool,
    mode: u16,
    owner: Seq<char>,
    group: Seq<char>,
    depth: nat,
    name: Seq<char>,
    link: Option<Seq<char>>,
) -> Seq<char> {
    mode_text_spec(is_dir, mode) + seq![' '] + padded(owner, 10) + seq![' '] + padded(group, 10)
        + seq![' '] + spaces(2 * depth) + name + (if is_dir {
        seq!['/']
    } else {
        Seq::empty()
    }) + match link {
        Some(t) => seq![' ', '-', '>', ' '] + t,
        None => Seq::empty(),
    }
}

/// The line that shows one entry (see [`entry_line_spec`])
pub fn entry_line(
    is_dir: bool,
    mode: u16,
    owner: &str,
    group: &str,
    depth: usize,
    name: &str,
    link: Option<&str>,
) -> (r: String)
    requires
        depth <= MAX_LISTING_DEPTH,
    ensures
        r@ == entry_line_spec(
            is_dir,
            mode,
            owner@,
            group@,
            depth as nat,
            name@,
            match link {
                Some(t) => Some(t@),
                None => None,
            },
        ),
{
    let mut s = mode_text(is_dir, mode);
    push_char(&mut s, ' ');
    push_padded(&mut s, owner, 10);
    push_char(&mut s, ' ');
    push_padded(&mut s, group, 10);
    push_char(&mut s, ' ');
    push_spaces(&mut s, 2 * depth);
    append_str(&mut s, name);
    let ghost before_symbol = s@;
    if is_dir {
        push_char(&mut s, '/');
    }
    let ghost before_link = s@;
    if let Some(t) = link {
        append_str(&mut s, " -> ");
        append_str(&mut s, t);
        proof {
            reveal_strlit(" -> ");
            assert(" -> "@ =~= seq![' ', '-', '>', ' ']);
            assert(s@ =~= before_link + (seq![' ', '-', '>', ' '] + t@));
        }
    } else {
        assert(s@ =~= before_link + Seq::<char>::empty());
    }
    proof {
        if is_dir {
            assert(before_link =~= before_symbol + seq!['/']);
        } else {
            assert(before_link =~= before_symbol + Seq::<char>::empty());
        }
    }
    s
}

/// Whether names are in code point order
pub open spec fn names_sorted(s: Seq<String>) -> bool {
    forall|i: int, j: int| 0 <= i < j < s.len() ==> chars_le(#[trigger] s[i]@, #[trigger] s[j]@)
}

/// The names in code point order
pub fn sort_names(names: Vec<String>) -> (r: Vec<String>)
    ensures
        names_sorted(r@),
        r@.to_multiset() == names@.to_multiset(),
        strings_view(r@).to_multiset() == strings_view(names@).to_multiset(),
{
    let mut input = names;
    let mut out: Vec<String> = Vec::new();
    let ghost given = input@;
    proof {
        assert(strings_view(out@) =~= Seq::<Seq<char>>::empty());
        assert(strings_view(given).to_multiset() =~= strings_view(input@).to_multiset().add(
            strings_view(out@).to_multiset(),
        ));
    }
    while input.len() > 0
        invariant
            names_sorted(out@),
            given.to_multiset() == input@.to_multiset().add(out@.to_multiset()),
            strings_view(given).to_multiset() == strings_view(input@).to_multiset().add(
                strings_view(out@).to_multiset(),
            ),
        decreases input@.len(),
    {
        let ghost before_in = input@;
        let ghost before_out = out@;
        let item = input.pop().unwrap();
        proof {
            assert(before_in == input@.push(item));
            vstd::seq_lib::lemma_multiset_commutative(input@, seq![item]);
            assert(input@.push(item) =~= input@ + seq![item]);
            vstd::seq_lib::lemma_multiset_commutative(strings_view(input@), seq![item@]);
            assert(strings_view(before_in) =~= strings_view(input@) + seq![item@]);
        }
        let mut j: usize = 0;
        while j < out.len() && chars_le_exec(out[j].as_str(), item.as_str())
            invariant
                j <= out@.len(),
                out@ == before_out,
                names_sorted(out@),
                forall|k: int| 0 <= k < j ==> chars_le((#[trigger] out@[k])@, item@),
            decreases out@.len() - j,
        {
            j += 1;
        }
        proof {
            assert forall|k: int| j <= k < out@.len() implies chars_le(
                item@,
                (#[trigger] out@[k])@,
            ) by {
                lemma_chars_le_total(out@[j as int]@, item@);
                if j < k {
                    lemma_chars_le_transitive(item@, out@[j as int]@, out@[k]@);
                }
            }
        }
        let ghost item_g = item;
        out.insert(j, item);
        proof {
            vstd::seq_lib::to_multiset_insert(before_out, j as int, item_g);
            assert forall|a: int, b: int| 0 <= a < b < out@.len() implies chars_le(
                (#[trigger] out@[a])@,
                (#[trigger] out@[b])@,
            ) by {
                if a < j && b == j {
                } else if a == j && b > j {
                } else if a < j && b > j {
                    assert(out@[a] == before_out[a]);
                    assert(out@[b] == before_out[b - 1]);
                    lemma_chars_le_transitive(out@[a]@, item_g@, out@[b]@);
                } else if b < j {
                    assert(out@[a] == before_out[a]);
                    assert(out@[b] == before_out[b]);
                } else {
                    assert(out@[a] == before_out[a - 1]);
                    assert(out@[b] == before_out[b - 1]);
                }
            }
            assert(input@.to_multiset().add(before_out.to_multiset().insert(item_g))
                =~= before_in.to_multiset().add(before_out.to_multiset()));
            assert(strings_view(out@) =~= strings_view(before_out).insert(j as int, item_g@));
            vstd::seq_lib::to_multiset_insert(strings_view(before_out), j as int, item_g@);
            assert(strings_view(input@).to_multiset().add(
                strings_view(before_out).to_multiset().insert(item_g@),
            ) =~= strings_view(before_in).to_multiset().add(strings_view(before_out).to_multiset()));
        }
    }
    proof {
        assert(input@.to_multiset() =~= Multiset::empty());
        assert(strings_view(input@).to_multiset() =~= Multiset::empty());
    }
    out
}

/// How many levels below the listed path are shown
pub const MAX_LISTING_DEPTH: usize = 64;

/// The name an entry is shown under: the last segment of its path, unless that is `..`
pub open spec fn file_name_spec(path: Seq<char>) -> Option<Seq<char>> {
    let segs = segments_of(path);
    if segs.len() == 0 || segs.last() == seq!['.', '.'] {
        None
    } else {
        Some(segs.last())
    }
}

/// The name an entry is shown under
pub fn file_name(path: &str) -> (r: Option<String>)
    ensures
        match file_name_spec(path@) {
            Some(n) => r matches Some(s) && s@ == n,
            None => r is None,
        },
{
    let segs = segments(path);
    if segs.len() == 0 {
        return None;
    }
    let last = &segs[segs.len() - 1];
    let cs = chars_of(last.as_str());
    if cs.len() == 2 && cs[0] == '.' && cs[1] == '.' {
        assert(last@ =~= seq!['.', '.']);
        return None;
    }
    assert(last@ != seq!['.', '.']) by {
        if last@ == seq!['.', '.'] {
            assert(cs@.len() == 2 && cs@[0] == '.' && cs@[1] == '.');
        }
    }
    Some(string_of(cs.as_slice()))
}

/// The name an entry is shown under at `depth` levels below the listed path: the full path at
/// the top, the last segment below
pub open spec fn shown_name(path: Seq<char>, depth: nat) -> Seq<char> {
    if depth == 0 {
        path
    } else {
        file_name_spec(path).unwrap()
    }
}

/// Whether the names `cs` are the names `ns` in name order
pub open spec fn in_name_order(cs: Seq<Seq<char>>, ns: Seq<Seq<char>>) -> bool {
    &&& forall|i: int, j: int| 0 <= i < j < cs.len() ==> chars_le(#[trigger] cs[i], #[trigger] cs[j])
    &&& cs.to_multiset() == ns.to_multiset()
}

/// Whether `lines` show `path` at `depth` levels below the listed path, on a file system that
/// describes itself: a line for `path` with its kind, mode and link target (and some owner and
/// group), then, for a directory that is no link, the lines of each of its entries in name
/// order, one level deeper
pub open spec fn shows<FS: Filesystem>(fs: FS, path: Seq<char>, depth: nat, lines: Seq<Seq<char>>) -> bool
    decreases MAX_LISTING_DEPTH - depth,
{
    &&& lines.len() >= 1
    &&& fs.mode_at(path) is Some
    &&& file_name_spec(path) is Some
    &&& exists|owner: Seq<char>, group: Seq<char>|
        lines[0] == #[trigger] entry_line_spec(
            fs.dir_at(path),
            fs.mode_at(path).unwrap(),
            owner,
            group,
            depth,
            shown_name(path, depth),
            fs.link_at(path),
        )
    &&& if fs.link_at(path) is None && fs.dir_at(path) {
        &&& depth < MAX_LISTING_DEPTH
        &&& fs.listing_at(path) is Some
        &&& exists|cs: Seq<Seq<char>>, parts: Seq<Seq<Seq<char>>>|
            #![trigger in_name_order(cs, fs.listing_at(path).unwrap()), parts.flatten_alt()]
            {
                &&& in_name_order(cs, fs.listing_at(path).unwrap())
                &&& parts.len() == cs.len()
                &&& lines.drop_first() == parts.flatten_alt()
                &&& forall|i: int|
                    0 <= i < cs.len() ==> shows(fs, joined(path, cs[i]), depth + 1, #[trigger] parts[i])
            }
    } else {
        lines.len() == 1
    }
}

/// Whether `path` can be listed at `depth` levels below the listed path, on a file system that
/// describes itself: it has a file name and a mode, and, for a directory that is no link,
/// every entry can be listed one level deeper, within the depth allowed
pub open spec fn listable<FS: Filesystem>(fs: FS, path: Seq<char>, depth: nat) -> bool
    decreases MAX_LISTING_DEPTH - depth,
{
    &&& file_name_spec(path) is Some
    &&& fs.mode_at(path) is Some
    &&& fs.link_at(path) is None && fs.dir_at(path) ==> {
        &&& depth < MAX_LISTING_DEPTH
        &&& fs.listing_at(path) is Some
        &&& forall|n: Seq<char>| #[trigger]
            fs.listing_at(path).unwrap().contains(n) ==> listable(fs, joined(path, n), depth + 1)
    }
}

/// The lines that show `path` (with its full path) and, below a directory, every entry in
/// name order, one level deeper each (see [`entry_line_spec`]); a symbolic link is shown with
/// its target and not followed
pub fn tree_lines<FS: Filesystem>(fs: &FS, path: &str) -> (r: Result<Vec<String>, String>)
    ensures
        file_name_spec(path@) is None ==> r is Err,
        r matches Ok(lines) ==> lines@.len() >= 1 && exists|
            is_dir: bool,
            mode: u16,
            owner: Seq<char>,
            group: Seq<char>,
            link: Option<Seq<char>>,
        | lines@[0]@ == #[trigger] entry_line_spec(is_dir, mode, owner, group, 0, path@, link),
        fs.links_known() && fs.described() ==> (r matches Ok(lines) ==> shows(
            *fs,
            path@,
            0,
            strings_view(lines@),
        )),
        fs.links_known() && fs.described() && listable(*fs, path@, 0) ==> r is Ok,
{
    tree_lines_at(fs, path, 0)
}

/// The lines that show `path` and the entries below it, at `depth` levels below the listed
/// path
fn tree_lines_at<FS: Filesystem>(fs: &FS, path: &str, depth: usize) -> (r: Result<
    Vec<String>,
    String,
>)
    requires
        depth <= MAX_LISTING_DEPTH,
    ensures
        file_name_spec(path@) is None ==> r is Err,
        r matches Ok(lines) ==> lines@.len() >= 1 && exists|
            is_dir: bool,
            mode: u16,
            owner: Seq<char>,
            group: Seq<char>,
            link: Option<Seq<char>>,
        |
            lines@[0]@ == #[trigger] entry_line_spec(
                is_dir,
                mode,
                owner,
                group,
                depth as nat,
                shown_name(path@, depth as nat),
                link,
            ),
        fs.links_known() && fs.described() ==> (r matches Ok(lines) ==> shows(
            *fs,
            path@,
            depth as nat,
            strings_view(lines@),
        )),
        fs.links_known() && fs.described() && listable(*fs, path@, depth as nat) ==> r is Ok,
    decreases MAX_LISTING_DEPTH - depth,
{
    let name = match file_name(path) {
        Some(n) => n,
        None => {
            let mut msg = "No file name: ".to_owned();
            append_str(&mut msg, path);
            return Err(msg);
        },
    };
    let dir = fs.is_directory(path);
    let attrs = fs.attributes(path)?;
    let shown = if depth == 0 {
        path
    } else {
        name.as_str()
    };
    let mut lines: Vec<String> = Vec::new();
    match fs.read_link(path) {
        Ok(target) => {
            lines.push(
                entry_line(
                    dir,
                    attrs.mode.0,
                    attrs.owner.as_str(),
                    attrs.group.as_str(),
                    depth,
                    shown,
                    Some(target.as_str()),
                ),
            );
            proof {
                assert(shown@ == shown_name(path@, depth as nat));
                assert(lines@[0]@ == entry_line_spec(
                    dir,
                    attrs.mode.0,
                    attrs.owner@,
                    attrs.group@,
                    depth as nat,
                    shown_name(path@, depth as nat),
                    Some(target@),
                ));
            }
        },
        Err(_) => {
            lines.push(
                entry_line(
                    dir,
                    attrs.mode.0,
                    attrs.owner.as_str(),
                    attrs.group.as_str(),
                    depth,
                    shown,
                    None,
                ),
            );
            let ghost first = lines@[0];
            proof {
                assert(shown@ == shown_name(path@, depth as nat));
                assert(first@ == entry_line_spec(
                    dir,
                    attrs.mode.0,
                    attrs.owner@,
                    attrs.group@,
                    depth as nat,
                    shown_name(path@, depth as nat),
                    None,
                ));
            }
            if fs.is_directory(path) {
                if depth == MAX_LISTING_DEPTH {
                    let mut msg = "Listing nests too deeply at ".to_owned();
                    append_str(&mut msg, path);
                    return Err(msg);
                }
                let listed = fs.list_directory(path)?;
                let children = sort_names(listed);
                let ghost cs = strings_view(children@);
                let ghost parts: Seq<Seq<Seq<char>>> = Seq::empty();
                proof {
                    assert(strings_view(lines@) =~= seq![first@] + parts.flatten_alt());
                    if fs.links_known() && fs.described() && listable(*fs, path@, depth as nat) {
                        let ns = fs.listing_at(path@).unwrap();
                        assert(strings_view(listed@) == ns);
                        assert forall|i: int| 0 <= i < cs.len() implies listable(
                            *fs,
                            joined(path@, #[trigger] cs[i]),
                            depth as nat + 1,
                        ) by {
                            broadcast use vstd::seq_lib::group_to_multiset_ensures;
                            assert(cs.contains(cs[i]));
                            assert(cs.to_multiset().count(cs[i]) > 0);
                            assert(ns.contains(cs[i]));
                        }
                    }
                }
                let mut k: usize = 0;
                while k < children.len()
                    invariant
                        lines@.len() >= 1,
                        lines@[0] == first,
                        depth < MAX_LISTING_DEPTH,
                        cs == strings_view(children@),
                        k <= children@.len(),
                        parts.len() == k,
                        strings_view(lines@) == seq![first@] + parts.flatten_alt(),
                        fs.links_known() && fs.described() && listable(*fs, path@, depth as nat)
                            ==> forall|i: int|
                            0 <= i < cs.len() ==> listable(
                                *fs,
                                joined(path@, #[trigger] cs[i]),
                                depth as nat + 1,
                            ),
                        fs.links_known() && fs.described() ==> forall|i: int|
                            0 <= i < k ==> shows(
                                *fs,
                                joined(path@, cs[i]),
                                depth as nat + 1,
                                #[trigger] parts[i],
                            ),
                    decreases children@.len() - k,
                {
                    let child = join(path, children[k].as_str());
                    assert(cs[k as int] == children@[k as int]@);
                    let mut below = tree_lines_at(fs, child.as_str(), depth + 1)?;
                    let ghost below_view = strings_view(below@);
                    let ghost before = lines@;
                    lines.append(&mut below);
                    proof {
                        assert(strings_view(lines@) =~= strings_view(before) + below_view);
                        let p2 = parts.push(below_view);
                        assert(p2.drop_last() =~= parts);
                        assert(p2.flatten_alt() == parts.flatten_alt() + below_view);
                        assert(seq![first@] + p2.flatten_alt() =~= seq![first@] + parts.flatten_alt()
                            + below_view);
                        assert(cs[k as int] == children@[k as int]@);
                        parts = p2;
                    }
                    k += 1;
                }
                proof {
                    if fs.links_known() && fs.described() {
                        let ns = fs.listing_at(path@).unwrap();
                        assert(strings_view(listed@) == ns);
                        assert(in_name_order(cs, ns));
                        assert(strings_view(lines@).drop_first() =~= parts.flatten_alt());
                        assert(shows(*fs, path@, depth as nat, strings_view(lines@)));
                    }
                }
            } else {
                proof {
                    assert(strings_view(lines@) =~= seq![first@]);
                }
            }
        },
    }
    Ok(lines)
}

} // verus!
