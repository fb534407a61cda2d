//! Absolute paths held as text: their segments, splitting off the final component, joining,
//! and paths planted in a [`Root`].
use vstd::prelude::*;

use crate::text_util::{
    chars_of, lemma_split_on_pieces, lemma_split_on_tail, push_char, split_chars, split_on,
    string_of_range, strings_view,
};

verus! {

broadcast use vstd::string::group_string_axioms;

/// Whether a piece between separators stays in a path's segments (empty pieces and `.` do not)
pub open spec fn keep_segment(x: Seq<char>) -> bool {
    x.len() > 0 && x != seq!['.']
}

/// The pieces that stay, in order
pub open spec fn kept(parts: Seq<Seq<char>>) -> Seq<Seq<char>>
    decreases parts.len(),
{
    if parts.len() == 0 {
        Seq::empty()
    } else {
        let r = kept(parts.drop_last());
        if keep_segment(parts.last()) {
            r.push(parts.last())
        } else {
            r
        }
    }
}

/// The segments of a path: the pieces between `/` separators, without empty pieces and `.`
pub open spec fn segments_of(s: Seq<char>) -> Seq<Seq<char>> {
    kept(split_on(s, '/'))
}

/// Whether a segment is non-empty and free of `/`
pub open spec fn plain_segment(x: Seq<char>) -> bool {
    x.len() > 0 && forall|j: int| 0 <= j < x.len() ==> x[j] != '/'
}

/// Whether every segment is plain
pub open spec fn plain_segments(c: Seq<Seq<char>>) -> bool {
    forall|i: int| 0 <= i < c.len() ==> #[trigger] plain_segment(c[i])
}

/// The segments of any text are plain
pub proof fn lemma_segments_plain(s: Seq<char>)
    ensures
        plain_segments(segments_of(s)),
{
    lemma_split_on_pieces(s, '/');
    lemma_kept_plain(split_on(s, '/'));
}

/// Keeping the pieces free of `/` keeps plain segments
proof fn lemma_kept_plain(parts: Seq<Seq<char>>)
    requires
        forall|i: int, j: int|
            0 <= i < parts.len() && 0 <= j < parts[i].len() ==> #[trigger] parts[i][j] != '/',
    ensures
        plain_segments(kept(parts)),
    decreases parts.len(),
{
    if parts.len() > 0 {
        let p0 = parts.drop_last();
        assert forall|i: int, j: int| 0 <= i < p0.len() && 0 <= j < p0[i].len() implies #[trigger] p0[i][j]
            != '/' by {
            assert(p0[i][j] == parts[i][j]);
        }
        lemma_kept_plain(p0);
        if keep_segment(parts.last()) {
            assert forall|j: int| 0 <= j < parts.last().len() implies parts.last()[j] != '/' by {
                assert(parts[parts.len() - 1][j] != '/');
            }
        }
    }
}

/// Appending a plain segment to a path made of plain segments adds one separator and it
pub proof fn lemma_path_text_push(c: Seq<Seq<char>>, n: Seq<char>)
    requires
        plain_segments(c),
    ensures
        path_text(c.push(n)) == joined(path_text(c), n),
{
    if c.len() == 0 {
        assert(c.push(n)[0] == n);
        assert(path_text(c.push(n)) == seq!['/'] + n);
    } else {
        assert(c.push(n).drop_last() =~= c);
        assert(plain_segment(c[c.len() - 1]));
        lemma_path_text_last(c);
        assert(c.last()[c.last().len() - 1] != '/');
    }
}

/// A path made of segments ends with the last segment
proof fn lemma_path_text_last(c: Seq<Seq<char>>)
    requires
        c.len() > 0,
        c.last().len() > 0,
    ensures
        path_text(c).len() > 0,
        path_text(c).last() == c.last().last(),
{
}

/// The last `/` is a `/`, and none comes after it
pub proof fn lemma_last_slash(s: Seq<char>)
    ensures
        last_slash(s) matches Some(i) ==> 0 <= i < s.len() && s[i] == '/' && forall|j: int|
            i < j < s.len() ==> s[j] != '/',
    decreases s.len(),
{
    if s.len() > 0 && s.last() != '/' {
        lemma_last_slash(s.drop_last());
        if let Some(i) = last_slash(s) {
            assert forall|j: int| i < j < s.len() implies s[j] != '/' by {
                if j < s.len() - 1 {
                    assert(s.drop_last()[j] == s[j]);
                }
            }
        }
    }
}

/// Splitting off a kept final component: the path's segments are the parent's and that
/// component, which is plain
pub proof fn lemma_split_segments(s: Seq<char>)
    ensures
        split_spec(s) matches Some((parent, name)) ==> {
            &&& keep_segment(name) ==> segments_of(s) == segments_of(parent).push(name)
            &&& forall|j: int| 0 <= j < name.len() ==> name[j] != '/'
            &&& is_absolute_path(parent) ==> is_absolute_path(s)
        },
{
    lemma_last_slash(s);
    if let Some(i) = last_slash(s) {
        let a = s.take(i);
        let name = s.skip(i + 1);
        assert(s =~= a + seq!['/'] + name);
        if keep_segment(name) {
            let x = a + seq!['/'];
            lemma_split_on_tail(x, name, '/');
            assert(x.drop_last() =~= a);
            assert(split_on(x, '/') == split_on(a, '/').push(Seq::empty()));
            assert(Seq::<char>::empty() + name =~= name);
            assert(split_on(x + name, '/') =~= split_on(a, '/').push(name));
            assert(split_on(a, '/').push(name).drop_last() =~= split_on(a, '/'));
            assert(x + name =~= s);
            if i == 0 {
                assert(a =~= Seq::<char>::empty());
                assert(seq!['/'].drop_last() =~= Seq::<char>::empty());
                assert(split_on(seq!['/'], '/') =~= seq![Seq::<char>::empty(), Seq::<char>::empty()]);
                assert(split_on(seq!['/'], '/').drop_last() =~= seq![Seq::<char>::empty()]);
                let p1 = seq![Seq::<char>::empty()];
                assert(p1.drop_last() =~= Seq::<Seq<char>>::empty());
                assert(kept(p1.drop_last()) =~= Seq::<Seq<char>>::empty());
                assert(p1.last().len() == 0);
                assert(kept(p1) =~= Seq::<Seq<char>>::empty());
                assert(kept(split_on(seq!['/'], '/')) =~= Seq::<Seq<char>>::empty());
            }
        }
    }
}

/// The last `/` of a text that ends with `/` and a piece free of `/` is that one
proof fn lemma_last_slash_before(x: Seq<char>, n: Seq<char>)
    requires
        forall|j: int| 0 <= j < n.len() ==> n[j] != '/',
    ensures
        last_slash(x + seq!['/'] + n) == Some(x.len() as int),
    decreases n.len(),
{
    let s = x + seq!['/'] + n;
    if n.len() == 0 {
        assert(s.last() == '/');
    } else {
        assert(s.last() == n.last());
        assert(s.drop_last() =~= x + seq!['/'] + n.drop_last());
        lemma_last_slash_before(x, n.drop_last());
    }
}

/// The text of the root path has no segments
proof fn lemma_root_segments()
    ensures
        segments_of(seq!['/']) == Seq::<Seq<char>>::empty(),
{
    assert(seq!['/'].drop_last() =~= Seq::<char>::empty());
    assert(seq!['/'].last() == '/');
    assert(split_on(Seq::<char>::empty(), '/') == seq![Seq::<char>::empty()]);
    assert(split_on(seq!['/'], '/') =~= seq![Seq::<char>::empty(), Seq::<char>::empty()]);
    assert(split_on(seq!['/'], '/').drop_last() =~= seq![Seq::<char>::empty()]);
    let p1 = seq![Seq::<char>::empty()];
    assert(p1.drop_last() =~= Seq::<Seq<char>>::empty());
    assert(kept(p1.drop_last()) =~= Seq::<Seq<char>>::empty());
    assert(p1.last().len() == 0);
    assert(kept(p1) =~= Seq::<Seq<char>>::empty());
}

/// The segments of the path made of segments that are kept and plain are those segments
proof fn lemma_segments_of_path_text(c: Seq<Seq<char>>)
    requires
        plain_segments(c),
        forall|i: int| 0 <= i < c.len() ==> #[trigger] keep_segment(c[i]),
    ensures
        segments_of(path_text(c)) == c,
    decreases c.len(),
{
    if c.len() == 0 {
        lemma_root_segments();
    } else {
        let c0 = c.drop_last();
        let n = c.last();
        assert(plain_segment(c[c.len() - 1]));
        assert(keep_segment(c[c.len() - 1]));
        assert forall|i: int| 0 <= i < c0.len() implies #[trigger] plain_segment(c0[i]) by {
            assert(plain_segment(c[i]));
        }
        assert forall|i: int| 0 <= i < c0.len() implies #[trigger] keep_segment(c0[i]) by {
            assert(keep_segment(c[i]));
        }
        lemma_segments_of_path_text(c0);
        assert(c0.push(n) =~= c);
        lemma_path_text_push(c0, n);
        let b = path_text(c0);
        let s = path_text(c);
        if c0.len() == 0 {
            assert(s =~= Seq::<char>::empty() + seq!['/'] + n);
            lemma_last_slash_before(Seq::<char>::empty(), n);
            assert(split_spec(s) == Some((seq!['/'], n))) by {
                assert(s.skip(1) =~= n);
            }
        } else {
            assert(b.len() > 0 && b.last() != '/') by {
                lemma_path_text_last(c0);
                assert(plain_segment(c0[c0.len() - 1]));
                assert(c0.last()[c0.last().len() - 1] != '/');
            }
            assert(s =~= b + seq!['/'] + n);
            lemma_last_slash_before(b, n);
            assert(split_spec(s) == Some((b, n))) by {
                assert(s.take(b.len() as int) =~= b);
                assert(s.skip(b.len() as int + 1) =~= n);
                assert(b.len() > 0);
            }
        }
        lemma_split_segments(s);
    }
}

/// Normalizing a path is idempotent: the path made of its segments has the same segments
/// (no empty segment, no `.`)
pub proof fn lemma_normal_form_idempotent(p: Seq<char>)
    ensures
        segments_of(path_text(segments_of(p))) == segments_of(p),
{
    lemma_segments_plain(p);
    lemma_kept_keeps(split_on(p, '/'));
    lemma_segments_of_path_text(segments_of(p));
}

/// The path made of all but the last segment of `p` has exactly those segments
pub proof fn lemma_parent_segments(p: Seq<char>)
    requires
        segments_of(p).len() > 0,
    ensures
        segments_of(path_text(segments_of(p).drop_last())) == segments_of(p).drop_last(),
{
    let segs = segments_of(p);
    let c = segs.drop_last();
    lemma_segments_plain(p);
    lemma_kept_keeps(split_on(p, '/'));
    assert forall|i: int| 0 <= i < c.len() implies #[trigger] plain_segment(c[i]) by {
        assert(c[i] == segs[i]);
    }
    assert forall|i: int| 0 <= i < c.len() implies #[trigger] keep_segment(c[i]) by {
        assert(c[i] == segs[i]);
    }
    lemma_segments_of_path_text(c);
}

/// What is kept is kept
proof fn lemma_kept_keeps(parts: Seq<Seq<char>>)
    ensures
        forall|i: int| 0 <= i < kept(parts).len() ==> #[trigger] keep_segment(kept(parts)[i]),
    decreases parts.len(),
{
    if parts.len() > 0 {
        let r = kept(parts.drop_last());
        lemma_kept_keeps(parts.drop_last());
        if keep_segment(parts.last()) {
            assert forall|i: int| 0 <= i < kept(parts).len() implies #[trigger] keep_segment(
                kept(parts)[i],
            ) by {
                if i < r.len() {
                    assert(kept(parts)[i] == r[i]);
                    assert(keep_segment(r[i]));
                }
            }
        }
    }
}

/// Whether a path is absolute (starts with `/`)
pub open spec fn is_absolute_path(s: Seq<char>) -> bool {
    s.len() > 0 && s[0] == '/'
}

/// The text of the absolute path made of the given segments
pub open spec fn path_text(segs: Seq<Seq<char>>) -> Seq<char>
    decreases segs.len(),
{
    if segs.len() == 0 {
        seq!['/']
    } else if segs.len() == 1 {
        seq!['/'] + segs[0]
    } else {
        path_text(segs.drop_last()) + seq!['/'] + segs.last()
    }
}

/// Whether `path` lies within `base`, comparing whole segments
pub open spec fn path_starts_with(path: Seq<char>, base: Seq<char>) -> bool {
    &&& is_absolute_path(path) == is_absolute_path(base)
    &&& segments_of(base).len() <= segments_of(path).len()
    &&& segments_of(path).take(segments_of(base).len() as int) == segments_of(base)
}

/// The position of the last `/` in `s`, if any
pub open spec fn last_slash(s: Seq<char>) -> Option<int>
    decreases s.len(),
{
    if s.len() == 0 {
        None
    } else if s.last() == '/' {
        Some(s.len() - 1)
    } else {
        last_slash(s.drop_last())
    }
}

/// Splits a path at its last `/` into the parent (`/` when that is all there is) and the
/// final component
pub open spec fn split_spec(s: Seq<char>) -> Option<(Seq<char>, Seq<char>)> {
    match last_slash(s) {
        None => None,
        Some(i) => Some(
            (
                if i == 0 {
                    seq!['/']
                } else {
                    s.take(i)
                },
                s.skip(i + 1),
            ),
        ),
    }
}

/// `base` with one more component `name` after a separator
pub open spec fn joined(base: Seq<char>, name: Seq<char>) -> Seq<char> {
    if base.len() > 0 && base.last() == '/' {
        base + name
    } else {
        base + seq!['/'] + name
    }
}

/// Whether a path is absolute
pub fn is_absolute(path: &str) -> (r: bool)
    ensures
        r == is_absolute_path(path@),
{
    let cs = chars_of(path);
    cs.len() > 0 && cs[0] == '/'
}

/// The segments of a path
pub fn segments(path: &str) -> (r: Vec<String>)
    ensures
        strings_view(r@) == segments_of(path@),
{
    let cs = chars_of(path);
    let parts = split_chars(cs.as_slice(), '/');
    let mut r: Vec<String> = Vec::new();
    let mut i: usize = 0;
    while i < parts.len()
        invariant
            i <= parts@.len(),
            strings_view(parts@) == split_on(path@, '/'),
            strings_view(r@) == kept(strings_view(parts@).take(i as int)),
        decreases parts@.len() - i,
    {
        let ghost pv = strings_view(parts@);
        assert(pv.take(i + 1).drop_last() =~= pv.take(i as int));
        assert(pv.take(i + 1).last() == parts@[i as int]@);
        let piece = &parts[i];
        let pcs = chars_of(piece.as_str());
        let keep = !(pcs.len() == 0 || (pcs.len() == 1 && pcs[0] == '.'));
        proof {
            if pcs@.len() == 1 && pcs@[0] == '.' {
                assert(pcs@ =~= seq!['.']);
            }
            if pcs@ == seq!['.'] {
                assert(pcs@.len() == 1 && pcs@[0] == '.');
            }
        }
        if keep {
            let ghost prev = strings_view(r@);
            r.push(piece.clone());
            assert(strings_view(r@) =~= prev.push(piece@));
        }
        i += 1;
    }
    assert(strings_view(parts@).take(parts@.len() as int) =~= strings_view(parts@));
    r
}

/// The text of the absolute path made of the given segments
pub fn path_from_segments(segs: &[String]) -> (r: String)
    ensures
        r@ == path_text(strings_view(segs@)),
{
    let mut s = String::new();
    push_char(&mut s, '/');
    if segs.len() == 0 {
        assert(s@ =~= seq!['/']);
        return s;
    }
    let mut i: usize = 0;
    while i < segs.len()
        invariant
            i <= segs@.len(),
            segs@.len() > 0,
            i == 0 ==> s@ == seq!['/'],
            i > 0 ==> s@ == path_text(strings_view(segs@).take(i as int)),
        decreases segs@.len() - i,
    {
        let ghost prev = s@;
        if i > 0 {
            push_char(&mut s, '/');
        }
        let cs = chars_of(segs[i].as_str());
        let mut j: usize = 0;
        let ghost base = s@;
        while j < cs.len()
            invariant
                j <= cs@.len(),
                s@ == base + cs@.take(j as int),
            decreases cs@.len() - j,
        {
            push_char(&mut s, cs[j]);
            assert(cs@.take(j + 1) =~= cs@.take(j as int).push(cs@[j as int]));
            j += 1;
        }
        assert(cs@.take(cs@.len() as int) =~= cs@);
        proof {
            let sv = strings_view(segs@);
            assert(sv.take(i + 1).drop_last() =~= sv.take(i as int));
            assert(sv.take(i + 1).last() == segs@[i as int]@);
            if i == 0 {
                assert(sv.take(1)[0] == segs@[0]@);
                assert(s@ =~= seq!['/'] + sv.take(1)[0]);
            } else {
                assert(s@ =~= path_text(sv.take(i as int)) + seq!['/'] + sv.take(i + 1).last());
            }
        }
        i += 1;
    }
    assert(strings_view(segs@).take(segs@.len() as int) =~= strings_view(segs@));
    s
}

/// Whether `path` lies within `base`, comparing whole segments
pub fn starts_with_path(path: &str, base: &str) -> (r: bool)
    ensures
        r == path_starts_with(path@, base@),
{
    if is_absolute(path) != is_absolute(base) {
        return false;
    }
    let p = segments(path);
    let b = segments(base);
    assert(strings_view(b@).len() == b@.len());
    assert(strings_view(p@).len() == p@.len());
    if b.len() > p.len() {
        return false;
    }
    let mut i: usize = 0;
    while i < b.len()
        invariant
            i <= b@.len() <= p@.len(),
            strings_view(p@) == segments_of(path@),
            strings_view(b@) == segments_of(base@),
            forall|j: int| 0 <= j < i ==> p@[j]@ == b@[j]@,
        decreases b@.len() - i,
    {
        let pc = chars_of(p[i].as_str());
        let bc = chars_of(b[i].as_str());
        proof {
            assert(strings_view(p@)[i as int] == p@[i as int]@);
            assert(strings_view(b@)[i as int] == b@[i as int]@);
            assert(segments_of(path@).take(segments_of(base@).len() as int)[i as int]
                == segments_of(path@)[i as int]);
        }
        if pc.len() != bc.len() {
            return false;
        }
        let mut k: usize = 0;
        while k < pc.len()
            invariant
                k <= pc@.len() == bc@.len(),
                forall|m: int| 0 <= m < k ==> pc@[m] == bc@[m],
                i < b@.len() <= p@.len(),
                pc@ == segments_of(path@)[i as int],
                bc@ == segments_of(base@)[i as int],
                segments_of(path@).take(segments_of(base@).len() as int)[i as int]
                    == segments_of(path@)[i as int],
                segments_of(base@).len() == b@.len(),
            decreases pc@.len() - k,
        {
            if pc[k] != bc[k] {
                assert(pc@ != bc@);
                return false;
            }
            k += 1;
        }
        assert(pc@ =~= bc@);
        i += 1;
    }
    proof {
        let pv = strings_view(p@);
        let bv = strings_view(b@);
        assert(pv.take(bv.len() as int) =~= bv);
    }
    true
}

/// The last `/` in a character sequence, if any
fn last_slash_at(cs: &[char]) -> (r: Option<usize>)
    ensures
        match r {
            None => last_slash(cs@) is None,
            Some(i) => last_slash(cs@) == Some(i as int) && i < cs@.len(),
        },
{
    let mut i = cs.len();
    assert(cs@.take(cs@.len() as int) =~= cs@);
    while i > 0
        invariant
            i <= cs@.len(),
            last_slash(cs@) == last_slash(cs@.take(i as int)),
        decreases i,
    {
        assert(cs@.take(i as int).drop_last() =~= cs@.take(i - 1));
        assert(cs@.take(i as int).last() == cs@[i - 1]);
        if cs[i - 1] == '/' {
            return Some(i - 1);
        }
        i -= 1;
    }
    None
}

/// Splits a path at its last `/` into its parent (`/` when that is all there is) and its
/// final component
pub fn split(path: &str) -> (r: Option<(String, String)>)
    ensures
        match split_spec(path@) {
            None => r is None,
            Some((parent, name)) => r matches Some((p, n)) && p@ == parent && n@ == name,
        },
{
    let cs = chars_of(path);
    let _len = cs.len();
    assert(cs@.take(cs@.len() as int) =~= cs@);
    match last_slash_at(cs.as_slice()) {
        None => None,
        Some(i) => {
            let parent = if i == 0 {
                let mut s = String::new();
                push_char(&mut s, '/');
                assert(s@ =~= seq!['/']);
                s
            } else {
                let s = string_of_range(cs.as_slice(), 0, i);
                assert(s@ =~= path@.take(i as int));
                s
            };
            let name = string_of_range(cs.as_slice(), i + 1, cs.len());
            assert(name@ =~= path@.skip(i + 1));
            Some((parent, name))
        },
    }
}

/// `base` with one more component `name` after a separator
pub fn join(base: &str, name: &str) -> (r: String)
    ensures
        r@ == joined(base@, name@),
{
    let bc = chars_of(base);
    let nc = chars_of(name);
    let mut s = string_of_range(bc.as_slice(), 0, bc.len());
    assert(s@ =~= base@);
    if !(bc.len() > 0 && bc[bc.len() - 1] == '/') {
        push_char(&mut s, '/');
    }
    let ghost start = s@;
    let mut j: usize = 0;
    while j < nc.len()
        invariant
            j <= nc@.len(),
            s@ == start + nc@.take(j as int),
        decreases nc@.len() - j,
    {
        push_char(&mut s, nc[j]);
        assert(nc@.take(j + 1) =~= nc@.take(j as int).push(nc@[j as int]));
        j += 1;
    }
    assert(nc@.take(nc@.len() as int) =~= nc@);
    s
}

/// Whether a character sequence holds a `/`
pub open spec fn has_slash(s: Seq<char>) -> bool {
    exists|i: int| 0 <= i < s.len() && s[i] == '/'
}

/// Whether a string holds a `/`
pub fn contains_slash(s: &str) -> (r: bool)
    ensures
        r == has_slash(s@),
{
    let cs = chars_of(s);
    let mut i: usize = 0;
    while i < cs.len()
        invariant
            i <= cs@.len(),
            cs@ == s@,
            forall|j: int| 0 <= j < i ==> cs@[j] != '/',
        decreases cs@.len() - i,
    {
        if cs[i] == '/' {
            assert(s@[i as int] == '/');
            return true;
        }
        i += 1;
    }
    false
}

/// An absolute path on disk below which a schema is applied
#[derive(Debug, Clone, PartialEq, Eq)]
pub struct Root {
    path: String,
}

impl View for Root {
    type V = Seq<char>;

    closed spec fn view(&self) -> Seq<char> {
        self.path@
    }
}

impl Root {
    /// A root at the given path, which must be absolute
    pub fn try_from_str(path: &str) -> (r: Result<Root, String>)
        ensures
            r is Ok <==> is_absolute_path(path@),
            r matches Ok(root) ==> root@ == path@,
    {
        if is_absolute(path) {
            Ok(Root { path: path.to_owned() })
        } else {
            Err("Root must be an absolute path".to_owned())
        }
    }

    /// The root's absolute path
    pub fn path(&self) -> (r: &str)
        ensures
            r@ == self@,
    {
        self.path.as_str()
    }

    /// A copy of this root
    pub fn copy(&self) -> (r: Root)
        ensures
            r@ == self@,
    {
        Root { path: self.path.clone() }
    }
}

/// An absolute path that can be split into its [`Root`] and the part relative to it
#[derive(Debug)]
pub struct PlantedPath {
    root_len: usize,
    full: Vec<char>,
}

impl PlantedPath {
    /// The root part of the path
    pub closed spec fn root_spec(&self) -> Seq<char> {
        self.full@.take(self.root_len as int)
    }

    /// The full, absolute path
    pub closed spec fn full_spec(&self) -> Seq<char> {
        self.full@
    }

    /// How the path is held: the root is a prefix of the full path
    pub closed spec fn wf(&self) -> bool {
        self.root_len <= self.full@.len()
    }

    /// A planted path at `path`, or at the root itself when no path is given; a given path
    /// must lie within the root
    pub fn new(root: &Root, path: Option<&str>) -> (r: Result<PlantedPath, String>)
        ensures
            match path {
                None => r matches Ok(p) && p.wf() && p.full_spec() == root@ && p.root_spec()
                    == root@,
                Some(path) => if path_starts_with(path@, root@) && root@.len() <= path@.len() {
                    r matches Ok(p) && p.wf() && p.full_spec() == path@ && p.root_spec()
                        == path@.take(root@.len() as int)
                } else {
                    r is Err
                },
            },
    {
        let full = match path {
            Some(path) => {
                if !starts_with_path(path, root.path()) {
                    return Err("Path must start with its root".to_owned());
                }
                chars_of(path)
            },
            None => chars_of(root.path()),
        };
        let root_len = chars_of(root.path()).len();
        if root_len > full.len() {
            return Err("Path must start with its root".to_owned());
        }
        proof {
            if path is None {
                assert(full@.take(root_len as int) =~= full@);
            }
        }
        Ok(PlantedPath { root_len, full })
    }

    /// The absolute path of the root part of this planted path
    pub fn root(&self) -> (r: String)
        requires
            self.wf(),
        ensures
            r@ == self.root_spec(),
    {
        string_of_range(self.full.as_slice(), 0, self.root_len)
    }

    /// The full, absolute path
    pub fn absolute(&self) -> (r: String)
        ensures
            r@ == self.full_spec(),
    {
        let r = string_of_range(self.full.as_slice(), 0, self.full.len());
        assert(r@ =~= self.full@);
        r
    }

    /// The path relative to the root, without leading separators
    pub fn relative(&self) -> (r: String)
        requires
            self.wf(),
        ensures
            r@ == trim_slashes(self.full_spec().skip(self.root_spec().len() as int)),
    {
        let mut i = self.root_len;
        while i < self.full.len() && self.full[i] == '/'
            invariant
                self.root_len <= i <= self.full@.len(),
                trim_slashes(self.full@.skip(self.root_len as int)) == trim_slashes(
                    self.full@.skip(i as int),
                ),
            decreases self.full@.len() - i,
        {
            assert(self.full@.skip(i as int)[0] == '/');
            assert(self.full@.skip(i as int).drop_first() =~= self.full@.skip(i + 1));
            i += 1;
        }
        let r = string_of_range(self.full.as_slice(), i, self.full.len());
        assert(r@ =~= self.full@.skip(i as int));
        assert(self.full@.take(self.root_len as int).len() == self.root_len);
        r
    }

    /// A new planted path with one more component, which must not hold a `/`
    pub fn join(&self, name: &str) -> (r: Result<PlantedPath, String>)
        requires
            self.wf(),
        ensures
            r is Ok <==> !has_slash(name@),
            r matches Ok(p) ==> p.wf() && p.root_spec() == self.root_spec() && p.full_spec()
                == joined(self.full_spec(), name@),
    {
        if contains_slash(name) {
            return Err("Only single path components can be joined to a planted path".to_owned());
        }
        let base = string_of_range(self.full.as_slice(), 0, self.full.len());
        assert(base@ =~= self.full@);
        let full = chars_of(join(base.as_str(), name).as_str());
        proof {
            assert(full@.take(self.root_len as int) =~= self.full@.take(self.root_len as int));
        }
        Ok(PlantedPath { root_len: self.root_len, full })
    }
}

/// `s` without its leading `/` characters
pub open spec fn trim_slashes(s: Seq<char>) -> Seq<char>
    decreases s.len(),
{
    if s.len() > 0 && s[0] == '/' {
        trim_slashes(s.drop_first())
    } else {
        s
    }
}

} // verus!
