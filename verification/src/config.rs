//! Configuration: which schema applies below which root, user and group name maps, and the
//! path to construct.
use vstd::prelude::*;

use crate::namemap::NameMap;
use crate::paths::{path_starts_with, starts_with_path, Root};
use crate::schema::SchemaNode;
use crate::text_util::{append_str, str_eq};

verus! {

/// The schema most recently given for each path, of pairs given in order
pub open spec fn latest(s: Seq<(Seq<char>, SchemaNode)>) -> Map<Seq<char>, SchemaNode>
    decreases s.len(),
{
    if s.len() == 0 {
        Map::empty()
    } else {
        latest(s.drop_last()).insert(s.last().0, s.last().1)
    }
}

/// A path has a schema exactly when some pair gives it one
pub proof fn lemma_latest_dom(s: Seq<(Seq<char>, SchemaNode)>, k: Seq<char>)
    ensures
        latest(s).dom().contains(k) <==> exists|i: int| 0 <= i < s.len() && #[trigger] s[i].0 == k,
    decreases s.len(),
{
    if s.len() > 0 {
        let t = s.drop_last();
        lemma_latest_dom(t, k);
        if exists|i: int| 0 <= i < t.len() && #[trigger] t[i].0 == k {
            let i = choose|i: int| 0 <= i < t.len() && #[trigger] t[i].0 == k;
            assert(s[i].0 == k);
        }
        if exists|i: int| 0 <= i < s.len() && #[trigger] s[i].0 == k {
            let i = choose|i: int| 0 <= i < s.len() && #[trigger] s[i].0 == k;
            if i < t.len() {
                assert(t[i].0 == k);
            }
        }
    }
}

/// The schema of a path is that of the last pair giving it one
pub proof fn lemma_latest_last(s: Seq<(Seq<char>, SchemaNode)>, i: int)
    requires
        0 <= i < s.len(),
        forall|j: int| i < j < s.len() ==> #[trigger] s[j].0 != s[i].0,
    ensures
        latest(s).dom().contains(s[i].0),
        latest(s)[s[i].0] == s[i].1,
    decreases s.len(),
{
    if i < s.len() - 1 {
        let t = s.drop_last();
        assert forall|j: int| i < j < t.len() implies #[trigger] t[j].0 != t[i].0 by {
            assert(t[j] == s[j]);
        }
        lemma_latest_last(t, i);
        assert(s.last().0 != s[i].0);
    }
}

/// A cache of parsed schemas keyed by the path of the file they were read from
#[derive(Debug)]
pub struct SchemaCache {
    schemas: Vec<(String, SchemaNode)>,
}

impl View for SchemaCache {
    type V = Map<Seq<char>, SchemaNode>;

    /// The schema most recently cached for each path
    closed spec fn view(&self) -> Map<Seq<char>, SchemaNode> {
        latest(self.pairs())
    }
}

impl SchemaCache {
    /// The cached pairs of path and schema, in the order they were added
    closed spec fn pairs(&self) -> Seq<(Seq<char>, SchemaNode)> {
        self.schemas@.map_values(|e: (String, SchemaNode)| (e.0@, e.1))
    }

    /// The paths of the cached schemas, in the order they were added
    pub closed spec fn keys(&self) -> Seq<Seq<char>> {
        self.schemas@.map_values(|e: (String, SchemaNode)| e.0@)
    }

    /// An empty cache
    pub fn new() -> (r: SchemaCache)
        ensures
            r.keys().len() == 0,
            r@ == Map::<Seq<char>, SchemaNode>::empty(),
    {
        let r = SchemaCache { schemas: Vec::new() };
        assert(r.pairs() =~= Seq::<(Seq<char>, SchemaNode)>::empty());
        r
    }

    /// Adds the schema read from `path` to the cache, in place of any schema cached for it
    pub fn inject(&mut self, path: &str, schema: SchemaNode)
        ensures
            final(self)@ == old(self)@.insert(path@, schema),
            final(self).keys().contains(path@),
            forall|k: Seq<char>| #[trigger]
                final(self).keys().contains(k) <==> (old(self).keys().contains(k) || k == path@),
    {
        let ghost before = self.keys();
        let ghost before_pairs = self.pairs();
        let ghost sv = schema;
        self.schemas.push((path.to_owned(), schema));
        proof {
            assert(self.pairs() =~= before_pairs.push((path@, sv)));
            assert(self.pairs().drop_last() =~= before_pairs);
            assert(self.keys() =~= before.push(path@));
            assert(self.keys()[before.len() as int] == path@);
            assert forall|k: Seq<char>| #[trigger]
                self.keys().contains(k) <==> (before.contains(k) || k == path@) by {
                if self.keys().contains(k) {
                    let i = choose|i: int| 0 <= i < self.keys().len() && self.keys()[i] == k;
                    if i < before.len() {
                        assert(before[i] == k);
                    }
                }
                if before.contains(k) {
                    let i = choose|i: int| 0 <= i < before.len() && before[i] == k;
                    assert(self.keys()[i] == k);
                }
            }
        }
    }

    /// The schema most recently cached for `path`, if any
    pub fn get(&self, path: &str) -> (r: Option<&SchemaNode>)
        ensures
            r is None <==> !self@.dom().contains(path@),
            r matches Some(s) ==> *s == self@[path@],
            r is None <==> !self.keys().contains(path@),
    {
        let mut i = self.schemas.len();
        while i > 0
            invariant
                i <= self.schemas@.len(),
                forall|j: int| i <= j < self.schemas@.len() ==> #[trigger] self.keys()[j] != path@,
            decreases i,
        {
            if str_eq(self.schemas[i - 1].0.as_str(), path) {
                let r = &self.schemas[i - 1].1;
                proof {
                    let m = self.pairs();
                    assert forall|j: int| i - 1 < j < m.len() implies #[trigger] m[j].0 != m[i
                        - 1].0 by {
                        assert(self.keys()[j] != path@);
                    }
                    lemma_latest_last(m, i - 1);
                    assert(self.keys()[i - 1] == path@);
                }
                return Some(r);
            }
            i -= 1;
        }
        proof {
            let m = self.pairs();
            lemma_latest_dom(m, path@);
            if exists|j: int| 0 <= j < m.len() && #[trigger] m[j].0 == path@ {
                let j = choose|j: int| 0 <= j < m.len() && #[trigger] m[j].0 == path@;
                assert(self.keys()[j] != path@);
            }
            if self.keys().contains(path@) {
                let j = choose|j: int| 0 <= j < self.keys().len() && self.keys()[j] == path@;
                assert(self.keys()[j] == path@);
            }
        }
        None
    }
}

/// Whether root `i` of `roots` is the one (longest, and the first of the longest) that `path`
/// lies within
pub open spec fn is_best_root(roots: Seq<Seq<char>>, path: Seq<char>, i: int) -> bool {
    &&& 0 <= i < roots.len()
    &&& path_starts_with(path, roots[i])
    &&& forall|j: int|
        0 <= j < i && path_starts_with(path, #[trigger] roots[j]) ==> roots[j].len() < roots[i].len()
    &&& forall|j: int|
        i < j < roots.len() && path_starts_with(path, #[trigger] roots[j]) ==> roots[j].len()
            <= roots[i].len()
}

/// Whether `path` lies within any of the roots
pub open spec fn within_some_root(roots: Seq<Seq<char>>, path: Seq<char>) -> bool {
    exists|j: int| 0 <= j < roots.len() && path_starts_with(path, #[trigger] roots[j])
}

/// The configured roots as listed in the error for a path outside all of them: each on a
/// line of its own, after a dash
pub open spec fn roots_list(roots: Seq<Seq<char>>) -> Seq<char>
    decreases roots.len(),
{
    if roots.len() == 0 {
        Seq::empty()
    } else {
        roots_list(roots.drop_last()) + "\n - "@ + roots.last()
    }
}

/// The error for a path that lies within none of the configured roots
pub open spec fn no_root_message(path: Seq<char>, roots: Seq<Seq<char>>) -> Seq<char> {
    "No root/schema for path "@ + path + "\nConfigured roots:"@ + roots_list(roots)
}

/// Whether `after` is `before` with `root` configured to the schema path `schema_path`, and
/// `schema` cached under that path
pub open spec fn precached(
    before: Stems,
    after: Stems,
    root: Seq<char>,
    schema_path: Seq<char>,
    schema: SchemaNode,
) -> bool {
    &&& after.cache_view() == before.cache_view().insert(schema_path, schema)
    &&& forall|i: int|
        0 <= i < after.root_paths().len() && after.root_paths()[i] == root
            ==> #[trigger] after.schema_paths()[i] == schema_path
}

/// A schema given with its root is the one found for every path whose root that is: after
/// the root is configured with the schema cached, a path that lies within that root (and
/// within no longer one) gets that schema
pub proof fn lemma_precached_found(
    before: Stems,
    after: Stems,
    root: Seq<char>,
    schema_path: Seq<char>,
    schema: SchemaNode,
    path: Seq<char>,
    i: int,
)
    requires
        precached(before, after, root, schema_path, schema),
        is_best_root(after.root_paths(), path, i),
        after.root_paths()[i] == root,
    ensures
        after.cache_view().dom().contains(after.schema_paths()[i]),
        after.cache_view()[after.schema_paths()[i]] == schema,
{
    assert(after.schema_paths()[i] == schema_path);
}

/// The error for a path whose root's schema (at `schema_path`) is not at hand
pub open spec fn not_loaded_message(schema_path: Seq<char>, root: Seq<char>, path: Seq<char>) -> Seq<
    char,
> {
    "Failed to load schema "@ + schema_path + " for configured root "@ + root
        + " (for target path "@ + path + ")"@
}

/// Each configured root with the path of its schema file, and the cache of parsed schemas
#[derive(Debug)]
pub struct Stems {
    stems: Vec<(Root, String)>,
    cache: SchemaCache,
}

impl Stems {
    /// The configured roots, in the order they were added
    pub closed spec fn root_paths(&self) -> Seq<Seq<char>> {
        self.stems@.map_values(|e: (Root, String)| e.0@)
    }

    /// The schema file paths of the configured roots, in the same order
    pub closed spec fn schema_paths(&self) -> Seq<Seq<char>> {
        self.stems@.map_values(|e: (Root, String)| e.1@)
    }

    /// The paths of the schemas held in the cache
    pub closed spec fn cached(&self) -> Seq<Seq<char>> {
        self.cache.keys()
    }

    /// The schema most recently cached for each path
    pub closed spec fn cache_view(&self) -> Map<Seq<char>, SchemaNode> {
        self.cache@
    }

    /// No root is configured twice
    #[verifier::type_invariant]
    closed spec fn wf(&self) -> bool {
        &&& self.stems@.len() == self.root_paths().len()
        &&& forall|i: int, j: int|
            0 <= i < j < self.root_paths().len() ==> self.root_paths()[i] != self.root_paths()[j]
    }

    /// No roots
    pub fn new() -> (r: Stems)
        ensures
            r.root_paths().len() == 0,
            r.cached().len() == 0,
            r.cache_view() == Map::<Seq<char>, SchemaNode>::empty(),
    {
        Stems { stems: Vec::new(), cache: SchemaCache::new() }
    }

    /// Configures `root` with the path where its schema may be found, replacing any schema
    /// path given for the same root before
    pub fn add(&mut self, root: Root, schema_path: &str)
        ensures
            final(self).cached() == old(self).cached(),
            final(self).cache_view() == old(self).cache_view(),
            final(self).root_paths().contains(root@),
            forall|k: Seq<char>| #[trigger]
                final(self).root_paths().contains(k) <==> (old(self).root_paths().contains(k) || k
                    == root@),
            forall|i: int|
                0 <= i < final(self).root_paths().len() && final(self).root_paths()[i] == root@
                    ==> #[trigger] final(self).schema_paths()[i] == schema_path@,
    {
        proof {
            use_type_invariant(&*self);
        }
        let ghost before = self.root_paths();
        let mut stems: Vec<(Root, String)> = Vec::new();
        std::mem::swap(&mut stems, &mut self.stems);
        let mut i: usize = 0;
        while i < stems.len()
            invariant
                i <= stems@.len(),
                stems@ == old(self).stems@,
                self.cache == old(self).cache,
                before == old(self).root_paths(),
                before == stems@.map_values(|e: (Root, String)| e.0@),
                forall|a: int, b: int| 0 <= a < b < before.len() ==> before[a] != before[b],
                forall|j: int| 0 <= j < i ==> before[j] != root@,
            decreases stems@.len() - i,
        {
            if str_eq(stems[i].0.path(), root.path()) {
                let ghost old_stems = stems@;
                let ghost rv = root@;
                assert(before[i as int] == rv);
                let sp = schema_path.to_owned();
                assert(sp@ == schema_path@);
                stems.set(i, (root, sp));
                proof {
                    assert(stems@ == old_stems.update(i as int, stems@[i as int]));
                    assert(stems@.map_values(|e: (Root, String)| e.0@) =~= before);
                }
                self.stems = stems;
                proof {
                    assert(self.root_paths() =~= before);
                    assert forall|j: int|
                        0 <= j < self.root_paths().len() && self.root_paths()[j] == rv
                            implies #[trigger] self.schema_paths()[j] == schema_path@ by {
                        if j != i {
                            assert(self.root_paths()[j] == before[j]);
                            assert(before[j] != before[i as int]);
                        } else {
                            assert(self.stems@[i as int].1@ == schema_path@);
                        }
                    }
                    assert(self.root_paths()[i as int] == root@);
                }
                return;
            }
            i += 1;
        }
        let ghost rv = root@;
        stems.push((root, schema_path.to_owned()));
        proof {
            assert(stems@.map_values(|e: (Root, String)| e.0@) =~= before.push(rv));
        }
        self.stems = stems;
        proof {
            assert(self.root_paths() =~= before.push(rv));
            assert(self.root_paths()[before.len() as int] == rv);
            assert forall|k: Seq<char>| #[trigger]
                self.root_paths().contains(k) <==> (before.contains(k) || k == rv) by {
                if self.root_paths().contains(k) {
                    let j = choose|j: int| 0 <= j < self.root_paths().len() && self.root_paths()[j] == k;
                    if j < before.len() {
                        assert(before[j] == k);
                    }
                }
                if before.contains(k) {
                    let j = choose|j: int| 0 <= j < before.len() && before[j] == k;
                    assert(self.root_paths()[j] == k);
                }
            }
        }
    }

    /// Configures `root` with the path of its schema and caches the already parsed schema
    /// under that path, so that the file is never read
    pub fn add_precached(&mut self, root: Root, schema_path: &str, schema: SchemaNode)
        ensures
            final(self).root_paths().contains(root@),
            final(self).cached().contains(schema_path@),
            precached(*old(self), *final(self), root@, schema_path@, schema),
    {
        self.cache_schema(schema_path, schema);
        self.add(root, schema_path);
    }

    /// Adds the schema read from `schema_path` to the cache
    pub fn cache_schema(&mut self, schema_path: &str, schema: SchemaNode)
        ensures
            final(self).root_paths() == old(self).root_paths(),
            final(self).schema_paths() == old(self).schema_paths(),
            final(self).cached().contains(schema_path@),
            final(self).cache_view() == old(self).cache_view().insert(schema_path@, schema),
    {
        proof {
            use_type_invariant(&*self);
        }
        let mut cache = SchemaCache::new();
        std::mem::swap(&mut cache, &mut self.cache);
        cache.inject(schema_path, schema);
        self.cache = cache;
    }

    /// The configured roots
    pub fn roots(&self) -> (r: Vec<&Root>)
        ensures
            r@.len() == self.root_paths().len(),
            forall|i: int| 0 <= i < r@.len() ==> (#[trigger] r@[i])@ == self.root_paths()[i],
    {
        let mut r: Vec<&Root> = Vec::new();
        let mut i: usize = 0;
        while i < self.stems.len()
            invariant
                i <= self.stems@.len(),
                r@.len() == i,
                forall|j: int| 0 <= j < i ==> (#[trigger] r@[j])@ == self.root_paths()[j],
            decreases self.stems@.len() - i,
        {
            r.push(&self.stems[i].0);
            i += 1;
        }
        r
    }

    /// The schema file paths of the configured roots, in the order of [`Stems::roots`]
    pub fn schema_files(&self) -> (r: Vec<String>)
        ensures
            crate::text_util::strings_view(r@) == self.schema_paths(),
    {
        let mut r: Vec<String> = Vec::new();
        let mut i: usize = 0;
        while i < self.stems.len()
            invariant
                i <= self.stems@.len(),
                crate::text_util::strings_view(r@) == self.schema_paths().take(i as int),
            decreases self.stems@.len() - i,
        {
            let ghost prev = r@;
            r.push(self.stems[i].1.clone());
            assert(crate::text_util::strings_view(r@) =~= crate::text_util::strings_view(prev).push(
                self.stems@[i as int].1@,
            ));
            assert(crate::text_util::strings_view(r@) =~= self.schema_paths().take(i + 1));
            i += 1;
        }
        assert(self.schema_paths().take(self.stems@.len() as int) =~= self.schema_paths());
        r
    }

    /// The position of the root that `path` lies within: the longest, and of those the first
    pub fn best_root(&self, path: &str) -> (r: Option<usize>)
        ensures
            match r {
                None => !within_some_root(self.root_paths(), path@),
                Some(i) => is_best_root(self.root_paths(), path@, i as int),
            },
    {
        let mut best: Option<usize> = None;
        let mut best_len: usize = 0;
        let mut i: usize = 0;
        while i < self.stems.len()
            invariant
                i <= self.stems@.len(),
                self.stems@.len() == self.root_paths().len(),
                match best {
                    None => forall|j: int|
                        0 <= j < i ==> !path_starts_with(path@, #[trigger] self.root_paths()[j]),
                    Some(b) => b < i && best_len == self.root_paths()[b as int].len()
                        && path_starts_with(path@, self.root_paths()[b as int]) && (forall|j: int|
                        0 <= j < b && path_starts_with(path@, #[trigger] self.root_paths()[j])
                            ==> self.root_paths()[j].len() < best_len) && (forall|j: int|
                        b < j < i && path_starts_with(path@, #[trigger] self.root_paths()[j])
                            ==> self.root_paths()[j].len() <= best_len),
                },
            decreases self.stems@.len() - i,
        {
            let rp = self.stems[i].0.path();
            if starts_with_path(path, rp) {
                let len = crate::text_util::chars_of(rp).len();
                match best {
                    None => {
                        best = Some(i);
                        best_len = len;
                    },
                    Some(_) => {
                        if len > best_len {
                            best = Some(i);
                            best_len = len;
                        }
                    },
                }
            }
            i += 1;
        }
        proof {
            if best is None && within_some_root(self.root_paths(), path@) {
                let j = choose|j: int|
                    0 <= j < self.root_paths().len() && path_starts_with(path@, #[trigger] self.root_paths()[j]);
                assert(!path_starts_with(path@, self.root_paths()[j]));
            }
        }
        best
    }

    /// The path of the schema file that applies to `path`: that of the longest root it lies
    /// within, if any
    pub fn schema_path_for(&self, path: &str) -> (r: Option<String>)
        ensures
            !within_some_root(self.root_paths(), path@) ==> r is None,
            forall|i: int| #[trigger]
                is_best_root(self.root_paths(), path@, i) ==> (r matches Some(p) && p@
                    == self.schema_paths()[i]),
    {
        match self.best_root(path) {
            None => None,
            Some(i) => {
                proof {
                    assert forall|k: int| #[trigger]
                        is_best_root(self.root_paths(), path@, k) implies k == i by {
                        if k < i {
                            assert(self.root_paths()[k].len() < self.root_paths()[i as int].len());
                        } else if k > i {
                            assert(self.root_paths()[k].len() <= self.root_paths()[i as int].len());
                        }
                    }
                    assert(self.schema_paths()[i as int] == self.stems@[i as int].1@);
                }
                Some(self.stems[i].1.clone())
            },
        }
    }

    /// The schema and root that apply to `path`: those of the longest root it lies within;
    /// an error if it lies within none, or if that root's schema has not been cached
    pub fn schema_for(&self, path: &str) -> (r: Result<(&SchemaNode, &Root), String>)
        ensures
            r is Ok ==> within_some_root(self.root_paths(), path@),
            !within_some_root(self.root_paths(), path@) ==> (r matches Err(e) && e@
                == no_root_message(path@, self.root_paths())),
            r matches Ok((_, root)) ==> exists|i: int| #[trigger]
                is_best_root(self.root_paths(), path@, i) && root@ == self.root_paths()[i]
                    && self.cached().contains(self.schema_paths()[i]),
            forall|i: int| #[trigger]
                is_best_root(self.root_paths(), path@, i) ==> {
                    &&& r is Ok <==> self.cache_view().dom().contains(self.schema_paths()[i])
                    &&& r matches Ok((schema, root)) ==> root@ == self.root_paths()[i] && *schema
                        == self.cache_view()[self.schema_paths()[i]]
                    &&& r matches Err(e) ==> e@ == not_loaded_message(
                        self.schema_paths()[i],
                        self.root_paths()[i],
                        path@,
                    )
                },
    {
        match self.best_root(path) {
            None => {
                let mut msg = "No root/schema for path ".to_owned();
                append_str(&mut msg, path);
                append_str(&mut msg, "\nConfigured roots:");
                let mut i: usize = 0;
                while i < self.stems.len()
                    invariant
                        i <= self.stems@.len(),
                        self.stems@.len() == self.root_paths().len(),
                        msg@ == "No root/schema for path "@ + path@ + "\nConfigured roots:"@
                            + roots_list(self.root_paths().take(i as int)),
                    decreases self.stems@.len() - i,
                {
                    append_str(&mut msg, "\n - ");
                    append_str(&mut msg, self.stems[i].0.path());
                    proof {
                        let t = self.root_paths().take(i + 1);
                        assert(t.drop_last() =~= self.root_paths().take(i as int));
                        assert(t.last() == self.stems@[i as int].0@);
                    }
                    i += 1;
                }
                assert(self.root_paths().take(self.stems@.len() as int) =~= self.root_paths());
                Err(msg)
            },
            Some(i) => {
                proof {
                    assert forall|k: int| #[trigger]
                        is_best_root(self.root_paths(), path@, k) implies k == i by {
                        if k < i {
                            assert(self.root_paths()[k].len() < self.root_paths()[i as int].len());
                        } else if k > i {
                            assert(self.root_paths()[k].len() <= self.root_paths()[i as int].len());
                        }
                    }
                }
                let (root, schema_path) = (&self.stems[i].0, &self.stems[i].1);
                assert(self.schema_paths()[i as int] == schema_path@);
                match self.cache.get(schema_path.as_str()) {
                    Some(schema) => {
                        assert(self.root_paths()[i as int] == root@);
                        Ok((schema, root))
                    },
                    None => {
                        let mut msg = "Failed to load schema ".to_owned();
                        append_str(&mut msg, schema_path.as_str());
                        append_str(&mut msg, " for configured root ");
                        append_str(&mut msg, root.path());
                        append_str(&mut msg, " (for target path ");
                        append_str(&mut msg, path);
                        append_str(&mut msg, ")");
                        Err(msg)
                    },
                }
            },
        }
    }
}

/// Application configuration
#[derive(Debug)]
pub struct Config {
    target: String,
    apply: bool,
    usermap: NameMap,
    groupmap: NameMap,
    stems: Stems,
}

impl Config {
    /// The configured stems
    pub closed spec fn stems_spec(&self) -> Stems {
        self.stems
    }

    /// The path to construct
    pub closed spec fn target_spec(&self) -> Seq<char> {
        self.target@
    }

    /// The user name map
    pub closed spec fn usermap_spec(&self) -> NameMap {
        self.usermap
    }

    /// The group name map
    pub closed spec fn groupmap_spec(&self) -> NameMap {
        self.groupmap
    }

    /// A configuration that constructs `target`, applying the changes to disk if `apply`
    pub fn new(target: &str, apply: bool) -> (r: Config)
        ensures
            r.target_spec() == target@,
            r.will_apply_spec() == apply,
            r.stems_spec().root_paths().len() == 0,
            r.usermap_spec()@.len() == 0,
            r.groupmap_spec()@.len() == 0,
    {
        Config {
            target: target.to_owned(),
            apply,
            usermap: NameMap::new(),
            groupmap: NameMap::new(),
            stems: Stems::new(),
        }
    }

    /// Whether the changes are applied to disk
    pub closed spec fn will_apply_spec(&self) -> bool {
        self.apply
    }

    /// The path intended to be constructed
    pub fn target_path(&self) -> (r: &str)
        ensures
            r@ == self.target_spec(),
    {
        self.target.as_str()
    }

    /// Whether to apply the changes to disk
    pub fn will_apply(&self) -> (r: bool)
        ensures
            r == self.will_apply_spec(),
    {
        self.apply
    }

    /// Adds a root and the path of its schema file
    pub fn add_stem(&mut self, root: Root, schema_path: &str)
        ensures
            final(self).stems_spec().root_paths().contains(root@),
            final(self).stems_spec().cache_view() == old(self).stems_spec().cache_view(),
            forall|i: int|
                0 <= i < final(self).stems_spec().root_paths().len()
                    && final(self).stems_spec().root_paths()[i] == root@
                    ==> #[trigger] final(self).stems_spec().schema_paths()[i] == schema_path@,
    {
        self.stems.add(root, schema_path)
    }

    /// Adds a root and the path of its schema file, with the schema already parsed
    pub fn add_precached_stem(&mut self, root: Root, schema_path: &str, schema: SchemaNode)
        ensures
            final(self).stems_spec().root_paths().contains(root@),
            final(self).stems_spec().cached().contains(schema_path@),
            precached(old(self).stems_spec(), final(self).stems_spec(), root@, schema_path@, schema),
    {
        self.stems.add_precached(root, schema_path, schema)
    }

    /// Caches the schema read from `schema_path`
    pub fn cache_schema(&mut self, schema_path: &str, schema: SchemaNode)
        ensures
            final(self).stems_spec().cached().contains(schema_path@),
            final(self).stems_spec().root_paths() == old(self).stems_spec().root_paths(),
            final(self).stems_spec().schema_paths() == old(self).stems_spec().schema_paths(),
            final(self).stems_spec().cache_view() == old(self).stems_spec().cache_view().insert(
                schema_path@,
                schema,
            ),
    {
        self.stems.cache_schema(schema_path, schema)
    }

    /// The configured roots
    pub fn stem_roots(&self) -> (r: Vec<&Root>)
        ensures
            r@.len() == self.stems_spec().root_paths().len(),
            forall|i: int|
                0 <= i < r@.len() ==> (#[trigger] r@[i])@ == self.stems_spec().root_paths()[i],
    {
        self.stems.roots()
    }

    /// The schema files of the configured roots, in the order of [`Config::stem_roots`]
    pub fn stem_schema_files(&self) -> (r: Vec<String>)
        ensures
            crate::text_util::strings_view(r@) == self.stems_spec().schema_paths(),
    {
        self.stems.schema_files()
    }

    /// The schema and root for a given path (see [`Stems::schema_for`])
    pub fn schema_for(&self, path: &str) -> (r: Result<(&SchemaNode, &Root), String>)
        ensures
            r is Ok ==> within_some_root(self.stems_spec().root_paths(), path@),
            !within_some_root(self.stems_spec().root_paths(), path@) ==> (r matches Err(e)
                && e@ == no_root_message(path@, self.stems_spec().root_paths())),
            forall|i: int| #[trigger]
                is_best_root(self.stems_spec().root_paths(), path@, i) ==> {
                    &&& r is Ok <==> self.stems_spec().cache_view().dom().contains(
                        self.stems_spec().schema_paths()[i],
                    )
                    &&& r matches Ok((schema, root)) ==> root@ == self.stems_spec().root_paths()[i]
                        && *schema == self.stems_spec().cache_view()[self.stems_spec().schema_paths()[i]]
                    &&& r matches Err(e) ==> e@ == not_loaded_message(
                        self.stems_spec().schema_paths()[i],
                        self.stems_spec().root_paths()[i],
                        path@,
                    )
                },
    {
        self.stems.schema_for(path)
    }

    /// The path of the schema file for a given path (see [`Stems::schema_path_for`])
    pub fn schema_path_for(&self, path: &str) -> (r: Option<String>)
        ensures
            !within_some_root(self.stems_spec().root_paths(), path@) ==> r is None,
            forall|i: int| #[trigger]
                is_best_root(self.stems_spec().root_paths(), path@, i) ==> (r matches Some(p) && p@
                    == self.stems_spec().schema_paths()[i]),
    {
        self.stems.schema_path_for(path)
    }

    /// Whether `path` lies within one of the configured roots
    pub fn has_root_for(&self, path: &str) -> (r: bool)
        ensures
            r == within_some_root(self.stems_spec().root_paths(), path@),
    {
        self.stems.best_root(path).is_some()
    }

    /// Updates the user name map with the given one
    pub fn apply_user_map(&mut self, usermap: NameMap)
        ensures
            final(self).usermap_spec()@ == old(self).usermap_spec()@.union_prefer_right(usermap@),
            final(self).groupmap_spec() == old(self).groupmap_spec(),
            final(self).stems_spec() == old(self).stems_spec(),
            final(self).target_spec() == old(self).target_spec(),
            final(self).will_apply_spec() == old(self).will_apply_spec(),
    {
        self.usermap.extend(usermap)
    }

    /// Updates the group name map with the given one
    pub fn apply_group_map(&mut self, groupmap: NameMap)
        ensures
            final(self).groupmap_spec()@ == old(self).groupmap_spec()@.union_prefer_right(
                groupmap@,
            ),
            final(self).usermap_spec() == old(self).usermap_spec(),
            final(self).stems_spec() == old(self).stems_spec(),
            final(self).target_spec() == old(self).target_spec(),
            final(self).will_apply_spec() == old(self).will_apply_spec(),
    {
        self.groupmap.extend(groupmap)
    }

    /// The user name that `name` maps to, or `name` itself if it is not mapped
    pub fn map_user<'a>(&'a self, name: &'a str) -> (r: &'a str)
        ensures
            r@ == self.usermap_spec().map_spec(name@),
    {
        self.usermap.map(name)
    }

    /// The group name that `name` maps to, or `name` itself if it is not mapped
    pub fn map_group<'a>(&'a self, name: &'a str) -> (r: &'a str)
        ensures
            r@ == self.groupmap_spec().map_spec(name@),
    {
        self.groupmap.map(name)
    }
}

} // verus!
