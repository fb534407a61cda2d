//! The abstract directory hierarchy described by a schema.
use vstd::prelude::*;
use vstd::multiset::Multiset;

use crate::expression::{tokens_text, Expression, Identifier, TokenView};
use crate::text_util::{append_str, chars_of, decimal, decimal_spec, str_eq};

verus! {

broadcast use vstd::seq_lib::group_to_multiset_ensures;

/// Owner, group and UNIX permissions
#[derive(Debug, Clone, PartialEq, Eq)]
pub struct Attributes {
    /// The owner to be set, if given
    pub owner: Option<Expression>,
    /// The group to be set, if given
    pub group: Option<Expression>,
    /// The UNIX permissions to be set, if given
    pub mode: Option<u16>,
}

impl Attributes {
    /// No attributes to be set
    pub fn empty() -> (r: Attributes)
        ensures
            r.owner is None,
            r.group is None,
            r.mode is None,
    {
        Attributes { owner: None, group: None, mode: None }
    }

    /// Returns true if no attributes are to be set by this entry
    pub fn is_empty(&self) -> (r: bool)
        ensures
            r == (self.owner is None && self.group is None && self.mode is None),
    {
        self.owner.is_none() && self.group.is_none() && self.mode.is_none()
    }
}

/// Lexicographic (code point) ordering of character sequences
pub open spec fn chars_le(a: Seq<char>, b: Seq<char>) -> bool
    decreases a.len(),
{
    if a.len() == 0 {
        true
    } else if b.len() == 0 {
        false
    } else if a[0] < b[0] {
        true
    } else if a[0] > b[0] {
        false
    } else {
        chars_le(a.drop_first(), b.drop_first())
    }
}

/// Any two sequences are ordered one way or the other
pub proof fn lemma_chars_le_total(a: Seq<char>, b: Seq<char>)
    ensures
        chars_le(a, b) || chars_le(b, a),
    decreases a.len(),
{
    if a.len() > 0 && b.len() > 0 && a[0] == b[0] {
        lemma_chars_le_total(a.drop_first(), b.drop_first());
    }
}

/// The ordering of character sequences is transitive
pub proof fn lemma_chars_le_transitive(a: Seq<char>, b: Seq<char>, c: Seq<char>)
    requires
        chars_le(a, b),
        chars_le(b, c),
    ensures
        chars_le(a, c),
    decreases a.len(),
{
    if a.len() > 0 && b.len() > 0 && c.len() > 0 && a[0] == b[0] && b[0] == c[0] {
        lemma_chars_le_transitive(a.drop_first(), b.drop_first(), c.drop_first());
    }
}

/// Whether `a` comes before `b` (or is equal to it) in code point order
pub fn chars_le_exec(a: &str, b: &str) -> (r: bool)
    ensures
        r == chars_le(a@, b@),
{
    let x = chars_of(a);
    let y = chars_of(b);
    let mut i: usize = 0;
    assert(x@.skip(0) =~= x@);
    assert(y@.skip(0) =~= y@);
    while i < x.len() && i < y.len() && x[i] == y[i]
        invariant
            i <= x@.len(),
            i <= y@.len(),
            x@.take(i as int) == y@.take(i as int),
            chars_le(x@, y@) == chars_le(x@.skip(i as int), y@.skip(i as int)),
        decreases x@.len() - i,
    {
        assert(x@.skip(i as int).drop_first() =~= x@.skip(i + 1));
        assert(y@.skip(i as int).drop_first() =~= y@.skip(i + 1));
        assert(x@.take(i + 1) =~= x@.take(i as int).push(x@[i as int]));
        assert(y@.take(i + 1) =~= y@.take(i as int).push(y@[i as int]));
        i += 1;
    }
    let ghost xs = x@.skip(i as int);
    let ghost ys = y@.skip(i as int);
    if i == x.len() {
        assert(xs.len() == 0);
        true
    } else if i == y.len() {
        assert(ys.len() == 0);
        false
    } else {
        assert(xs[0] == x@[i as int] && ys[0] == y@[i as int]);
        assert(x@[i as int] != y@[i as int]);
        x[i] < y[i]
    }
}

/// The abstract value of a [`Binding`]
pub enum BindingView {
    Static(Seq<char>),
    Dynamic(Seq<char>),
}

/// How an entry is bound in a schema, either to a static fixed name or to a variable
#[derive(Debug, Clone, PartialEq, Eq, PartialOrd, Ord)]
pub enum Binding {
    /// A static, fixed name
    Static(String),
    /// A dynamic name bound to the given variable
    Dynamic(Identifier),
}

impl View for Binding {
    type V = BindingView;

    open spec fn view(&self) -> BindingView {
        match self {
            Binding::Static(s) => BindingView::Static(s@),
            Binding::Dynamic(id) => BindingView::Dynamic(id@),
        }
    }
}

/// The order of bindings in a directory: static names first, each kind ordered by name
pub open spec fn binding_le(a: BindingView, b: BindingView) -> bool {
    match (a, b) {
        (BindingView::Static(x), BindingView::Static(y)) => chars_le(x, y),
        (BindingView::Static(_), BindingView::Dynamic(_)) => true,
        (BindingView::Dynamic(_), BindingView::Static(_)) => false,
        (BindingView::Dynamic(x), BindingView::Dynamic(y)) => chars_le(x, y),
    }
}

/// Any two bindings are ordered one way or the other
pub proof fn lemma_binding_le_total(a: BindingView, b: BindingView)
    ensures
        binding_le(a, b) || binding_le(b, a),
{
    match (a, b) {
        (BindingView::Static(x), BindingView::Static(y)) => lemma_chars_le_total(x, y),
        (BindingView::Dynamic(x), BindingView::Dynamic(y)) => lemma_chars_le_total(x, y),
        _ => {},
    }
}

/// The order of bindings is transitive
pub proof fn lemma_binding_le_transitive(a: BindingView, b: BindingView, c: BindingView)
    requires
        binding_le(a, b),
        binding_le(b, c),
    ensures
        binding_le(a, c),
{
    match (a, b, c) {
        (BindingView::Static(x), BindingView::Static(y), BindingView::Static(z)) => {
            lemma_chars_le_transitive(x, y, z)
        },
        (BindingView::Dynamic(x), BindingView::Dynamic(y), BindingView::Dynamic(z)) => {
            lemma_chars_le_transitive(x, y, z)
        },
        _ => {},
    }
}

impl Binding {
    /// Whether this binding is ordered before (or equal to) the other
    pub fn le(&self, other: &Binding) -> (r: bool)
        ensures
            r == binding_le(self@, other@),
    {
        match (self, other) {
            (Binding::Static(x), Binding::Static(y)) => chars_le_exec(x.as_str(), y.as_str()),
            (Binding::Static(_), Binding::Dynamic(_)) => true,
            (Binding::Dynamic(_), Binding::Static(_)) => false,
            (Binding::Dynamic(x), Binding::Dynamic(y)) => chars_le_exec(x.value(), y.value()),
        }
    }

    /// The text form of this binding (`$name` for dynamic bindings)
    pub fn to_text(&self) -> (r: String)
        ensures
            r@ == match self@ {
                BindingView::Static(s) => s,
                BindingView::Dynamic(v) => seq!['$'] + v,
            },
    {
        match self {
            Binding::Static(s) => s.clone(),
            Binding::Dynamic(id) => {
                let mut r = String::new();
                crate::text_util::push_char(&mut r, '$');
                r.append(id.value());
                r
            },
        }
    }
}

/// A description of a file
#[derive(Debug, Clone, PartialEq, Eq)]
pub struct FileSchema {
    /// Path to the resource to be copied as file content
    pub source: Expression,
}

impl FileSchema {
    /// Constructs a new description of a file
    pub fn new(source: Expression) -> (r: FileSchema)
        ensures
            r.source == source,
    {
        FileSchema { source }
    }

    /// Returns the expression of the path from where the file will inherit its content
    pub fn source(&self) -> (r: &Expression)
        ensures
            *r == self.source,
    {
        &self.source
    }

    /// Combines two descriptions of a file: the source of whichever has one (the first where
    /// the second has none); two files that both have a source cannot be combined
    pub fn merge(&self, other: &FileSchema) -> (r: Result<FileSchema, String>)
        ensures
            match r {
                Ok(f) => if other.source@.len() == 0 {
                    f.source@ == self.source@
                } else {
                    self.source@.len() == 0 && f.source@ == other.source@
                },
                Err(e) => self.source@.len() > 0 && other.source@.len() > 0 && e@
                    == "Cannot merge file with two sources: "@ + tokens_text(self.source@)
                    + " and "@ + tokens_text(other.source@),
            },
    {
        if other.source.tokens().len() == 0 {
            Ok(FileSchema::new(self.source.clone()))
        } else if self.source.tokens().len() == 0 {
            Ok(FileSchema::new(other.source.clone()))
        } else {
            let mut e = "Cannot merge file with two sources: ".to_owned();
            append_str(&mut e, self.source.to_text().as_str());
            append_str(&mut e, " and ");
            append_str(&mut e, other.source.to_text().as_str());
            Err(e)
        }
    }
}

/// A node in an abstract directory hierarchy
#[derive(Debug, PartialEq)]
pub struct SchemaNode {
    /// The line in the text representation where this node was defined
    pub line: String,
    /// Condition against which to match file/directory names
    pub match_pattern: Option<Expression>,
    /// Condition against which file/directory names must not match
    pub avoid_pattern: Option<Expression>,
    /// Symlink target - if this produces a symbolic link. Operates on the target end.
    pub symlink: Option<Expression>,
    /// Links to other schemas `:use`d by this one (found in parent [`DirectorySchema`] definitions)
    pub uses: Vec<Identifier>,
    /// Properties of this file/directory
    pub attributes: Attributes,
    /// Properties specific to the underlying (file or directory) type
    pub schema: SchemaType,
}

/// File/directory specific aspects of a node in the tree
#[derive(Debug, PartialEq)]
pub enum SchemaType {
    /// Indicates that this node describes a directory
    Directory(DirectorySchema),
    /// Indicates that this node describes a file
    File(FileSchema),
}

/// The ending of "entry" for a count: one entry, other entries
pub open spec fn entry_ending(n: nat) -> Seq<char> {
    if n == 1 {
        "y"@
    } else {
        "ies"@
    }
}

/// A pattern after its label, quoted (nothing where there is no pattern)
pub open spec fn pattern_part(label: Seq<char>, p: Option<Expression>) -> Seq<char> {
    match p {
        Some(e) => label + tokens_text(e@) + "\""@,
        None => Seq::empty(),
    }
}

/// A one-line description of a node: its line, its patterns, and what it is
pub open spec fn node_text(n: SchemaNode) -> Seq<char> {
    "Schema node \""@ + n.line@ + "\""@ + pattern_part(", matching \""@, n.match_pattern)
        + pattern_part(", avoiding \""@, n.avoid_pattern) + match n.schema {
        SchemaType::Directory(d) => " (directory with "@ + decimal_spec(d.entries@.len()) + " entr"@
            + entry_ending(d.entries@.len()) + ")"@,
        SchemaType::File(f) => " (file from source: "@ + tokens_text(f.source@) + ")"@,
    }
}

impl SchemaNode {
    /// A one-line description of this node (see [`node_text`])
    #[verifier::spinoff_prover]
    #[verifier::rlimit(40)]
    pub fn to_text(&self) -> (r: String)
        ensures
            r@ == node_text(*self),
    {
        let mut s = "Schema node \"".to_owned();
        append_str(&mut s, self.line.as_str());
        append_str(&mut s, "\"");
        let ghost head = s@;
        if let Some(e) = &self.match_pattern {
            append_str(&mut s, ", matching \"");
            let t = e.to_text();
            append_str(&mut s, t.as_str());
            append_str(&mut s, "\"");
        }
        let ghost with_match = s@;
        if let Some(e) = &self.avoid_pattern {
            append_str(&mut s, ", avoiding \"");
            let t = e.to_text();
            append_str(&mut s, t.as_str());
            append_str(&mut s, "\"");
        }
        let ghost with_avoid = s@;
        match &self.schema {
            SchemaType::Directory(d) => {
                let len = d.entries().len();
                append_str(&mut s, " (directory with ");
                let digits = decimal(len);
                append_str(&mut s, digits.as_str());
                append_str(&mut s, " entr");
                if len == 1 {
                    append_str(&mut s, "y");
                } else {
                    append_str(&mut s, "ies");
                }
                append_str(&mut s, ")");
            },
            SchemaType::File(f) => {
                append_str(&mut s, " (file from source: ");
                let t = f.source().to_text();
                append_str(&mut s, t.as_str());
                append_str(&mut s, ")");
            },
        }
        proof {
            let m = pattern_part(", matching \""@, self.match_pattern);
            let a = pattern_part(", avoiding \""@, self.avoid_pattern);
            assert(with_match =~= head + m);
            assert(with_avoid =~= head + m + a);
        }
        assert(s@ =~= node_text(*self));
        s
    }
}

impl SchemaType {
    /// Returns the inner [`DirectorySchema`] if this node is a directory node
    pub fn as_directory(&self) -> (r: Option<&DirectorySchema>)
        ensures
            match self {
                SchemaType::Directory(d) => r == Some(d),
                SchemaType::File(_) => r is None,
            },
    {
        match self {
            SchemaType::Directory(directory) => Some(directory),
            _ => None,
        }
    }

    /// Returns the inner [`FileSchema`] if this node is a file node
    pub fn as_file(&self) -> (r: Option<&FileSchema>)
        ensures
            match self {
                SchemaType::File(f) => r == Some(f),
                SchemaType::Directory(_) => r is None,
            },
    {
        match self {
            SchemaType::File(file) => Some(file),
            _ => None,
        }
    }
}

/// Entries of a directory are ordered by their bindings
pub open spec fn entries_sorted(entries: Seq<(Binding, SchemaNode)>) -> bool {
    forall|i: int, j: int|
        0 <= i < j < entries.len() ==> binding_le(#[trigger] entries[i].0@, #[trigger] entries[j].0@)
}

/// The entries of `s` bound by `b`, in their order in `s`
pub open spec fn with_binding(s: Seq<(Binding, SchemaNode)>, b: BindingView) -> Seq<
    (Binding, SchemaNode),
>
    decreases s.len(),
{
    if s.len() == 0 {
        Seq::empty()
    } else if s.last().0@ == b {
        with_binding(s.drop_last(), b).push(s.last())
    } else {
        with_binding(s.drop_last(), b)
    }
}

/// Picking the entries bound by `b` distributes over concatenation
proof fn lemma_with_binding_add(s: Seq<(Binding, SchemaNode)>, t: Seq<(Binding, SchemaNode)>, b: BindingView)
    ensures
        with_binding(s + t, b) == with_binding(s, b) + with_binding(t, b),
    decreases t.len(),
{
    if t.len() == 0 {
        assert(s + t =~= s);
        assert(with_binding(s, b) + with_binding(t, b) =~= with_binding(s, b));
    } else {
        lemma_with_binding_add(s, t.drop_last(), b);
        assert((s + t).drop_last() =~= s + t.drop_last());
        assert((s + t).last() == t.last());
        if t.last().0@ == b {
            assert(with_binding(s, b) + with_binding(t.drop_last(), b).push(t.last()) =~= (
            with_binding(s, b) + with_binding(t.drop_last(), b)).push(t.last()));
        }
    }
}

/// No entry of `s` is bound by `b`
proof fn lemma_with_binding_none(s: Seq<(Binding, SchemaNode)>, b: BindingView)
    requires
        forall|k: int| 0 <= k < s.len() ==> (#[trigger] s[k]).0@ != b,
    ensures
        with_binding(s, b) == Seq::<(Binding, SchemaNode)>::empty(),
    decreases s.len(),
{
    if s.len() > 0 {
        assert(s.last() == s[s.len() - 1]);
        lemma_with_binding_none(s.drop_last(), b);
    }
}

/// The position of the first entry of `s` whose key is `key`, if any
pub open spec fn key_index<X>(s: Seq<(Identifier, X)>, key: Seq<char>) -> Option<int>
    decreases s.len(),
{
    if s.len() == 0 {
        None
    } else if s[0].0@ == key {
        Some(0)
    } else {
        match key_index(s.drop_first(), key) {
            Some(i) => Some(i + 1),
            None => None,
        }
    }
}

/// The first position holding a key is the one [`key_index`] gives, and none means none
pub proof fn lemma_key_index<X>(s: Seq<(Identifier, X)>, key: Seq<char>, i: int)
    ensures
        (0 <= i < s.len() && s[i].0@ == key && forall|j: int| 0 <= j < i ==> (#[trigger] s[j]).0@
            != key) ==> key_index(s, key) == Some(i),
        (forall|j: int| 0 <= j < s.len() ==> (#[trigger] s[j]).0@ != key) ==> key_index(s, key)
            is None,
    decreases s.len(),
{
    if s.len() > 0 {
        lemma_key_index(s.drop_first(), key, i - 1);
        if 0 < i < s.len() && s[i].0@ == key && forall|j: int| 0 <= j < i ==> (#[trigger] s[j]).0@
            != key {
            assert(s[0].0@ != key);
            assert(s.drop_first()[i - 1] == s[i]);
            assert forall|j: int| 0 <= j < i - 1 implies (#[trigger] s.drop_first()[j]).0@ != key by {
                assert(s.drop_first()[j] == s[j + 1]);
            }
        }
        if forall|j: int| 0 <= j < s.len() ==> (#[trigger] s[j]).0@ != key {
            assert(s[0].0@ != key);
            assert forall|j: int| 0 <= j < s.len() - 1 implies (#[trigger] s.drop_first()[j]).0@
                != key by {
                assert(s.drop_first()[j] == s[j + 1]);
            }
        }
    }
}

/// Finds the value associated with the first occurrence of `key`
pub fn find_by_key<'a, X>(s: &'a [(Identifier, X)], key: &Identifier) -> (r: Option<&'a X>)
    ensures
        match r {
            None => forall|i: int| 0 <= i < s@.len() ==> (#[trigger] s@[i]).0@ != key@,
            Some(x) => exists|i: int|
                0 <= i < s@.len() && (#[trigger] s@[i]).0@ == key@ && *x == s@[i].1 && forall|
                    j: int,
                | 0 <= j < i ==> (#[trigger] s@[j]).0@ != key@,
        },
{
    let mut i: usize = 0;
    while i < s.len()
        invariant
            i <= s@.len(),
            forall|j: int| 0 <= j < i ==> (#[trigger] s@[j]).0@ != key@,
        decreases s@.len() - i,
    {
        if str_eq(s[i].0.value(), key.value()) {
            return Some(&s[i].1);
        }
        i += 1;
    }
    None
}

/// A container of variables, definitions (named schemas) and a directory listing
#[derive(Debug, PartialEq)]
pub struct DirectorySchema {
    /// Text replacement variables
    pub vars: Vec<(Identifier, Expression)>,
    /// Definitions of sub-schemas
    pub defs: Vec<(Identifier, SchemaNode)>,
    /// Disk entries to be created within this directory
    pub entries: Vec<(Binding, SchemaNode)>,
}

impl DirectorySchema {
    /// Constructs a new description of a directory in the schema, with its entries ordered
    /// by their bindings (static names first)
    pub fn new(
        vars: Vec<(Identifier, Expression)>,
        defs: Vec<(Identifier, SchemaNode)>,
        entries: Vec<(Binding, SchemaNode)>,
    ) -> (r: DirectorySchema)
        ensures
            r.vars == vars,
            r.defs == defs,
            entries_sorted(r.entries@),
            r.entries@.to_multiset() == entries@.to_multiset(),
            forall|b: BindingView| #[trigger]
                with_binding(r.entries@, b) == with_binding(entries@, b),
    {
        let entries = sort_entries(entries);
        DirectorySchema { vars, defs, entries }
    }

    /// An empty directory
    pub fn empty() -> (r: DirectorySchema)
        ensures
            r.vars@.len() == 0,
            r.defs@.len() == 0,
            r.entries@.len() == 0,
    {
        DirectorySchema { vars: Vec::new(), defs: Vec::new(), entries: Vec::new() }
    }

    /// Provides access to the variables defined in this node
    pub fn vars(&self) -> (r: &[(Identifier, Expression)])
        ensures
            r@ == self.vars@,
    {
        self.vars.as_slice()
    }

    /// Returns the expression associated with the given variable, if any was set in the schema
    pub fn get_var(&self, id: &Identifier) -> (r: Option<&Expression>)
        ensures
            match key_index(self.vars@, id@) {
                None => r is None,
                Some(i) => r matches Some(x) && *x == self.vars@[i].1,
            },
    {
        let r = find_by_key(self.vars.as_slice(), id);
        proof {
            match r {
                None => lemma_key_index(self.vars@, id@, 0),
                Some(x) => {
                    let i = choose|i: int|
                        0 <= i < self.vars@.len() && (#[trigger] self.vars@[i]).0@ == id@ && *x
                            == self.vars@[i].1 && forall|j: int|
                            0 <= j < i ==> (#[trigger] self.vars@[j]).0@ != id@;
                    lemma_key_index(self.vars@, id@, i);
                },
            }
        }
        r
    }

    /// Provides access to the sub-schema definitions defined in this node
    pub fn defs(&self) -> (r: &[(Identifier, SchemaNode)])
        ensures
            r@ == self.defs@,
    {
        self.defs.as_slice()
    }

    /// Returns the sub-schema associated with the given definition, if any was set in the schema
    pub fn get_def(&self, id: &Identifier) -> (r: Option<&SchemaNode>)
        ensures
            match key_index(self.defs@, id@) {
                None => r is None,
                Some(i) => r matches Some(x) && *x == self.defs@[i].1,
            },
    {
        let r = find_by_key(self.defs.as_slice(), id);
        proof {
            match r {
                None => lemma_key_index(self.defs@, id@, 0),
                Some(x) => {
                    let i = choose|i: int|
                        0 <= i < self.defs@.len() && (#[trigger] self.defs@[i]).0@ == id@ && *x
                            == self.defs@[i].1 && forall|j: int|
                            0 <= j < i ==> (#[trigger] self.defs@[j]).0@ != id@;
                    lemma_key_index(self.defs@, id@, i);
                },
            }
        }
        r
    }

    /// Provides access to the child nodes of this node, with their bindings
    pub fn entries(&self) -> (r: &[(Binding, SchemaNode)])
        ensures
            r@ == self.entries@,
    {
        self.entries.as_slice()
    }
}

/// Orders entries by their bindings, keeping the relative order of entries with equal bindings
pub fn sort_entries(entries: Vec<(Binding, SchemaNode)>) -> (r: Vec<(Binding, SchemaNode)>)
    ensures
        entries_sorted(r@),
        r@.to_multiset() == entries@.to_multiset(),
        forall|b: BindingView| #[trigger] with_binding(r@, b) == with_binding(entries@, b),
{
    let mut input = entries;
    let mut out: Vec<(Binding, SchemaNode)> = Vec::new();
    let ghost given = input@;
    assert(given.skip(given.len() as int) =~= Seq::<(Binding, SchemaNode)>::empty());
    // Take items from the back, inserting each before all items ordered strictly after it
    while input.len() > 0
        invariant
            entries_sorted(out@),
            given.to_multiset() == input@.to_multiset().add(out@.to_multiset()),
            input@.len() <= given.len(),
            input@ == given.take(input@.len() as int),
            forall|b: BindingView| #[trigger]
                with_binding(out@, b) == with_binding(given.skip(input@.len() as int), b),
        decreases input@.len(),
    {
        let ghost before_in = input@;
        let ghost before_out = out@;
        let item = input.pop().unwrap();
        proof {
            assert(before_in == input@.push(item));
            vstd::seq_lib::lemma_multiset_commutative(input@, seq![item]);
            assert(input@.push(item) =~= input@ + seq![item]);
        }
        // Find the first position whose binding is not ordered after the new item
        let mut j: usize = 0;
        while j < out.len() && out[j].0.le(&item.0) && !item.0.le(&out[j].0)
            invariant
                j <= out@.len(),
                out@ == before_out,
                entries_sorted(out@),
                forall|k: int| 0 <= k < j ==> binding_le((#[trigger] out@[k]).0@, item.0@),
                forall|k: int| 0 <= k < j ==> !binding_le(item.0@, (#[trigger] out@[k]).0@),
            decreases out@.len() - j,
        {
            j += 1;
        }
        proof {
            assert forall|k: int| j <= k < out@.len() implies binding_le(
                item.0@,
                (#[trigger] out@[k]).0@,
            ) by {
                lemma_binding_le_total(out@[j as int].0@, item.0@);
                if j < k {
                    lemma_binding_le_transitive(item.0@, out@[j as int].0@, out@[k].0@);
                }
            }
        }
        let ghost item_g = item;
        out.insert(j, item);
        proof {
            vstd::seq_lib::to_multiset_insert(before_out, j as int, item_g);
            assert forall|a: int, b: int| 0 <= a < b < out@.len() implies binding_le(
                (#[trigger] out@[a]).0@,
                (#[trigger] out@[b]).0@,
            ) by {
                if a < j && b == j {
                } else if a == j && b > j {
                } else if a < j && b > j {
                    assert(out@[a] == before_out[a]);
                    assert(out@[b] == before_out[b - 1]);
                } else if b < j {
                    assert(out@[a] == before_out[a]);
                    assert(out@[b] == before_out[b]);
                } else {
                    assert(out@[a] == before_out[a - 1]);
                    assert(out@[b] == before_out[b - 1]);
                }
            }
            assert(input@.to_multiset().add(before_out.to_multiset().insert(item_g))
                =~= before_in.to_multiset().add(before_out.to_multiset()));
            let n = input@.len() as int;
            assert(input@ =~= given.take(n));
            assert(item_g == given[n]);
            assert(given.skip(n) =~= seq![item_g] + given.skip(n + 1));
            let front = before_out.take(j as int);
            let back = before_out.skip(j as int);
            assert(before_out =~= front + back);
            assert(out@ =~= front + (seq![item_g] + back));
            assert forall|b: BindingView| #[trigger]
                with_binding(out@, b) == with_binding(given.skip(n), b) by {
                lemma_with_binding_add(front, seq![item_g] + back, b);
                lemma_with_binding_add(seq![item_g], back, b);
                lemma_with_binding_add(front, back, b);
                lemma_with_binding_add(seq![item_g], given.skip(n + 1), b);
                assert(seq![item_g].drop_last() =~= Seq::<(Binding, SchemaNode)>::empty());
                assert(seq![item_g].last() == item_g);
                assert(with_binding(Seq::<(Binding, SchemaNode)>::empty(), b).len() == 0);
                if b == item_g.0@ {
                    assert forall|k: int| 0 <= k < front.len() implies (#[trigger] front[k]).0@
                        != b by {
                        lemma_binding_le_total(item_g.0@, item_g.0@);
                        assert(front[k] == before_out[k]);
                    }
                    lemma_with_binding_none(front, b);
                    assert(with_binding(front, b) + with_binding(back, b) =~= with_binding(back, b));
                    assert(Seq::<(Binding, SchemaNode)>::empty() + (with_binding(seq![item_g], b)
                        + with_binding(back, b)) =~= with_binding(seq![item_g], b) + with_binding(
                        back,
                        b,
                    ));
                } else {
                    assert(with_binding(seq![item_g], b) =~= Seq::<(Binding, SchemaNode)>::empty());
                    assert(with_binding(front, b) + (Seq::<(Binding, SchemaNode)>::empty()
                        + with_binding(back, b)) =~= with_binding(front, b) + with_binding(back, b));
                    assert(Seq::<(Binding, SchemaNode)>::empty() + with_binding(given.skip(n + 1), b)
                        =~= with_binding(given.skip(n + 1), b));
                }
            }
        }
    }
    proof {
        assert(input@.to_multiset() =~= Multiset::empty());
        assert(given.skip(0) =~= given);
    }
    out
}

} // verus!
