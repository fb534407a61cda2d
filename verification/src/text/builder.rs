//! Assembles a [`SchemaNode`] from the operators that apply to it.
use vstd::prelude::*;

use crate::expression::{Expression, Identifier};
use crate::text_util::append_str;
use crate::schema::{
    entries_sorted, find_by_key, Attributes, Binding, DirectorySchema, FileSchema, SchemaNode, SchemaType,
};

verus! {

/// Whether a node describes a directory or a file
#[derive(Debug, Clone, Copy, PartialEq, Eq)]
pub enum NodeType {
    /// A directory
    Directory,
    /// A file
    File,
}

/// The parts of a node specific to its type
#[derive(Debug)]
pub enum TypeSpecific {
    /// A directory's variables, definitions and entries
    Directory {
        vars: Vec<(Identifier, Expression)>,
        defs: Vec<(Identifier, SchemaNode)>,
        entries: Vec<(Binding, SchemaNode)>,
    },
    /// A file's source, once given
    File { source: Option<Expression> },
}

/// Whether a key occurs in a sequence of keyed values
pub open spec fn has_key<X>(s: Seq<(Identifier, X)>, key: Seq<char>) -> bool {
    exists|i: int| 0 <= i < s.len() && (#[trigger] s[i]).0@ == key
}

impl TypeSpecific {
    /// Whether these are the parts of a directory
    pub open spec fn is_dir(self) -> bool {
        self is Directory
    }

    /// A directory's variables (none for a file)
    pub open spec fn dir_vars(self) -> Seq<(Identifier, Expression)> {
        match self {
            TypeSpecific::Directory { vars, .. } => vars@,
            TypeSpecific::File { .. } => Seq::empty(),
        }
    }

    /// A directory's definitions (none for a file)
    pub open spec fn dir_defs(self) -> Seq<(Identifier, SchemaNode)> {
        match self {
            TypeSpecific::Directory { defs, .. } => defs@,
            TypeSpecific::File { .. } => Seq::empty(),
        }
    }

    /// A directory's entries (none for a file)
    pub open spec fn dir_entries(self) -> Seq<(Binding, SchemaNode)> {
        match self {
            TypeSpecific::Directory { entries, .. } => entries@,
            TypeSpecific::File { .. } => Seq::empty(),
        }
    }

    /// A file's source (none for a directory)
    pub open spec fn file_source(self) -> Option<Expression> {
        match self {
            TypeSpecific::Directory { .. } => None,
            TypeSpecific::File { source } => source,
        }
    }

    /// Whether `self` is `old` with `vars`, `defs` and `entries` in place of its own
    pub open spec fn dir_changed(
        self,
        old: TypeSpecific,
        vars: Seq<(Identifier, Expression)>,
        defs: Seq<(Identifier, SchemaNode)>,
        entries: Seq<(Binding, SchemaNode)>,
    ) -> bool {
        &&& old.is_dir()
        &&& self.is_dir()
        &&& self.dir_vars() == vars
        &&& self.dir_defs() == defs
        &&& self.dir_entries() == entries
    }
}

/// Whether one call took the builder `before` to `after`: the kind of node stays as it was,
/// and a file has a source afterwards exactly when it had one before or the call gave it one
/// (`sourced`)
pub open spec fn builder_step(before: SchemaNodeBuilder, after: SchemaNodeBuilder, sourced: bool) -> bool {
    &&& after.type_specific.is_dir() == before.type_specific.is_dir()
    &&& after.type_specific.file_source() is Some <==> (before.type_specific.file_source() is Some
        || sourced)
}

/// Whether the builder can build: a directory, or a file that has a source
pub open spec fn buildable(b: SchemaNodeBuilder) -> bool {
    b.type_specific.is_dir() || b.type_specific.file_source() is Some
}

/// Over any sequence of calls on a new builder for a node of type `node_type`, the node can be
/// built exactly when it is a directory or some call gave the file its source: `builders` are
/// the states one after another (the first as made) and `sourced` says of each call whether it
/// gave a source
pub proof fn lemma_builder_calls(
    builders: Seq<SchemaNodeBuilder>,
    sourced: Seq<bool>,
    node_type: NodeType,
)
    requires
        builders.len() == sourced.len() + 1,
        fresh_type_specific(builders[0].type_specific, node_type),
        forall|i: int|
            0 <= i < sourced.len() ==> builder_step(
                #[trigger] builders[i],
                builders[i + 1],
                sourced[i],
            ),
    ensures
        buildable(builders.last()) <==> (node_type == NodeType::Directory || exists|i: int|
            0 <= i < sourced.len() && #[trigger] sourced[i]),
    decreases sourced.len(),
{
    if sourced.len() == 0 {
    } else {
        let n = sourced.len() - 1;
        let b0 = builders.drop_last();
        let s0 = sourced.drop_last();
        assert forall|i: int| 0 <= i < s0.len() implies builder_step(
            #[trigger] b0[i],
            b0[i + 1],
            s0[i],
        ) by {
            assert(b0[i] == builders[i]);
            assert(b0[i + 1] == builders[i + 1]);
        }
        lemma_builder_calls(b0, s0, node_type);
        assert(builder_step(builders[n], builders[n + 1], sourced[n]));
        assert(b0.last() == builders[n]);
        if exists|i: int| 0 <= i < s0.len() && #[trigger] s0[i] {
            let i = choose|i: int| 0 <= i < s0.len() && #[trigger] s0[i];
            assert(sourced[i]);
        }
        if exists|i: int| 0 <= i < sourced.len() && #[trigger] sourced[i] {
            let i = choose|i: int| 0 <= i < sourced.len() && #[trigger] sourced[i];
            if i < n {
                assert(s0[i]);
            }
        }
    }
}

/// The type specific parts of a node that has been given nothing yet
pub open spec fn fresh_type_specific(t: TypeSpecific, node_type: NodeType) -> bool {
    match t {
        TypeSpecific::Directory { vars, defs, entries } => node_type == NodeType::Directory
            && vars@.len() == 0 && defs@.len() == 0 && entries@.len() == 0,
        TypeSpecific::File { source } => node_type == NodeType::File && source is None,
    }
}

/// Whether `schema` is what a node with the type specific parts `t` becomes
pub open spec fn built_schema(schema: SchemaType, t: TypeSpecific) -> bool {
    match (schema, t) {
        (SchemaType::File(f), TypeSpecific::File { source }) => source == Some(f.source),
        (SchemaType::Directory(d), TypeSpecific::Directory { vars, defs, entries }) => {
            &&& d.vars == vars
            &&& d.defs == defs
            &&& entries_sorted(d.entries@)
            &&& d.entries@.to_multiset() == entries@.to_multiset()
        },
        _ => false,
    }
}

/// Collects the properties of a schema node, rejecting those that conflict
#[derive(Debug)]
pub struct SchemaNodeBuilder {
    /// The line defining the node
    pub line: String,
    /// Whether the node is a definition (`:def`), which cannot have patterns
    pub is_def: bool,
    /// The `:match` pattern, once given
    pub match_pattern: Option<Expression>,
    /// The `:avoid` pattern, once given
    pub avoid_pattern: Option<Expression>,
    /// The symlink target, once given
    pub symlink: Option<Expression>,
    /// The definitions `:use`d, in order
    pub uses: Vec<Identifier>,
    /// Owner, group and mode, once given
    pub attributes: Attributes,
    /// Directory or file specific parts
    pub type_specific: TypeSpecific,
}

impl SchemaNodeBuilder {
    /// This builder with another `:match` pattern
    pub open spec fn with_match(self, p: Option<Expression>) -> SchemaNodeBuilder {
        SchemaNodeBuilder { match_pattern: p, ..self }
    }

    /// This builder with another `:avoid` pattern
    pub open spec fn with_avoid(self, p: Option<Expression>) -> SchemaNodeBuilder {
        SchemaNodeBuilder { avoid_pattern: p, ..self }
    }

    /// This builder with another symlink target
    pub open spec fn with_symlink(self, t: Option<Expression>) -> SchemaNodeBuilder {
        SchemaNodeBuilder { symlink: t, ..self }
    }

    /// This builder with other uses
    pub open spec fn with_uses(self, u: Vec<Identifier>) -> SchemaNodeBuilder {
        SchemaNodeBuilder { uses: u, ..self }
    }

    /// This builder with other attributes
    pub open spec fn with_attributes(self, a: Attributes) -> SchemaNodeBuilder {
        SchemaNodeBuilder { attributes: a, ..self }
    }

    /// This builder with other type specific parts
    pub open spec fn with_type(self, t: TypeSpecific) -> SchemaNodeBuilder {
        SchemaNodeBuilder { type_specific: t, ..self }
    }

    /// Starts building a node of the given type
    pub fn new(line: String, is_def: bool, node_type: NodeType, symlink: Option<Expression>) -> (r:
        SchemaNodeBuilder)
        ensures
            r.line == line,
            r.is_def == is_def,
            r.match_pattern is None,
            r.avoid_pattern is None,
            r.symlink == symlink,
            r.uses@.len() == 0,
            r.attributes.owner is None,
            r.attributes.group is None,
            r.attributes.mode is None,
            fresh_type_specific(r.type_specific, node_type),
    {
        SchemaNodeBuilder {
            line,
            is_def,
            match_pattern: None,
            avoid_pattern: None,
            symlink,
            uses: Vec::new(),
            attributes: Attributes::empty(),
            type_specific: match node_type {
                NodeType::Directory => TypeSpecific::Directory {
                    vars: Vec::new(),
                    defs: Vec::new(),
                    entries: Vec::new(),
                },
                NodeType::File => TypeSpecific::File { source: None },
            },
        }
    }

    /// Sets the `:match` pattern, which may only be given once and not in a definition
    pub fn match_pattern(&mut self, pattern: Expression) -> (r: Result<(), String>)
        ensures
            builder_step(*old(self), *final(self), false),
            r is Ok <==> (old(self).match_pattern is None && !old(self).is_def),
            r is Ok ==> *final(self) == old(self).with_match(Some(pattern)),
            r is Err ==> *final(self) == *old(self),
    {
        if self.match_pattern.is_some() {
            return Err(":match occurs twice".to_owned());
        }
        if self.is_def {
            return Err(":match cannot be used in definition".to_owned());
        }
        self.match_pattern = Some(pattern);
        Ok(())
    }

    /// Sets the `:avoid` pattern, which may only be given once and not in a definition
    pub fn avoid_pattern(&mut self, pattern: Expression) -> (r: Result<(), String>)
        ensures
            builder_step(*old(self), *final(self), false),
            r is Ok <==> (old(self).avoid_pattern is None && !old(self).is_def),
            r is Ok ==> *final(self) == old(self).with_avoid(Some(pattern)),
            r is Err ==> *final(self) == *old(self),
    {
        if self.avoid_pattern.is_some() {
            return Err(":avoid occurs twice".to_owned());
        }
        if self.is_def {
            return Err(":avoid cannot be used in definition".to_owned());
        }
        self.avoid_pattern = Some(pattern);
        Ok(())
    }

    /// Sets a variable (`:let`), which only directories may have, each name at most once
    pub fn let_var(&mut self, id: Identifier, expr: Expression) -> (r: Result<(), String>)
        ensures
            builder_step(*old(self), *final(self), false),
            r is Ok <==> (old(self).type_specific.is_dir() && !has_key(
                old(self).type_specific.dir_vars(),
                id@,
            )),
            old(self).type_specific.is_dir() && has_key(old(self).type_specific.dir_vars(), id@)
                ==> (r matches Err(e) && e@ == ":let "@ + id@ + " occurs twice"@),
            r is Ok ==> final(self).type_specific.dir_changed(
                old(self).type_specific,
                old(self).type_specific.dir_vars().push((id, expr)),
                old(self).type_specific.dir_defs(),
                old(self).type_specific.dir_entries(),
            ),
            r is Ok ==> *final(self) == old(self).with_type(final(self).type_specific),
            r is Err ==> *final(self) == *old(self),
    {
        match &mut self.type_specific {
            TypeSpecific::File { .. } => Err(
                "Cannot use :let to set variables inside files (add a '/' to make it a directory)".to_owned(),
            ),
            TypeSpecific::Directory { vars, .. } => {
                if find_by_key(vars.as_slice(), &id).is_some() {
                    let mut msg = ":let ".to_owned();
                    append_str(&mut msg, id.value());
                    append_str(&mut msg, " occurs twice");
                    Err(msg)
                } else {
                    vars.push((id, expr));
                    Ok(())
                }
            },
        }
    }

    /// Adds a definition (`:def`), which only directories may have, each name at most once
    pub fn define(&mut self, id: Identifier, definition: SchemaNode) -> (r: Result<(), String>)
        ensures
            builder_step(*old(self), *final(self), false),
            r is Ok <==> (old(self).type_specific.is_dir() && !has_key(
                old(self).type_specific.dir_defs(),
                id@,
            )),
            old(self).type_specific.is_dir() && has_key(old(self).type_specific.dir_defs(), id@)
                ==> (r matches Err(e) && e@ == ":def "@ + id@ + " occurs twice"@),
            r is Ok ==> final(self).type_specific.dir_changed(
                old(self).type_specific,
                old(self).type_specific.dir_vars(),
                old(self).type_specific.dir_defs().push((id, definition)),
                old(self).type_specific.dir_entries(),
            ),
            r is Ok ==> *final(self) == old(self).with_type(final(self).type_specific),
            r is Err ==> *final(self) == *old(self),
    {
        match &mut self.type_specific {
            TypeSpecific::File { .. } => Err(
                "Cannot :define sub-trees inside files (add a '/' to make it a directory)".to_owned(),
            ),
            TypeSpecific::Directory { defs, .. } => {
                if find_by_key(defs.as_slice(), &id).is_some() {
                    let mut msg = ":def ".to_owned();
                    append_str(&mut msg, id.value());
                    append_str(&mut msg, " occurs twice");
                    Err(msg)
                } else {
                    defs.push((id, definition));
                    Ok(())
                }
            },
        }
    }

    /// Uses a definition (`:use`), which a file with a `:source` cannot
    pub fn use_definition(&mut self, id: Identifier) -> (r: Result<(), String>)
        ensures
            builder_step(*old(self), *final(self), false),
            r is Err <==> (old(self).type_specific.file_source() is Some),
            r is Ok ==> final(self).uses@ == old(self).uses@.push(id),
            r is Ok ==> *final(self) == old(self).with_uses(final(self).uses),
            r is Err ==> *final(self) == *old(self),
    {
        if let TypeSpecific::File { source } = &self.type_specific {
            if source.is_some() {
                return Err(":use cannot be used in conjunction with :source".to_owned());
            }
        }
        self.uses.push(id);
        Ok(())
    }

    /// Sets the owner, which may only be given once
    pub fn owner(&mut self, owner: Expression) -> (r: Result<(), String>)
        ensures
            builder_step(*old(self), *final(self), false),
            r is Ok <==> (old(self).attributes.owner is None),
            r is Ok ==> final(self).attributes.owner == Some(owner),
            r is Ok ==> final(self).attributes.group == old(self).attributes.group,
            r is Ok ==> final(self).attributes.mode == old(self).attributes.mode,
            r is Ok ==> *final(self) == old(self).with_attributes(final(self).attributes),
            r is Err ==> *final(self) == *old(self),
    {
        if self.attributes.owner.is_some() {
            return Err(":owner occurs twice".to_owned());
        }
        self.attributes.owner = Some(owner);
        Ok(())
    }

    /// Sets the group, which may only be given once
    pub fn group(&mut self, group: Expression) -> (r: Result<(), String>)
        ensures
            builder_step(*old(self), *final(self), false),
            r is Ok <==> (old(self).attributes.group is None),
            r is Ok ==> final(self).attributes.group == Some(group),
            r is Ok ==> final(self).attributes.owner == old(self).attributes.owner,
            r is Ok ==> final(self).attributes.mode == old(self).attributes.mode,
            r is Ok ==> *final(self) == old(self).with_attributes(final(self).attributes),
            r is Err ==> *final(self) == *old(self),
    {
        if self.attributes.group.is_some() {
            return Err(":group occurs twice".to_owned());
        }
        self.attributes.group = Some(group);
        Ok(())
    }

    /// Sets the mode, which may only be given once
    pub fn mode(&mut self, mode: u16) -> (r: Result<(), String>)
        ensures
            builder_step(*old(self), *final(self), false),
            r is Ok <==> (old(self).attributes.mode is None),
            r is Ok ==> final(self).attributes.mode == Some(mode),
            r is Ok ==> final(self).attributes.owner == old(self).attributes.owner,
            r is Ok ==> final(self).attributes.group == old(self).attributes.group,
            r is Ok ==> *final(self) == old(self).with_attributes(final(self).attributes),
            r is Err ==> *final(self) == *old(self),
    {
        if self.attributes.mode.is_some() {
            return Err(":mode occurs twice".to_owned());
        }
        self.attributes.mode = Some(mode);
        Ok(())
    }

    /// Sets a file's source, which may only be given once and not together with `:use`
    pub fn source(&mut self, source: Expression) -> (r: Result<(), String>)
        ensures
            builder_step(*old(self), *final(self), r is Ok),
            r is Ok <==> (!old(self).type_specific.is_dir() && old(
                self,
            ).type_specific.file_source() is None && old(self).uses@.len() == 0),
            r is Ok ==> final(self).type_specific == (TypeSpecific::File { source: Some(source) }),
            r is Ok ==> *final(self) == old(self).with_type(final(self).type_specific),
            r is Err ==> *final(self) == *old(self),
    {
        match self.type_specific {
            TypeSpecific::Directory { .. } => Err(
                ":source can only be used for files, not directories".to_owned(),
            ),
            TypeSpecific::File { source: ref mut src } => {
                if self.uses.len() > 0 {
                    Err(":source cannot be used in conjunction with :use".to_owned())
                } else if src.is_some() {
                    Err(":source occurs twice".to_owned())
                } else {
                    *src = Some(source);
                    Ok(())
                }
            },
        }
    }

    /// Sets the symlink target (`:target`), which may only be given once
    pub fn target(&mut self, target: Expression) -> (r: Result<(), String>)
        ensures
            builder_step(*old(self), *final(self), false),
            r is Ok <==> (old(self).symlink is None),
            r is Ok ==> *final(self) == old(self).with_symlink(Some(target)),
            r is Err ==> *final(self) == *old(self),
    {
        if self.symlink.is_some() {
            return Err(":target occurs twice".to_owned());
        }
        self.symlink = Some(target);
        Ok(())
    }

    /// Adds a child entry, which only directories may have
    pub fn add_entry(&mut self, binding: Binding, entry: SchemaNode) -> (r: Result<(), String>)
        ensures
            builder_step(*old(self), *final(self), false),
            r is Ok <==> old(self).type_specific.is_dir(),
            r is Ok ==> final(self).type_specific.dir_changed(
                old(self).type_specific,
                old(self).type_specific.dir_vars(),
                old(self).type_specific.dir_defs(),
                old(self).type_specific.dir_entries().push((binding, entry)),
            ),
            r is Ok ==> *final(self) == old(self).with_type(final(self).type_specific),
            r is Err ==> *final(self) == *old(self),
    {
        match &mut self.type_specific {
            TypeSpecific::File { .. } => Err(
                "Files cannot have child items (add a '/' to make it a directory)".to_owned(),
            ),
            TypeSpecific::Directory { entries, .. } => {
                entries.push((binding, entry));
                Ok(())
            },
        }
    }

    /// The node with all properties given; a file must have been given a `:source`
    pub fn build(self) -> (r: Result<SchemaNode, String>)
        ensures
            r is Ok <==> buildable(self),
            r matches Ok(n) ==> built_node(n, self),
    {
        let SchemaNodeBuilder {
            line,
            is_def: _,
            match_pattern,
            avoid_pattern,
            symlink,
            uses,
            attributes,
            type_specific,
        } = self;
        let schema = match type_specific {
            TypeSpecific::Directory { vars, defs, entries } => SchemaType::Directory(
                DirectorySchema::new(vars, defs, entries),
            ),
            TypeSpecific::File { source } => match source {
                None => {
                    return Err(
                        "File must have a :source (or add a '/' to make it a directory)".to_owned(),
                    )
                },
                Some(source) => SchemaType::File(FileSchema::new(source)),
            },
        };
        Ok(SchemaNode { line, match_pattern, avoid_pattern, symlink, uses, attributes, schema })
    }
}

/// Whether `n` is the node that builder `b` produces
pub open spec fn built_node(n: SchemaNode, b: SchemaNodeBuilder) -> bool {
    &&& n.line == b.line
    &&& n.match_pattern == b.match_pattern
    &&& n.avoid_pattern == b.avoid_pattern
    &&& n.symlink == b.symlink
    &&& n.uses == b.uses
    &&& n.attributes == b.attributes
    &&& built_schema(n.schema, b.type_specific)
}

} // verus!
