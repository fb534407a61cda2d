//! The stack of scopes met while walking a schema: variables, definitions, and the owner,
//! group and mode inherited from above.
use vstd::prelude::*;

use crate::attrs::Mode;
use crate::config::Config;
use crate::expression::{tokens_text, Expression, Identifier, TokenView};
use crate::namemap::NameMap;
use crate::schema::{key_index, DirectorySchema, SchemaNode};
use crate::text_util::{append_str, str_eq};

verus! {

/// Where the variables of one scope come from
#[derive(Debug)]
pub enum VariableSource<'g> {
    /// No variables
    Empty,
    /// The variables and definitions of a directory of the schema
    Directory(&'g DirectorySchema),
    /// A variable bound to the name matched by a dynamic entry
    Binding(&'g Identifier, String),
    /// Variables given by name, such as on the command line
    Given(&'g NameMap),
}

/// The value of a variable
#[derive(Debug)]
pub enum Value<'a> {
    /// An expression of the schema, still to be evaluated
    Expression(&'a Expression),
    /// Plain text
    Text(String),
}

/// The abstract value of a [`Value`]
pub enum ValueView {
    Expression(Seq<TokenView>),
    Text(Seq<char>),
}

impl<'a> View for Value<'a> {
    type V = ValueView;

    open spec fn view(&self) -> ValueView {
        match self {
            Value::Expression(e) => ValueView::Expression(e@),
            Value::Text(s) => ValueView::Text(s@),
        }
    }
}

/// The value that one scope gives the variable `name`, if any
pub open spec fn source_lookup(s: VariableSource, name: Seq<char>) -> Option<ValueView> {
    match s {
        VariableSource::Empty => None,
        VariableSource::Directory(d) => match key_index(d.vars@, name) {
            Some(i) => Some(ValueView::Expression(d.vars@[i].1@)),
            None => None,
        },
        VariableSource::Binding(id, v) => if id@ == name {
            Some(ValueView::Text(v@))
        } else {
            None
        },
        VariableSource::Given(m) => if m@.contains_key(name) {
            Some(ValueView::Text(m@[name]))
        } else {
            None
        },
    }
}

/// The value of the variable `name` in the innermost scope that gives it one
pub open spec fn frames_lookup(frames: Seq<VariableSource>, name: Seq<char>) -> Option<ValueView>
    decreases frames.len(),
{
    if frames.len() == 0 {
        None
    } else {
        match source_lookup(frames.last(), name) {
            Some(v) => Some(v),
            None => frames_lookup(frames.drop_last(), name),
        }
    }
}

/// The innermost scope wins: where frame `i` gives `name` a value and no frame inside it (pushed
/// later) does, looking `name` up gives frame `i`'s value, whatever the outer frames give it
pub proof fn lemma_innermost_frame_wins(frames: Seq<VariableSource>, i: int, name: Seq<char>)
    requires
        0 <= i < frames.len(),
        source_lookup(frames[i], name) is Some,
        forall|j: int| i < j < frames.len() ==> (#[trigger] source_lookup(frames[j], name)) is None,
    ensures
        frames_lookup(frames, name) == source_lookup(frames[i], name),
    decreases frames.len(),
{
    if i < frames.len() - 1 {
        let rest = frames.drop_last();
        assert(source_lookup(frames[frames.len() - 1], name) is None);
        assert forall|j: int| i < j < rest.len() implies (#[trigger] source_lookup(rest[j], name)) is None by {
            assert(rest[j] == frames[j]);
            assert(source_lookup(frames[j], name) is None);
        }
        assert(rest[i] == frames[i]);
        lemma_innermost_frame_wins(rest, i, name);
    }
}

/// A variable that no frame gives a value has none, and one that some frame gives a value has
/// one
pub proof fn lemma_frames_none_iff_undefined(frames: Seq<VariableSource>, name: Seq<char>)
    ensures
        frames_lookup(frames, name) is None <==> forall|j: int|
            0 <= j < frames.len() ==> (#[trigger] source_lookup(frames[j], name)) is None,
    decreases frames.len(),
{
    if frames.len() > 0 {
        let rest = frames.drop_last();
        lemma_frames_none_iff_undefined(rest, name);
        if frames_lookup(frames, name) is None {
            assert forall|j: int| 0 <= j < frames.len() implies (#[trigger] source_lookup(frames[j], name)) is None by {
                if j < frames.len() - 1 {
                    assert(rest[j] == frames[j]);
                    assert(source_lookup(rest[j], name) is None);
                }
            }
        } else if source_lookup(frames.last(), name) is None {
            let j = choose|j: int| 0 <= j < rest.len() && (#[trigger] source_lookup(rest[j], name)) is Some;
            assert(rest[j] == frames[j]);
            assert(source_lookup(frames[j], name) is Some);
        } else {
            assert(source_lookup(frames[frames.len() - 1], name) is Some);
        }
    }
}

/// Pushing a scope that gives `name` a value makes that the value looked up; pushing one that
/// does not leaves the value looked up as it was
pub proof fn lemma_frames_lookup_after_push(frames: Seq<VariableSource>, s: VariableSource, name: Seq<char>)
    ensures
        source_lookup(s, name) is Some ==> frames_lookup(frames.push(s), name) == source_lookup(s, name),
        source_lookup(s, name) is None ==> frames_lookup(frames.push(s), name) == frames_lookup(frames, name),
{
    let f = frames.push(s);
    assert(f.drop_last() =~= frames);
    assert(f.last() == s);
    if source_lookup(s, name) is Some {
        lemma_innermost_frame_wins(f, frames.len() as int, name);
    }
}

/// The definition named `name` in one scope, if any
pub open spec fn source_definition(s: VariableSource, name: Seq<char>) -> Option<SchemaNode> {
    match s {
        VariableSource::Directory(d) => match key_index(d.defs@, name) {
            Some(i) => Some(d.defs@[i].1),
            None => None,
        },
        _ => None,
    }
}

/// The definition named `name` in the innermost scope that has one
pub open spec fn frames_definition(frames: Seq<VariableSource>, name: Seq<char>) -> Option<
    SchemaNode,
>
    decreases frames.len(),
{
    if frames.len() == 0 {
        None
    } else {
        match source_definition(frames.last(), name) {
            Some(n) => Some(n),
            None => frames_definition(frames.drop_last(), name),
        }
    }
}

impl<'g> VariableSource<'g> {
    /// A copy of this source
    pub fn duplicate(&self) -> (r: VariableSource<'g>)
        ensures
            r == *self,
    {
        match self {
            VariableSource::Empty => VariableSource::Empty,
            VariableSource::Directory(d) => VariableSource::Directory(*d),
            VariableSource::Binding(id, v) => VariableSource::Binding(*id, v.clone()),
            VariableSource::Given(m) => VariableSource::Given(*m),
        }
    }

    /// The variable name and value of a binding
    pub fn as_binding(&self) -> (r: Option<(&Identifier, &String)>)
        ensures
            match self {
                VariableSource::Binding(id, v) => r == Some((*id, v)),
                _ => r is None,
            },
    {
        match self {
            VariableSource::Binding(id, value) => Some((*id, value)),
            _ => None,
        }
    }

    /// The value this scope gives the variable `var`, if any
    pub fn lookup(&self, var: &Identifier) -> (r: Option<Value<'_>>)
        ensures
            match r {
                None => source_lookup(*self, var@) is None,
                Some(v) => source_lookup(*self, var@) == Some(v@),
            },
    {
        match self {
            VariableSource::Empty => None,
            VariableSource::Directory(directory) => match directory.get_var(var) {
                Some(e) => Some(Value::Expression(e)),
                None => None,
            },
            VariableSource::Binding(bind, value) => {
                if str_eq(bind.value(), var.value()) {
                    Some(Value::Text(value.clone()))
                } else {
                    None
                }
            },
            VariableSource::Given(map) => match map.get(var.value()) {
                Some(s) => Some(Value::Text(s.clone())),
                None => None,
            },
        }
    }

    /// The definition named `var` in this scope, if any
    pub fn definition(&self, var: &Identifier) -> (r: Option<&'g SchemaNode>)
        ensures
            match r {
                None => source_definition(*self, var@) is None,
                Some(n) => source_definition(*self, var@) == Some(*n),
            },
    {
        match self {
            VariableSource::Directory(directory) => directory.get_def(var),
            _ => None,
        }
    }
}

/// The line that shows one variable and its value
pub open spec fn var_line(name: Seq<char>, value: Seq<char>) -> Seq<char> {
    "\n  $"@ + name + " = \""@ + value + "\""@
}

/// The lines that show the variables of a directory from position `i` on
pub open spec fn vars_lines(vars: Seq<(Identifier, Expression)>, i: int) -> Seq<char>
    decreases vars.len() - i,
{
    if i < 0 || i >= vars.len() {
        Seq::empty()
    } else {
        var_line(vars[i].0@, tokens_text(vars[i].1@)) + vars_lines(vars, i + 1)
    }
}

/// Whether the key of pair `i` is given again later
pub open spec fn given_later(pairs: Seq<(String, String)>, i: int) -> bool {
    exists|j: int| i < j < pairs.len() && #[trigger] pairs[j].0@ == pairs[i].0@
}

/// The lines that show the pairs of a name map from position `i` on, each name with the value
/// it is last given
pub open spec fn map_lines(pairs: Seq<(String, String)>, i: int) -> Seq<char>
    decreases pairs.len() - i,
{
    if i < 0 || i >= pairs.len() {
        Seq::empty()
    } else {
        (if given_later(pairs, i) {
            Seq::empty()
        } else {
            var_line(pairs[i].0@, pairs[i].1@)
        }) + map_lines(pairs, i + 1)
    }
}

/// The description of the variables of one scope
pub open spec fn source_text(v: VariableSource) -> Seq<char> {
    match v {
        VariableSource::Empty => Seq::empty(),
        VariableSource::Directory(d) => "Directory variables:"@ + if d.vars@.len() == 0 {
            "\n  (no variables)"@
        } else {
            vars_lines(d.vars@, 0)
        },
        VariableSource::Binding(id, value) => "Schema binding:"@ + var_line(id@, value@),
        VariableSource::Given(map) => "Variable map:"@ + map_lines(map.0@, 0),
    }
}

/// Appends the line that shows one variable
fn push_var_line(s: &mut String, name: &str, value: &str)
    ensures
        final(s)@ == old(s)@ + var_line(name@, value@),
{
    append_str(s, "\n  $");
    append_str(s, name);
    append_str(s, " = \"");
    append_str(s, value);
    append_str(s, "\"");
    assert(final(s)@ =~= old(s)@ + var_line(name@, value@));
}

impl<'g> VariableSource<'g> {
    /// A description of the variables of this scope, one per line
    pub fn to_text(&self) -> (r: String)
        ensures
            r@ == source_text(*self),
    {
        match self {
            VariableSource::Empty => String::new(),
            VariableSource::Directory(d) => {
                let mut s = "Directory variables:".to_owned();
                let vars = d.vars();
                if vars.len() == 0 {
                    append_str(&mut s, "\n  (no variables)");
                    return s;
                }
                let ghost head = s@;
                let mut i: usize = 0;
                while i < vars.len()
                    invariant
                        i <= vars@.len(),
                        vars@ == d.vars@,
                        s@ + vars_lines(vars@, i as int) == head + vars_lines(vars@, 0),
                    decreases vars@.len() - i,
                {
                    let ghost before = s@;
                    let value = vars[i].1.to_text();
                    push_var_line(&mut s, vars[i].0.value(), value.as_str());
                    assert(s@ + vars_lines(vars@, i + 1) =~= before + vars_lines(vars@, i as int));
                    i += 1;
                }
                assert(vars_lines(vars@, i as int) =~= Seq::<char>::empty());
                assert(s@ =~= s@ + vars_lines(vars@, i as int));
                s
            },
            VariableSource::Binding(id, value) => {
                let mut s = "Schema binding:".to_owned();
                push_var_line(&mut s, id.value(), value.as_str());
                s
            },
            VariableSource::Given(map) => {
                let mut s = "Variable map:".to_owned();
                let pairs = &map.0;
                let ghost head = s@;
                let mut i: usize = 0;
                while i < pairs.len()
                    invariant
                        i <= pairs@.len(),
                        pairs@ == map.0@,
                        s@ + map_lines(pairs@, i as int) == head + map_lines(pairs@, 0),
                    decreases pairs@.len() - i,
                {
                    let ghost before = s@;
                    let mut later = false;
                    let mut j: usize = i + 1;
                    while j < pairs.len()
                        invariant
                            i < j <= pairs@.len(),
                            later <==> exists|k: int|
                                i < k < j && #[trigger] pairs@[k].0@ == pairs@[i as int].0@,
                        decreases pairs@.len() - j,
                    {
                        if str_eq(pairs[j].0.as_str(), pairs[i].0.as_str()) {
                            later = true;
                        }
                        j += 1;
                    }
                    if !later {
                        push_var_line(&mut s, pairs[i].0.as_str(), pairs[i].1.as_str());
                    }
                    assert(s@ + map_lines(pairs@, i + 1) =~= before + map_lines(pairs@, i as int));
                    i += 1;
                }
                assert(map_lines(pairs@, i as int) =~= Seq::<char>::empty());
                assert(s@ =~= s@ + map_lines(pairs@, i as int));
                s
            },
        }
    }
}

/// Keeps track of variables, provides access to definitions from parent nodes, and carries
/// the owner, group and mode inherited by children
#[derive(Debug)]
pub struct StackFrame<'g> {
    config: &'g Config,
    frames: Vec<VariableSource<'g>>,
    owner: String,
    group: String,
    mode: Mode,
}

impl<'g> StackFrame<'g> {
    /// The shared configuration
    pub closed spec fn config_spec(&self) -> Config {
        *self.config
    }

    /// The shared configuration
    pub fn config(&self) -> (r: &'g Config)
        ensures
            *r == self.config_spec(),
    {
        self.config
    }

    /// The scopes, outermost first
    pub closed spec fn frames_spec(&self) -> Seq<VariableSource<'g>> {
        self.frames@
    }

    /// The owner inherited by children
    pub closed spec fn owner_spec(&self) -> Seq<char> {
        self.owner@
    }

    /// The group inherited by children
    pub closed spec fn group_spec(&self) -> Seq<char> {
        self.group@
    }

    /// The mode of this level
    pub closed spec fn mode_spec(&self) -> Mode {
        self.mode
    }

    /// The bottom of a stack, with the given variables, owner, group and mode
    pub fn stack(
        config: &'g Config,
        variables: VariableSource<'g>,
        owner: &str,
        group: &str,
        mode: Mode,
    ) -> (r: StackFrame<'g>)
        ensures
            r.config_spec() == *config,
            r.frames_spec() == seq![variables],
            r.owner_spec() == owner@,
            r.group_spec() == group@,
            r.mode_spec() == mode,
    {
        let mut frames = Vec::new();
        frames.push(variables);
        assert(frames@ =~= seq![variables]);
        StackFrame { config, frames, owner: owner.to_owned(), group: group.to_owned(), mode }
    }

    /// A new frame on top of this one, with the given variables, inheriting owner, group and
    /// mode
    pub fn push(&self, variables: VariableSource<'g>) -> (r: StackFrame<'g>)
        ensures
            r.config_spec() == self.config_spec(),
            r.frames_spec() == self.frames_spec().push(variables),
            r.owner_spec() == self.owner_spec(),
            r.group_spec() == self.group_spec(),
            r.mode_spec() == self.mode_spec(),
    {
        let mut frames: Vec<VariableSource<'g>> = Vec::new();
        let mut i: usize = 0;
        while i < self.frames.len()
            invariant
                i <= self.frames@.len(),
                frames@ == self.frames@.take(i as int),
            decreases self.frames@.len() - i,
        {
            frames.push(self.frames[i].duplicate());
            assert(frames@ =~= self.frames@.take(i + 1));
            i += 1;
        }
        assert(self.frames@.take(self.frames@.len() as int) =~= self.frames@);
        frames.push(variables);
        StackFrame {
            config: self.config,
            frames,
            owner: self.owner.clone(),
            group: self.group.clone(),
            mode: self.mode,
        }
    }

    /// Sets the owner inherited by children
    pub fn put_owner(&mut self, owner: &str)
        ensures
            final(self).owner_spec() == owner@,
            final(self).group_spec() == old(self).group_spec(),
            final(self).mode_spec() == old(self).mode_spec(),
            final(self).frames_spec() == old(self).frames_spec(),
            final(self).config_spec() == old(self).config_spec(),
    {
        self.owner = owner.to_owned();
    }

    /// Sets the group inherited by children
    pub fn put_group(&mut self, group: &str)
        ensures
            final(self).group_spec() == group@,
            final(self).owner_spec() == old(self).owner_spec(),
            final(self).mode_spec() == old(self).mode_spec(),
            final(self).frames_spec() == old(self).frames_spec(),
            final(self).config_spec() == old(self).config_spec(),
    {
        self.group = group.to_owned();
    }

    /// Sets the mode of this level
    pub fn put_mode(&mut self, mode: Mode)
        ensures
            final(self).mode_spec() == mode,
            final(self).owner_spec() == old(self).owner_spec(),
            final(self).group_spec() == old(self).group_spec(),
            final(self).frames_spec() == old(self).frames_spec(),
            final(self).config_spec() == old(self).config_spec(),
    {
        self.mode = mode;
    }

    /// The owner inherited by children
    pub fn owner(&self) -> (r: &str)
        ensures
            r@ == self.owner_spec(),
    {
        self.owner.as_str()
    }

    /// The group inherited by children
    pub fn group(&self) -> (r: &str)
        ensures
            r@ == self.group_spec(),
    {
        self.group.as_str()
    }

    /// The mode of this level
    pub fn mode(&self) -> (r: Mode)
        ensures
            r == self.mode_spec(),
    {
        self.mode
    }

    /// The variables of the innermost scope
    pub fn variables(&self) -> (r: Option<&VariableSource<'g>>)
        ensures
            self.frames_spec().len() == 0 ==> r is None,
            self.frames_spec().len() > 0 ==> r == Some(&self.frames_spec().last()),
    {
        if self.frames.len() == 0 {
            None
        } else {
            Some(&self.frames[self.frames.len() - 1])
        }
    }

    /// A description of the variables of this scope (the innermost)
    pub fn to_text(&self) -> (r: String)
        ensures
            self.frames_spec().len() == 0 ==> r@ == Seq::<char>::empty(),
            self.frames_spec().len() > 0 ==> r@ == source_text(self.frames_spec().last()),
    {
        match self.variables() {
            Some(v) => v.to_text(),
            None => String::new(),
        }
    }

    /// The value of `var` in the innermost scope that gives it one
    pub fn lookup(&self, var: &Identifier) -> (r: Option<Value<'_>>)
        ensures
            match r {
                None => frames_lookup(self.frames_spec(), var@) is None,
                Some(v) => frames_lookup(self.frames_spec(), var@) == Some(v@),
            },
    {
        let mut i = self.frames.len();
        assert(self.frames@.take(i as int) =~= self.frames@);
        while i > 0
            invariant
                i <= self.frames@.len(),
                frames_lookup(self.frames@, var@) == frames_lookup(self.frames@.take(i as int), var@),
            decreases i,
        {
            let ghost t = self.frames@.take(i as int);
            assert(t.drop_last() =~= self.frames@.take(i - 1));
            assert(t.last() == self.frames@[i - 1]);
            match self.frames[i - 1].lookup(var) {
                Some(v) => {
                    return Some(v);
                },
                None => {},
            }
            i -= 1;
        }
        proof {
            assert(self.frames@.take(0) =~= Seq::<VariableSource>::empty());
        }
        None
    }

    /// The definition named `var` in the innermost scope that has one
    pub fn find_definition(&self, var: &Identifier) -> (r: Option<&'g SchemaNode>)
        ensures
            match r {
                None => frames_definition(self.frames_spec(), var@) is None,
                Some(n) => frames_definition(self.frames_spec(), var@) == Some(*n),
            },
    {
        let mut i = self.frames.len();
        assert(self.frames@.take(i as int) =~= self.frames@);
        while i > 0
            invariant
                i <= self.frames@.len(),
                frames_definition(self.frames@, var@) == frames_definition(
                    self.frames@.take(i as int),
                    var@,
                ),
            decreases i,
        {
            let ghost t = self.frames@.take(i as int);
            assert(t.drop_last() =~= self.frames@.take(i - 1));
            assert(t.last() == self.frames@[i - 1]);
            match self.frames[i - 1].definition(var) {
                Some(n) => {
                    return Some(n);
                },
                None => {},
            }
            i -= 1;
        }
        proof {
            assert(self.frames@.take(0) =~= Seq::<VariableSource>::empty());
        }
        None
    }
}

} // verus!
