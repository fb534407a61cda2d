//! Variables available to name expressions, in nested scopes.
use vstd::prelude::*;

use crate::text_util::str_eq;

verus! {

/// The value of `var` in the given scopes, innermost (last) first
pub open spec fn scopes_lookup(scopes: Seq<Seq<(Seq<char>, Seq<char>)>>, var: Seq<char>) -> Option<Seq<char>>
    decreases scopes.len(),
{
    if scopes.len() == 0 {
        None
    } else {
        match pairs_lookup(scopes.last(), var) {
            Some(v) => Some(v),
            None => scopes_lookup(scopes.drop_last(), var),
        }
    }
}

/// The innermost level wins: where level `i` gives `var` a value and no level inside it (pushed
/// later) does, looking `var` up gives level `i`'s value, whatever the enclosing levels give it
pub proof fn lemma_innermost_level_wins(scopes: Seq<Seq<(Seq<char>, Seq<char>)>>, i: int, var: Seq<char>)
    requires
        0 <= i < scopes.len(),
        pairs_lookup(scopes[i], var) is Some,
        forall|j: int| i < j < scopes.len() ==> (#[trigger] pairs_lookup(scopes[j], var)) is None,
    ensures
        scopes_lookup(scopes, var) == pairs_lookup(scopes[i], var),
    decreases scopes.len(),
{
    if i < scopes.len() - 1 {
        let rest = scopes.drop_last();
        assert(pairs_lookup(scopes[scopes.len() - 1], var) is None);
        assert forall|j: int| i < j < rest.len() implies (#[trigger] pairs_lookup(rest[j], var)) is None by {
            assert(rest[j] == scopes[j]);
            assert(pairs_lookup(scopes[j], var) is None);
        }
        assert(rest[i] == scopes[i]);
        lemma_innermost_level_wins(rest, i, var);
    }
}

/// A variable that no level gives a value has none, and one that some level gives a value has
/// one
pub proof fn lemma_lookup_none_iff_undefined(scopes: Seq<Seq<(Seq<char>, Seq<char>)>>, var: Seq<char>)
    ensures
        scopes_lookup(scopes, var) is None <==> forall|j: int|
            0 <= j < scopes.len() ==> (#[trigger] pairs_lookup(scopes[j], var)) is None,
    decreases scopes.len(),
{
    if scopes.len() > 0 {
        let rest = scopes.drop_last();
        lemma_lookup_none_iff_undefined(rest, var);
        if scopes_lookup(scopes, var) is None {
            assert forall|j: int| 0 <= j < scopes.len() implies (#[trigger] pairs_lookup(scopes[j], var)) is None by {
                if j < scopes.len() - 1 {
                    assert(rest[j] == scopes[j]);
                    assert(pairs_lookup(rest[j], var) is None);
                }
            }
        } else if pairs_lookup(scopes.last(), var) is None {
            let j = choose|j: int| 0 <= j < rest.len() && (#[trigger] pairs_lookup(rest[j], var)) is Some;
            assert(rest[j] == scopes[j]);
            assert(pairs_lookup(scopes[j], var) is Some);
        } else {
            assert(pairs_lookup(scopes[scopes.len() - 1], var) is Some);
        }
    }
}

/// Pushing a level that gives `var` a value makes that the value looked up; pushing one that
/// does not leaves the value looked up as it was
pub proof fn lemma_lookup_after_push(
    scopes: Seq<Seq<(Seq<char>, Seq<char>)>>,
    vars: Seq<(Seq<char>, Seq<char>)>,
    var: Seq<char>,
)
    ensures
        pairs_lookup(vars, var) is Some ==> scopes_lookup(scopes.push(vars), var) == pairs_lookup(vars, var),
        pairs_lookup(vars, var) is None ==> scopes_lookup(scopes.push(vars), var) == scopes_lookup(scopes, var),
{
    let s = scopes.push(vars);
    assert(s.drop_last() =~= scopes);
    assert(s.last() == vars);
    if pairs_lookup(vars, var) is Some {
        lemma_innermost_level_wins(s, scopes.len() as int, var);
    }
}

/// The value of the first pair whose name is `var`
pub open spec fn pairs_lookup(pairs: Seq<(Seq<char>, Seq<char>)>, var: Seq<char>) -> Option<Seq<char>>
    decreases pairs.len(),
{
    if pairs.len() == 0 {
        None
    } else if pairs[0].0 == var {
        Some(pairs[0].1)
    } else {
        pairs_lookup(pairs.drop_first(), var)
    }
}

/// The view of one scope's variables
pub open spec fn scope_view(vars: Seq<(String, String)>) -> Seq<(Seq<char>, Seq<char>)> {
    vars.map_values(|p: (String, String)| (p.0@, p.1@))
}

/// Variables defined at one level, with access to those of enclosing levels
#[derive(Debug, Clone, Default)]
pub struct Stack {
    /// The variables of each level, outermost first
    pub scopes: Vec<Vec<(String, String)>>,
}

impl View for Stack {
    type V = Seq<Seq<(Seq<char>, Seq<char>)>>;

    open spec fn view(&self) -> Seq<Seq<(Seq<char>, Seq<char>)>> {
        self.scopes@.map_values(|s: Vec<(String, String)>| scope_view(s@))
    }
}

impl Stack {
    /// A stack with a single, empty level
    pub fn new() -> (r: Stack)
        ensures
            r@ == seq![Seq::<(Seq<char>, Seq<char>)>::empty()],
    {
        let mut scopes: Vec<Vec<(String, String)>> = Vec::new();
        let first: Vec<(String, String)> = Vec::new();
        scopes.push(first);
        let r = Stack { scopes };
        assert(scope_view(r.scopes@[0]@) =~= Seq::<(Seq<char>, Seq<char>)>::empty());
        assert(r@ =~= seq![Seq::<(Seq<char>, Seq<char>)>::empty()]);
        r
    }

    /// Adds a new innermost level with the given variables
    pub fn push(&mut self, vars: Vec<(String, String)>)
        ensures
            final(self)@ == old(self)@.push(scope_view(vars@)),
    {
        self.scopes.push(vars);
        assert(self@ =~= old(self)@.push(scope_view(vars@)));
    }

    /// Looks up the value of `var` in the innermost level that defines it
    pub fn lookup(&self, var: &str) -> (r: Option<&String>)
        ensures
            match r {
                None => scopes_lookup(self@, var@) is None,
                Some(v) => scopes_lookup(self@, var@) == Some(v@),
            },
    {
        let mut level = self.scopes.len();
        assert(self@.take(level as int) =~= self@);
        while level > 0
            invariant
                level <= self.scopes@.len(),
                scopes_lookup(self@, var@) == scopes_lookup(self@.take(level as int), var@),
            decreases level,
        {
            level -= 1;
            let scope = &self.scopes[level];
            assert(self@.take(level + 1).last() == scope_view(scope@));
            assert(self@.take(level + 1).drop_last() =~= self@.take(level as int));
            match scope_lookup(scope.as_slice(), var) {
                Some(v) => return Some(v),
                None => {},
            }
        }
        None
    }
}

/// Looks up the value of the first pair named `var`
pub fn scope_lookup<'a>(scope: &'a [(String, String)], var: &str) -> (r: Option<&'a String>)
    ensures
        match r {
            None => pairs_lookup(scope_view(scope@), var@) is None,
            Some(v) => pairs_lookup(scope_view(scope@), var@) == Some(v@),
        },
{
    let ghost sv = scope_view(scope@);
    let mut i: usize = 0;
    assert(sv.skip(0) =~= sv);
    while i < scope.len()
        invariant
            i <= scope@.len(),
            sv == scope_view(scope@),
            pairs_lookup(sv, var@) == pairs_lookup(sv.skip(i as int), var@),
        decreases scope@.len() - i,
    {
        assert(sv.skip(i as int)[0] == (scope@[i as int].0@, scope@[i as int].1@));
        if str_eq(scope[i].0.as_str(), var) {
            return Some(&scope[i].1);
        }
        assert(sv.skip(i as int).drop_first() =~= sv.skip(i + 1));
        i += 1;
    }
    assert(sv.skip(i as int).len() == 0);
    None
}

} // verus!
