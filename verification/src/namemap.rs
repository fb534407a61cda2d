//! Name maps such as `"root:admin,janine:jfu"`, used to rename users, groups or set variables.
use vstd::prelude::*;

use crate::text_util::{chars_of, split_chars, split_on, str_eq, strings_view};

verus! {

/// Why a name map could not be read from its text form
#[derive(Debug, Clone, PartialEq, Eq)]
pub enum NameMapError {
    /// A pair had no `:` separating its key and value
    MissingSeparator,
    /// A key or value was empty
    EmptyKeyOrValue,
    /// A pair had a third `:` separated value (the value given)
    UnexpectedThirdValue(String),
}

/// The abstract value of a [`NameMapError`]
pub enum NameMapErrorView {
    MissingSeparator,
    EmptyKeyOrValue,
    UnexpectedThirdValue(Seq<char>),
}

impl View for NameMapError {
    type V = NameMapErrorView;

    open spec fn view(&self) -> NameMapErrorView {
        match self {
            NameMapError::MissingSeparator => NameMapErrorView::MissingSeparator,
            NameMapError::EmptyKeyOrValue => NameMapErrorView::EmptyKeyOrValue,
            NameMapError::UnexpectedThirdValue(s) => NameMapErrorView::UnexpectedThirdValue(s@),
        }
    }
}

impl NameMapError {
    /// A description of the error
    pub fn to_text(&self) -> (r: String)
        ensures
            r@ == match self@ {
                NameMapErrorView::MissingSeparator => "Expected ':' separated key value pair"@,
                NameMapErrorView::EmptyKeyOrValue => "Key and value must be non-empty"@,
                NameMapErrorView::UnexpectedThirdValue(v) => "Unexpected third value \""@ + v
                    + "\""@,
            },
    {
        match self {
            NameMapError::MissingSeparator => "Expected ':' separated key value pair".to_owned(),
            NameMapError::EmptyKeyOrValue => "Key and value must be non-empty".to_owned(),
            NameMapError::UnexpectedThirdValue(v) => {
                let mut s = "Unexpected third value \"".to_owned();
                s.append(v.as_str());
                s.append("\"");
                s
            },
        }
    }
}

/// The key and value of one `key:value` pair, given the pieces of the pair between `:`s
pub open spec fn pair_of(parts: Seq<Seq<char>>) -> Result<(Seq<char>, Seq<char>), NameMapErrorView> {
    if parts.len() < 2 {
        Err(NameMapErrorView::MissingSeparator)
    } else if parts[0].len() == 0 || parts[1].len() == 0 {
        Err(NameMapErrorView::EmptyKeyOrValue)
    } else if parts.len() > 2 {
        Err(NameMapErrorView::UnexpectedThirdValue(parts[2]))
    } else {
        Ok((parts[0], parts[1]))
    }
}

/// The mapping given by a sequence of `key:value` pairs; later pairs replace earlier ones
pub open spec fn pairs_map(pairs: Seq<Seq<char>>) -> Result<Map<Seq<char>, Seq<char>>, NameMapErrorView>
    decreases pairs.len(),
{
    if pairs.len() == 0 {
        Ok(Map::empty())
    } else {
        match pairs_map(pairs.drop_last()) {
            Err(e) => Err(e),
            Ok(m) => match pair_of(split_on(pairs.last(), ':')) {
                Err(e) => Err(e),
                Ok((k, v)) => Ok(m.insert(k, v)),
            },
        }
    }
}

/// The mapping written in text form as `"key1:value1,key2:value2,..."`
pub open spec fn parse_name_map_spec(line: Seq<char>) -> Result<Map<Seq<char>, Seq<char>>, NameMapErrorView> {
    pairs_map(split_on(line, ','))
}

/// The value of the last of the `key:value` pairs whose key is `name`, if one has it
pub open spec fn last_value_for(pairs: Seq<Seq<char>>, name: Seq<char>) -> Option<Seq<char>>
    decreases pairs.len(),
{
    if pairs.len() == 0 {
        None
    } else {
        match pair_of(split_on(pairs.last(), ':')) {
            Ok((k, v)) if k == name => Some(v),
            _ => last_value_for(pairs.drop_last(), name),
        }
    }
}

/// The last pair wins: a map read from text maps a name to the value of the last pair whose
/// key is that name, and leaves a name that no pair has as it is
pub proof fn lemma_last_pair_wins(line: Seq<char>, m: Map<Seq<char>, Seq<char>>, name: Seq<char>)
    requires
        parse_name_map_spec(line) == Ok::<_, NameMapErrorView>(m),
    ensures
        map_name(m, name) == match last_value_for(split_on(line, ','), name) {
            Some(v) => v,
            None => name,
        },
{
    lemma_pairs_last_wins(split_on(line, ','), m, name);
}

/// [`lemma_last_pair_wins`] over the pieces of the text between `,`s
proof fn lemma_pairs_last_wins(pairs: Seq<Seq<char>>, m: Map<Seq<char>, Seq<char>>, name: Seq<char>)
    requires
        pairs_map(pairs) == Ok::<_, NameMapErrorView>(m),
    ensures
        m.contains_key(name) <==> last_value_for(pairs, name) is Some,
        last_value_for(pairs, name) matches Some(v) ==> m[name] == v,
    decreases pairs.len(),
{
    if pairs.len() > 0 {
        if let Ok(prev) = pairs_map(pairs.drop_last()) {
            lemma_pairs_last_wins(pairs.drop_last(), prev, name);
        }
    }
}

/// The mapping held by a sequence of pairs; later pairs replace earlier ones
pub open spec fn entries_map(entries: Seq<(String, String)>) -> Map<Seq<char>, Seq<char>>
    decreases entries.len(),
{
    if entries.len() == 0 {
        Map::empty()
    } else {
        entries_map(entries.drop_last()).insert(entries.last().0@, entries.last().1@)
    }
}

/// A string-to-string mapping of names to new names that can be parsed
/// from string form `"name1:newname1,name2:newname2"` and used as a lookup
#[derive(Debug, Clone, Default)]
pub struct NameMap(pub Vec<(String, String)>);

impl View for NameMap {
    type V = Map<Seq<char>, Seq<char>>;

    open spec fn view(&self) -> Map<Seq<char>, Seq<char>> {
        entries_map(self.0@)
    }
}

/// The mapped name, or the name itself where the map has no entry for it
pub open spec fn map_name(m: Map<Seq<char>, Seq<char>>, name: Seq<char>) -> Seq<char> {
    if m.contains_key(name) {
        m[name]
    } else {
        name
    }
}

impl NameMap {
    /// An empty map
    pub fn new() -> (r: NameMap)
        ensures
            r@ == Map::<Seq<char>, Seq<char>>::empty(),
    {
        NameMap(Vec::new())
    }

    /// Adds (or replaces) the mapping of `key` to `value`
    pub fn insert(&mut self, key: String, value: String)
        ensures
            final(self)@ == old(self)@.insert(key@, value@),
    {
        self.0.push((key, value));
        assert(self.0@.drop_last() == old(self).0@);
    }

    /// Looks up the value given to `name`, if any
    pub fn get(&self, name: &str) -> (r: Option<&String>)
        ensures
            match r {
                None => !self@.contains_key(name@),
                Some(v) => self@.contains_key(name@) && self@[name@] == v@,
            },
    {
        let mut i = self.0.len();
        while i > 0
            invariant
                i <= self.0@.len(),
                forall|k: int| i <= k < self.0@.len() ==> (#[trigger] self.0@[k]).0@ != name@,
            decreases i,
        {
            i -= 1;
            if str_eq(self.0[i].0.as_str(), name) {
                proof {
                    let s = self.0@;
                    lemma_entries_map_concat(s.take(i + 1), s.skip(i + 1));
                    assert(s =~= s.take(i + 1) + s.skip(i + 1));
                    lemma_entries_map_keys(s.skip(i + 1));
                    assert forall|k: int| 0 <= k < s.skip(i + 1).len() implies (#[trigger] s.skip(
                        i + 1,
                    )[k]).0@ != name@ by {
                        assert(s.skip(i + 1)[k] == s[i + 1 + k]);
                    }
                    assert(s.take(i + 1).drop_last() =~= s.take(i as int));
                }
                return Some(&self.0[i].1);
            }
        }
        proof {
            lemma_entries_map_keys(self.0@);
        }
        None
    }

    /// Adds (or replaces) every mapping of `other`
    pub fn extend(&mut self, other: NameMap)
        ensures
            final(self)@ == old(self)@.union_prefer_right(other@),
    {
        let NameMap(pairs) = other;
        let ghost start = self.0@;
        let mut i: usize = 0;
        while i < pairs.len()
            invariant
                i <= pairs@.len(),
                self.0@ == start + pairs@.take(i as int),
            decreases pairs@.len() - i,
        {
            let (k, v) = (pairs[i].0.clone(), pairs[i].1.clone());
            self.0.push((k, v));
            assert(pairs@.take(i + 1) =~= pairs@.take(i as int).push(pairs@[i as int]));
            assert(self.0@ =~= start + pairs@.take(i + 1));
            i += 1;
        }
        assert(pairs@.take(pairs@.len() as int) =~= pairs@);
        proof {
            lemma_entries_map_concat(start, pairs@);
        }
    }

    /// The name that `name` maps to, or `name` itself where the map has no entry for it
    pub open spec fn map_spec(&self, name: Seq<char>) -> Seq<char> {
        map_name(self@, name)
    }

    /// Returns the mapped name, or the name itself if no mapping exists
    pub fn map<'a>(&'a self, name: &'a str) -> (r: &'a str)
        ensures
            r@ == map_name(self@, name@),
    {
        match self.get(name) {
            Some(v) => v.as_str(),
            None => name,
        }
    }

    /// Reads a map from its text form, `"name1:newname1,name2:newname2"`
    pub fn parse(line: &str) -> (r: Result<NameMap, NameMapError>)
        ensures
            match r {
                Ok(m) => parse_name_map_spec(line@) == Ok::<_, NameMapErrorView>(m@),
                Err(e) => parse_name_map_spec(line@) == Err::<Map<Seq<char>, Seq<char>>, _>(e@),
            },
    {
        let chars = chars_of(line);
        let pairs = split_chars(chars.as_slice(), ',');
        let mut map = NameMap::new();
        let mut i: usize = 0;
        assert(strings_view(pairs@).take(0) =~= Seq::<Seq<char>>::empty());
        while i < pairs.len()
            invariant
                i <= pairs@.len(),
                strings_view(pairs@) == split_on(line@, ','),
                pairs_map(strings_view(pairs@).take(i as int)) == Ok::<_, NameMapErrorView>(map@),
            decreases pairs@.len() - i,
        {
            let pair_chars = chars_of(pairs[i].as_str());
            let parts = split_chars(pair_chars.as_slice(), ':');
            let ghost pv = strings_view(pairs@);
            assert(pv.take(i + 1).drop_last() =~= pv.take(i as int));
            assert(pv.take(i + 1).last() == pairs@[i as int]@);
            proof {
                crate::text_util::lemma_split_on_nonempty(pairs@[i as int]@, ':');
            }
            if parts.len() < 2 {
                proof {
                    lemma_pairs_map_err_prefix(pv, i + 1);
                }
                return Err(NameMapError::MissingSeparator);
            }
            if parts[0].as_str().is_empty() || parts[1].as_str().is_empty() {
                proof {
                    broadcast use vstd::string::group_string_axioms;
                    assert(strings_view(parts@)[0] == parts@[0]@);
                    assert(strings_view(parts@)[1] == parts@[1]@);
                    lemma_pairs_map_err_prefix(pv, i + 1);
                }
                return Err(NameMapError::EmptyKeyOrValue);
            }
            if parts.len() > 2 {
                proof {
                    broadcast use vstd::string::group_string_axioms;
                    assert(strings_view(parts@)[0] == parts@[0]@);
                    assert(strings_view(parts@)[1] == parts@[1]@);
                    assert(strings_view(parts@)[2] == parts@[2]@);
                    lemma_pairs_map_err_prefix(pv, i + 1);
                }
                return Err(NameMapError::UnexpectedThirdValue(parts[2].clone()));
            }
            proof {
                broadcast use vstd::string::group_string_axioms;
                assert(strings_view(parts@)[0] == parts@[0]@);
                assert(strings_view(parts@)[1] == parts@[1]@);
            }
            map.insert(parts[0].clone(), parts[1].clone());
            i += 1;
        }
        assert(strings_view(pairs@).take(pairs@.len() as int) =~= strings_view(pairs@));
        Ok(map)
    }
}

/// Once the pairs read so far hold an error, no later pair changes it
pub proof fn lemma_pairs_map_err_prefix(s: Seq<Seq<char>>, n: int)
    requires
        0 <= n <= s.len(),
        pairs_map(s.take(n)) is Err,
    ensures
        pairs_map(s) == pairs_map(s.take(n)),
    decreases s.len() - n,
{
    if s.len() == n {
        assert(s.take(n) =~= s);
    } else {
        assert(s.drop_last().take(n) =~= s.take(n));
        lemma_pairs_map_err_prefix(s.drop_last(), n);
    }
}

/// The mapping of two sequences of entries in turn
pub proof fn lemma_entries_map_concat(a: Seq<(String, String)>, b: Seq<(String, String)>)
    ensures
        entries_map(a + b) == entries_map(a).union_prefer_right(entries_map(b)),
    decreases b.len(),
{
    if b.len() == 0 {
        assert(a + b =~= a);
        assert(entries_map(a).union_prefer_right(Map::empty()) =~= entries_map(a));
    } else {
        lemma_entries_map_concat(a, b.drop_last());
        assert((a + b).drop_last() =~= a + b.drop_last());
        assert(entries_map(a + b) =~= entries_map(a).union_prefer_right(entries_map(b)));
    }
}

/// The keys of the mapping are those of the entries
pub proof fn lemma_entries_map_keys(es: Seq<(String, String)>)
    ensures
        forall|k: Seq<char>|
            #![trigger entries_map(es).contains_key(k)]
            entries_map(es).contains_key(k) <==> exists|i: int|
                0 <= i < es.len() && (#[trigger] es[i]).0@ == k,
    decreases es.len(),
{
    if es.len() > 0 {
        lemma_entries_map_keys(es.drop_last());
        assert forall|k: Seq<char>| #![trigger entries_map(es).contains_key(k)]
            entries_map(es).contains_key(k) <==> exists|i: int|
                0 <= i < es.len() && (#[trigger] es[i]).0@ == k by {
            let n = es.len() - 1;
            if k == es.last().0@ {
                assert(es[n].0@ == k);
            } else {
                if entries_map(es).contains_key(k) {
                    assert(entries_map(es.drop_last()).contains_key(k));
                    let i = choose|i: int|
                        0 <= i < es.drop_last().len() && (#[trigger] es.drop_last()[i]).0@ == k;
                    assert(es[i] == es.drop_last()[i]);
                }
                if exists|i: int| 0 <= i < es.len() && (#[trigger] es[i]).0@ == k {
                    let i = choose|i: int| 0 <= i < es.len() && (#[trigger] es[i]).0@ == k;
                    assert(i < n);
                    assert(es.drop_last()[i] == es[i]);
                    assert(entries_map(es.drop_last()).contains_key(k));
                }
            }
        }
    }
}

} // verus!
