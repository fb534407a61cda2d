//! Deciding which names each entry of a directory applies to: fixed names always go to their
//! static entry, and a name may go to one entry only.
use vstd::prelude::*;

use crate::text_util::{append_str, push_char, str_eq};

verus! {

/// What decides which names a directory entry applies to
#[derive(Debug)]
pub enum EntryKey {
    /// A fixed name
    Static(String),
    /// A variable named `id`, with the names it may take and whether each matches the entry's
    /// patterns
    Dynamic { id: String, candidates: Vec<(String, bool)> },
}

/// The abstract value of an [`EntryKey`]
pub enum KeyView {
    Static(Seq<char>),
    Dynamic(Seq<char>, Seq<(Seq<char>, bool)>),
}

impl View for EntryKey {
    type V = KeyView;

    open spec fn view(&self) -> KeyView {
        match self {
            EntryKey::Static(n) => KeyView::Static(n@),
            EntryKey::Dynamic { id, candidates } => KeyView::Dynamic(
                id@,
                candidates@.map_values(|c: (String, bool)| (c.0@, c.1)),
            ),
        }
    }
}

/// The abstract values of a sequence of entry keys
pub open spec fn key_views(keys: Seq<EntryKey>) -> Seq<KeyView> {
    keys.map_values(|k: EntryKey| k@)
}

/// The candidates of a dynamic entry (none for a static one)
pub open spec fn candidates_of(k: KeyView) -> Seq<(Seq<char>, bool)> {
    match k {
        KeyView::Dynamic(_, c) => c,
        KeyView::Static(_) => Seq::empty(),
    }
}

/// Whether entry `i` has the fixed name `n`
pub open spec fn static_at(keys: Seq<KeyView>, i: int, n: Seq<char>) -> bool {
    0 <= i < keys.len() && keys[i] == KeyView::Static(n)
}

/// Whether some entry has the fixed name `n`
pub open spec fn is_static_name(keys: Seq<KeyView>, n: Seq<char>) -> bool {
    exists|i: int| #[trigger] static_at(keys, i, n)
}

/// Whether the dynamic entry `i` lists `n` among its candidates as matching
pub open spec fn matches_at(keys: Seq<KeyView>, i: int, n: Seq<char>) -> bool {
    &&& 0 <= i < keys.len()
    &&& keys[i] is Dynamic
    &&& exists|k: int|
        0 <= k < candidates_of(keys[i]).len() && #[trigger] candidates_of(keys[i])[k] == (n, true)
}

/// Whether the dynamic entry `i` takes the name `n`: it matches and no static entry has it
pub open spec fn claims(keys: Seq<KeyView>, i: int, n: Seq<char>) -> bool {
    matches_at(keys, i, n) && !is_static_name(keys, n)
}

/// Whether two static entries have the same name
pub open spec fn static_duplicate(keys: Seq<KeyView>) -> bool {
    exists|i: int, j: int, n: Seq<char>|
        i < j && #[trigger] static_at(keys, i, n) && #[trigger] static_at(keys, j, n)
}

/// Whether two dynamic entries take the same name
pub open spec fn dynamic_collision(keys: Seq<KeyView>) -> bool {
    exists|i: int, j: int, n: Seq<char>| i < j && #[trigger] claims(keys, i, n) && #[trigger] claims(keys, j, n)
}

/// Whether the pair (entry, name) belongs in the plan of `keys`
pub open spec fn planned(keys: Seq<KeyView>, i: int, n: Seq<char>) -> bool {
    static_at(keys, i, n) || claims(keys, i, n)
}

/// The abstract value of a plan
pub open spec fn plan_view(plan: Seq<(usize, String)>) -> Seq<(int, Seq<char>)> {
    plan.map_values(|p: (usize, String)| (p.0 as int, p.1@))
}

/// Whether the plan holds the pair (entry, name)
pub open spec fn plan_has(plan: Seq<(int, Seq<char>)>, i: int, n: Seq<char>) -> bool {
    exists|k: int| 0 <= k < plan.len() && #[trigger] plan[k] == (i, n)
}

/// Whether no name occurs twice in the plan
pub open spec fn names_distinct(plan: Seq<(int, Seq<char>)>) -> bool {
    forall|a: int, b: int| 0 <= a < b < plan.len() ==> (#[trigger] plan[a]).1 != (#[trigger] plan[b]).1
}

/// The position of the entry of the plan with name `n`, if any
fn find_name(plan: &Vec<(usize, String)>, n: &str) -> (r: Option<usize>)
    ensures
        match r {
            None => forall|k: int| 0 <= k < plan@.len() ==> (#[trigger] plan_view(plan@)[k]).1 != n@,
            Some(k) => k < plan@.len() && plan_view(plan@)[k as int].1 == n@,
        },
{
    let mut k: usize = 0;
    while k < plan.len()
        invariant
            k <= plan@.len(),
            forall|j: int| 0 <= j < k ==> (#[trigger] plan_view(plan@)[j]).1 != n@,
        decreases plan@.len() - k,
    {
        if str_eq(plan[k].1.as_str(), n) {
            return Some(k);
        }
        k += 1;
    }
    None
}

/// `"name" matches multiple <kind> bindings "a" and "b"`
fn collision_message(name: &str, kind: &str, a: &str, b: &str) -> (r: String)
    ensures
        r@ == seq!['"'] + name@ + "\" matches multiple "@ + kind@ + " bindings \""@ + a@
            + "\" and \""@ + b@ + seq!['"'],
{
    let mut s = String::new();
    push_char(&mut s, '"');
    append_str(&mut s, name);
    append_str(&mut s, "\" matches multiple ");
    append_str(&mut s, kind);
    append_str(&mut s, " bindings \"");
    append_str(&mut s, a);
    append_str(&mut s, "\" and \"");
    append_str(&mut s, b);
    push_char(&mut s, '"');
    assert(s@ =~= seq!['"'] + name@ + "\" matches multiple "@ + kind@ + " bindings \""@ + a@
        + "\" and \""@ + b@ + seq!['"']);
    s
}

/// `$id`
fn dollar(id: &str) -> (r: String)
    ensures
        r@ == seq!['$'] + id@,
{
    let mut s = String::new();
    push_char(&mut s, '$');
    append_str(&mut s, id);
    assert(s@ =~= seq!['$'] + id@);
    s
}

/// Appending a pair adds exactly that pair
proof fn lemma_has_push(p: Seq<(int, Seq<char>)>, x: (int, Seq<char>))
    ensures
        forall|j: int, n: Seq<char>| #[trigger]
            plan_has(p.push(x), j, n) <==> (plan_has(p, j, n) || x == (j, n)),
{
    assert forall|j: int, n: Seq<char>| #[trigger]
        plan_has(p.push(x), j, n) <==> (plan_has(p, j, n) || x == (j, n)) by {
        if plan_has(p.push(x), j, n) {
            let k = choose|k: int| 0 <= k < p.push(x).len() && #[trigger] p.push(x)[k] == (j, n);
            if k < p.len() {
                assert(p[k] == (j, n));
            }
        }
        if plan_has(p, j, n) {
            let k = choose|k: int| 0 <= k < p.len() && #[trigger] p[k] == (j, n);
            assert(p.push(x)[k] == (j, n));
        }
        if x == (j, n) {
            assert(p.push(x)[p.len() as int] == (j, n));
        }
    }
}

/// Appending a pair with a new name keeps the names distinct
proof fn lemma_distinct_push(p: Seq<(int, Seq<char>)>, x: (int, Seq<char>))
    requires
        names_distinct(p),
        forall|k: int| 0 <= k < p.len() ==> (#[trigger] p[k]).1 != x.1,
    ensures
        names_distinct(p.push(x)),
{
    let q = p.push(x);
    assert forall|a: int, b: int| 0 <= a < b < q.len() implies (#[trigger] q[a]).1 != (
    #[trigger] q[b]).1 by {
        if b == p.len() {
            assert(q[a] == p[a]);
        } else {
            assert(q[a] == p[a]);
            assert(q[b] == p[b]);
        }
    }
}

/// The pairs wanted once the static entries before `i` are planned
pub open spec fn wanted_static(kv: Seq<KeyView>, i: int, j: int, n: Seq<char>) -> bool {
    j < i && static_at(kv, j, n)
}

/// The pairs wanted once all static entries, the dynamic entries before `d`, and the first
/// `k` candidates of entry `d` are planned
pub open spec fn wanted(kv: Seq<KeyView>, d: int, k: int, j: int, n: Seq<char>) -> bool {
    static_at(kv, j, n) || (j < d && claims(kv, j, n)) || (j == d && prefix_claims(kv, d, k, n))
}

/// Whether the plan holds exactly the wanted pairs
pub open spec fn plan_is(p: Seq<(int, Seq<char>)>, kv: Seq<KeyView>, d: int, k: int) -> bool {
    forall|j: int, n: Seq<char>| #[trigger] plan_has(p, j, n) <==> wanted(kv, d, k, j, n)
}

/// Decides which names each entry applies to: each static entry to its name, and each
/// dynamic entry to the matching candidates that no static entry has. Two static entries
/// with one name, or two dynamic entries taking one name, are an error.
pub fn plan_entries(keys: &[EntryKey]) -> (r: Result<Vec<(usize, String)>, String>)
    ensures
        r is Err <==> (static_duplicate(key_views(keys@)) || dynamic_collision(key_views(keys@))),
        r matches Ok(plan) ==> names_distinct(plan_view(plan@)),
        r matches Ok(plan) ==> forall|i: int, n: Seq<char>|
            #![trigger planned(key_views(keys@), i, n)]
            plan_has(plan_view(plan@), i, n) <==> planned(key_views(keys@), i, n),
{
    let ghost kv = key_views(keys@);
    let mut plan: Vec<(usize, String)> = Vec::new();
    // Static entries first
    let mut i: usize = 0;
    while i < keys.len()
        invariant
            i <= keys@.len(),
            kv == key_views(keys@),
            kv.len() == keys@.len(),
            names_distinct(plan_view(plan@)),
            forall|a: int, b: int, n: Seq<char>|
                a < b < i ==> !(#[trigger] static_at(kv, a, n) && #[trigger] static_at(kv, b, n)),
            forall|j: int, n: Seq<char>| #[trigger]
                plan_has(plan_view(plan@), j, n) <==> wanted_static(kv, i as int, j, n),
        decreases keys@.len() - i,
    {
        if let EntryKey::Static(name) = &keys[i] {
            assert(static_at(kv, i as int, name@));
            match find_name(&plan, name.as_str()) {
                Some(k) => {
                    proof {
                        let j = plan_view(plan@)[k as int].0;
                        assert(plan_has(plan_view(plan@), j, name@));
                        assert(static_at(kv, j, name@));
                        assert(static_duplicate(kv));
                    }
                    return Err(
                        collision_message(name.as_str(), "static", name.as_str(), name.as_str()),
                    );
                },
                None => {
                    let ghost prev = plan_view(plan@);
                    plan.push((i, name.clone()));
                    proof {
                        assert(plan_view(plan@) =~= prev.push((i as int, name@)));
                        lemma_has_push(prev, (i as int, name@));
                        lemma_distinct_push(prev, (i as int, name@));
                        assert forall|a: int, b: int, n: Seq<char>|
                            a < b < i + 1 implies !(#[trigger] static_at(kv, a, n)
                                && #[trigger] static_at(kv, b, n)) by {
                            if b == i && static_at(kv, a, n) && static_at(kv, b, n) {
                                assert(plan_has(prev, a, n));
                                let q = choose|q: int| 0 <= q < prev.len() && #[trigger] prev[q] == (a, n);
                                assert(prev[q].1 == name@);
                            }
                        }
                    }
                },
            }
        } else {
            proof {
                assert forall|j: int, n: Seq<char>| #[trigger]
                    plan_has(plan_view(plan@), j, n) <==> wanted_static(kv, i + 1, j, n) by {
                    if j == i {
                        assert(!static_at(kv, j, n));
                    }
                }
                assert forall|a: int, b: int, n: Seq<char>|
                    a < b < i + 1 implies !(#[trigger] static_at(kv, a, n) && #[trigger] static_at(kv, b, n)) by {
                    if b == i {
                        assert(!static_at(kv, b, n));
                    }
                }
            }
        }
        i += 1;
    }
    proof {
        assert(!static_duplicate(kv));
        assert forall|j: int, n: Seq<char>| #[trigger] plan_has(plan_view(plan@), j, n) <==> wanted(
            kv,
            0,
            0,
            j,
            n,
        ) by {
            if static_at(kv, j, n) {
                assert(wanted_static(kv, i as int, j, n));
            }
        }
    }
    // Then the dynamic entries, in order
    let mut d: usize = 0;
    while d < keys.len()
        invariant
            d <= keys@.len(),
            kv == key_views(keys@),
            kv.len() == keys@.len(),
            names_distinct(plan_view(plan@)),
            !static_duplicate(kv),
            plan_is(plan_view(plan@), kv, d as int, 0),
            forall|a: int, b: int, n: Seq<char>|
                a < b < d ==> !(#[trigger] claims(kv, a, n) && #[trigger] claims(kv, b, n)),
        decreases keys@.len() - d,
    {
        if let EntryKey::Dynamic { id, candidates } = &keys[d] {
            let ghost cv = candidates@.map_values(|c: (String, bool)| (c.0@, c.1));
            assert(kv[d as int] == KeyView::Dynamic(id@, cv));
            assert(candidates_of(kv[d as int]) == cv);
            let mut k: usize = 0;
            while k < candidates.len()
                invariant
                    k <= candidates@.len(),
                    d < keys@.len(),
                    kv == key_views(keys@),
                    kv.len() == keys@.len(),
                    kv[d as int] == KeyView::Dynamic(id@, cv),
                    candidates_of(kv[d as int]) == cv,
                    cv == candidates@.map_values(|c: (String, bool)| (c.0@, c.1)),
                    names_distinct(plan_view(plan@)),
                    !static_duplicate(kv),
                    plan_is(plan_view(plan@), kv, d as int, k as int),
                    forall|a: int, b: int, n: Seq<char>|
                        a < b < d ==> !(#[trigger] claims(kv, a, n) && #[trigger] claims(kv, b, n)),
                    forall|a: int, n: Seq<char>|
                        #![trigger prefix_claims(kv, d as int, k as int, n), claims(kv, a, n)]
                        a < d && prefix_claims(kv, d as int, k as int, n) ==> !claims(kv, a, n),
                decreases candidates@.len() - k,
            {
                let (name, matched) = (&candidates[k].0, candidates[k].1);
                assert(cv[k as int] == (name@, matched));
                proof {
                    lemma_prefix_step(kv, d as int, k as int, cv);
                }
                let ghost pv = plan_view(plan@);
                if matched {
                    match find_name(&plan, name.as_str()) {
                        Some(p) => {
                            let j = plan[p].0;
                            proof {
                                assert(pv[p as int] == (j as int, name@));
                                assert(plan_has(pv, j as int, name@));
                                assert(wanted(kv, d as int, k as int, j as int, name@));
                            }
                            match &keys[j] {
                                EntryKey::Static(_) => {
                                    proof {
                                        assert(static_at(kv, j as int, name@));
                                        assert(is_static_name(kv, name@));
                                        assert forall|jj: int, n: Seq<char>| #[trigger]
                                            plan_has(pv, jj, n) <==> wanted(kv, d as int, k + 1, jj, n) by {
                                            assert(prefix_claims(kv, d as int, k + 1, n) == (prefix_claims(
                                                kv,
                                                d as int,
                                                k as int,
                                                n,
                                            ) || (cv[k as int] == (n, true) && !is_static_name(kv, n))));
                                        }
                                    }
                                },
                                EntryKey::Dynamic { id: other, .. } => {
                                    if j == d {
                                        proof {
                                            assert(!static_at(kv, j as int, name@));
                                            assert(prefix_claims(kv, d as int, k as int, name@));
                                            assert forall|jj: int, n: Seq<char>| #[trigger]
                                                plan_has(pv, jj, n) <==> wanted(kv, d as int, k + 1, jj, n) by {
                                                assert(prefix_claims(kv, d as int, k + 1, n) == (prefix_claims(
                                                    kv,
                                                    d as int,
                                                    k as int,
                                                    n,
                                                ) || (cv[k as int] == (n, true) && !is_static_name(kv, n))));
                                            }
                                        }
                                    } else {
                                        proof {
                                            assert(!static_at(kv, j as int, name@));
                                            assert(j < d);
                                            assert(claims(kv, j as int, name@));
                                            assert(candidates_of(kv[d as int])[k as int] == (name@, true));
                                            assert(matches_at(kv, d as int, name@));
                                            assert(claims(kv, d as int, name@));
                                            assert(dynamic_collision(kv));
                                        }
                                        return Err(
                                            collision_message(
                                                name.as_str(),
                                                "dynamic",
                                                dollar(other.as_str()).as_str(),
                                                dollar(id.as_str()).as_str(),
                                            ),
                                        );
                                    }
                                },
                            }
                        },
                        None => {
                            proof {
                                assert(!is_static_name(kv, name@)) by {
                                    if is_static_name(kv, name@) {
                                        let j = choose|j: int| #[trigger] static_at(kv, j, name@);
                                        assert(wanted(kv, d as int, k as int, j, name@));
                                        assert(plan_has(pv, j, name@));
                                        let q = choose|q: int| 0 <= q < pv.len() && #[trigger] pv[q] == (j, name@);
                                        assert(pv[q].1 == name@);
                                    }
                                }
                            }
                            plan.push((d, name.clone()));
                            proof {
                                let x = (d as int, name@);
                                assert(plan_view(plan@) =~= pv.push(x));
                                lemma_has_push(pv, x);
                                lemma_distinct_push(pv, x);
                                assert forall|jj: int, n: Seq<char>| #[trigger]
                                    plan_has(plan_view(plan@), jj, n) <==> wanted(kv, d as int, k + 1, jj, n) by {
                                    assert(plan_has(pv.push(x), jj, n) == (plan_has(pv, jj, n) || x == (jj, n)));
                                    assert(prefix_claims(kv, d as int, k + 1, n) == (prefix_claims(
                                        kv,
                                        d as int,
                                        k as int,
                                        n,
                                    ) || (cv[k as int] == (n, true) && !is_static_name(kv, n))));
                                    assert(plan_has(pv, jj, n) == wanted(kv, d as int, k as int, jj, n));
                                }
                                assert forall|a: int, n: Seq<char>|
                                    #![trigger prefix_claims(kv, d as int, k + 1, n), claims(kv, a, n)]
                                    a < d && prefix_claims(kv, d as int, k + 1, n) implies !claims(kv, a, n) by {
                                    if !prefix_claims(kv, d as int, k as int, n) && claims(kv, a, n) {
                                        assert(n == name@);
                                        assert(wanted(kv, d as int, k as int, a, n));
                                        assert(plan_has(pv, a, n));
                                        let q = choose|q: int| 0 <= q < pv.len() && #[trigger] pv[q] == (a, n);
                                        assert(pv[q].1 == name@);
                                    }
                                }
                            }
                        },
                    }
                } else {
                    proof {
                        assert forall|jj: int, n: Seq<char>| #[trigger]
                            plan_has(pv, jj, n) <==> wanted(kv, d as int, k + 1, jj, n) by {
                            assert(prefix_claims(kv, d as int, k + 1, n) == (prefix_claims(
                                kv,
                                d as int,
                                k as int,
                                n,
                            ) || (cv[k as int] == (n, true) && !is_static_name(kv, n))));
                        }
                    }
                }
                k += 1;
            }
            proof {
                lemma_prefix_all(kv, d as int, cv);
                assert forall|j: int, n: Seq<char>| #[trigger]
                    plan_has(plan_view(plan@), j, n) <==> wanted(kv, d + 1, 0, j, n) by {
                    assert(plan_has(plan_view(plan@), j, n) == wanted(kv, d as int, cv.len() as int, j, n));
                    assert(prefix_claims(kv, d as int, cv.len() as int, n) == claims(kv, d as int, n));
                    assert(!prefix_claims(kv, d + 1, 0, n));
                }
                assert forall|a: int, b: int, n: Seq<char>|
                    a < b < d + 1 implies !(#[trigger] claims(kv, a, n) && #[trigger] claims(kv, b, n)) by {
                    if b == d && claims(kv, b, n) {
                        assert(prefix_claims(kv, d as int, cv.len() as int, n) == claims(kv, d as int, n));
                    }
                }
            }
        } else {
            proof {
                assert forall|j: int, n: Seq<char>| #[trigger]
                    plan_has(plan_view(plan@), j, n) <==> wanted(kv, d + 1, 0, j, n) by {
                    assert(plan_has(plan_view(plan@), j, n) == wanted(kv, d as int, 0, j, n));
                    if j == d {
                        assert(!matches_at(kv, j, n));
                    }
                    assert(!prefix_claims(kv, d + 1, 0, n));
                    assert(!prefix_claims(kv, d as int, 0, n));
                }
                assert forall|a: int, b: int, n: Seq<char>|
                    a < b < d + 1 implies !(#[trigger] claims(kv, a, n) && #[trigger] claims(kv, b, n)) by {
                    if b == d {
                        assert(!matches_at(kv, b, n));
                    }
                }
            }
        }
        d += 1;
    }
    proof {
        assert forall|i: int, n: Seq<char>| #![trigger planned(kv, i, n)]
            plan_has(plan_view(plan@), i, n) <==> planned(kv, i, n) by {
            assert(plan_has(plan_view(plan@), i, n) == wanted(kv, d as int, 0, i, n));
            assert(!prefix_claims(kv, d as int, 0, n));
            if claims(kv, i, n) {
                assert(0 <= i < kv.len());
            }
        }
        assert(!dynamic_collision(kv));
    }
    Ok(plan)
}

/// Whether the dynamic entry `d` takes the name `n` from its first `k` candidates
pub open spec fn prefix_claims(keys: Seq<KeyView>, d: int, k: int, n: Seq<char>) -> bool {
    &&& 0 <= d < keys.len()
    &&& keys[d] is Dynamic
    &&& !is_static_name(keys, n)
    &&& exists|m: int| 0 <= m < k && m < candidates_of(keys[d]).len() && #[trigger] candidates_of(keys[d])[m] == (n, true)
}

/// One more candidate extends what the prefix takes by that candidate alone
proof fn lemma_prefix_step(keys: Seq<KeyView>, d: int, k: int, cv: Seq<(Seq<char>, bool)>)
    requires
        0 <= d < keys.len(),
        keys[d] is Dynamic,
        candidates_of(keys[d]) == cv,
        0 <= k < cv.len(),
    ensures
        forall|n: Seq<char>| #[trigger] prefix_claims(keys, d, k + 1, n) <==> (prefix_claims(keys, d, k, n) || (
            cv[k] == (n, true) && !is_static_name(keys, n))),
{
    assert forall|n: Seq<char>| #[trigger] prefix_claims(keys, d, k + 1, n) <==> (prefix_claims(keys, d, k, n) || (
        cv[k] == (n, true) && !is_static_name(keys, n))) by {
        if prefix_claims(keys, d, k + 1, n) {
            let m = choose|m: int| 0 <= m < k + 1 && m < candidates_of(keys[d]).len() && #[trigger] candidates_of(keys[d])[m] == (n, true);
            if m < k {
                assert(prefix_claims(keys, d, k, n));
            }
        }
        if cv[k] == (n, true) && !is_static_name(keys, n) {
            assert(candidates_of(keys[d])[k] == (n, true));
        }
    }
}

/// All candidates together take what the entry claims
proof fn lemma_prefix_all(keys: Seq<KeyView>, d: int, cv: Seq<(Seq<char>, bool)>)
    requires
        0 <= d < keys.len(),
        keys[d] is Dynamic,
        candidates_of(keys[d]) == cv,
    ensures
        forall|n: Seq<char>| #[trigger] prefix_claims(keys, d, cv.len() as int, n) == claims(keys, d, n),
{
    assert forall|n: Seq<char>| #[trigger] prefix_claims(keys, d, cv.len() as int, n) == claims(keys, d, n) by {
        if claims(keys, d, n) {
            let k = choose|k: int| 0 <= k < candidates_of(keys[d]).len() && #[trigger] candidates_of(keys[d])[k] == (n, true);
            assert(prefix_claims(keys, d, cv.len() as int, n));
        }
    }
}

} // verus!
