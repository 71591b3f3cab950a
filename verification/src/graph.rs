//! The dependency graph between apps: validation of `depends_on`, the layering
//! that orders a start-everything run, and the report of a dependency cycle.
use vstd::prelude::*;
use vstd::string::*;

use crate::config::{is_app_id, last_with_id, AppEntry};
use crate::text::{
    chars_lt, join, join_chars, lemma_chars_lt_total, lemma_chars_lt_transitive, lemma_sorted_listing_unique, str_eq,
    str_less, strictly_sorted, views,
};

verus! {

/// Why the apps cannot be layered.
#[derive(Debug, Clone, PartialEq, Eq)]
pub enum GraphError {
    SelfLoop(String),
    UnknownDep { app: String, dep: String },
    Cycle(Vec<String>),
}

/// The text shown for an error.
pub open spec fn graph_error_text(e: GraphError) -> Seq<char> {
    match e {
        GraphError::SelfLoop(id) => "app "@ + id@ + " depends on itself"@,
        GraphError::UnknownDep { app, dep } => "app "@ + app@ + " depends on unknown id "@ + dep@,
        GraphError::Cycle(ids) => "dependency cycle: "@ + join_chars(views(ids@), " → "@),
    }
}

impl GraphError {
    /// The error's text, as `Display` renders it.
    pub fn message(&self) -> (s: String)
        ensures
            s@ == graph_error_text(*self),
    {
        let mut s = String::new();
        match self {
            GraphError::SelfLoop(id) => {
                s.append("app ");
                s.append(id.as_str());
                s.append(" depends on itself");
            },
            GraphError::UnknownDep { app, dep } => {
                s.append("app ");
                s.append(app.as_str());
                s.append(" depends on unknown id ");
                s.append(dep.as_str());
            },
            GraphError::Cycle(ids) => {
                s.append("dependency cycle: ");
                let joined = join(ids, " → ");
                s.append(joined.as_str());
            },
        }
        s
    }
}

// ---------------------------------------------------------------------------
// The model.

/// `x` is the id of one of the first `n` apps.
pub open spec fn id_in_prefix(apps: Seq<AppEntry>, n: int, x: Seq<char>) -> bool {
    exists|k: int| 0 <= k < n && (#[trigger] apps[k]).id@ == x
}

/// The `j`-th dependency of app `i`, as characters.
pub open spec fn dep_at(apps: Seq<AppEntry>, i: int, j: int) -> Seq<char> {
    apps[i].depends_on@[j]@
}

/// Dependency `j` of app `i` names the app itself or no app at all.
pub open spec fn is_bad_dep(apps: Seq<AppEntry>, i: int, j: int) -> bool {
    &&& 0 <= i < apps.len()
    &&& 0 <= j < apps[i].depends_on@.len()
    &&& (dep_at(apps, i, j) == apps[i].id@ || !is_app_id(apps, dep_at(apps, i, j)))
}

/// `(i, j)` is the first bad dependency, scanning apps in order and each
/// app's dependencies in order.
pub open spec fn first_bad_dep(apps: Seq<AppEntry>, i: int, j: int) -> bool {
    &&& is_bad_dep(apps, i, j)
    &&& forall|i2: int, j2: int|
        (i2 < i || (i2 == i && j2 < j)) ==> !#[trigger] is_bad_dep(apps, i2, j2)
}

pub open spec fn no_bad_dep(apps: Seq<AppEntry>) -> bool {
    forall|i: int, j: int| !#[trigger] is_bad_dep(apps, i, j)
}

/// The error reported for the bad dependency `(i, j)`.
pub open spec fn bad_dep_error(apps: Seq<AppEntry>, i: int, j: int) -> GraphError {
    if dep_at(apps, i, j) == apps[i].id@ {
        GraphError::SelfLoop(apps[i].id)
    } else {
        GraphError::UnknownDep { app: apps[i].id, dep: apps[i].depends_on@[j] }
    }
}

/// Every dependency of every app whose id is `x` lies in `s`.
pub open spec fn deps_within(apps: Seq<AppEntry>, x: Seq<char>, s: Set<Seq<char>>) -> bool {
    forall|i: int, j: int|
        0 <= i < apps.len() && apps[i].id@ == x && 0 <= j < apps[i].depends_on@.len()
            ==> s.contains(#[trigger] dep_at(apps, i, j))
}

/// The ids not yet in `s` whose dependencies all are.
pub open spec fn frontier(apps: Seq<AppEntry>, s: Set<Seq<char>>) -> Set<Seq<char>> {
    Set::new(|x: Seq<char>| is_app_id(apps, x) && !s.contains(x) && deps_within(apps, x, s))
}

/// The ids placed in the first `k` levels.
pub open spec fn settled(apps: Seq<AppEntry>, k: nat) -> Set<Seq<char>>
    decreases k,
{
    if k == 0 {
        Set::empty()
    } else {
        settled(apps, (k - 1) as nat).union(frontier(apps, settled(apps, (k - 1) as nat)))
    }
}

/// Level `k`: the ids whose dependencies all lie in earlier levels.
pub open spec fn level_set(apps: Seq<AppEntry>, k: nat) -> Set<Seq<char>> {
    frontier(apps, settled(apps, k))
}

/// `levels` lists each level in sorted order; there are as many as are
/// nonempty.
pub open spec fn is_layering(apps: Seq<AppEntry>, levels: Seq<Seq<Seq<char>>>) -> bool {
    &&& forall|k: int|
        0 <= k < levels.len() ==> {
            &&& strictly_sorted(#[trigger] levels[k])
            &&& levels[k].len() > 0
            &&& levels[k].to_set() == level_set(apps, k as nat)
        }
    &&& level_set(apps, levels.len()) == Set::<Seq<char>>::empty()
}

/// Level `n` is the first empty one.
pub open spec fn level_count_is(apps: Seq<AppEntry>, n: nat) -> bool {
    &&& level_set(apps, n) == Set::<Seq<char>>::empty()
    &&& forall|k: nat| k < n ==> #[trigger] level_set(apps, k) != Set::<Seq<char>>::empty()
}

pub open spec fn ids_distinct(apps: Seq<AppEntry>) -> bool {
    forall|i: int, j: int| 0 <= i < j < apps.len() ==> apps[i].id@ != apps[j].id@
}

pub open spec fn all_within(apps: Seq<AppEntry>, s: Set<Seq<char>>) -> bool {
    forall|i: int| 0 <= i < apps.len() ==> s.contains(#[trigger] apps[i].id@)
}

/// The ids that never reach a level.
pub open spec fn stuck_set(apps: Seq<AppEntry>, n: nat) -> Set<Seq<char>> {
    Set::new(|x: Seq<char>| is_app_id(apps, x) && !settled(apps, n).contains(x))
}

/// `d` is among the dependencies of the last app whose id is `x`.
pub open spec fn parent_edge(apps: Seq<AppEntry>, x: Seq<char>, d: Seq<char>) -> bool {
    exists|i: int, j: int|
        last_with_id(apps, i, x) && 0 <= j < apps[i].depends_on@.len() && #[trigger] dep_at(
            apps,
            i,
            j,
        ) == d
}

/// `c` walks dependency edges through `s` and returns to where it began.
pub open spec fn is_cycle_walk(apps: Seq<AppEntry>, c: Seq<Seq<char>>, s: Set<Seq<char>>) -> bool {
    &&& c.len() >= 2
    &&& c[0] == c.last()
    &&& forall|i: int| 0 <= i < c.len() - 1 ==> parent_edge(apps, #[trigger] c[i], c[i + 1])
    &&& forall|i: int| 0 <= i < c.len() ==> s.contains(#[trigger] c[i])
}

/// Every element of `s` has a dependency edge into `s`.
pub open spec fn closed_under_parents(apps: Seq<AppEntry>, s: Set<Seq<char>>) -> bool {
    forall|x: Seq<char>| #[trigger] s.contains(x) ==> exists|d: Seq<char>| parent_edge(apps, x, d) && s.contains(d)
}

/// What a cycle report holds: a cycle through the stuck ids, or, where the
/// search finds none, the stuck ids themselves in sorted order.
pub open spec fn is_cycle_report(apps: Seq<AppEntry>, c: Seq<Seq<char>>, s: Set<Seq<char>>) -> bool {
    ||| is_cycle_walk(apps, c, s)
    ||| (strictly_sorted(c) && c.to_set() == s)
}

// ---------------------------------------------------------------------------
// Lemmas on the model.

/// Number of apps whose id is outside `s`.
pub open spec fn outside_count(apps: Seq<AppEntry>, s: Set<Seq<char>>) -> nat
    decreases apps.len(),
{
    if apps.len() == 0 {
        0
    } else {
        outside_count(apps.drop_last(), s) + if s.contains(apps.last().id@) {
            0nat
        } else {
            1nat
        }
    }
}

proof fn lemma_outside_count_shrinks(apps: Seq<AppEntry>, s: Set<Seq<char>>, t: Set<Seq<char>>, w: int)
    requires
        s.subset_of(t),
        0 <= w < apps.len(),
        t.contains(apps[w].id@),
        !s.contains(apps[w].id@),
    ensures
        outside_count(apps, t) < outside_count(apps, s),
    decreases apps.len(),
{
    lemma_outside_count_mono(apps.drop_last(), s, t);
    if w < apps.len() - 1 {
        lemma_outside_count_shrinks(apps.drop_last(), s, t, w);
    }
}

proof fn lemma_outside_count_mono(apps: Seq<AppEntry>, s: Set<Seq<char>>, t: Set<Seq<char>>)
    requires
        s.subset_of(t),
    ensures
        outside_count(apps, t) <= outside_count(apps, s),
    decreases apps.len(),
{
    if apps.len() > 0 {
        lemma_outside_count_mono(apps.drop_last(), s, t);
    }
}

proof fn lemma_settled_mono(apps: Seq<AppEntry>, k: nat, m: nat)
    requires
        k <= m,
    ensures
        settled(apps, k).subset_of(settled(apps, m)),
    decreases m,
{
    if k < m {
        lemma_settled_mono(apps, k, (m - 1) as nat);
    }
}

/// Once a level is empty, every later one is.
pub proof fn lemma_empty_level_stays_empty(apps: Seq<AppEntry>, n: nat, m: nat)
    requires
        n <= m,
        level_set(apps, n) == Set::<Seq<char>>::empty(),
    ensures
        settled(apps, m) == settled(apps, n),
        level_set(apps, m) == Set::<Seq<char>>::empty(),
    decreases m,
{
    if n < m {
        lemma_empty_level_stays_empty(apps, n, (m - 1) as nat);
        assert(settled(apps, m) =~= settled(apps, n));
    }
}

// ---------------------------------------------------------------------------
// Small executable helpers.

/// `v` holds an element equal to `x`.
pub fn contains_str(v: &Vec<String>, x: &str) -> (r: bool)
    ensures
        r == views(v@).contains(x@),
{
    let mut i: usize = 0;
    while i < v.len()
        invariant
            i <= v.len(),
            forall|k: int| 0 <= k < i ==> v@[k]@ != x@,
        decreases v.len() - i,
    {
        if str_eq(v[i].as_str(), x) {
            assert(views(v@)[i as int] == x@);
            return true;
        }
        i = i + 1;
    }
    proof {
        if views(v@).contains(x@) {
            let k = choose|k: int| 0 <= k < views(v@).len() && views(v@)[k] == x@;
            assert(v@[k]@ == x@);
        }
    }
    false
}

fn contains_id(apps: &[AppEntry], x: &str) -> (r: bool)
    ensures
        r == is_app_id(apps@, x@),
{
    let mut i: usize = 0;
    while i < apps.len()
        invariant
            i <= apps.len(),
            forall|k: int| 0 <= k < i ==> apps@[k].id@ != x@,
        decreases apps.len() - i,
    {
        if str_eq(apps[i].id.as_str(), x) {
            assert(apps@[i as int].id@ == x@);
            return true;
        }
        i = i + 1;
    }
    false
}

/// Inserts `x` into the strictly sorted `v`, unless an equal string is there.
pub fn insert_sorted(v: &mut Vec<String>, x: String)
    requires
        strictly_sorted(views(old(v)@)),
    ensures
        strictly_sorted(views(final(v)@)),
        views(final(v)@).to_set() == views(old(v)@).to_set().insert(x@),
{
    let ghost old_v = views(v@);
    let mut p: usize = 0;
    while p < v.len() && str_less(v[p].as_str(), x.as_str())
        invariant
            p <= v.len(),
            v@ == old(v)@,
            forall|k: int| 0 <= k < p ==> chars_lt(#[trigger] v@[k]@, x@),
        decreases v.len() - p,
    {
        p = p + 1;
    }
    if p < v.len() && str_eq(v[p].as_str(), x.as_str()) {
        assert(views(v@).to_set() =~= old_v.to_set().insert(x@)) by {
            assert(old_v[p as int] == x@);
        }
        return;
    }
    proof {
        if p < v.len() {
            lemma_chars_lt_total(x@, v@[p as int]@);
        }
    }
    v.insert(p, x);
    let ghost nv = views(v@);
    assert(nv =~= old_v.insert(p as int, x@));
    assert forall|i: int, j: int| 0 <= i < j < nv.len() implies chars_lt(#[trigger] nv[i], #[trigger] nv[j]) by {
        if j == p {
            assert(chars_lt(old_v[i], x@));
        } else if i == p {
            if j > p + 1 {
                lemma_chars_lt_transitive(x@, old_v[p as int], old_v[j - 1]);
            }
        } else if i < p && j > p {
            if j - 1 > p {
                lemma_chars_lt_transitive(x@, old_v[p as int], old_v[j - 1]);
            }
            lemma_chars_lt_transitive(old_v[i], x@, old_v[j - 1]);
        }
    }
    assert(nv.to_set() =~= old_v.to_set().insert(x@)) by {
        assert(nv[p as int] == x@);
        assert forall|y: Seq<char>| old_v.contains(y) implies nv.contains(y) by {
            let k = choose|k: int| 0 <= k < old_v.len() && old_v[k] == y;
            if k < p {
                assert(nv[k] == y);
            } else {
                assert(nv[k + 1] == y);
            }
        }
    }
}

fn clone_strings(v: &Vec<String>) -> (r: Vec<String>)
    ensures
        r@ == v@,
{
    let mut r: Vec<String> = Vec::new();
    let mut i: usize = 0;
    while i < v.len()
        invariant
            i <= v.len(),
            r@ == v@.take(i as int),
        decreases v.len() - i,
    {
        r.push(v[i].clone());
        assert(v@.take(i + 1) =~= v@.take(i as int).push(v@[i as int]));
        i = i + 1;
    }
    assert(v@.take(v.len() as int) =~= v@);
    r
}

/// Checks every dependency, in order; the first one that names its own app
/// or no app at all is the error.
fn validate_deps(apps: &[AppEntry]) -> (r: Result<(), GraphError>)
    ensures
        r is Ok <==> no_bad_dep(apps@),
        forall|i: int, j: int| first_bad_dep(apps@, i, j) ==> r == Err::<(), GraphError>(bad_dep_error(apps@, i, j)),
        r matches Err(e) ==> exists|i: int, j: int| first_bad_dep(apps@, i, j) && e == bad_dep_error(apps@, i, j),
{
    let mut i: usize = 0;
    while i < apps.len()
        invariant
            i <= apps.len(),
            forall|i2: int, j2: int| i2 < i ==> !#[trigger] is_bad_dep(apps@, i2, j2),
        decreases apps.len() - i,
    {
        let a = &apps[i];
        let mut j: usize = 0;
        while j < a.depends_on.len()
            invariant
                i < apps.len(),
                a == apps@[i as int],
                j <= a.depends_on@.len(),
                forall|i2: int, j2: int| i2 < i ==> !#[trigger] is_bad_dep(apps@, i2, j2),
                forall|j2: int| j2 < j ==> !#[trigger] is_bad_dep(apps@, i as int, j2),
            decreases a.depends_on@.len() - j,
        {
            let d = &a.depends_on[j];
            if str_eq(d.as_str(), a.id.as_str()) {
                assert(is_bad_dep(apps@, i as int, j as int));
                assert(first_bad_dep(apps@, i as int, j as int));
                return Err(GraphError::SelfLoop(a.id.clone()));
            }
            if !contains_id(apps, d.as_str()) {
                assert(is_bad_dep(apps@, i as int, j as int));
                assert(first_bad_dep(apps@, i as int, j as int));
                return Err(GraphError::UnknownDep { app: a.id.clone(), dep: d.clone() });
            }
            assert(!is_bad_dep(apps@, i as int, j as int));
            j = j + 1;
        }
        assert forall|i2: int, j2: int| i2 < i + 1 implies !#[trigger] is_bad_dep(apps@, i2, j2) by {
            if i2 == i && j2 >= a.depends_on@.len() {
                assert(!is_bad_dep(apps@, i2, j2));
            }
        }
        i = i + 1;
    }
    Ok(())
}

/// Every dependency of every app whose id is `x` is in `s`.
fn deps_all_in(apps: &[AppEntry], x: &str, s: &Vec<String>) -> (r: bool)
    ensures
        r == deps_within(apps@, x@, views(s@).to_set()),
{
    let mut i: usize = 0;
    while i < apps.len()
        invariant
            i <= apps.len(),
            forall|i2: int, j2: int|
                0 <= i2 < i && apps@[i2].id@ == x@ && 0 <= j2 < apps@[i2].depends_on@.len()
                    ==> views(s@).to_set().contains(#[trigger] dep_at(apps@, i2, j2)),
        decreases apps.len() - i,
    {
        if str_eq(apps[i].id.as_str(), x) {
            let deps = &apps[i].depends_on;
            let mut j: usize = 0;
            while j < deps.len()
                invariant
                    i < apps.len(),
                    deps == apps@[i as int].depends_on,
                    j <= deps@.len(),
                    apps@[i as int].id@ == x@,
                    forall|i2: int, j2: int|
                        0 <= i2 < i && apps@[i2].id@ == x@ && 0 <= j2 < apps@[i2].depends_on@.len()
                            ==> views(s@).to_set().contains(#[trigger] dep_at(apps@, i2, j2)),
                    forall|j2: int| 0 <= j2 < j ==> views(s@).to_set().contains(#[trigger] dep_at(apps@, i as int, j2)),
                decreases deps@.len() - j,
            {
                if !contains_str(s, deps[j].as_str()) {
                    assert(!views(s@).to_set().contains(dep_at(apps@, i as int, j as int)));
                    return false;
                }
                j = j + 1;
            }
        }
        i = i + 1;
    }
    true
}

/// The next level: the ids outside `s` whose dependencies all lie in `s`,
/// sorted.
fn next_level(apps: &[AppEntry], s: &Vec<String>) -> (r: Vec<String>)
    ensures
        strictly_sorted(views(r@)),
        views(r@).to_set() == frontier(apps@, views(s@).to_set()),
{
    let ghost ss = views(s@).to_set();
    let mut r: Vec<String> = Vec::new();
    let mut i: usize = 0;
    while i < apps.len()
        invariant
            i <= apps.len(),
            ss == views(s@).to_set(),
            strictly_sorted(views(r@)),
            views(r@).to_set() == Set::new(
                |x: Seq<char>| id_in_prefix(apps@, i as int, x) && !ss.contains(x) && deps_within(apps@, x, ss),
            ),
        decreases apps.len() - i,
    {
        let x = &apps[i].id;
        let ghost before = views(r@).to_set();
        if !contains_str(s, x.as_str()) && deps_all_in(apps, x.as_str(), s) {
            insert_sorted(&mut r, x.clone());
        }
        assert(views(r@).to_set() =~= Set::new(
            |y: Seq<char>| id_in_prefix(apps@, i + 1, y) && !ss.contains(y) && deps_within(apps@, y, ss),
        )) by {
            assert forall|y: Seq<char>| #[trigger] id_in_prefix(apps@, i + 1, y) implies
                id_in_prefix(apps@, i as int, y) || y == x@ by {
                let k = choose|k: int| 0 <= k < i + 1 && (#[trigger] apps@[k]).id@ == y;
                if k < i {
                    assert(apps@[k].id@ == y);
                }
            }
            assert(apps@[i as int].id@ == x@);
            assert(id_in_prefix(apps@, i + 1, x@));
        }
        i = i + 1;
    }
    assert forall|y: Seq<char>| #[trigger] is_app_id(apps@, y) implies id_in_prefix(apps@, apps.len() as int, y) by {
        let k = choose|k: int| 0 <= k < apps@.len() && (#[trigger] apps@[k]).id@ == y;
        assert(apps@[k].id@ == y);
    }
    assert(views(r@).to_set() =~= frontier(apps@, ss));
    r
}

/// Number of entries of `s` that are not in `p`.
pub open spec fn count_not_in(s: Seq<Seq<char>>, p: Seq<Seq<char>>) -> nat
    decreases s.len(),
{
    if s.len() == 0 {
        0
    } else {
        count_not_in(s.drop_last(), p) + if p.contains(s.last()) {
            0nat
        } else {
            1nat
        }
    }
}

pub proof fn lemma_count_not_in_push(s: Seq<Seq<char>>, p: Seq<Seq<char>>, x: Seq<char>)
    requires
        s.contains(x),
        !p.contains(x),
    ensures
        count_not_in(s, p.push(x)) < count_not_in(s, p),
    decreases s.len(),
{
    lemma_count_not_in_push_le(s.drop_last(), p, x);
    if s.last() != x {
        let k = choose|k: int| 0 <= k < s.len() && s[k] == x;
        assert(s.drop_last()[k] == x);
        lemma_count_not_in_push(s.drop_last(), p, x);
        assert(p.push(x).contains(s.last()) == p.contains(s.last())) by {
            if p.push(x).contains(s.last()) {
                let m = choose|m: int| 0 <= m < p.push(x).len() && p.push(x)[m] == s.last();
                assert(p[m] == s.last());
            }
            if p.contains(s.last()) {
                let m = choose|m: int| 0 <= m < p.len() && p[m] == s.last();
                assert(p.push(x)[m] == s.last());
            }
        }
    } else {
        assert(p.push(x)[p.len() as int] == x);
    }
}

pub proof fn lemma_count_not_in_push_le(s: Seq<Seq<char>>, p: Seq<Seq<char>>, x: Seq<char>)
    ensures
        count_not_in(s, p.push(x)) <= count_not_in(s, p),
    decreases s.len(),
{
    if s.len() > 0 {
        lemma_count_not_in_push_le(s.drop_last(), p, x);
        if p.contains(s.last()) {
            let m = choose|m: int| 0 <= m < p.len() && p[m] == s.last();
            assert(p.push(x)[m] == s.last());
        }
    }
}

/// Consecutive entries of `p` are dependency edges.
pub open spec fn is_walk(apps: Seq<AppEntry>, p: Seq<Seq<char>>) -> bool {
    forall|i: int| 0 <= i < p.len() - 1 ==> parent_edge(apps, #[trigger] p[i], p[i + 1])
}

/// Position of the first `x` in `p` (the length of `p` when it is absent).
pub open spec fn first_pos(p: Seq<Seq<char>>, x: Seq<char>) -> int
    decreases p.len(),
{
    if p.len() == 0 {
        0
    } else if p[0] == x {
        0
    } else {
        1 + first_pos(p.drop_first(), x)
    }
}

/// The cycle closed by meeting `x` again on the walk `p`: `p` from its first
/// `x` on, then `x` once more.
pub open spec fn cycle_cut(p: Seq<Seq<char>>, x: Seq<char>) -> Seq<Seq<char>> {
    p.subrange(first_pos(p, x), p.len() as int).push(x)
}

/// The index of the last app whose id is `x`, if any.
pub open spec fn last_index(apps: Seq<AppEntry>, x: Seq<char>) -> Option<int>
    decreases apps.len(),
{
    if apps.len() == 0 {
        None
    } else if apps.last().id@ == x {
        Some(apps.len() - 1)
    } else {
        last_index(apps.drop_last(), x)
    }
}

/// The depth-first search for a cycle from `node`, having walked `path`: an
/// id met again on the path closes the cycle; an id outside `stuck` ends the
/// branch; otherwise the dependencies of the last app with that id are
/// searched in order, and the first cycle found wins.
pub open spec fn cycle_dfs(apps: Seq<AppEntry>, stuck: Seq<Seq<char>>, node: Seq<char>, path: Seq<Seq<char>>) -> Option<
    Seq<Seq<char>>,
>
    decreases count_not_in(stuck, path), 1int, 0int,
{
    if path.contains(node) {
        Some(cycle_cut(path, node))
    } else if !stuck.contains(node) {
        None
    } else {
        match last_index(apps, node) {
            None => None,
            Some(i) => {
                proof {
                    lemma_count_not_in_push(stuck, path, node);
                }
                cycle_dfs_deps(apps, stuck, i, 0, path.push(node))
            },
        }
    }
}

/// The search through dependencies `j` onwards of app `i`.
pub open spec fn cycle_dfs_deps(apps: Seq<AppEntry>, stuck: Seq<Seq<char>>, i: int, j: int, path: Seq<Seq<char>>) -> Option<
    Seq<Seq<char>>,
>
    decreases count_not_in(stuck, path), 2int, if 0 <= i < apps.len() {
        apps[i].depends_on@.len() - j
    } else {
        0
    },
{
    if !(0 <= i < apps.len()) || j < 0 || j >= apps[i].depends_on@.len() {
        None
    } else {
        match cycle_dfs(apps, stuck, dep_at(apps, i, j), path) {
            Some(c) => Some(c),
            None => cycle_dfs_deps(apps, stuck, i, j + 1, path),
        }
    }
}

/// The first cycle found searching from each id of `order` in turn.
pub open spec fn first_cycle_from(apps: Seq<AppEntry>, stuck: Seq<Seq<char>>, order: Seq<Seq<char>>) -> Option<
    Seq<Seq<char>>,
>
    decreases order.len(),
{
    if order.len() == 0 {
        None
    } else {
        match cycle_dfs(apps, stuck, order[0], Seq::empty()) {
            Some(c) => Some(c),
            None => first_cycle_from(apps, stuck, order.drop_first()),
        }
    }
}

proof fn lemma_first_pos(p: Seq<Seq<char>>, x: Seq<char>, k: int)
    requires
        0 <= k < p.len(),
        p[k] == x,
        forall|j: int| 0 <= j < k ==> p[j] != x,
    ensures
        first_pos(p, x) == k,
    decreases k,
{
    if k > 0 {
        assert(p[0] != x);
        lemma_first_pos(p.drop_first(), x, k - 1);
    }
}

proof fn lemma_last_index(apps: Seq<AppEntry>, x: Seq<char>, i: int)
    requires
        last_with_id(apps, i, x),
    ensures
        last_index(apps, x) == Some(i),
    decreases apps.len(),
{
    if i < apps.len() - 1 {
        assert(apps.last() == apps[apps.len() - 1]);
        assert(last_with_id(apps.drop_last(), i, x)) by {
            assert forall|k: int| i < k < apps.len() - 1 implies (#[trigger] apps.drop_last()[k]).id@ != x by {
                assert(apps.drop_last()[k] == apps[k]);
            }
        }
        lemma_last_index(apps.drop_last(), x, i);
    }
}

proof fn lemma_last_index_none(apps: Seq<AppEntry>, x: Seq<char>)
    requires
        !is_app_id(apps, x),
    ensures
        last_index(apps, x) is None,
    decreases apps.len(),
{
    if apps.len() > 0 {
        assert(apps[apps.len() - 1] == apps.last());
        assert(!is_app_id(apps.drop_last(), x)) by {
            if is_app_id(apps.drop_last(), x) {
                let k = choose|k: int| 0 <= k < apps.drop_last().len() && (#[trigger] apps.drop_last()[k]).id@ == x;
                assert(apps[k] == apps.drop_last()[k]);
            }
        }
        lemma_last_index_none(apps.drop_last(), x);
    }
}

fn position_of(v: &Vec<String>, x: &str) -> (r: Option<usize>)
    ensures
        r matches Some(k) ==> k < v@.len() && v@[k as int]@ == x@ && forall|j: int| 0 <= j < k ==> v@[j]@ != x@,
        r is None ==> !views(v@).contains(x@),
{
    let mut i: usize = 0;
    while i < v.len()
        invariant
            i <= v.len(),
            forall|k: int| 0 <= k < i ==> v@[k]@ != x@,
        decreases v.len() - i,
    {
        if str_eq(v[i].as_str(), x) {
            return Some(i);
        }
        i = i + 1;
    }
    proof {
        if views(v@).contains(x@) {
            let k = choose|k: int| 0 <= k < views(v@).len() && views(v@)[k] == x@;
            assert(v@[k]@ == x@);
        }
    }
    None
}

fn last_app_index(apps: &[AppEntry], x: &str) -> (r: Option<usize>)
    ensures
        r matches Some(i) ==> last_with_id(apps@, i as int, x@),
        r is None ==> !is_app_id(apps@, x@),
{
    let mut found: Option<usize> = None;
    let mut i: usize = 0;
    while i < apps.len()
        invariant
            i <= apps.len(),
            found matches Some(f) ==> f < i && apps@[f as int].id@ == x@ && forall|k: int|
                f < k < i ==> (#[trigger] apps@[k]).id@ != x@,
            found is None ==> forall|k: int| 0 <= k < i ==> (#[trigger] apps@[k]).id@ != x@,
        decreases apps.len() - i,
    {
        if str_eq(apps[i].id.as_str(), x) {
            found = Some(i);
        }
        i = i + 1;
    }
    found
}

/// Depth-first search along dependency edges through the stuck ids, from
/// `node`, with `path` the walk that led here. Returns the first cycle met.
fn cycle_search(apps: &[AppEntry], node: &String, stuck: &Vec<String>, path: &mut Vec<String>) -> (r:
    Option<Vec<String>>)
    requires
        is_walk(apps@, views(old(path)@)),
        views(old(path)@).no_duplicates(),
        old(path)@.len() > 0 ==> parent_edge(apps@, views(old(path)@).last(), node@),
        forall|k: int|
            0 <= k < old(path)@.len() ==> views(stuck@).to_set().contains(#[trigger] views(old(path)@)[k]),
    ensures
        r is None ==> final(path)@ == old(path)@,
        r is None ==> cycle_dfs(apps@, views(stuck@), node@, views(old(path)@)) is None,
        r matches Some(c) ==> cycle_dfs(apps@, views(stuck@), node@, views(old(path)@)) == Some(views(c@))
            && views(c@).drop_last().no_duplicates(),
        r matches Some(c) ==> is_cycle_walk(apps@, views(c@), views(stuck@).to_set()) && (c@.len() == 2
            ==> parent_edge(apps@, c@[0]@, c@[0]@)),
        closed_under_parents(apps@, views(stuck@).to_set()) && (views(stuck@).contains(node@) || views(
            old(path)@,
        ).contains(node@)) ==> r is Some,
    decreases count_not_in(views(stuck@), views(old(path)@)),
{
    let ghost s = views(stuck@).to_set();
    let ghost p0 = views(path@);
    match position_of(path, node.as_str()) {
        Some(start) => {
            let mut c: Vec<String> = Vec::new();
            let mut k: usize = start;
            while k < path.len()
                invariant
                    start <= k <= path@.len(),
                    path@.len() == p0.len(),
                    p0 == views(path@),
                    views(c@) == p0.subrange(start as int, k as int),
                decreases path@.len() - k,
            {
                assert(p0[k as int] == path@[k as int]@);
                let ghost cold = c@;
                let item = path[k].clone();
                assert(item@ == p0[k as int]);
                c.push(item);
                assert(c@ == cold.push(item));
                assert(views(c@) =~= views(cold).push(item@));
                assert(views(c@) =~= p0.subrange(start as int, k + 1));
                k = k + 1;
            }
            c.push(node.clone());
            let ghost cv = views(c@);
            assert(cv =~= p0.subrange(start as int, p0.len() as int).push(node@));
            assert(cv[0] == node@);
            assert forall|i: int| 0 <= i < cv.len() - 1 implies parent_edge(apps@, #[trigger] cv[i], cv[i + 1]) by {
                if i < cv.len() - 2 {
                    assert(cv[i] == p0[start + i]);
                    assert(cv[i + 1] == p0[start + i + 1]);
                } else {
                    assert(cv[i] == p0.last());
                }
            }
            assert forall|i: int| 0 <= i < cv.len() implies s.contains(#[trigger] cv[i]) by {
                if i < cv.len() - 1 {
                    assert(cv[i] == p0[start + i]);
                } else {
                    assert(cv[i] == p0[start as int]);
                }
            }
            proof {
                if cv.len() == 2 {
                    assert(cv[0] == p0.last());
                }
                assert forall|j: int| 0 <= j < start implies p0[j] != node@ by {
                    assert(p0[j] == path@[j]@);
                }
                lemma_first_pos(p0, node@, start as int);
                assert(p0.contains(node@));
                assert(cv =~= cycle_cut(p0, node@));
                assert(cv.drop_last() =~= p0.subrange(start as int, p0.len() as int));
                assert(cv.drop_last().no_duplicates()) by {
                    assert forall|a: int, b: int| 0 <= a < cv.drop_last().len() && 0 <= b < cv.drop_last().len() && a != b
                        implies cv.drop_last()[a] != cv.drop_last()[b] by {
                        assert(cv.drop_last()[a] == p0[start + a]);
                        assert(cv.drop_last()[b] == p0[start + b]);
                    }
                }
            }
            return Some(c);
        },
        None => {},
    }
    if !contains_str(stuck, node.as_str()) {
        return None;
    }
    proof {
        lemma_count_not_in_push(views(stuck@), p0, node@);
    }
    path.push(node.clone());
    let ghost p1 = views(path@);
    assert(p1 =~= p0.push(node@));
    assert(p1.no_duplicates()) by {
        assert forall|a: int, b: int| 0 <= a < p1.len() && 0 <= b < p1.len() && a != b implies p1[a] != p1[b] by {
            if a < p0.len() && b < p0.len() {
                assert(p1[a] == p0[a]);
                assert(p1[b] == p0[b]);
            } else if a < p0.len() {
                assert(p1[a] == p0[a]);
            } else if b < p0.len() {
                assert(p1[b] == p0[b]);
            }
        }
    }
    assert(is_walk(apps@, p1)) by {
        assert forall|i: int| 0 <= i < p1.len() - 1 implies parent_edge(apps@, #[trigger] p1[i], p1[i + 1]) by {
            if i < p1.len() - 2 {
                assert(p1[i] == p0[i]);
                assert(p1[i + 1] == p0[i + 1]);
            }
        }
    }
    match last_app_index(apps, node.as_str()) {
        Some(pi) => {
            proof {
                lemma_last_index(apps@, node@, pi as int);
            }
            let deps = &apps[pi].depends_on;
            let mut j: usize = 0;
            while j < deps.len()
                invariant
                    pi < apps@.len(),
                    p1.no_duplicates(),
                    !p0.contains(node@),
                    views(stuck@).contains(node@),
                    last_index(apps@, node@) == Some(pi as int),
                    cycle_dfs(apps@, views(stuck@), node@, p0) == cycle_dfs_deps(
                        apps@,
                        views(stuck@),
                        pi as int,
                        j as int,
                        p1,
                    ),
                    deps == apps@[pi as int].depends_on,
                    last_with_id(apps@, pi as int, node@),
                    j <= deps@.len(),
                    views(path@) == p1,
                    path@ == old(path)@.push(*node),
                    is_walk(apps@, p1),
                    s == views(stuck@).to_set(),
                    s.contains(node@),
                    forall|k: int| 0 <= k < p1.len() ==> s.contains(#[trigger] p1[k]),
                    count_not_in(views(stuck@), p1) < count_not_in(views(stuck@), p0),
                    p0 == views(old(path)@),
                    closed_under_parents(apps@, s) ==> forall|j2: int|
                        0 <= j2 < j ==> !s.contains(#[trigger] dep_at(apps@, pi as int, j2)),
                decreases deps@.len() - j,
            {
                assert(parent_edge(apps@, p1.last(), deps@[j as int]@)) by {
                    assert(dep_at(apps@, pi as int, j as int) == deps@[j as int]@);
                }
                let r = cycle_search(apps, &deps[j], stuck, path);
                assert(dep_at(apps@, pi as int, j as int) == deps@[j as int]@);
                if r.is_some() {
                    return r;
                }
                proof {
                    if closed_under_parents(apps@, s) && s.contains(deps@[j as int]@) {
                        assert(views(stuck@).contains(deps@[j as int]@));
                    }
                }
                j = j + 1;
            }
            proof {
                assert(s.contains(node@));
                if closed_under_parents(apps@, s) {
                    let d = choose|d: Seq<char>| parent_edge(apps@, node@, d) && s.contains(d);
                    let (i2, j2) = choose|i2: int, j2: int|
                        last_with_id(apps@, i2, node@) && 0 <= j2 < apps@[i2].depends_on@.len()
                            && #[trigger] dep_at(apps@, i2, j2) == d;
                    if i2 < pi {
                        assert(apps@[pi as int].id@ != node@);
                    } else if i2 > pi {
                        assert(apps@[i2].id@ != node@);
                    }
                    assert(!s.contains(dep_at(apps@, pi as int, j2)));
                }
            }
        },
        None => {
            proof {
                lemma_last_index_none(apps@, node@);
                assert(s.contains(node@));
                if closed_under_parents(apps@, s) {
                    let d = choose|d: Seq<char>| parent_edge(apps@, node@, d) && s.contains(d);
                    let (i2, j2) = choose|i2: int, j2: int|
                        last_with_id(apps@, i2, node@) && 0 <= j2 < apps@[i2].depends_on@.len()
                            && #[trigger] dep_at(apps@, i2, j2) == d;
                    assert(apps@[i2].id@ == node@);
                }
            }
        },
    }
    path.pop();
    assert(path@ =~= old(path)@);
    None
}

/// Walks dependency edges from the stuck ids, smallest first, until a node
/// repeats; the repeat closes the reported cycle, listed in walk order with
/// the repeating id appended. If no walk closes, the stuck ids come back as
/// given.
pub fn find_cycle(apps: &[AppEntry], stuck: &[String]) -> (r: Vec<String>)
    ensures
        is_cycle_walk(apps@, views(r@), views(stuck@).to_set()) || r@ == stuck@,
        is_cycle_walk(apps@, views(r@), views(stuck@).to_set()) && r@.len() == 2 ==> parent_edge(
            apps@,
            r@[0]@,
            r@[0]@,
        ),
        stuck@.len() > 0 && closed_under_parents(apps@, views(stuck@).to_set()) ==> is_cycle_walk(
            apps@,
            views(r@),
            views(stuck@).to_set(),
        ),
        forall|ss: Seq<Seq<char>>|
            strictly_sorted(ss) && ss.to_set() == views(stuck@).to_set() ==> match first_cycle_from(apps@, ss, ss) {
                Some(c) => views(r@) == c && c.drop_last().no_duplicates(),
                None => r@ == stuck@,
            },
{
    let mut sorted: Vec<String> = Vec::new();
    let mut i: usize = 0;
    while i < stuck.len()
        invariant
            i <= stuck@.len(),
            strictly_sorted(views(sorted@)),
            views(sorted@).to_set() == views(stuck@.take(i as int)).to_set(),
        decreases stuck@.len() - i,
    {
        insert_sorted(&mut sorted, stuck[i].clone());
        assert(views(stuck@.take(i + 1)).to_set() =~= views(stuck@.take(i as int)).to_set().insert(stuck@[i as int]@)) by {
            assert(views(stuck@.take(i + 1)) =~= views(stuck@.take(i as int)).push(stuck@[i as int]@));
            views(stuck@.take(i as int)).lemma_push_to_set_commute(stuck@[i as int]@);
        }
        i = i + 1;
    }
    assert(stuck@.take(stuck@.len() as int) =~= stuck@);
    let ghost s = views(stuck@).to_set();
    assert(views(sorted@).skip(0) =~= views(sorted@));
    let mut k: usize = 0;
    while k < sorted.len()
        invariant
            k <= sorted@.len(),
            s == views(sorted@).to_set(),
            s == views(stuck@).to_set(),
            closed_under_parents(apps@, s) ==> k == 0,
            strictly_sorted(views(sorted@)),
            first_cycle_from(apps@, views(sorted@), views(sorted@)) == first_cycle_from(
                apps@,
                views(sorted@),
                views(sorted@).skip(k as int),
            ),
        decreases sorted@.len() - k,
    {
        let mut path: Vec<String> = Vec::new();
        assert(views(path@) =~= Seq::<Seq<char>>::empty());
        proof {
            let t = views(sorted@).skip(k as int);
            assert(t[0] == sorted@[k as int]@);
            assert(t.drop_first() =~= views(sorted@).skip(k + 1));
        }
        assert(views(sorted@).contains(sorted@[k as int]@)) by {
            assert(views(sorted@)[k as int] == sorted@[k as int]@);
        }
        match cycle_search(apps, &sorted[k], &sorted, &mut path) {
            Some(c) => {
                proof {
                    assert forall|ss: Seq<Seq<char>>|
                        strictly_sorted(ss) && ss.to_set() == views(stuck@).to_set() implies ss == views(sorted@) by {
                        lemma_sorted_listing_unique(ss, views(sorted@));
                    }
                }
                return c;
            },
            None => {},
        }
        k = k + 1;
    }
    proof {
        if stuck@.len() > 0 && closed_under_parents(apps@, s) {
            assert(s.contains(stuck@[0]@)) by {
                assert(views(stuck@)[0] == stuck@[0]@);
            }
            assert(views(sorted@).contains(stuck@[0]@));
        }
    }
    proof {
        assert(views(sorted@).skip(sorted@.len() as int) =~= Seq::<Seq<char>>::empty());
        assert forall|ss: Seq<Seq<char>>|
            strictly_sorted(ss) && ss.to_set() == views(stuck@).to_set() implies ss == views(sorted@) by {
            lemma_sorted_listing_unique(ss, views(sorted@));
        }
    }
    let mut out: Vec<String> = Vec::new();
    let mut m: usize = 0;
    while m < stuck.len()
        invariant
            m <= stuck@.len(),
            out@ == stuck@.take(m as int),
        decreases stuck@.len() - m,
    {
        out.push(stuck[m].clone());
        assert(stuck@.take(m + 1) =~= stuck@.take(m as int).push(stuck@[m as int]));
        m = m + 1;
    }
    out
}

fn distinct_ids(apps: &[AppEntry]) -> (r: bool)
    ensures
        r == ids_distinct(apps@),
{
    let mut i: usize = 0;
    while i < apps.len()
        invariant
            i <= apps.len(),
            forall|a: int, b: int| 0 <= a < b < apps@.len() && a < i ==> apps@[a].id@ != apps@[b].id@,
        decreases apps.len() - i,
    {
        let mut j: usize = i + 1;
        while j < apps.len()
            invariant
                i < apps.len(),
                i + 1 <= j <= apps.len(),
                forall|a: int, b: int| 0 <= a < b < apps@.len() && a < i ==> apps@[a].id@ != apps@[b].id@,
                forall|b: int| i < b < j ==> apps@[i as int].id@ != (#[trigger] apps@[b]).id@,
            decreases apps.len() - j,
        {
            if str_eq(apps[i].id.as_str(), apps[j].id.as_str()) {
                return false;
            }
            j = j + 1;
        }
        i = i + 1;
    }
    true
}

fn all_ids_in(apps: &[AppEntry], s: &Vec<String>) -> (r: bool)
    ensures
        r == all_within(apps@, views(s@).to_set()),
{
    let mut i: usize = 0;
    while i < apps.len()
        invariant
            i <= apps.len(),
            forall|k: int| 0 <= k < i ==> views(s@).to_set().contains(#[trigger] apps@[k].id@),
        decreases apps.len() - i,
    {
        if !contains_str(s, apps[i].id.as_str()) {
            return false;
        }
        i = i + 1;
    }
    true
}

/// The ids outside `s`, sorted and without repeats.
fn ids_outside(apps: &[AppEntry], s: &Vec<String>) -> (r: Vec<String>)
    ensures
        strictly_sorted(views(r@)),
        views(r@).to_set() == Set::new(|x: Seq<char>| is_app_id(apps@, x) && !views(s@).to_set().contains(x)),
{
    let ghost ss = views(s@).to_set();
    let mut r: Vec<String> = Vec::new();
    let mut i: usize = 0;
    while i < apps.len()
        invariant
            i <= apps.len(),
            ss == views(s@).to_set(),
            strictly_sorted(views(r@)),
            views(r@).to_set() == Set::new(|x: Seq<char>| id_in_prefix(apps@, i as int, x) && !ss.contains(x)),
        decreases apps.len() - i,
    {
        let x = &apps[i].id;
        if !contains_str(s, x.as_str()) {
            insert_sorted(&mut r, x.clone());
        }
        assert(views(r@).to_set() =~= Set::new(|y: Seq<char>| id_in_prefix(apps@, i + 1, y) && !ss.contains(y))) by {
            assert forall|y: Seq<char>| #[trigger] id_in_prefix(apps@, i + 1, y) implies
                id_in_prefix(apps@, i as int, y) || y == x@ by {
                let k = choose|k: int| 0 <= k < i + 1 && (#[trigger] apps@[k]).id@ == y;
                if k < i {
                    assert(apps@[k].id@ == y);
                }
            }
            assert(apps@[i as int].id@ == x@);
            assert(id_in_prefix(apps@, i + 1, x@));
        }
        i = i + 1;
    }
    assert forall|y: Seq<char>| #[trigger] is_app_id(apps@, y) implies id_in_prefix(apps@, apps.len() as int, y) by {
        let k = choose|k: int| 0 <= k < apps@.len() && (#[trigger] apps@[k]).id@ == y;
        assert(apps@[k].id@ == y);
    }
    assert(views(r@).to_set() =~= Set::new(|x: Seq<char>| is_app_id(apps@, x) && !ss.contains(x)));
    r
}

/// With distinct ids, every stuck id has a dependency that is stuck too.
proof fn lemma_stuck_closed(apps: Seq<AppEntry>, n: nat)
    requires
        no_bad_dep(apps),
        ids_distinct(apps),
        level_set(apps, n) == Set::<Seq<char>>::empty(),
    ensures
        closed_under_parents(apps, stuck_set(apps, n)),
{
    let st = stuck_set(apps, n);
    let sn = settled(apps, n);
    assert forall|x: Seq<char>| #[trigger] st.contains(x) implies exists|d: Seq<char>|
        parent_edge(apps, x, d) && st.contains(d) by {
        assert(!frontier(apps, sn).contains(x));
        assert(!deps_within(apps, x, sn));
        let (i, j) = choose|i: int, j: int|
            0 <= i < apps.len() && apps[i].id@ == x && 0 <= j < apps[i].depends_on@.len()
                && !sn.contains(#[trigger] dep_at(apps, i, j));
        assert(last_with_id(apps, i, x));
        let d = dep_at(apps, i, j);
        assert(!is_bad_dep(apps, i, j));
        assert(parent_edge(apps, x, d));
        assert(st.contains(d));
    }
}

pub open spec fn level_views(levels: Seq<Vec<String>>) -> Seq<Seq<Seq<char>>> {
    levels.map_values(|l: Vec<String>| views(l@))
}

proof fn lemma_concat_to_set(a: Seq<Seq<char>>, b: Seq<Seq<char>>)
    ensures
        (a + b).to_set() == a.to_set().union(b.to_set()),
{
    let ab = a + b;
    assert forall|y: Seq<char>| ab.contains(y) implies a.contains(y) || b.contains(y) by {
        let k = choose|k: int| 0 <= k < ab.len() && ab[k] == y;
        if k < a.len() {
            assert(a[k] == y);
        } else {
            assert(b[k - a.len()] == y);
        }
    }
    assert forall|y: Seq<char>| a.contains(y) || b.contains(y) implies ab.contains(y) by {
        if a.contains(y) {
            let k = choose|k: int| 0 <= k < a.len() && a[k] == y;
            assert(ab[k] == y);
        } else {
            let k = choose|k: int| 0 <= k < b.len() && b[k] == y;
            assert(ab[a.len() + k] == y);
        }
    }
    assert(ab.to_set() =~= a.to_set().union(b.to_set()));
}

proof fn lemma_layering_count(apps: Seq<AppEntry>, lv: Seq<Seq<Seq<char>>>)
    requires
        is_layering(apps, lv),
    ensures
        level_count_is(apps, lv.len()),
{
    assert forall|k: nat| k < lv.len() implies #[trigger] level_set(apps, k) != Set::<Seq<char>>::empty() by {
        let lk = lv[k as int];
        assert(lk.to_set().contains(lk[0]));
    }
}

/// Builds the levels one after another until one comes out empty; also
/// returns every id placed.
fn build_levels(apps: &[AppEntry]) -> (res: (Vec<Vec<String>>, Vec<String>))
    ensures
        is_layering(apps@, level_views(res.0@)),
        views(res.1@).to_set() == settled(apps@, res.0@.len() as nat),
{
    let mut done: Vec<String> = Vec::new();
    let mut levels: Vec<Vec<String>> = Vec::new();
    assert(views(done@).to_set() =~= settled(apps@, 0));
    loop
        invariant
            views(done@).to_set() == settled(apps@, levels@.len() as nat),
            forall|k: int|
                0 <= k < levels@.len() ==> {
                    &&& strictly_sorted(#[trigger] level_views(levels@)[k])
                    &&& level_views(levels@)[k].len() > 0
                    &&& level_views(levels@)[k].to_set() == level_set(apps@, k as nat)
                },
        ensures
            views(done@).to_set() == settled(apps@, levels@.len() as nat),
            is_layering(apps@, level_views(levels@)),
        decreases outside_count(apps@, views(done@).to_set()),
    {
        let level = next_level(apps, &done);
        let ghost n = levels@.len() as nat;
        if level.len() == 0 {
            assert(level_set(apps@, n) =~= Set::<Seq<char>>::empty()) by {
                assert(views(level@).to_set() =~= Set::<Seq<char>>::empty());
            }
            break;
        }
        let ghost before = views(done@);
        let mut add = clone_strings(&level);
        done.append(&mut add);
        proof {
            assert(views(done@) =~= before + views(level@));
            lemma_concat_to_set(before, views(level@));
            assert(settled(apps@, n + 1) == settled(apps@, n).union(level_set(apps@, n)));
            let x = views(level@)[0];
            assert(views(level@).to_set().contains(x));
            let w = choose|w: int| 0 <= w < apps@.len() && (#[trigger] apps@[w]).id@ == x;
            lemma_outside_count_shrinks(apps@, before.to_set(), views(done@).to_set(), w);
        }
        let ghost lv_old = levels@;
        levels.push(level);
        proof {
            assert forall|k: int| 0 <= k < levels@.len() implies {
                &&& strictly_sorted(#[trigger] level_views(levels@)[k])
                &&& level_views(levels@)[k].len() > 0
                &&& level_views(levels@)[k].to_set() == level_set(apps@, k as nat)
            } by {
                if k < lv_old.len() {
                    assert(level_views(levels@)[k] == level_views(lv_old)[k]);
                } else {
                    assert(level_views(levels@)[k] == views(level@));
                }
            }
        }
    }
    (levels, done)
}

/// The cycle report is a walk through the stuck ids, of at least three
/// entries, whenever ids are distinct.
proof fn lemma_cycle_report(apps: Seq<AppEntry>, n: nat, stuck: Seq<String>, c: Seq<String>)
    requires
        no_bad_dep(apps),
        level_count_is(apps, n),
        !(ids_distinct(apps) && all_within(apps, settled(apps, n))),
        strictly_sorted(views(stuck)),
        views(stuck).to_set() == stuck_set(apps, n),
        is_cycle_walk(apps, views(c), views(stuck).to_set()) || c == stuck,
        is_cycle_walk(apps, views(c), views(stuck).to_set()) && c.len() == 2 ==> parent_edge(apps, c[0]@, c[0]@),
        stuck.len() > 0 && closed_under_parents(apps, views(stuck).to_set()) ==> is_cycle_walk(
            apps,
            views(c),
            views(stuck).to_set(),
        ),
    ensures
        is_cycle_report(apps, views(c), stuck_set(apps, n)),
        ids_distinct(apps) ==> is_cycle_walk(apps, views(c), stuck_set(apps, n)) && c.len() >= 3,
{
    if ids_distinct(apps) {
        lemma_stuck_closed(apps, n);
        let i = choose|i: int| 0 <= i < apps.len() && !settled(apps, n).contains(#[trigger] apps[i].id@);
        assert(stuck_set(apps, n).contains(apps[i].id@));
        assert(views(stuck).to_set().contains(apps[i].id@));
        if c.len() == 2 {
            let x = c[0]@;
            let (i2, j2) = choose|i2: int, j2: int|
                last_with_id(apps, i2, x) && 0 <= j2 < apps[i2].depends_on@.len() && #[trigger] dep_at(
                    apps,
                    i2,
                    j2,
                ) == x;
            assert(is_bad_dep(apps, i2, j2));
        }
    }
}

/// Kahn-style topological layering. Level 0 holds the ids with no
/// dependencies; each later level holds the ids whose dependencies all lie in
/// earlier levels. Ids within a level are sorted.
///
/// Errors: the first dependency (apps in order, each app's list in order) that
/// names its own app or an unknown id; otherwise, when some id never reaches a
/// level (or an id is used twice), the cycle found among the stuck ids.
#[verifier::spinoff_prover]
pub fn topo_levels(apps: &[AppEntry]) -> (r: Result<Vec<Vec<String>>, GraphError>)
    ensures
        forall|i: int, j: int| first_bad_dep(apps@, i, j) ==> r == Err::<Vec<Vec<String>>, GraphError>(
            bad_dep_error(apps@, i, j),
        ),
        no_bad_dep(apps@) ==> r is Ok || r matches Err(GraphError::Cycle(_)),
        r matches Ok(levels) ==> {
            &&& no_bad_dep(apps@)
            &&& is_layering(apps@, level_views(levels@))
            &&& ids_distinct(apps@)
            &&& all_within(apps@, settled(apps@, levels@.len() as nat))
        },
        r matches Err(GraphError::Cycle(c)) ==> {
            &&& no_bad_dep(apps@)
            &&& exists|n: nat|
                {
                    &&& #[trigger] level_count_is(apps@, n)
                    &&& !(ids_distinct(apps@) && all_within(apps@, settled(apps@, n)))
                    &&& is_cycle_report(apps@, views(c@), stuck_set(apps@, n))
                    &&& ids_distinct(apps@) ==> is_cycle_walk(apps@, views(c@), stuck_set(apps@, n)) && c@.len() >= 3
                    &&& forall|ss: Seq<Seq<char>>|
                        strictly_sorted(ss) && ss.to_set() == stuck_set(apps@, n) ==> match first_cycle_from(
                            apps@,
                            ss,
                            ss,
                        ) {
                            Some(cc) => views(c@) == cc && cc.drop_last().no_duplicates(),
                            None => views(c@) == ss,
                        }
                }
        },
{
    match validate_deps(apps) {
        Err(e) => {
            return Err(e);
        },
        Ok(()) => {},
    }
    let (levels, done) = build_levels(apps);
    let ghost n = levels@.len() as nat;
    proof {
        lemma_layering_count(apps@, level_views(levels@));
    }
    if distinct_ids(apps) && all_ids_in(apps, &done) {
        return Ok(levels);
    }
    let stuck = ids_outside(apps, &done);
    assert(views(stuck@).to_set() =~= stuck_set(apps@, n));
    let c = find_cycle(apps, stuck.as_slice());
    proof {
        lemma_cycle_report(apps@, n, stuck@, c@);
        assert forall|ss: Seq<Seq<char>>| strictly_sorted(ss) && ss.to_set() == stuck_set(apps@, n) implies ss
            == views(stuck@) by {
            lemma_sorted_listing_unique(ss, views(stuck@));
        }
    }
    Err(GraphError::Cycle(c))
}

// ---------------------------------------------------------------------------
// Laws of the layering.

proof fn lemma_settled_is_union(apps: Seq<AppEntry>, k: nat, x: Seq<char>)
    ensures
        settled(apps, k).contains(x) <==> exists|k2: nat| k2 < k && #[trigger] level_set(apps, k2).contains(x),
    decreases k,
{
    if k > 0 {
        lemma_settled_is_union(apps, (k - 1) as nat, x);
        if settled(apps, k).contains(x) && !settled(apps, (k - 1) as nat).contains(x) {
            assert(level_set(apps, (k - 1) as nat).contains(x));
        }
        if exists|k2: nat| k2 < k && #[trigger] level_set(apps, k2).contains(x) {
            let k2 = choose|k2: nat| k2 < k && #[trigger] level_set(apps, k2).contains(x);
            if k2 < k - 1 {
                assert(settled(apps, (k - 1) as nat).contains(x));
            }
        }
    }
}

/// Every dependency of an app lies in a level strictly before the app's own:
/// starting the levels in order, each app starts after all it depends on.
pub proof fn lemma_dependencies_come_first(
    apps: Seq<AppEntry>,
    levels: Seq<Seq<Seq<char>>>,
    k: int,
    i: int,
    j: int,
)
    requires
        is_layering(apps, levels),
        0 <= k < levels.len(),
        0 <= i < apps.len(),
        0 <= j < apps[i].depends_on@.len(),
        levels[k].contains(apps[i].id@),
    ensures
        exists|k2: int| 0 <= k2 < k && #[trigger] levels[k2].contains(dep_at(apps, i, j)),
{
    let x = apps[i].id@;
    assert(levels[k].to_set().contains(x));
    assert(level_set(apps, k as nat).contains(x));
    let d = dep_at(apps, i, j);
    assert(settled(apps, k as nat).contains(d));
    lemma_settled_is_union(apps, k as nat, d);
    let k2 = choose|k2: nat| k2 < k && #[trigger] level_set(apps, k2).contains(d);
    assert(levels[k2 as int].to_set().contains(d));
}

/// No id sits in two levels.
pub proof fn lemma_levels_disjoint(apps: Seq<AppEntry>, levels: Seq<Seq<Seq<char>>>, k1: int, k2: int, x: Seq<char>)
    requires
        is_layering(apps, levels),
        0 <= k1 < levels.len(),
        0 <= k2 < levels.len(),
        levels[k1].contains(x),
        levels[k2].contains(x),
    ensures
        k1 == k2,
{
    assert(levels[k1].to_set().contains(x));
    assert(levels[k2].to_set().contains(x));
    if k1 < k2 {
        lemma_settled_mono(apps, (k1 + 1) as nat, k2 as nat);
        assert(settled(apps, (k1 + 1) as nat).contains(x));
    } else if k2 < k1 {
        lemma_settled_mono(apps, (k2 + 1) as nat, k1 as nat);
        assert(settled(apps, (k2 + 1) as nat).contains(x));
    }
}

/// When every id is placed, each app's id appears in some level.
pub proof fn lemma_every_app_placed(apps: Seq<AppEntry>, levels: Seq<Seq<Seq<char>>>, i: int)
    requires
        is_layering(apps, levels),
        all_within(apps, settled(apps, levels.len())),
        0 <= i < apps.len(),
    ensures
        exists|k: int| 0 <= k < levels.len() && #[trigger] levels[k].contains(apps[i].id@),
{
    let x = apps[i].id@;
    assert(settled(apps, levels.len()).contains(x));
    lemma_settled_is_union(apps, levels.len(), x);
    let k = choose|k: nat| k < levels.len() && #[trigger] level_set(apps, k).contains(x);
    assert(levels[k as int].to_set().contains(x));
}

/// The layering depends on each app's dependencies only as a set: listing a
/// dependency twice, or in another order, changes nothing.
pub proof fn lemma_layering_ignores_dep_order(apps: Seq<AppEntry>, other: Seq<AppEntry>, k: nat)
    requires
        apps.len() == other.len(),
        forall|i: int| 0 <= i < apps.len() ==> (#[trigger] apps[i]).id@ == other[i].id@,
        forall|i: int|
            0 <= i < apps.len() ==> views((#[trigger] apps[i]).depends_on@).to_set() == views(
                other[i].depends_on@,
            ).to_set(),
    ensures
        settled(apps, k) == settled(other, k),
        level_set(apps, k) == level_set(other, k),
    decreases k,
{
    if k > 0 {
        lemma_layering_ignores_dep_order(apps, other, (k - 1) as nat);
    }
    let s = settled(apps, k);
    assert(settled(apps, k) == settled(other, k)) by {
        if k > 0 {
            lemma_same_frontier(apps, other, settled(apps, (k - 1) as nat));
        }
    }
    lemma_same_frontier(apps, other, s);
}

proof fn lemma_same_frontier(apps: Seq<AppEntry>, other: Seq<AppEntry>, s: Set<Seq<char>>)
    requires
        apps.len() == other.len(),
        forall|i: int| 0 <= i < apps.len() ==> (#[trigger] apps[i]).id@ == other[i].id@,
        forall|i: int|
            0 <= i < apps.len() ==> views((#[trigger] apps[i]).depends_on@).to_set() == views(
                other[i].depends_on@,
            ).to_set(),
    ensures
        frontier(apps, s) == frontier(other, s),
{
    assert forall|x: Seq<char>| is_app_id(apps, x) <==> is_app_id(other, x) by {
        if is_app_id(apps, x) {
            let i = choose|i: int| 0 <= i < apps.len() && (#[trigger] apps[i]).id@ == x;
            assert(other[i].id@ == x);
        }
        if is_app_id(other, x) {
            let i = choose|i: int| 0 <= i < other.len() && (#[trigger] other[i]).id@ == x;
            assert(apps[i].id@ == x);
        }
    }
    assert forall|x: Seq<char>| deps_within(apps, x, s) <==> deps_within(other, x, s) by {
        if deps_within(apps, x, s) {
            assert forall|i: int, j: int|
                0 <= i < other.len() && other[i].id@ == x && 0 <= j < other[i].depends_on@.len()
                    implies s.contains(#[trigger] dep_at(other, i, j)) by {
                assert(views(other[i].depends_on@)[j] == dep_at(other, i, j));
                assert(views(apps[i].depends_on@).to_set().contains(dep_at(other, i, j)));
                let j2 = choose|j2: int| 0 <= j2 < views(apps[i].depends_on@).len() && views(apps[i].depends_on@)[j2] == dep_at(other, i, j);
                assert(dep_at(apps, i, j2) == dep_at(other, i, j));
            }
        }
        if deps_within(other, x, s) {
            assert forall|i: int, j: int|
                0 <= i < apps.len() && apps[i].id@ == x && 0 <= j < apps[i].depends_on@.len()
                    implies s.contains(#[trigger] dep_at(apps, i, j)) by {
                assert(views(apps[i].depends_on@)[j] == dep_at(apps, i, j));
                assert(views(other[i].depends_on@).to_set().contains(dep_at(apps, i, j)));
                let j2 = choose|j2: int| 0 <= j2 < views(other[i].depends_on@).len() && views(other[i].depends_on@)[j2] == dep_at(apps, i, j);
                assert(dep_at(other, i, j2) == dep_at(apps, i, j));
            }
        }
    }
    assert(frontier(apps, s) =~= frontier(other, s));
}

} // verus!
