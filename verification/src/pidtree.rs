//! The process tree of a running app: its root pid and every pid descended
//! from it, the set whose CPU and memory the stats sampler adds up.
use std::collections::{HashMap, HashSet};
use vstd::prelude::*;

verus! {

broadcast use vstd::std_specs::hash::group_hash_axioms;

/// `k` is listed as a child of `p`.
pub open spec fn child_edge(by_parent: Map<u32, Vec<u32>>, p: u32, k: u32) -> bool {
    by_parent.contains_key(p) && by_parent[p]@.contains(k)
}

/// `path` starts at `root` and steps from parent to child.
pub open spec fn is_descent(by_parent: Map<u32, Vec<u32>>, root: u32, path: Seq<u32>) -> bool {
    &&& path.len() >= 1
    &&& path[0] == root
    &&& forall|i: int| 0 <= i < path.len() - 1 ==> child_edge(by_parent, #[trigger] path[i], path[i + 1])
}

/// `x` is `root` or descends from it.
pub open spec fn descends(by_parent: Map<u32, Vec<u32>>, root: u32, x: u32) -> bool {
    exists|path: Seq<u32>| #[trigger] is_descent(by_parent, root, path) && path.last() == x
}

proof fn lemma_u32_set_len(s: Set<u32>)
    requires
        s.finite(),
    ensures
        s.len() <= 0x1_0000_0000,
{
    let f = |x: u32| x as int;
    let t = s.map(f);
    assert(vstd::relations::injective_on(f, s));
    vstd::set_lib::lemma_map_size(s, t, f);
    vstd::set_lib::lemma_int_range(0, 0x1_0000_0000);
    assert(t.subset_of(vstd::set_lib::set_int_range(0, 0x1_0000_0000)));
    vstd::set_lib::lemma_len_subset(t, vstd::set_lib::set_int_range(0, 0x1_0000_0000));
}

proof fn lemma_descent_extend(by_parent: Map<u32, Vec<u32>>, root: u32, path: Seq<u32>, k: u32)
    requires
        is_descent(by_parent, root, path),
        child_edge(by_parent, path.last(), k),
    ensures
        is_descent(by_parent, root, path.push(k)),
{
    let q = path.push(k);
    assert forall|i: int| 0 <= i < q.len() - 1 implies child_edge(by_parent, #[trigger] q[i], q[i + 1]) by {
        if i < path.len() - 1 {
            assert(q[i] == path[i]);
            assert(q[i + 1] == path[i + 1]);
        }
    }
}

/// A set holding `root` and closed under children holds every descendant.
proof fn lemma_closed_holds_descendants(by_parent: Map<u32, Vec<u32>>, root: u32, s: Set<u32>, path: Seq<u32>)
    requires
        s.contains(root),
        forall|p: u32, k: u32| s.contains(p) && #[trigger] child_edge(by_parent, p, k) ==> s.contains(k),
        is_descent(by_parent, root, path),
    ensures
        s.contains(path.last()),
    decreases path.len(),
{
    if path.len() > 1 {
        let prefix = path.drop_last();
        assert forall|i: int| 0 <= i < prefix.len() - 1 implies child_edge(by_parent, #[trigger] prefix[i], prefix[i + 1]) by {
            assert(prefix[i] == path[i]);
            assert(prefix[i + 1] == path[i + 1]);
        }
        lemma_closed_holds_descendants(by_parent, root, s, prefix);
        assert(child_edge(by_parent, path[path.len() - 2], path[path.len() - 1]));
    }
}

/// `root` and every pid reachable from it through `by_parent`. Safe on
/// cyclic input: each pid is visited once.
pub fn descendants_set(root: u32, by_parent: &HashMap<u32, Vec<u32>>) -> (out: HashSet<u32>)
    ensures
        forall|x: u32| #[trigger] out@.contains(x) <==> descends(by_parent@, root, x),
{
    let ghost m = by_parent@;
    let mut out: HashSet<u32> = HashSet::new();
    out.insert(root);
    let mut frontier: Vec<u32> = Vec::new();
    frontier.push(root);
    assert(is_descent(m, root, seq![root]));
    assert(seq![root].last() == root);
    loop
        invariant
            m == by_parent@,
            out@.finite(),
            out@.contains(root),
            forall|x: u32| #[trigger] out@.contains(x) ==> descends(m, root, x),
            forall|i: int| 0 <= i < frontier@.len() ==> out@.contains(#[trigger] frontier@[i]),
            forall|p: u32, k: u32|
                out@.contains(p) && #[trigger] child_edge(m, p, k) ==> frontier@.contains(p) || out@.contains(k),
        ensures
            out@.contains(root),
            forall|x: u32| #[trigger] out@.contains(x) ==> descends(m, root, x),
            forall|p: u32, k: u32| out@.contains(p) && #[trigger] child_edge(m, p, k) ==> out@.contains(k),
        decreases 0x1_0000_0000 - out@.len(), frontier@.len(),
    {
        proof {
            lemma_u32_set_len(out@);
        }
        let ghost fprev = frontier@;
        let p = match frontier.pop() {
            Some(p) => p,
            None => {
                assert forall|q: u32, k: u32| out@.contains(q) && #[trigger] child_edge(m, q, k) implies out@.contains(k) by {
                    if fprev.contains(q) {
                        let i = choose|i: int| 0 <= i < fprev.len() && fprev[i] == q;
                    }
                }
                break;
            },
        };
        let ghost n0 = out@.len();
        let ghost f0 = frontier@;
        proof {
            assert(f0 =~= fprev.drop_last());
            assert(p == fprev.last());
            assert forall|q: u32, k: u32| out@.contains(q) && #[trigger] child_edge(m, q, k) && q != p implies f0.contains(q)
                || out@.contains(k) by {
                if fprev.contains(q) && !out@.contains(k) {
                    let i = choose|i: int| 0 <= i < fprev.len() && fprev[i] == q;
                    if i == fprev.len() - 1 {
                        assert(q == p);
                    } else {
                        assert(f0[i] == q);
                    }
                }
            }
            assert forall|i: int| 0 <= i < f0.len() implies out@.contains(#[trigger] f0[i]) by {
                assert(f0[i] == fprev[i]);
            }
            assert(out@.contains(p)) by {
                assert(fprev[fprev.len() - 1] == p);
            }
        }
        match by_parent.get(&p) {
            Some(kids) => {
                let mut j: usize = 0;
                while j < kids.len()
                    invariant
                        m == by_parent@,
                        m.contains_key(p),
                        m[p] == *kids,
                        out@.finite(),
                        out@.contains(root),
                        out@.contains(p),
                        out@.len() >= n0,
                        out@.len() == n0 ==> frontier@ == f0,
                        j <= kids@.len(),
                        forall|x: u32| #[trigger] out@.contains(x) ==> descends(m, root, x),
                        forall|i: int| 0 <= i < frontier@.len() ==> out@.contains(#[trigger] frontier@[i]),
                        forall|q: u32, k: u32|
                            out@.contains(q) && #[trigger] child_edge(m, q, k) && q != p ==> frontier@.contains(q)
                                || out@.contains(k),
                        forall|i: int| 0 <= i < j ==> out@.contains(#[trigger] kids@[i]),
                    decreases kids@.len() - j,
                {
                    let k = kids[j];
                    let ghost before = out@;
                    let ghost fb = frontier@;
                    if out.insert(k) {
                        proof {
                            let path = choose|path: Seq<u32>| #[trigger] is_descent(m, root, path) && path.last() == p;
                            assert(child_edge(m, p, k)) by {
                                assert(kids@[j as int] == k);
                            }
                            lemma_descent_extend(m, root, path, k);
                            assert(path.push(k).last() == k);
                        }
                        frontier.push(k);
                        proof {
                            assert forall|q: u32, k2: u32|
                                out@.contains(q) && #[trigger] child_edge(m, q, k2) && q != p implies frontier@.contains(q)
                                    || out@.contains(k2) by {
                                if before.contains(q) && !before.contains(k2) {
                                    let i = choose|i: int| 0 <= i < fb.len() && fb[i] == q;
                                    assert(frontier@[i] == q);
                                } else if !before.contains(q) {
                                    assert(frontier@[frontier@.len() - 1] == q);
                                }
                            }
                        }
                    }
                    j = j + 1;
                }
            },
            None => {},
        }
        proof {
            assert forall|q: u32, k: u32| out@.contains(q) && #[trigger] child_edge(m, q, k) implies frontier@.contains(q)
                || out@.contains(k) by {
                if q == p {
                    let i = choose|i: int| 0 <= i < m[p]@.len() && m[p]@[i] == k;
                    assert(out@.contains(m[p]@[i]));
                }
            }
            lemma_u32_set_len(out@);
            assert(out@.len() >= n0);
            if out@.len() == n0 {
                assert(frontier@.len() == fprev.len() - 1);
            }
        }
    }
    proof {
        assert forall|x: u32| descends(m, root, x) implies #[trigger] out@.contains(x) by {
            let path = choose|path: Seq<u32>| #[trigger] is_descent(m, root, path) && path.last() == x;
            lemma_closed_holds_descendants(m, root, out@, path);
        }
    }
    out
}

/// The pids whose parent is `p`, in the order listed.
pub open spec fn children_listed(procs: Seq<(u32, Option<u32>)>, p: u32) -> Seq<u32>
    decreases procs.len(),
{
    if procs.len() == 0 {
        Seq::empty()
    } else {
        let rest = children_listed(procs.drop_last(), p);
        if procs.last().1 == Some(p) {
            rest.push(procs.last().0)
        } else {
            rest
        }
    }
}

/// The parent-to-children index of a process listing, given as pairs of a
/// pid and its parent (if any): a parent maps to its children in the order
/// listed; a pid with no children is not a key.
pub fn children_index(procs: &Vec<(u32, Option<u32>)>) -> (out: HashMap<u32, Vec<u32>>)
    ensures
        forall|p: u32| #[trigger] out@.contains_key(p) <==> children_listed(procs@, p).len() > 0,
        forall|p: u32| #[trigger] out@.contains_key(p) ==> out@[p]@ == children_listed(procs@, p),
{
    let mut out: HashMap<u32, Vec<u32>> = HashMap::new();
    let mut i: usize = 0;
    while i < procs.len()
        invariant
            i <= procs@.len(),
            forall|p: u32| #[trigger] out@.contains_key(p) <==> children_listed(procs@.take(i as int), p).len() > 0,
            forall|p: u32| #[trigger] out@.contains_key(p) ==> out@[p]@ == children_listed(procs@.take(i as int), p),
        decreases procs@.len() - i,
    {
        let (pid, parent) = procs[i];
        let ghost before = out@;
        proof {
            let t = procs@.take(i + 1);
            assert(t.drop_last() =~= procs@.take(i as int));
            assert(t.last() == procs@[i as int]);
        }
        match parent {
            Some(par) => {
                let kids = match out.remove(&par) {
                    Some(mut v) => {
                        v.push(pid);
                        v
                    },
                    None => {
                        let mut v: Vec<u32> = Vec::new();
                        v.push(pid);
                        proof {
                            assert(children_listed(procs@.take(i as int), par).len() == 0);
                            assert(children_listed(procs@.take(i as int), par) =~= Seq::<u32>::empty());
                        }
                        v
                    },
                };
                out.insert(par, kids);
                proof {
                    assert forall|p: u32| #[trigger] out@.contains_key(p) <==> children_listed(
                        procs@.take(i + 1),
                        p,
                    ).len() > 0 by {
                        if p != par {
                            assert(out@.contains_key(p) == before.contains_key(p));
                        }
                    }
                    assert forall|p: u32| #[trigger] out@.contains_key(p) implies out@[p]@ == children_listed(
                        procs@.take(i + 1),
                        p,
                    ) by {
                        if p != par {
                            assert(out@[p] == before[p]);
                        }
                    }
                }
            },
            None => {},
        }
        i = i + 1;
    }
    assert(procs@.take(procs@.len() as int) =~= procs@);
    out
}

/// The sum of a sequence of byte counts.
pub open spec fn sum_of(v: Seq<u64>) -> int
    decreases v.len(),
{
    if v.len() == 0 {
        0
    } else {
        sum_of(v.drop_last()) + v.last()
    }
}

/// The resident memory of a process tree: the sum of its processes' byte
/// counts, held at `u64::MAX` should it ever not fit.
pub fn tree_memory(per_process: &Vec<u64>) -> (r: u64)
    ensures
        r == if sum_of(per_process@) <= u64::MAX {
            sum_of(per_process@)
        } else {
            u64::MAX as int
        },
{
    let mut total: u64 = 0;
    let mut saturated = false;
    let mut i: usize = 0;
    while i < per_process.len()
        invariant
            i <= per_process@.len(),
            !saturated ==> total == sum_of(per_process@.take(i as int)),
            saturated ==> total == u64::MAX && sum_of(per_process@.take(i as int)) > u64::MAX,
        decreases per_process@.len() - i,
    {
        proof {
            let t = per_process@.take(i + 1);
            assert(t.drop_last() =~= per_process@.take(i as int));
        }
        let x = per_process[i];
        if !saturated {
            if total > u64::MAX - x {
                total = u64::MAX;
                saturated = true;
            } else {
                total = total + x;
            }
        }
        i = i + 1;
    }
    assert(per_process@.take(per_process@.len() as int) =~= per_process@);
    total
}

/// The walk that lists a process tree when children can only be learned one
/// parent at a time (by asking the system for the children of a pid). Each
/// listed pid is asked about once, the most recently listed first.
pub struct ChildWalk {
    all: Vec<u32>,
    frontier: Vec<u32>,
}

impl ChildWalk {
    /// Every pid listed so far, in the order listed.
    pub closed spec fn listed(&self) -> Seq<u32> {
        self.all@
    }

    /// The pids still to ask about; the last one is asked next.
    pub closed spec fn to_ask(&self) -> Seq<u32> {
        self.frontier@
    }

    pub fn new(root: u32) -> (w: Self)
        ensures
            w.listed() == seq![root],
            w.to_ask() == seq![root],
    {
        let mut all: Vec<u32> = Vec::new();
        all.push(root);
        let mut frontier: Vec<u32> = Vec::new();
        frontier.push(root);
        ChildWalk { all, frontier }
    }

    /// The next pid to ask about, if any is left.
    pub fn next_query(&mut self) -> (r: Option<u32>)
        ensures
            final(self).listed() == old(self).listed(),
            old(self).to_ask().len() == 0 ==> r is None && final(self).to_ask() == old(self).to_ask(),
            old(self).to_ask().len() > 0 ==> r == Some(old(self).to_ask().last()) && final(self).to_ask()
                == old(self).to_ask().drop_last(),
    {
        self.frontier.pop()
    }

    /// The children reported for the pid last asked about: each is listed and
    /// will be asked about in turn.
    pub fn add_children(&mut self, kids: &Vec<u32>)
        ensures
            final(self).listed() == old(self).listed() + kids@,
            final(self).to_ask() == old(self).to_ask() + kids@,
    {
        let mut i: usize = 0;
        while i < kids.len()
            invariant
                i <= kids@.len(),
                self.all@ == old(self).all@ + kids@.take(i as int),
                self.frontier@ == old(self).frontier@ + kids@.take(i as int),
            decreases kids@.len() - i,
        {
            self.all.push(kids[i]);
            self.frontier.push(kids[i]);
            assert(kids@.take(i + 1) =~= kids@.take(i as int).push(kids@[i as int]));
            i = i + 1;
        }
        assert(kids@.take(kids@.len() as int) =~= kids@);
    }

    /// The pids listed, root first.
    pub fn finish(self) -> (r: Vec<u32>)
        ensures
            r@ == self.listed(),
    {
        self.all
    }
}

} // verus!
