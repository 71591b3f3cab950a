//! The decisions of a "start everything" run. The levels of the dependency
//! graph are walked in order; an app starts only once every app it depends on
//! has reported ready, and is skipped otherwise. Starting processes and
//! waiting for readiness happen outside; each outcome is fed back here.
use vstd::prelude::*;
use vstd::string::*;

use crate::config::AppEntry;
use crate::graph::contains_str;
use crate::process::StatusSnapshot;
use crate::text::{str_eq, views};

verus! {

/// How long a level of a start-everything run waits for readiness before its
/// pending apps count as not ready, in milliseconds.
pub const LEVEL_READY_TIMEOUT_MS: u64 = 90000;

/// What a start-everything run did.
#[derive(Debug, Clone, PartialEq, Eq)]
pub struct StartAllResult {
    pub started: Vec<String>,
    pub failed: Vec<(String, String)>,
    /// Apps not started because a declared parent never reached ready; the
    /// reason names that parent.
    pub skipped: Vec<(String, String)>,
}

/// What to do with one app of the current level.
#[derive(Debug, Clone, Copy, PartialEq, Eq, Structural)]
pub enum Decision {
    /// A parent is not ready: do not start it.
    Skip,
    /// Already running and ready: nothing to do.
    AlreadyReady,
    /// Already running, readiness pending: wait for it, do not restart.
    AwaitRunning,
    /// Start it, then wait for its readiness.
    Start,
}

/// The reason given for a skipped app.
pub open spec fn skip_reason(parent: Seq<char>) -> Seq<char> {
    "parent "@ + parent + " not ready"@
}

pub open spec fn pair_views(v: Seq<(String, String)>) -> Seq<(Seq<char>, Seq<char>)> {
    v.map_values(|p: (String, String)| (p.0@, p.1@))
}

/// Dependency `j` of `entry` is the first one outside `ready`.
pub open spec fn first_unready(entry: AppEntry, ready: Set<Seq<char>>, j: int) -> bool {
    &&& 0 <= j < entry.depends_on@.len()
    &&& !ready.contains(entry.depends_on@[j]@)
    &&& forall|k: int| 0 <= k < j ==> ready.contains(#[trigger] entry.depends_on@[k]@)
}

pub open spec fn all_ready(entry: AppEntry, ready: Set<Seq<char>>) -> bool {
    forall|k: int| 0 <= k < entry.depends_on@.len() ==> ready.contains(#[trigger] entry.depends_on@[k]@)
}

/// The state of a start-everything run.
pub struct StartAllRun {
    ready: Vec<String>,
    pending: Vec<String>,
    started: Vec<String>,
    failed: Vec<(String, String)>,
    skipped: Vec<(String, String)>,
}

fn remove_str(v: &mut Vec<String>, x: &str) -> (found: bool)
    requires
        views(old(v)@).no_duplicates(),
    ensures
        found == views(old(v)@).contains(x@),
        views(final(v)@).no_duplicates(),
        views(final(v)@).to_set() == views(old(v)@).to_set().remove(x@),
{
    let ghost ov = views(v@);
    let mut i: usize = 0;
    while i < v.len()
        invariant
            i <= v@.len(),
            v@ == old(v)@,
            ov == views(v@),
            ov.no_duplicates(),
            forall|k: int| 0 <= k < i ==> ov[k] != x@,
        decreases v@.len() - i,
    {
        if str_eq(v[i].as_str(), x) {
            v.remove(i);
            let ghost nv = views(v@);
            assert(nv =~= ov.remove(i as int));
            assert(ov[i as int] == x@);
            assert forall|a: int, b: int| 0 <= a < nv.len() && 0 <= b < nv.len() && a != b implies nv[a] != nv[b] by {
                let a0 = if a < i { a } else { a + 1 };
                let b0 = if b < i { b } else { b + 1 };
                assert(nv[a] == ov[a0]);
                assert(nv[b] == ov[b0]);
            }
            assert(nv.to_set() =~= ov.to_set().remove(x@)) by {
                assert forall|y: Seq<char>| nv.contains(y) implies ov.contains(y) && y != x@ by {
                    let k = choose|k: int| 0 <= k < nv.len() && nv[k] == y;
                    if k < i {
                        assert(ov[k] == y);
                        assert(ov[k] != ov[i as int]);
                    } else {
                        assert(ov[k + 1] == y);
                        assert(ov[k + 1] != ov[i as int]);
                    }
                }
                assert forall|y: Seq<char>| ov.contains(y) && y != x@ implies nv.contains(y) by {
                    let k = choose|k: int| 0 <= k < ov.len() && ov[k] == y;
                    if k < i {
                        assert(nv[k] == y);
                    } else {
                        assert(nv[k - 1] == y);
                    }
                }
            }
            assert(ov.contains(x@)) by {
                assert(ov[i as int] == x@);
            }
            return true;
        }
        i = i + 1;
    }
    assert(views(v@).to_set() =~= views(old(v)@).to_set().remove(x@));
    false
}

fn insert_str(v: &mut Vec<String>, x: &str)
    requires
        views(old(v)@).no_duplicates(),
    ensures
        views(final(v)@).no_duplicates(),
        views(final(v)@).to_set() == views(old(v)@).to_set().insert(x@),
{
    if contains_str(v, x) {
        assert(views(v@).to_set() =~= views(old(v)@).to_set().insert(x@));
        return;
    }
    let ghost ov = views(v@);
    v.push(x.to_owned());
    assert(views(v@) =~= ov.push(x@));
    proof {
        ov.lemma_push_to_set_commute(x@);
    }
}

impl StartAllRun {
    pub closed spec fn wf(&self) -> bool {
        &&& views(self.ready@).no_duplicates()
        &&& views(self.pending@).no_duplicates()
    }

    /// Ids known to be running and ready.
    pub closed spec fn ready_set(&self) -> Set<Seq<char>> {
        views(self.ready@).to_set()
    }

    /// Ids of the current level whose readiness is awaited.
    pub closed spec fn pending_set(&self) -> Set<Seq<char>> {
        views(self.pending@).to_set()
    }

    pub closed spec fn started_seq(&self) -> Seq<Seq<char>> {
        views(self.started@)
    }

    pub closed spec fn failed_seq(&self) -> Seq<(Seq<char>, Seq<char>)> {
        pair_views(self.failed@)
    }

    pub closed spec fn skipped_seq(&self) -> Seq<(Seq<char>, Seq<char>)> {
        pair_views(self.skipped@)
    }

    pub fn new() -> (r: Self)
        ensures
            r.wf(),
            r.ready_set() == Set::<Seq<char>>::empty(),
            r.pending_set() == Set::<Seq<char>>::empty(),
            r.started_seq() == Seq::<Seq<char>>::empty(),
            r.failed_seq() == Seq::<(Seq<char>, Seq<char>)>::empty(),
            r.skipped_seq() == Seq::<(Seq<char>, Seq<char>)>::empty(),
    {
        let r = StartAllRun {
            ready: Vec::new(),
            pending: Vec::new(),
            started: Vec::new(),
            failed: Vec::new(),
            skipped: Vec::new(),
        };
        assert(views(r.ready@) =~= Seq::<Seq<char>>::empty());
        assert(views(r.ready@).to_set() =~= Set::<Seq<char>>::empty());
        assert(views(r.pending@).to_set() =~= Set::<Seq<char>>::empty());
        assert(r.started_seq() =~= Seq::<Seq<char>>::empty());
        assert(r.failed_seq() =~= Seq::<(Seq<char>, Seq<char>)>::empty());
        assert(r.skipped_seq() =~= Seq::<(Seq<char>, Seq<char>)>::empty());
        r
    }

    /// Before any start: an app already running and ready counts as ready,
    /// so a partial re-run does not skip its children.
    pub fn seed(&mut self, id: &str, status: &StatusSnapshot)
        requires
            old(self).wf(),
        ensures
            final(self).wf(),
            final(self).ready_set() == if status.running && status.ready {
                old(self).ready_set().insert(id@)
            } else {
                old(self).ready_set()
            },
            final(self).pending_set() == old(self).pending_set(),
            final(self).started_seq() == old(self).started_seq(),
            final(self).failed_seq() == old(self).failed_seq(),
            final(self).skipped_seq() == old(self).skipped_seq(),
    {
        if status.running && status.ready {
            insert_str(&mut self.ready, id);
        }
    }

    /// A new level begins: nothing is awaited yet.
    pub fn begin_level(&mut self)
        requires
            old(self).wf(),
        ensures
            final(self).wf(),
            final(self).pending_set() == Set::<Seq<char>>::empty(),
            final(self).ready_set() == old(self).ready_set(),
            final(self).started_seq() == old(self).started_seq(),
            final(self).failed_seq() == old(self).failed_seq(),
            final(self).skipped_seq() == old(self).skipped_seq(),
    {
        self.pending = Vec::new();
        assert(views(self.pending@) =~= Seq::<Seq<char>>::empty());
        assert(views(self.pending@).to_set() =~= Set::<Seq<char>>::empty());
    }

    /// Decides for one app of the current level, given its current status.
    /// A skip is recorded here; a start is recorded with `record_start`.
    pub fn decide(&mut self, entry: &AppEntry, status: &StatusSnapshot) -> (d: Decision)
        requires
            old(self).wf(),
        ensures
            final(self).wf(),
            final(self).started_seq() == old(self).started_seq(),
            final(self).failed_seq() == old(self).failed_seq(),
            forall|j: int| #[trigger] first_unready(*entry, old(self).ready_set(), j) ==> {
                &&& d == Decision::Skip
                &&& final(self).skipped_seq() == old(self).skipped_seq().push(
                    (entry.id@, skip_reason(entry.depends_on@[j]@)),
                )
                &&& final(self).ready_set() == old(self).ready_set()
                &&& final(self).pending_set() == old(self).pending_set()
            },
            all_ready(*entry, old(self).ready_set()) ==> {
                &&& final(self).skipped_seq() == old(self).skipped_seq()
                &&& (status.running && status.ready) ==> d == Decision::AlreadyReady
                    && final(self).ready_set() == old(self).ready_set().insert(entry.id@)
                    && final(self).pending_set() == old(self).pending_set()
                &&& (status.running && !status.ready) ==> d == Decision::AwaitRunning
                    && final(self).ready_set() == old(self).ready_set()
                    && final(self).pending_set() == old(self).pending_set().insert(entry.id@)
                &&& !status.running ==> d == Decision::Start
                    && final(self).ready_set() == old(self).ready_set()
                    && final(self).pending_set() == old(self).pending_set()
            },
            d == Decision::Start ==> all_ready(*entry, old(self).ready_set()),
    {
        let deps = &entry.depends_on;
        let mut j: usize = 0;
        while j < deps.len()
            invariant
                j <= deps@.len(),
                deps == entry.depends_on,
                self.ready == old(self).ready,
                self.pending == old(self).pending,
                self.started == old(self).started,
                self.failed == old(self).failed,
                self.skipped == old(self).skipped,
                old(self).wf(),
                forall|k: int| 0 <= k < j ==> views(self.ready@).to_set().contains(#[trigger] deps@[k]@),
            decreases deps@.len() - j,
        {
            if !contains_str(&self.ready, deps[j].as_str()) {
                assert(first_unready(*entry, old(self).ready_set(), j as int));
                assert forall|j2: int| #[trigger] first_unready(*entry, old(self).ready_set(), j2) implies j2 == j by {
                    if j2 < j {
                    } else if j2 > j {
                        assert(old(self).ready_set().contains(deps@[j as int]@));
                    }
                }
                let mut reason = String::new();
                reason.append("parent ");
                reason.append(deps[j].as_str());
                reason.append(" not ready");
                let ghost before = self.skipped@;
                self.skipped.push((entry.id.clone(), reason));
                assert(pair_views(self.skipped@) =~= pair_views(before).push(
                    (entry.id@, skip_reason(entry.depends_on@[j as int]@)),
                ));
                return Decision::Skip;
            }
            j = j + 1;
        }
        assert(all_ready(*entry, old(self).ready_set()));
        assert forall|j2: int| !#[trigger] first_unready(*entry, old(self).ready_set(), j2) by {}
        if status.running && status.ready {
            insert_str(&mut self.ready, entry.id.as_str());
            return Decision::AlreadyReady;
        }
        if status.running {
            insert_str(&mut self.pending, entry.id.as_str());
            return Decision::AwaitRunning;
        }
        Decision::Start
    }

    /// Records the outcome of starting `id`: a started app is awaited, a failed
    /// one is listed with its error.
    pub fn record_start(&mut self, id: &str, outcome: Result<(), String>)
        requires
            old(self).wf(),
        ensures
            final(self).wf(),
            final(self).ready_set() == old(self).ready_set(),
            final(self).skipped_seq() == old(self).skipped_seq(),
            outcome is Ok ==> final(self).started_seq() == old(self).started_seq().push(id@)
                && final(self).pending_set() == old(self).pending_set().insert(id@)
                && final(self).failed_seq() == old(self).failed_seq(),
            outcome matches Err(e) ==> final(self).failed_seq() == old(self).failed_seq().push((id@, e@))
                && final(self).started_seq() == old(self).started_seq()
                && final(self).pending_set() == old(self).pending_set(),
    {
        match outcome {
            Ok(()) => {
                let ghost before = views(self.started@);
                self.started.push(id.to_owned());
                assert(views(self.started@) =~= before.push(id@));
                insert_str(&mut self.pending, id);
            },
            Err(e) => {
                let ghost before = self.failed@;
                let ghost ev = e@;
                self.failed.push((id.to_owned(), e));
                assert(pair_views(self.failed@) =~= pair_views(before).push((id@, ev)));
            },
        }
    }

    /// A readiness resolution arrived. It counts for an awaited app of this
    /// level; the app becomes ready only when the probe succeeded.
    pub fn record_ready(&mut self, id: &str, ready: bool)
        requires
            old(self).wf(),
        ensures
            final(self).wf(),
            final(self).pending_set() == old(self).pending_set().remove(id@),
            final(self).ready_set() == if old(self).pending_set().contains(id@) && ready {
                old(self).ready_set().insert(id@)
            } else {
                old(self).ready_set()
            },
            final(self).started_seq() == old(self).started_seq(),
            final(self).failed_seq() == old(self).failed_seq(),
            final(self).skipped_seq() == old(self).skipped_seq(),
    {
        let was_pending = remove_str(&mut self.pending, id);
        if was_pending && ready {
            insert_str(&mut self.ready, id);
        }
    }

    /// Nothing of this level is awaited any more.
    pub fn level_settled(&self) -> (r: bool)
        ensures
            r == (self.pending_set() == Set::<Seq<char>>::empty()),
    {
        proof {
            if self.pending@.len() > 0 {
                assert(views(self.pending@).to_set().contains(self.pending@[0]@)) by {
                    assert(views(self.pending@)[0] == self.pending@[0]@);
                }
            } else {
                assert(views(self.pending@).to_set() =~= Set::<Seq<char>>::empty());
            }
        }
        self.pending.len() == 0
    }

    /// The run's outcome.
    pub fn finish(self) -> (r: StartAllResult)
        ensures
            views(r.started@) == self.started_seq(),
            pair_views(r.failed@) == self.failed_seq(),
            pair_views(r.skipped@) == self.skipped_seq(),
    {
        StartAllResult { started: self.started, failed: self.failed, skipped: self.skipped }
    }
}

} // verus!
