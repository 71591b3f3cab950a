//! The app list: the entries a user registers, the on-disk document that holds
//! them, and the edits made to that list (add, delete, reorder).
use vstd::prelude::*;
use vstd::string::*;

use crate::text::{decimal, decimal_chars, str_eq, views};

verus! {

/// Schema version of the config document.
pub const CONFIG_VERSION: u32 = 1;

/// One registered service.
#[derive(Debug, Clone, PartialEq, Eq)]
pub struct AppEntry {
    pub id: String,
    pub name: String,
    pub directory: String,
    pub command: String,
    pub tag: String,
    /// Optional port the service listens on; swept on stop/start.
    pub port: Option<u16>,
    /// Optional readiness probe.
    pub ready: Option<ReadyProbe>,
    /// Ids of the apps that must be ready before this one starts.
    pub depends_on: Vec<String>,
}

/// What it means for an app to be "ready" beyond having its PTY alive.
#[derive(Debug, Clone, PartialEq, Eq)]
pub enum ReadyProbe {
    Tcp { port: u16 },
    Http { url: String, expect_status: Option<u16> },
    LogRegex { pattern: String },
}

/// The whole config document.
#[derive(Debug, Clone, PartialEq, Eq)]
pub struct ConfigFile {
    pub version: u32,
    pub apps: Vec<AppEntry>,
}

impl Default for ConfigFile {
    fn default() -> (c: Self)
        ensures
            c.version == CONFIG_VERSION,
            c.apps@ == Seq::<AppEntry>::empty(),
    {
        ConfigFile { version: CONFIG_VERSION, apps: Vec::new() }
    }
}

/// Why an edit of the app list, or a loaded document, is refused.
#[derive(Debug, Clone, PartialEq, Eq)]
pub enum ConfigError {
    DuplicateAppId(String),
    ReorderLengthMismatch { have: usize, got: usize },
    ReorderDuplicateId(String),
    ReorderIdNotFound(String),
    UnsupportedVersion { version: u32, path: String },
}

/// The text shown for an error.
pub open spec fn config_error_text(e: ConfigError) -> Seq<char> {
    match e {
        ConfigError::DuplicateAppId(id) => "duplicate app id: "@ + id@,
        ConfigError::ReorderLengthMismatch { have, got } => "reorder length mismatch: have "@
            + decimal_chars(have as nat) + " apps, got "@ + decimal_chars(got as nat) + " ids"@,
        ConfigError::ReorderDuplicateId(id) => "duplicate id in reorder list: "@ + id@,
        ConfigError::ReorderIdNotFound(id) => "reorder id not found in apps: "@ + id@,
        ConfigError::UnsupportedVersion { version, path } => "unsupported config version "@
            + decimal_chars(version as nat) + " at "@ + path@ + " (expected "@ + decimal_chars(
            CONFIG_VERSION as nat,
        ) + "); refusing to load to avoid data loss"@,
    }
}

impl ConfigError {
    /// The error's text.
    pub fn message(&self) -> (s: String)
        ensures
            s@ == config_error_text(*self),
    {
        let mut s = String::new();
        match self {
            ConfigError::DuplicateAppId(id) => {
                s.append("duplicate app id: ");
                s.append(id.as_str());
            },
            ConfigError::ReorderLengthMismatch { have, got } => {
                s.append("reorder length mismatch: have ");
                s.append(decimal(*have as u64).as_str());
                s.append(" apps, got ");
                s.append(decimal(*got as u64).as_str());
                s.append(" ids");
            },
            ConfigError::ReorderDuplicateId(id) => {
                s.append("duplicate id in reorder list: ");
                s.append(id.as_str());
            },
            ConfigError::ReorderIdNotFound(id) => {
                s.append("reorder id not found in apps: ");
                s.append(id.as_str());
            },
            ConfigError::UnsupportedVersion { version, path } => {
                s.append("unsupported config version ");
                s.append(decimal(*version as u64).as_str());
                s.append(" at ");
                s.append(path.as_str());
                s.append(" (expected ");
                s.append(decimal(CONFIG_VERSION as u64).as_str());
                s.append("); refusing to load to avoid data loss");
            },
        }
        s
    }
}

/// `x` is the id of some app.
pub open spec fn is_app_id(apps: Seq<AppEntry>, x: Seq<char>) -> bool {
    exists|i: int| 0 <= i < apps.len() && (#[trigger] apps[i]).id@ == x
}

/// `i` is the last app whose id is `x`.
pub open spec fn last_with_id(apps: Seq<AppEntry>, i: int, x: Seq<char>) -> bool {
    &&& 0 <= i < apps.len()
    &&& apps[i].id@ == x
    &&& forall|k: int| i < k < apps.len() ==> (#[trigger] apps[k]).id@ != x
}

/// `i` is the first app whose id is `x`.
pub open spec fn first_with_id(apps: Seq<AppEntry>, i: int, x: Seq<char>) -> bool {
    &&& 0 <= i < apps.len()
    &&& apps[i].id@ == x
    &&& forall|k: int| 0 <= k < i ==> (#[trigger] apps[k]).id@ != x
}

/// The text of the error for an id that names no app.
pub open spec fn app_not_found_text(id: Seq<char>) -> Seq<char> {
    "app not found: "@ + id
}

/// The first app with id `id`, taken out of the list.
pub fn find_app(apps: Vec<AppEntry>, id: &str) -> (r: Result<AppEntry, String>)
    ensures
        forall|i: int| first_with_id(apps@, i, id@) ==> r == Ok::<AppEntry, String>(apps@[i]),
        r is Err <==> !is_app_id(apps@, id@),
        r matches Err(e) ==> e@ == app_not_found_text(id@),
{
    let mut list = apps;
    let ghost orig = apps@;
    let mut i: usize = 0;
    while i < list.len()
        invariant
            list@ == orig,
            orig == apps@,
            i <= list@.len(),
            forall|k: int| 0 <= k < i ==> (#[trigger] orig[k]).id@ != id@,
        decreases list@.len() - i,
    {
        if str_eq(list[i].id.as_str(), id) {
            assert(first_with_id(orig, i as int, id@));
            assert forall|j: int| first_with_id(orig, j, id@) implies j == i by {
                if j > i {
                    assert(orig[i as int].id@ == id@);
                }
            }
            let e = list.remove(i);
            return Ok(e);
        }
        i = i + 1;
    }
    let mut msg = String::new();
    msg.append("app not found: ");
    msg.append(id);
    Err(msg)
}

/// The apps whose id is not `id`, in order.
pub open spec fn without_id(apps: Seq<AppEntry>, id: Seq<char>) -> Seq<AppEntry> {
    apps.filter(|a: AppEntry| a.id@ != id)
}

fn has_id(apps: &Vec<AppEntry>, x: &str) -> (r: bool)
    ensures
        r == is_app_id(apps@, x@),
{
    let mut i: usize = 0;
    while i < apps.len()
        invariant
            i <= apps.len(),
            forall|k: int| 0 <= k < i ==> apps@[k].id@ != x@,
        decreases apps.len() - i,
    {
        if str_eq(apps[i].id.as_str(), x) {
            assert(apps@[i as int].id@ == x@);
            return true;
        }
        i = i + 1;
    }
    false
}

/// The apps of a loaded document, if it has the version this code writes;
/// another version is refused rather than risk losing data on the next save.
pub fn validate_loaded(cfg: ConfigFile, path: &str) -> (r: Result<Vec<AppEntry>, ConfigError>)
    ensures
        cfg.version == CONFIG_VERSION ==> r == Ok::<Vec<AppEntry>, ConfigError>(cfg.apps),
        cfg.version != CONFIG_VERSION ==> (r matches Err(ConfigError::UnsupportedVersion { version, path: p })
            && version == cfg.version && p@ == path@),
{
    if cfg.version != CONFIG_VERSION {
        return Err(ConfigError::UnsupportedVersion { version: cfg.version, path: path.to_owned() });
    }
    Ok(cfg.apps)
}

/// Appends `entry`, refusing an id that is already taken.
pub fn add(apps: Vec<AppEntry>, entry: AppEntry) -> (r: Result<Vec<AppEntry>, ConfigError>)
    ensures
        is_app_id(apps@, entry.id@) ==> r == Err::<Vec<AppEntry>, ConfigError>(
            ConfigError::DuplicateAppId(entry.id),
        ),
        !is_app_id(apps@, entry.id@) ==> (r matches Ok(v) && v@ == apps@.push(entry)),
{
    if has_id(&apps, entry.id.as_str()) {
        return Err(ConfigError::DuplicateAppId(entry.id));
    }
    let mut apps = apps;
    apps.push(entry);
    Ok(apps)
}

proof fn lemma_without_id_push(s: Seq<AppEntry>, x: AppEntry, id: Seq<char>)
    ensures
        without_id(s.push(x), id) == if x.id@ != id {
            without_id(s, id).push(x)
        } else {
            without_id(s, id)
        },
{
    reveal_with_fuel(Seq::filter, 1);
    assert(s.push(x).drop_last() =~= s);
    assert(s.push(x).last() == x);
}

/// Removes every entry whose id is `id`; an unknown id changes nothing.
pub fn delete(apps: Vec<AppEntry>, id: &str) -> (r: Vec<AppEntry>)
    ensures
        r@ == without_id(apps@, id@),
{
    let ghost orig = apps@;
    let mut apps = apps;
    let mut i: usize = 0;
    let ghost mut k: int = 0;
    while i < apps.len()
        invariant
            0 <= k <= orig.len(),
            i <= apps@.len(),
            apps@.len() == i + (orig.len() - k),
            apps@.subrange(0, i as int) == without_id(orig.take(k), id@),
            apps@.subrange(i as int, apps@.len() as int) == orig.subrange(k, orig.len() as int),
        decreases apps@.len() - i,
    {
        assert(apps@[i as int] == orig[k]) by {
            assert(apps@.subrange(i as int, apps@.len() as int)[0] == orig.subrange(k, orig.len() as int)[0]);
        }
        assert(orig.take(k + 1) =~= orig.take(k).push(orig[k]));
        let ghost prev = apps@;
        let ghost tail = prev.subrange(i as int, prev.len() as int);
        assert(prev.subrange(i + 1, prev.len() as int) =~= tail.subrange(1, tail.len() as int));
        assert(orig.subrange(k + 1, orig.len() as int) =~= orig.subrange(k, orig.len() as int).subrange(
            1,
            orig.len() - k,
        ));
        if str_eq(apps[i].id.as_str(), id) {
            apps.remove(i);
            assert(apps@ =~= prev.subrange(0, i as int) + prev.subrange(i + 1, prev.len() as int));
            assert(apps@.subrange(0, i as int) =~= prev.subrange(0, i as int));
            proof { lemma_without_id_push(orig.take(k), orig[k], id@); }
            assert(apps@.subrange(i as int, apps@.len() as int) =~= orig.subrange(k + 1, orig.len() as int));
        } else {
            assert(apps@.subrange(0, i + 1) =~= prev.subrange(0, i as int).push(orig[k]));
            proof { lemma_without_id_push(orig.take(k), orig[k], id@); }
            assert(apps@.subrange(i + 1, apps@.len() as int) =~= orig.subrange(k + 1, orig.len() as int));
            i = i + 1;
        }
        proof {
            k = k + 1;
        }
    }
    assert(apps@ =~= apps@.subrange(0, i as int));
    assert(orig.take(k) =~= orig);
    apps
}

/// The ids of the apps, in order.
pub open spec fn app_ids(apps: Seq<AppEntry>) -> Seq<Seq<char>> {
    apps.map_values(|a: AppEntry| a.id@)
}

/// Entry `i` of `ids` repeats an earlier entry, and none before it does.
pub open spec fn first_repeat(ids: Seq<Seq<char>>, i: int) -> bool {
    &&& 0 <= i < ids.len()
    &&& ids.take(i).contains(ids[i])
    &&& forall|k: int| 0 <= k < i ==> !(#[trigger] ids.take(k)).contains(ids[k])
}

/// Entry `i` of `ordered` names no app, and every entry before it does.
pub open spec fn first_unknown(apps: Seq<AppEntry>, ordered: Seq<Seq<char>>, i: int) -> bool {
    &&& 0 <= i < ordered.len()
    &&& !is_app_id(apps, ordered[i])
    &&& forall|k: int| 0 <= k < i ==> is_app_id(apps, #[trigger] ordered[k])
}

/// `ordered` lists every app exactly once: same length, no repeats, only
/// known ids.
pub open spec fn reorder_accepts(apps: Seq<AppEntry>, ordered: Seq<Seq<char>>) -> bool {
    &&& apps.len() == ordered.len()
    &&& ordered.no_duplicates()
    &&& forall|k: int| 0 <= k < ordered.len() ==> is_app_id(apps, #[trigger] ordered[k])
}

pub(crate) proof fn lemma_no_repeat_prefix(ids: Seq<Seq<char>>, n: int)
    requires
        0 <= n <= ids.len(),
        forall|k: int| 0 <= k < n ==> !(#[trigger] ids.take(k)).contains(ids[k]),
    ensures
        ids.take(n).no_duplicates(),
    decreases n,
{
    if n > 0 {
        lemma_no_repeat_prefix(ids, n - 1);
        let t = ids.take(n);
        assert forall|a: int, b: int| 0 <= a < t.len() && 0 <= b < t.len() && a != b implies t[a] != t[b] by {
            if a == n - 1 || b == n - 1 {
                let (lo, hi) = if a < b { (a, b) } else { (b, a) };
                assert(ids.take(n - 1)[lo] == ids[lo]);
                assert(!ids.take(n - 1).contains(ids[n - 1]));
            } else {
                assert(ids.take(n - 1)[a] == t[a]);
                assert(ids.take(n - 1)[b] == t[b]);
            }
        }
    }
}

/// Puts the apps in the order `ordered_ids` gives. Refused, in this order of
/// checks: a length that differs from the app count; the first id listed
/// twice; the first id that names no app.
pub fn reorder(apps: Vec<AppEntry>, ordered_ids: &[String]) -> (r: Result<Vec<AppEntry>, ConfigError>)
    ensures
        apps@.len() != ordered_ids@.len() ==> r == Err::<Vec<AppEntry>, ConfigError>(
            ConfigError::ReorderLengthMismatch { have: apps@.len() as usize, got: ordered_ids@.len() as usize },
        ),
        forall|i: int|
            apps@.len() == ordered_ids@.len() && first_repeat(views(ordered_ids@), i) ==> r == Err::<
                Vec<AppEntry>,
                ConfigError,
            >(ConfigError::ReorderDuplicateId(ordered_ids@[i])),
        forall|i: int|
            apps@.len() == ordered_ids@.len() && views(ordered_ids@).no_duplicates() && first_unknown(
                apps@,
                views(ordered_ids@),
                i,
            ) ==> r == Err::<Vec<AppEntry>, ConfigError>(ConfigError::ReorderIdNotFound(ordered_ids@[i])),
        r is Ok <==> reorder_accepts(apps@, views(ordered_ids@)),
        r matches Ok(out) ==> out@.len() == ordered_ids@.len() && forall|k: int, j: int|
            0 <= k < out@.len() && last_with_id(apps@, j, ordered_ids@[k]@) ==> out@[k] == apps@[j],
{
    let ghost ov = views(ordered_ids@);
    if apps.len() != ordered_ids.len() {
        return Err(ConfigError::ReorderLengthMismatch { have: apps.len(), got: ordered_ids.len() });
    }
    let n = ordered_ids.len();
    let mut seen: Vec<String> = Vec::new();
    let mut i: usize = 0;
    while i < n
        invariant
            n == ordered_ids@.len(),
            n == apps@.len(),
            ov == views(ordered_ids@),
            i <= n,
            views(seen@) == ov.take(i as int),
            forall|k: int| 0 <= k < i ==> !(#[trigger] ov.take(k)).contains(ov[k]),
        decreases n - i,
    {
        if crate::graph::contains_str(&seen, ordered_ids[i].as_str()) {
            assert(first_repeat(ov, i as int));
            assert forall|i2: int| first_repeat(ov, i2) implies i2 == i by {
                if i2 < i {
                } else if i2 > i {
                    assert(!ov.take(i as int).contains(ov[i as int]));
                }
            }
            return Err(ConfigError::ReorderDuplicateId(ordered_ids[i].clone()));
        }
        let item = ordered_ids[i].clone();
        assert(item@ == ov[i as int]);
        let ghost seen_old = views(seen@);
        seen.push(item);
        assert(views(seen@) =~= seen_old.push(item@));
        assert(views(seen@) =~= ov.take(i + 1));
        i = i + 1;
    }
    proof {
        assert(ov.take(n as int) =~= ov);
        lemma_no_repeat_prefix(ov, n as int);
        assert forall|i2: int| !first_repeat(ov, i2) by {
            if first_repeat(ov, i2) {
                let k = choose|k: int| 0 <= k < ov.take(i2).len() && ov.take(i2)[k] == ov[i2];
                assert(ov[k] == ov[i2]);
            }
        }
    }
    let mut m: usize = 0;
    while m < n
        invariant
            n == ordered_ids@.len(),
            n == apps@.len(),
            ov == views(ordered_ids@),
            ov.no_duplicates(),
            m <= n,
            forall|k: int| 0 <= k < m ==> is_app_id(apps@, #[trigger] ov[k]),
        decreases n - m,
    {
        assert(ov[m as int] == ordered_ids@[m as int]@);
        if !has_id(&apps, ordered_ids[m].as_str()) {
            assert(first_unknown(apps@, ov, m as int));
            assert forall|i2: int| first_unknown(apps@, ov, i2) implies i2 == m by {
                if i2 > m {
                    assert(is_app_id(apps@, ov[m as int]));
                }
            }
            return Err(ConfigError::ReorderIdNotFound(ordered_ids[m].clone()));
        }
        m = m + 1;
    }
    let ghost orig = apps@;
    // Move the entries into slots that can be emptied one at a time.
    let mut apps = apps;
    let mut slots: Vec<Option<AppEntry>> = Vec::new();
    while apps.len() > 0
        invariant
            apps@.len() <= orig.len(),
            apps@ == orig.take(apps@.len() as int),
            slots@.len() == orig.len() - apps@.len(),
            forall|j: int| 0 <= j < slots@.len() ==> slots@[j] == Some(orig[apps@.len() + j]),
        decreases apps@.len(),
    {
        let a = apps.pop().unwrap();
        slots.insert(0, Some(a));
        assert(apps@ =~= orig.take(apps@.len() as int));
    }
    let mut out: Vec<AppEntry> = Vec::new();
    let mut k: usize = 0;
    while k < n
        invariant
            n == ordered_ids@.len(),
            n == orig.len(),
            ov == views(ordered_ids@),
            ov.no_duplicates(),
            forall|q: int| 0 <= q < n ==> is_app_id(orig, #[trigger] ov[q]),
            k <= n,
            slots@.len() == orig.len(),
            out@.len() == k,
            forall|q: int, j: int| 0 <= q < k && last_with_id(orig, j, ov[q]) ==> out@[q] == orig[j],
            forall|j: int|
                0 <= j < orig.len() ==> (slots@[j] == Some(orig[j])) || (slots@[j] is None && exists|q: int|
                    0 <= q < k && last_with_id(orig, j, #[trigger] ov[q])),
        decreases n - k,
    {
        let ghost x = ov[k as int];
        let mut j: usize = 0;
        let mut found: usize = 0;
        let mut any = false;
        while j < slots.len()
            invariant
                k < n,
                n == ordered_ids@.len(),
                n == orig.len(),
                ov == views(ordered_ids@),
                ov.no_duplicates(),
                x == ov[k as int],
                j <= slots@.len(),
                slots@.len() == orig.len(),
                x == ordered_ids@[k as int]@,
                forall|j2: int|
                    0 <= j2 < orig.len() ==> (slots@[j2] == Some(orig[j2])) || (slots@[j2] is None && exists|q: int|
                        0 <= q < k && last_with_id(orig, j2, #[trigger] ov[q])),
                any ==> found < j && orig[found as int].id@ == x && forall|q: int| found < q < j ==> (#[trigger] orig[q]).id@ != x,
                !any ==> forall|q: int| 0 <= q < j ==> (#[trigger] orig[q]).id@ != x,
            decreases slots@.len() - j,
        {
            let matches = match &slots[j] {
                Some(e) => str_eq(e.id.as_str(), ordered_ids[k].as_str()),
                None => false,
            };
            proof {
                if slots@[j as int] == Some(orig[j as int]) {
                    assert(!matches ==> orig[j as int].id@ != x);
                } else {
                    // an emptied slot belongs to an earlier id, which differs from `x`
                    let q = choose|q: int| 0 <= q < k && last_with_id(orig, j as int, #[trigger] ov[q]);
                    assert(ov[q] != ov[k as int]);
                    assert(orig[j as int].id@ != x);
                }
            }
            let ghost any_before = any;
            let ghost found_before = found;
            if matches {
                found = j;
                any = true;
            }
            proof {
                if any_before && !matches {
                    assert forall|q: int| found < q < j + 1 implies (#[trigger] orig[q]).id@ != x by {
                        if q < j {
                            assert(found_before < q < j);
                        }
                    }
                }
                if !any {
                    assert forall|q: int| 0 <= q < j + 1 implies (#[trigger] orig[q]).id@ != x by {
                        if q < j {
                        }
                    }
                }
            }
            j = j + 1;
        }
        assert(is_app_id(orig, x));
        proof {
            if !any {
                let w = choose|w: int| 0 <= w < orig.len() && (#[trigger] orig[w]).id@ == x;
                assert(orig[w].id@ != x);
            }
        }
        assert(last_with_id(orig, found as int, x));
        let taken = slots.remove(found);
        slots.insert(found, None);
        proof {
            if slots@[found as int] != Some(orig[found as int]) {
            }
            assert(taken == Some(orig[found as int])) by {
                if taken != Some(orig[found as int]) {
                    let q = choose|q: int| 0 <= q < k && last_with_id(orig, found as int, #[trigger] ov[q]);
                    assert(ov[q] != ov[k as int]);
                }
            }
        }
        let e = taken.unwrap();
        let ghost out_old = out@;
        out.push(e);
        proof {
            assert forall|q: int, j2: int| 0 <= q < k + 1 && last_with_id(orig, j2, ov[q]) implies out@[q] == orig[j2] by {
                if q == k {
                    assert(j2 == found as int) by {
                        if j2 < found {
                            assert(orig[found as int].id@ == x);
                        } else if j2 > found {
                            assert(orig[j2].id@ != x);
                        }
                    }
                } else {
                    assert(out@[q] == out_old[q]);
                }
            }
            assert forall|j2: int| 0 <= j2 < orig.len() implies (slots@[j2] == Some(orig[j2])) || (slots@[j2] is None && exists|q: int|
                0 <= q < k + 1 && last_with_id(orig, j2, #[trigger] ov[q])) by {
                if j2 == found {
                    assert(last_with_id(orig, j2, ov[k as int]));
                }
            }
        }
        k = k + 1;
    }
    assert forall|q: int, j: int|
        0 <= q < out@.len() && last_with_id(orig, j, ordered_ids@[q]@) implies out@[q] == orig[j] by {
        assert(ov[q] == ordered_ids@[q]@);
    }
    Ok(out)
}

/// Some listed id picks app `i`: it is the last app with that id.
pub open spec fn picked_by(apps: Seq<AppEntry>, ordered: Seq<Seq<char>>, i: int) -> bool {
    exists|k: int| 0 <= k < ordered.len() && #[trigger] last_with_id(apps, i, ordered[k])
}

/// When `ordered` lists every app exactly once, the apps' ids are distinct and
/// each app is the one a listed id picks: a successful reorder keeps every
/// entry and drops none.
pub proof fn lemma_reorder_keeps_every_entry(apps: Seq<AppEntry>, ordered: Seq<Seq<char>>)
    requires
        reorder_accepts(apps, ordered),
    ensures
        app_ids(apps).no_duplicates(),
        forall|i: int| 0 <= i < apps.len() ==> #[trigger] picked_by(apps, ordered, i),
{
    let ids = app_ids(apps);
    let a = ordered.to_set();
    let b = ids.to_set();
    vstd::seq_lib::seq_to_set_is_finite(ordered);
    vstd::seq_lib::seq_to_set_is_finite(ids);
    ordered.unique_seq_to_set();
    ids.lemma_cardinality_of_set();
    assert(a.subset_of(b)) by {
        assert forall|x: Seq<char>| a.contains(x) implies b.contains(x) by {
            let k = choose|k: int| 0 <= k < ordered.len() && ordered[k] == x;
            assert(is_app_id(apps, ordered[k]));
            let i = choose|i: int| 0 <= i < apps.len() && (#[trigger] apps[i]).id@ == x;
            assert(ids[i] == x);
        }
    }
    vstd::set_lib::lemma_len_subset(a, b);
    assert(ids.len() == apps.len());
    assert(a.len() == ordered.len());
    assert(b.len() == ids.len());
    ids.lemma_no_dup_set_cardinality();
    vstd::set_lib::lemma_subset_equality(a, b);
    assert(a == b);
    assert forall|i: int| 0 <= i < apps.len() implies #[trigger] picked_by(apps, ordered, i) by {
        let x = apps[i].id@;
        assert(ids[i] == x);
        assert(b.contains(x));
        let k = choose|k: int| 0 <= k < ordered.len() && ordered[k] == x;
        assert forall|q: int| i < q < apps.len() implies (#[trigger] apps[q]).id@ != x by {
            assert(ids[q] == apps[q].id@);
        }
        assert(last_with_id(apps, i, ordered[k]));
    }
}

/// Deleting an id that names no app leaves the list as it was.
pub proof fn lemma_delete_unknown_is_noop(apps: Seq<AppEntry>, id: Seq<char>)
    requires
        !is_app_id(apps, id),
    ensures
        without_id(apps, id) == apps,
    decreases apps.len(),
{
    if apps.len() > 0 {
        let init = apps.drop_last();
        assert(!is_app_id(init, id)) by {
            if is_app_id(init, id) {
                let k = choose|k: int| 0 <= k < init.len() && (#[trigger] init[k]).id@ == id;
                assert(apps[k] == init[k]);
            }
        }
        lemma_delete_unknown_is_noop(init, id);
        assert(apps.last().id@ != id) by {
            assert(apps[apps.len() - 1] == apps.last());
        }
        lemma_without_id_push(init, apps.last(), id);
        assert(init.push(apps.last()) =~= apps);
    } else {
        assert(without_id(apps, id) =~= apps);
    }
}

/// Deleting the entry just added gives back the list it was added to.
pub proof fn lemma_delete_undoes_add(apps: Seq<AppEntry>, entry: AppEntry)
    requires
        !is_app_id(apps, entry.id@),
    ensures
        without_id(apps.push(entry), entry.id@) == apps,
{
    lemma_without_id_push(apps, entry, entry.id@);
    lemma_delete_unknown_is_noop(apps, entry.id@);
}

} // verus!
