//! Checking a request to register a new app, field by field, in the order
//! the user sees the errors, and building the entry once every check passes.
use vstd::prelude::*;
use vstd::string::*;

use crate::config::{is_app_id, AppEntry, ReadyProbe};
use crate::graph::contains_str;
use crate::probe::{compile_pattern, regex_compile_error};
use crate::text::{str_eq, views};

verus! {

/// `c` has the Unicode `White_Space` property, as `char::is_whitespace` tests.
pub open spec fn is_white(c: char) -> bool {
    let u = c as int;
    (0x09 <= u <= 0x0D) || u == 0x20 || u == 0x85 || u == 0xA0 || u == 0x1680 || (0x2000 <= u <= 0x200A)
        || u == 0x2028 || u == 0x2029 || u == 0x202F || u == 0x205F || u == 0x3000
}

pub fn is_white_char(c: char) -> (r: bool)
    ensures
        r == is_white(c),
{
    let u = c as u32;
    (0x09 <= u && u <= 0x0D) || u == 0x20 || u == 0x85 || u == 0xA0 || u == 0x1680 || (0x2000 <= u && u
        <= 0x200A) || u == 0x2028 || u == 0x2029 || u == 0x202F || u == 0x205F || u == 0x3000
}

pub open spec fn trim_start(s: Seq<char>) -> Seq<char>
    decreases s.len(),
{
    if s.len() > 0 && is_white(s[0]) {
        trim_start(s.drop_first())
    } else {
        s
    }
}

pub open spec fn trim_end(s: Seq<char>) -> Seq<char>
    decreases s.len(),
{
    if s.len() > 0 && is_white(s.last()) {
        trim_end(s.drop_last())
    } else {
        s
    }
}

/// `s` without leading and trailing white space, as `str::trim` gives.
pub open spec fn trimmed(s: Seq<char>) -> Seq<char> {
    trim_end(trim_start(s))
}

/// `str::trim`.
pub fn trim(s: &str) -> (r: String)
    ensures
        r@ == trimmed(s@),
{
    let n = s.unicode_len();
    let mut i: usize = 0;
    assert(s@.skip(0) =~= s@);
    while i < n && is_white_char(s.get_char(i))
        invariant
            n == s@.len(),
            i <= n,
            trim_start(s@) == trim_start(s@.skip(i as int)),
        decreases n - i,
    {
        assert(s@.skip(i as int).drop_first() =~= s@.skip(i + 1));
        i = i + 1;
    }
    assert(trim_start(s@) == s@.skip(i as int)) by {
        if i < n {
            assert(s@.skip(i as int)[0] == s@[i as int]);
        } else {
            assert(s@.skip(i as int).len() == 0);
        }
    }
    let ghost t = s@.skip(i as int);
    let mut j: usize = n;
    assert(t.take((j - i) as int) =~= t);
    while j > i && is_white_char(s.get_char(j - 1))
        invariant
            n == s@.len(),
            i <= j <= n,
            t == s@.skip(i as int),
            trim_end(t) == trim_end(t.take((j - i) as int)),
        decreases j,
    {
        assert(t.take((j - i) as int).drop_last() =~= t.take((j - 1 - i) as int));
        assert(t.take((j - i) as int).last() == s@[j - 1]);
        j = j - 1;
    }
    assert(trim_end(t) == t.take((j - i) as int)) by {
        if j > i {
            assert(t.take((j - i) as int).last() == s@[j - 1]);
        } else {
            assert(t.take((j - i) as int).len() == 0);
        }
    }
    assert(t.take((j - i) as int) =~= s@.subrange(i as int, j as int));
    s.substring_char(i, j).to_owned()
}

/// Why a new app is refused.
#[derive(Debug, Clone, PartialEq, Eq)]
pub enum NewAppError {
    EmptyName,
    EmptyDirectory,
    EmptyCommand,
    MissingDirectory(String),
    PortOutOfRange,
    DuplicateDependency(String),
    UnknownDependency(String),
    ProbeTcpPortOutOfRange,
    ProbeHttpUrlEmpty,
    ProbeLogRegexEmpty,
    ProbeLogRegexInvalid(String),
    DuplicateName(String),
}

pub open spec fn new_app_error_text(e: NewAppError) -> Seq<char> {
    match e {
        NewAppError::EmptyName => "name must not be empty"@,
        NewAppError::EmptyDirectory => "directory must not be empty"@,
        NewAppError::EmptyCommand => "command must not be empty"@,
        NewAppError::MissingDirectory(d) => "directory does not exist: "@ + d@,
        NewAppError::PortOutOfRange => "port must be between 1 and 65535"@,
        NewAppError::DuplicateDependency(d) => "duplicate dependency id: "@ + d@,
        NewAppError::UnknownDependency(d) => "dependency id not found: "@ + d@,
        NewAppError::ProbeTcpPortOutOfRange => "ready.tcp.port must be between 1 and 65535"@,
        NewAppError::ProbeHttpUrlEmpty => "ready.http.url must not be empty"@,
        NewAppError::ProbeLogRegexEmpty => "ready.log_regex.pattern must not be empty"@,
        NewAppError::ProbeLogRegexInvalid(e) => "invalid log_regex pattern: "@ + e@,
        NewAppError::DuplicateName(n) => "an app named "@ + n@ + " already exists"@,
    }
}

impl NewAppError {
    /// The error's text.
    pub fn message(&self) -> (s: String)
        ensures
            s@ == new_app_error_text(*self),
    {
        let mut s = String::new();
        match self {
            NewAppError::EmptyName => s.append("name must not be empty"),
            NewAppError::EmptyDirectory => s.append("directory must not be empty"),
            NewAppError::EmptyCommand => s.append("command must not be empty"),
            NewAppError::MissingDirectory(d) => {
                s.append("directory does not exist: ");
                s.append(d.as_str());
            },
            NewAppError::PortOutOfRange => s.append("port must be between 1 and 65535"),
            NewAppError::DuplicateDependency(d) => {
                s.append("duplicate dependency id: ");
                s.append(d.as_str());
            },
            NewAppError::UnknownDependency(d) => {
                s.append("dependency id not found: ");
                s.append(d.as_str());
            },
            NewAppError::ProbeTcpPortOutOfRange => s.append("ready.tcp.port must be between 1 and 65535"),
            NewAppError::ProbeHttpUrlEmpty => s.append("ready.http.url must not be empty"),
            NewAppError::ProbeLogRegexEmpty => s.append("ready.log_regex.pattern must not be empty"),
            NewAppError::ProbeLogRegexInvalid(e) => {
                s.append("invalid log_regex pattern: ");
                s.append(e.as_str());
            },
            NewAppError::DuplicateName(n) => {
                s.append("an app named ");
                s.append(n.as_str());
                s.append(" already exists");
            },
        }
        s
    }
}

/// The dependency ids of a request, trimmed, with empty ones dropped.
pub open spec fn normalized_deps(ds: Seq<Seq<char>>) -> Seq<Seq<char>> {
    ds.map_values(|d: Seq<char>| trimmed(d)).filter(|d: Seq<char>| d.len() > 0)
}

/// The text fields of a new-app request, trimmed.
#[derive(Debug, Clone, PartialEq, Eq)]
pub struct NewAppFields {
    pub name: String,
    pub directory: String,
    pub command: String,
    pub tag: String,
    pub depends_on: Vec<String>,
}

/// Trims every field of a request; dependency ids are trimmed and empty ones
/// dropped, and a missing list counts as empty.
pub fn normalize_request(name: &str, directory: &str, command: &str, tag: &str, depends_on: Option<Vec<String>>) -> (f:
    NewAppFields)
    ensures
        f.name@ == trimmed(name@),
        f.directory@ == trimmed(directory@),
        f.command@ == trimmed(command@),
        f.tag@ == trimmed(tag@),
        views(f.depends_on@) == match depends_on {
            Some(ds) => normalized_deps(views(ds@)),
            None => Seq::<Seq<char>>::empty(),
        },
{
    let mut deps: Vec<String> = Vec::new();
    match depends_on {
        Some(ds) => {
            let ghost dv = views(ds@);
            let ghost tv = dv.map_values(|d: Seq<char>| trimmed(d));
            let mut i: usize = 0;
            while i < ds.len()
                invariant
                    i <= ds@.len(),
                    dv == views(ds@),
                    tv == dv.map_values(|d: Seq<char>| trimmed(d)),
                    views(deps@) == tv.take(i as int).filter(|d: Seq<char>| d.len() > 0),
                decreases ds@.len() - i,
            {
                proof {
                    reveal_with_fuel(Seq::filter, 1);
                    assert(tv.take(i + 1).drop_last() =~= tv.take(i as int));
                }
                let t = trim(ds[i].as_str());
                assert(t@ == tv[i as int]);
                if t.unicode_len() > 0 {
                    let ghost before = views(deps@);
                    deps.push(t);
                    assert(views(deps@) =~= before.push(tv[i as int]));
                }
                i = i + 1;
            }
            assert(tv.take(ds@.len() as int) =~= tv);
        },
        None => {
            assert(views(deps@) =~= Seq::<Seq<char>>::empty());
        },
    }
    NewAppFields {
        name: trim(name),
        directory: trim(directory),
        command: trim(command),
        tag: trim(tag),
        depends_on: deps,
    }
}

/// The field checks pass: name, directory and command given, the
/// directory exists, the port is not 0, and no dependency is listed twice.
pub open spec fn fields_ok(f: NewAppFields, dir_exists: bool, port: Option<u16>) -> bool {
    f.name@.len() > 0 && f.directory@.len() > 0 && f.command@.len() > 0 && dir_exists && port != Some(0u16) && views(
        f.depends_on@,
    ).no_duplicates()
}

/// What the field checks answer, in order: empty name, directory, command;
/// a directory that does not exist; port 0; the first dependency listed
/// twice.
pub open spec fn fields_outcome(f: NewAppFields, dir_exists: bool, port: Option<u16>, r: Result<(), NewAppError>) -> bool {
    &&& f.name@.len() == 0 ==> r == Err::<(), NewAppError>(NewAppError::EmptyName)
    &&& f.name@.len() > 0 && f.directory@.len() == 0 ==> r == Err::<(), NewAppError>(NewAppError::EmptyDirectory)
    &&& f.name@.len() > 0 && f.directory@.len() > 0 && f.command@.len() == 0 ==> r == Err::<(), NewAppError>(
        NewAppError::EmptyCommand,
    )
    &&& f.name@.len() > 0 && f.directory@.len() > 0 && f.command@.len() > 0 && !dir_exists ==> r == Err::<
        (),
        NewAppError,
    >(NewAppError::MissingDirectory(f.directory))
    &&& f.name@.len() > 0 && f.directory@.len() > 0 && f.command@.len() > 0 && dir_exists && port == Some(0u16)
        ==> r == Err::<(), NewAppError>(NewAppError::PortOutOfRange)
    &&& forall|i: int|
        f.name@.len() > 0 && f.directory@.len() > 0 && f.command@.len() > 0 && dir_exists && port != Some(0u16)
            && crate::config::first_repeat(views(f.depends_on@), i) ==> r == Err::<(), NewAppError>(
            NewAppError::DuplicateDependency(f.depends_on@[i]),
        )
    &&& r is Ok <==> fields_ok(f, dir_exists, port)
}

/// The checks made before the app list is read, in order: empty name,
/// directory, command; a directory that does not exist; port 0; a
/// dependency listed twice.
pub fn check_fields(f: &NewAppFields, dir_exists: bool, port: Option<u16>) -> (r: Result<(), NewAppError>)
    ensures
        fields_outcome(*f, dir_exists, port, r),
{
    if f.name.unicode_len() == 0 {
        return Err(NewAppError::EmptyName);
    }
    if f.directory.unicode_len() == 0 {
        return Err(NewAppError::EmptyDirectory);
    }
    if f.command.unicode_len() == 0 {
        return Err(NewAppError::EmptyCommand);
    }
    if !dir_exists {
        return Err(NewAppError::MissingDirectory(f.directory.clone()));
    }
    match port {
        Some(0) => {
            return Err(NewAppError::PortOutOfRange);
        },
        _ => {},
    }
    let ghost dv = views(f.depends_on@);
    let mut seen: Vec<String> = Vec::new();
    let mut i: usize = 0;
    while i < f.depends_on.len()
        invariant
            i <= dv.len(),
            dv == views(f.depends_on@),
            f.name@.len() > 0 && f.directory@.len() > 0 && f.command@.len() > 0 && dir_exists && port != Some(0u16),
            views(seen@) == dv.take(i as int),
            forall|k: int| 0 <= k < i ==> !(#[trigger] dv.take(k)).contains(dv[k]),
        decreases dv.len() - i,
    {
        let d = &f.depends_on[i];
        if contains_str(&seen, d.as_str()) {
            assert(crate::config::first_repeat(dv, i as int));
            assert forall|i2: int| crate::config::first_repeat(dv, i2) implies i2 == i by {
                if i2 > i {
                    assert(!dv.take(i as int).contains(dv[i as int]));
                }
            }
            proof {
                assert(!dv.no_duplicates()) by {
                    let k = choose|k: int| 0 <= k < dv.take(i as int).len() && dv.take(i as int)[k] == dv[i as int];
                    assert(dv[k] == dv[i as int]);
                }
            }
            return Err(NewAppError::DuplicateDependency(d.clone()));
        }
        let item = d.clone();
        let ghost before = views(seen@);
        seen.push(item);
        assert(views(seen@) =~= before.push(dv[i as int]));
        assert(views(seen@) =~= dv.take(i + 1));
        i = i + 1;
    }
    proof {
        assert(dv.take(dv.len() as int) =~= dv);
        crate::config::lemma_no_repeat_prefix(dv, dv.len() as int);
        assert forall|i2: int| !crate::config::first_repeat(dv, i2) by {
            if crate::config::first_repeat(dv, i2) {
                let k = choose|k: int| 0 <= k < dv.take(i2).len() && dv.take(i2)[k] == dv[i2];
                assert(dv[k] == dv[i2]);
            }
        }
    }
    Ok(())
}

/// The check of the directory of a one-off shell (already trimmed): it must
/// be given and must exist.
pub fn check_shell_directory(dir: &str, dir_exists: bool) -> (r: Result<(), NewAppError>)
    ensures
        dir@.len() == 0 ==> r == Err::<(), NewAppError>(NewAppError::EmptyDirectory),
        dir@.len() > 0 && !dir_exists ==> (r matches Err(NewAppError::MissingDirectory(d)) && d@ == dir@),
        r is Ok <==> dir@.len() > 0 && dir_exists,
{
    if dir.unicode_len() == 0 {
        return Err(NewAppError::EmptyDirectory);
    }
    if !dir_exists {
        return Err(NewAppError::MissingDirectory(dir.to_owned()));
    }
    Ok(())
}

/// Some registered app has the display name `name` (names compared
/// trimmed).
pub open spec fn name_taken(existing: Seq<AppEntry>, name: Seq<char>) -> bool {
    exists|i: int| 0 <= i < existing.len() && trimmed((#[trigger] existing[i]).name@) == name
}

/// What the name check answers: refused, naming the name, exactly when it
/// is taken.
pub open spec fn name_outcome(existing: Seq<AppEntry>, name: Seq<char>, r: Result<(), NewAppError>) -> bool {
    &&& r is Err <==> name_taken(existing, name)
    &&& r matches Err(e) ==> (e matches NewAppError::DuplicateName(n) && n@ == name)
}

/// Display names are unique: a request whose (trimmed) name is already the
/// name of a registered app is refused.
pub fn check_name_unique(name: &str, existing: &[AppEntry]) -> (r: Result<(), NewAppError>)
    ensures
        name_outcome(existing@, name@, r),
{
    let mut i: usize = 0;
    while i < existing.len()
        invariant
            i <= existing@.len(),
            forall|k: int| 0 <= k < i ==> trimmed((#[trigger] existing@[k]).name@) != name@,
        decreases existing@.len() - i,
    {
        let t = trim(existing[i].name.as_str());
        if str_eq(t.as_str(), name) {
            assert(name_taken(existing@, name@)) by {
                assert(trimmed(existing@[i as int].name@) == name@);
            }
            return Err(NewAppError::DuplicateName(name.to_owned()));
        }
        i = i + 1;
    }
    Ok(())
}

/// Entry `i` of `deps` names no existing app, and every entry before it does.
pub open spec fn first_unknown_dep(existing: Seq<AppEntry>, deps: Seq<Seq<char>>, i: int) -> bool {
    &&& 0 <= i < deps.len()
    &&& !is_app_id(existing, deps[i])
    &&& forall|k: int| 0 <= k < i ==> is_app_id(existing, #[trigger] deps[k])
}

/// Every dependency names a registered app.
pub open spec fn deps_known(existing: Seq<AppEntry>, deps: Seq<String>) -> bool {
    forall|k: int| 0 <= k < deps.len() ==> is_app_id(existing, #[trigger] views(deps)[k])
}

/// What the dependency check answers: the first dependency that names no
/// registered app, else success.
pub open spec fn deps_outcome(existing: Seq<AppEntry>, deps: Seq<String>, r: Result<(), NewAppError>) -> bool {
    &&& forall|i: int| first_unknown_dep(existing, views(deps), i) ==> r == Err::<(), NewAppError>(
        NewAppError::UnknownDependency(deps[i]),
    )
    &&& r is Ok <==> deps_known(existing, deps)
}

/// Every dependency must name an app already registered; the first one that
/// does not is the error.
pub fn check_dependencies_known(deps: &Vec<String>, existing: &[AppEntry]) -> (r: Result<(), NewAppError>)
    ensures
        deps_outcome(existing@, deps@, r),
{
    let ghost dv = views(deps@);
    let mut i: usize = 0;
    while i < deps.len()
        invariant
            i <= dv.len(),
            dv == views(deps@),
            forall|k: int| 0 <= k < i ==> is_app_id(existing@, #[trigger] dv[k]),
        decreases dv.len() - i,
    {
        let mut found = false;
        let mut j: usize = 0;
        while j < existing.len()
            invariant
                j <= existing@.len(),
                i < dv.len(),
                dv == views(deps@),
                found ==> is_app_id(existing@, dv[i as int]),
                !found ==> forall|k: int| 0 <= k < j ==> (#[trigger] existing@[k]).id@ != dv[i as int],
            decreases existing@.len() - j,
        {
            if str_eq(existing[j].id.as_str(), deps[i].as_str()) {
                assert(existing@[j as int].id@ == dv[i as int]);
                found = true;
            }
            j = j + 1;
        }
        if !found {
            assert(first_unknown_dep(existing@, dv, i as int));
            assert forall|i2: int| first_unknown_dep(existing@, dv, i2) implies i2 == i by {
                if i2 > i {
                    assert(is_app_id(existing@, dv[i as int]));
                }
            }
            return Err(NewAppError::UnknownDependency(deps[i].clone()));
        }
        i = i + 1;
    }
    Ok(())
}

/// What the probe check answers: a TCP port of 0, an empty URL or pattern,
/// or a pattern that does not compile is refused.
pub open spec fn probe_outcome(ready: Option<ReadyProbe>, r: Result<(), NewAppError>) -> bool {
    match ready {
        None => r is Ok,
        Some(ReadyProbe::Tcp { port }) => if port == 0 {
            r == Err::<(), NewAppError>(NewAppError::ProbeTcpPortOutOfRange)
        } else {
            r is Ok
        },
        Some(ReadyProbe::Http { url, .. }) => if trimmed(url@).len() == 0 {
            r == Err::<(), NewAppError>(NewAppError::ProbeHttpUrlEmpty)
        } else {
            r is Ok
        },
        Some(ReadyProbe::LogRegex { pattern }) => if trimmed(pattern@).len() == 0 {
            r == Err::<(), NewAppError>(NewAppError::ProbeLogRegexEmpty)
        } else {
            match regex_compile_error(pattern@) {
                None => r is Ok,
                Some(e) => (r matches Err(NewAppError::ProbeLogRegexInvalid(m)) && m@ == e),
            }
        },
    }
}

/// The probe checks, so a broken probe never reaches the config document.
pub fn check_probe(ready: &Option<ReadyProbe>) -> (r: Result<(), NewAppError>)
    ensures
        probe_outcome(*ready, r),
{
    match ready {
        None => Ok(()),
        Some(ReadyProbe::Tcp { port }) => {
            if *port == 0 {
                Err(NewAppError::ProbeTcpPortOutOfRange)
            } else {
                Ok(())
            }
        },
        Some(ReadyProbe::Http { url, .. }) => {
            if trim(url.as_str()).unicode_len() == 0 {
                Err(NewAppError::ProbeHttpUrlEmpty)
            } else {
                Ok(())
            }
        },
        Some(ReadyProbe::LogRegex { pattern }) => {
            if trim(pattern.as_str()).unicode_len() == 0 {
                return Err(NewAppError::ProbeLogRegexEmpty);
            }
            match compile_pattern(pattern.as_str()) {
                Ok(_) => Ok(()),
                Err(e) => Err(NewAppError::ProbeLogRegexInvalid(e)),
            }
        },
    }
}

/// Every check on a new-app request, in the order the user sees the
/// errors: the fields, the name against the registered apps, the
/// dependencies against the registered apps, then the probe. The first
/// refusal is the answer.
pub fn check_new_app(
    f: &NewAppFields,
    dir_exists: bool,
    port: Option<u16>,
    existing: &[AppEntry],
    ready: &Option<ReadyProbe>,
) -> (r: Result<(), NewAppError>)
    ensures
        !fields_ok(*f, dir_exists, port) ==> fields_outcome(*f, dir_exists, port, r),
        fields_ok(*f, dir_exists, port) && name_taken(existing@, f.name@) ==> name_outcome(existing@, f.name@, r),
        fields_ok(*f, dir_exists, port) && !name_taken(existing@, f.name@) && !deps_known(existing@, f.depends_on@)
            ==> deps_outcome(existing@, f.depends_on@, r),
        fields_ok(*f, dir_exists, port) && !name_taken(existing@, f.name@) && deps_known(existing@, f.depends_on@)
            ==> probe_outcome(*ready, r),
{
    let r = check_fields(f, dir_exists, port);
    if r.is_err() {
        return r;
    }
    let r = check_name_unique(f.name.as_str(), existing);
    if r.is_err() {
        return r;
    }
    let r = check_dependencies_known(&f.depends_on, existing);
    if r.is_err() {
        return r;
    }
    check_probe(ready)
}

/// The tag used when the request gives none.
pub open spec fn default_tag() -> Seq<char> {
    seq!['#', '6', '4', '7', '4', '8', 'b']
}

/// The entry registered for a checked request, under the id `id`. An empty
/// tag becomes the default colour.
pub fn build_entry(id: String, f: NewAppFields, port: Option<u16>, ready: Option<ReadyProbe>) -> (e: AppEntry)
    ensures
        e.id == id,
        e.name == f.name,
        e.directory == f.directory,
        e.command == f.command,
        e.tag@ == if f.tag@.len() == 0 { default_tag() } else { f.tag@ },
        e.port == port,
        e.ready == ready,
        e.depends_on == f.depends_on,
{
    let tag = if f.tag.unicode_len() == 0 {
        let t = "#64748b";
        proof {
            reveal_strlit("#64748b");
        }
        assert(t@ =~= default_tag());
        t.to_owned()
    } else {
        f.tag
    };
    AppEntry {
        id,
        name: f.name,
        directory: f.directory,
        command: f.command,
        tag,
        port,
        ready,
        depends_on: f.depends_on,
    }
}

} // verus!
