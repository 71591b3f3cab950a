//! Where the config document and the per-app logs live: next to the project
//! in debug builds, under the user's config directory in release builds.
use vstd::prelude::*;

verus! {

/// What `std::path::Path::parent` gives for a path: the path without its
/// final component, or nothing for a root or an empty path.
pub uninterp spec fn path_parent(p: Seq<char>) -> Option<Seq<char>>;

/// What `std::path::Path::join` gives for a base and a further part, with
/// Unix separators: an absolute part replaces the base; otherwise the part
/// follows the base, after a `/` unless the base is empty or already ends
/// with one.
pub open spec fn path_join(base: Seq<char>, part: Seq<char>) -> Seq<char> {
    if part.len() > 0 && part[0] == '/' {
        part
    } else if base.len() > 0 && base.last() != '/' {
        base + seq!['/'] + part
    } else {
        base + part
    }
}

/// `std::path::Path::parent` on a path written as a string; the contract
/// ties the result to `path_parent` and claims nothing else of it.
#[verifier::external_body]
fn parent_of(p: &str) -> (r: Option<String>)
    ensures
        match r {
            Some(q) => path_parent(p@) == Some(q@),
            None => path_parent(p@) == None::<Seq<char>>,
        },
{
    match std::path::Path::new(p).parent() {
        Some(q) => Some(q.to_string_lossy().into_owned()),
        None => None,
    }
}

/// `std::path::Path::join` on paths written as strings; the contract claims
/// the result is `path_join` of the two (Unix separators).
#[verifier::external_body]
fn join_path(base: &str, part: &str) -> (r: String)
    ensures
        r@ == path_join(base@, part@),
{
    std::path::Path::new(base).join(part).to_string_lossy().into_owned()
}

/// The parent of `p`, or `p` itself when it has none.
pub open spec fn parent_or_self(p: Seq<char>) -> Seq<char> {
    match path_parent(p) {
        Some(q) => q,
        None => p,
    }
}

/// A directory path that a relative part is appended to after one `/`:
/// nonempty, without a trailing separator.
pub open spec fn plain_dir(p: Seq<char>) -> bool {
    p.len() > 0 && p.last() != '/'
}

/// The directory that holds both the config document and the log directory:
/// the project root in debug builds, `<config_dir>/switchboard` in release
/// builds (written out for directories without a trailing separator).
pub open spec fn data_dir(debug: bool, manifest_dir: Seq<char>, config_dir: Seq<char>) -> Seq<char> {
    if debug {
        parent_or_self(manifest_dir)
    } else {
        config_dir + "/switchboard"@
    }
}

/// The directory that holds the project: the parent of the crate directory.
fn project_root(manifest_dir: &str) -> (r: String)
    ensures
        r@ == parent_or_self(manifest_dir@),
{
    match parent_of(manifest_dir) {
        Some(q) => q,
        None => manifest_dir.to_owned(),
    }
}

/// The config document's path: `<project-root>/apps.json` in debug builds,
/// `<config_dir>/switchboard/apps.json` in release builds.
pub fn resolve_config_path(debug: bool, manifest_dir: &str, config_dir: &str) -> (r: String)
    ensures
        debug ==> r@ == path_join(parent_or_self(manifest_dir@), "apps.json"@),
        !debug ==> r@ == path_join(path_join(config_dir@, "switchboard"@), "apps.json"@),
        debug && plain_dir(parent_or_self(manifest_dir@)) ==> r@ == parent_or_self(manifest_dir@) + "/apps.json"@,
        !debug && plain_dir(config_dir@) ==> r@ == config_dir@ + "/switchboard/apps.json"@,
        plain_dir(if debug { parent_or_self(manifest_dir@) } else { config_dir@ }) ==> r@ == data_dir(
            debug,
            manifest_dir@,
            config_dir@,
        ) + "/apps.json"@,
{
    proof {
        reveal_strlit("apps.json");
        reveal_strlit("switchboard");
        reveal_strlit("/switchboard");
        reveal_strlit("/apps.json");
        reveal_strlit("/switchboard/apps.json");
    }
    if debug {
        let root = project_root(manifest_dir);
        join_path(root.as_str(), "apps.json")
    } else {
        let dir = join_path(config_dir, "switchboard");
        join_path(dir.as_str(), "apps.json")
    }
}

/// The log directory: `<project-root>/logs` in debug builds,
/// `<config_dir>/switchboard/logs` in release builds.
pub fn resolve_log_dir(debug: bool, manifest_dir: &str, config_dir: &str) -> (r: String)
    ensures
        debug ==> r@ == path_join(parent_or_self(manifest_dir@), "logs"@),
        !debug ==> r@ == path_join(path_join(config_dir@, "switchboard"@), "logs"@),
        debug && plain_dir(parent_or_self(manifest_dir@)) ==> r@ == parent_or_self(manifest_dir@) + "/logs"@,
        !debug && plain_dir(config_dir@) ==> r@ == config_dir@ + "/switchboard/logs"@,
        plain_dir(if debug { parent_or_self(manifest_dir@) } else { config_dir@ }) ==> r@ == data_dir(
            debug,
            manifest_dir@,
            config_dir@,
        ) + "/logs"@,
{
    proof {
        reveal_strlit("logs");
        reveal_strlit("switchboard");
        reveal_strlit("/switchboard");
        reveal_strlit("/logs");
        reveal_strlit("/switchboard/logs");
    }
    if debug {
        let root = project_root(manifest_dir);
        join_path(root.as_str(), "logs")
    } else {
        let dir = join_path(config_dir, "switchboard");
        join_path(dir.as_str(), "logs")
    }
}

} // verus!
