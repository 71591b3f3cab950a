use switchboard::config::AppEntry;
use switchboard::graph::topo_levels;
use switchboard::launch::{Decision, StartAllRun};
use switchboard::process::StatusSnapshot;

fn entry(id: &str, deps: &[&str]) -> AppEntry {
    AppEntry {
        id: id.to_string(),
        name: id.to_string(),
        directory: "/tmp".into(),
        command: "echo".into(),
        tag: "#000".into(),
        port: None,
        ready: None,
        depends_on: deps.iter().map(|s| s.to_string()).collect(),
    }
}

fn stopped() -> StatusSnapshot {
    StatusSnapshot { running: false, pid: None, last_exit: None, ready: false }
}

fn running(ready: bool) -> StatusSnapshot {
    StatusSnapshot { running: true, pid: Some(1), last_exit: None, ready }
}

fn pairs(v: &[(String, String)]) -> Vec<(&str, &str)> {
    v.iter().map(|(a, b)| (a.as_str(), b.as_str())).collect()
}

#[test]
fn children_wait_for_ready_parents() {
    let apps = vec![entry("db", &[]), entry("api", &["db"]), entry("web", &["api"])];
    let levels = topo_levels(&apps).unwrap();
    let mut run = StartAllRun::new();

    run.begin_level();
    assert_eq!(run.decide(&apps[0], &stopped()), Decision::Start);
    run.record_start("db", Ok(()));
    assert!(!run.level_settled());
    run.record_ready("db", true);
    assert!(run.level_settled());

    run.begin_level();
    assert_eq!(run.decide(&apps[1], &stopped()), Decision::Start);
    run.record_start("api", Ok(()));
    run.record_ready("api", false);
    assert!(run.level_settled());

    run.begin_level();
    assert_eq!(run.decide(&apps[2], &stopped()), Decision::Skip);

    let res = run.finish();
    assert_eq!(levels.len(), 3);
    assert_eq!(res.started, vec!["db".to_string(), "api".to_string()]);
    assert!(res.failed.is_empty());
    assert_eq!(pairs(&res.skipped), vec![("web", "parent api not ready")]);
}

#[test]
fn failed_start_is_listed_and_children_skipped() {
    let apps = vec![entry("db", &[]), entry("api", &["db"])];
    let mut run = StartAllRun::new();
    run.begin_level();
    assert_eq!(run.decide(&apps[0], &stopped()), Decision::Start);
    run.record_start("db", Err("spawn failed".into()));
    assert!(run.level_settled());
    run.begin_level();
    assert_eq!(run.decide(&apps[1], &stopped()), Decision::Skip);
    let res = run.finish();
    assert!(res.started.is_empty());
    assert_eq!(pairs(&res.failed), vec![("db", "spawn failed")]);
    assert_eq!(pairs(&res.skipped), vec![("api", "parent db not ready")]);
}

#[test]
fn already_running_apps_are_not_restarted() {
    let apps = vec![entry("db", &[]), entry("cache", &[]), entry("api", &["db", "cache"])];
    let mut run = StartAllRun::new();
    run.seed("db", &running(true));
    run.begin_level();
    assert_eq!(run.decide(&apps[0], &running(true)), Decision::AlreadyReady);
    assert_eq!(run.decide(&apps[1], &running(false)), Decision::AwaitRunning);
    assert!(!run.level_settled());
    run.record_ready("cache", true);
    assert!(run.level_settled());
    run.begin_level();
    assert_eq!(run.decide(&apps[2], &stopped()), Decision::Start);
    run.record_start("api", Ok(()));
    let res = run.finish();
    assert_eq!(res.started, vec!["api".to_string()]);
    assert!(res.skipped.is_empty());
}

#[test]
fn seeded_ready_parent_lets_child_start() {
    let child = entry("api", &["db"]);
    let mut run = StartAllRun::new();
    run.seed("db", &running(true));
    run.seed("other", &running(false));
    run.begin_level();
    assert_eq!(run.decide(&child, &stopped()), Decision::Start);
}

#[test]
fn skip_names_first_missing_parent() {
    let child = entry("api", &["a", "b", "c"]);
    let mut run = StartAllRun::new();
    run.seed("a", &running(true));
    run.begin_level();
    assert_eq!(run.decide(&child, &stopped()), Decision::Skip);
    assert_eq!(pairs(&run.finish().skipped), vec![("api", "parent b not ready")]);
}

#[test]
fn stray_ready_event_is_ignored() {
    let child = entry("api", &["db"]);
    let mut run = StartAllRun::new();
    run.begin_level();
    run.record_ready("db", true);
    assert_eq!(run.decide(&child, &stopped()), Decision::Skip);
}
