use std::collections::HashSet;

use switchboard::config::AppEntry;
use switchboard::graph::{find_cycle, topo_levels, GraphError};

fn entry(id: &str, deps: &[&str]) -> AppEntry {
    AppEntry {
        id: id.to_string(),
        name: id.to_string(),
        directory: "/tmp".into(),
        command: "echo".into(),
        tag: "#000".into(),
        port: None,
        ready: None,
        depends_on: deps.iter().map(|s| s.to_string()).collect(),
    }
}

#[test]
fn empty_apps() {
    let levels = topo_levels(&[]).unwrap();
    assert!(levels.is_empty());
}

#[test]
fn single_no_deps() {
    let levels = topo_levels(&[entry("a", &[])]).unwrap();
    assert_eq!(levels, vec![vec!["a".to_string()]]);
}

#[test]
fn linear_chain() {
    // a → b → c (c depends on b, b on a)
    let apps = vec![entry("a", &[]), entry("b", &["a"]), entry("c", &["b"])];
    let levels = topo_levels(&apps).unwrap();
    assert_eq!(
        levels,
        vec![
            vec!["a".to_string()],
            vec!["b".to_string()],
            vec!["c".to_string()],
        ]
    );
}

#[test]
fn diamond() {
    let apps = vec![
        entry("a", &[]),
        entry("b", &["a"]),
        entry("c", &["a"]),
        entry("d", &["b", "c"]),
    ];
    let levels = topo_levels(&apps).unwrap();
    assert_eq!(levels.len(), 3);
    assert_eq!(levels[0], vec!["a"]);
    assert_eq!(levels[1], vec!["b", "c"]);
    assert_eq!(levels[2], vec!["d"]);
}

#[test]
fn independent_islands() {
    let apps = vec![
        entry("a", &[]),
        entry("b", &[]),
        entry("c", &["b"]),
        entry("d", &[]),
    ];
    let levels = topo_levels(&apps).unwrap();
    assert_eq!(levels.len(), 2);
    assert_eq!(levels[0], vec!["a", "b", "d"]);
    assert_eq!(levels[1], vec!["c"]);
}

#[test]
fn cycle_of_two() {
    let apps = vec![entry("a", &["b"]), entry("b", &["a"])];
    let err = topo_levels(&apps).unwrap_err();
    match err {
        GraphError::Cycle(c) => {
            assert!(c.len() >= 3, "expected cycle path, got {c:?}");
            assert_eq!(c.first(), c.last(), "cycle should close on itself");
        }
        other => panic!("expected Cycle, got {other:?}"),
    }
}

#[test]
fn cycle_of_three() {
    let apps = vec![
        entry("a", &["c"]),
        entry("b", &["a"]),
        entry("c", &["b"]),
    ];
    let err = topo_levels(&apps).unwrap_err();
    match err {
        GraphError::Cycle(c) => {
            let names: HashSet<&str> = c.iter().map(String::as_str).collect();
            assert!(names.contains("a") && names.contains("b") && names.contains("c"));
        }
        other => panic!("expected Cycle, got {other:?}"),
    }
}

#[test]
fn self_loop_rejected() {
    let apps = vec![entry("a", &["a"])];
    let err = topo_levels(&apps).unwrap_err();
    assert!(matches!(err, GraphError::SelfLoop(ref id) if id == "a"));
}

#[test]
fn unknown_dep_rejected() {
    let apps = vec![entry("a", &["ghost"])];
    let err = topo_levels(&apps).unwrap_err();
    match err {
        GraphError::UnknownDep { app, dep } => {
            assert_eq!(app, "a");
            assert_eq!(dep, "ghost");
        }
        other => panic!("expected UnknownDep, got {other:?}"),
    }
}

#[test]
fn duplicate_dep_collapses() {
    // depends_on: [a, a] should be treated as a single edge — same as [a].
    let apps = vec![entry("a", &[]), entry("b", &["a", "a"])];
    let levels = topo_levels(&apps).unwrap();
    assert_eq!(levels, vec![vec!["a".to_string()], vec!["b".to_string()]]);
}

#[test]
fn cycle_message_uses_arrows() {
    let err = topo_levels(&[entry("a", &["b"]), entry("b", &["a"])]).unwrap_err();
    let s = err.message();
    assert!(s.contains("→"), "expected arrows in: {s}");
    assert!(s.contains("cycle"), "expected 'cycle' in: {s}");
}

#[test]
fn cycle_of_two_walks_from_smallest_stuck_id() {
    let err = topo_levels(&[entry("a", &["b"]), entry("b", &["a"])]).unwrap_err();
    assert_eq!(err, GraphError::Cycle(vec!["a".into(), "b".into(), "a".into()]));
    assert_eq!(err.message(), "dependency cycle: a → b → a");
}

#[test]
fn cycle_reported_behind_a_stuck_tail() {
    // x depends on the cycle p ⇄ q but is not on it; the walk starts at p.
    let apps = vec![entry("x", &["p"]), entry("p", &["q"]), entry("q", &["p"])];
    let err = topo_levels(&apps).unwrap_err();
    assert_eq!(err, GraphError::Cycle(vec!["p".into(), "q".into(), "p".into()]));
}

#[test]
fn self_loop_message() {
    let err = topo_levels(&[entry("a", &["a"])]).unwrap_err();
    assert_eq!(err.message(), "app a depends on itself");
}

#[test]
fn unknown_dep_message() {
    let err = topo_levels(&[entry("a", &["ghost"])]).unwrap_err();
    assert_eq!(err.message(), "app a depends on unknown id ghost");
}

#[test]
fn first_bad_dependency_wins() {
    // b's self loop comes after a's unknown dependency.
    let apps = vec![entry("a", &["b", "zz"]), entry("b", &["b"])];
    let err = topo_levels(&apps).unwrap_err();
    assert_eq!(
        err,
        GraphError::UnknownDep { app: "a".into(), dep: "zz".into() }
    );
}

#[test]
fn levels_sort_by_code_point() {
    let apps = vec![entry("b", &[]), entry("B", &[]), entry("a", &[]), entry("ab", &[]), entry("é", &[])];
    let levels = topo_levels(&apps).unwrap();
    assert_eq!(levels, vec![vec!["B", "a", "ab", "b", "é"]]);
}

#[test]
fn dependencies_come_before_dependents() {
    let apps = vec![
        entry("web", &["api", "auth"]),
        entry("api", &["db"]),
        entry("auth", &["db"]),
        entry("db", &[]),
        entry("worker", &["api"]),
    ];
    let levels = topo_levels(&apps).unwrap();
    assert_eq!(
        levels,
        vec![vec!["db"], vec!["api", "auth"], vec!["web", "worker"]]
    );
}

#[test]
fn repeated_id_is_refused_as_cycle() {
    // Two apps share an id: no layering covers both.
    let apps = vec![entry("a", &[]), entry("a", &[])];
    let err = topo_levels(&apps).unwrap_err();
    assert_eq!(err, GraphError::Cycle(vec![]));
}

#[test]
fn find_cycle_without_a_cycle_returns_the_stuck_ids() {
    let apps = vec![entry("a", &[]), entry("b", &[])];
    let stuck = vec!["b".to_string(), "a".to_string()];
    assert_eq!(find_cycle(&apps, &stuck), stuck);
}

#[test]
fn cycle_report_leaves_out_the_lead_in() {
    let apps = vec![entry("x", &["y"]), entry("y", &["x"]), entry("a", &["x"])];
    let stuck = vec!["a".to_string(), "x".to_string(), "y".to_string()];
    assert_eq!(find_cycle(&apps, &stuck), vec!["x".to_string(), "y".to_string(), "x".to_string()]);
    let stuck_shuffled = vec!["y".to_string(), "a".to_string(), "x".to_string()];
    assert_eq!(find_cycle(&apps, &stuck_shuffled), vec!["x".to_string(), "y".to_string(), "x".to_string()]);
}

#[test]
fn cycle_report_is_simple() {
    // a → b → c → b: the walk from a meets b again; the report is b → c → b.
    let apps = vec![entry("a", &["b"]), entry("b", &["c"]), entry("c", &["b"])];
    let c = match topo_levels(&apps) {
        Err(GraphError::Cycle(c)) => c,
        other => panic!("expected Cycle, got {other:?}"),
    };
    assert_eq!(c, vec!["b".to_string(), "c".to_string(), "b".to_string()]);
}
