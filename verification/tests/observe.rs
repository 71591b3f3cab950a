use std::collections::HashMap;

use switchboard::pidlist::{parse_u32, pids_in_output};
use switchboard::pidtree::{children_index, descendants_set, tree_memory, ChildWalk};
use switchboard::probe::{
    failed_outcome, log_probe_step, poll_probe_step, ready_outcome, start_log_probe, LogEvent, ProbeFailure,
    ProbeOutcome,
};
use switchboard::process::ProcessTable;
use switchboard::stopping::{term_wait_ms, STOP_GRACE_MS, TERM_RESEND_MS};

#[test]
fn parse_u32_matches_std() {
    for s in [
        "", "+", "-", "0", "+0", "-0", "42", "+42", "-42", "007", "4294967295", "4294967296", "99999999999", " 1",
        "1 ", "1_000", "１２", "12a", "a12", "++1",
    ] {
        assert_eq!(parse_u32(s), s.parse::<u32>().ok(), "input {s:?}");
    }
}

#[test]
fn lsof_style_output() {
    assert_eq!(pids_in_output("123\n456\n", false), vec![123, 456]);
    assert_eq!(pids_in_output(" 7 \r\n\nx\n8", false), vec![7, 8]);
    assert_eq!(pids_in_output("", false), Vec::<u32>::new());
    assert_eq!(pids_in_output("1 2\n", false), Vec::<u32>::new());
}

#[test]
fn pgrep_style_output() {
    assert_eq!(pids_in_output("11\n12 13\t14\n", true), vec![11, 12, 13, 14]);
    assert_eq!(pids_in_output("  \n", true), Vec::<u32>::new());
}

#[test]
fn output_reading_agrees_with_std_splitting() {
    for s in ["1\n2\n", "  3\n\n x \n 4  ", "5\r\n6\r\n", "\n\n9", "10 11\n12"] {
        let by_lines: Vec<u32> = s.lines().filter_map(|l| l.trim().parse::<u32>().ok()).collect();
        let by_words: Vec<u32> = s.split_whitespace().filter_map(|w| w.parse::<u32>().ok()).collect();
        assert_eq!(pids_in_output(s, false), by_lines, "lines of {s:?}");
        assert_eq!(pids_in_output(s, true), by_words, "words of {s:?}");
    }
}

#[test]
fn child_walk_lists_tree_root_first() {
    // 1 → {2, 3}, 3 → {4}
    let mut children: HashMap<u32, Vec<u32>> = HashMap::new();
    children.insert(1, vec![2, 3]);
    children.insert(3, vec![4]);
    let mut w = ChildWalk::new(1);
    let mut asked = Vec::new();
    while let Some(p) = w.next_query() {
        asked.push(p);
        let kids = children.get(&p).cloned().unwrap_or_default();
        w.add_children(&kids);
    }
    assert_eq!(asked, vec![1, 3, 4, 2]);
    assert_eq!(w.finish(), vec![1, 2, 3, 4]);
}

#[test]
fn children_index_groups_by_parent_in_order() {
    let procs = vec![(1, None), (2, Some(1)), (5, Some(4)), (3, Some(1)), (4, Some(2))];
    let idx = children_index(&procs);
    assert_eq!(idx.len(), 3);
    assert_eq!(idx[&1], vec![2, 3]);
    assert_eq!(idx[&2], vec![4]);
    assert_eq!(idx[&4], vec![5]);
    let tree = descendants_set(2, &idx);
    let mut v: Vec<u32> = tree.into_iter().collect();
    v.sort();
    assert_eq!(v, vec![2, 4, 5]);
}

#[test]
fn memory_adds_up_and_saturates() {
    assert_eq!(tree_memory(&vec![]), 0);
    assert_eq!(tree_memory(&vec![100, 200, 3]), 303);
    assert_eq!(tree_memory(&vec![u64::MAX - 1, 1]), u64::MAX);
    assert_eq!(tree_memory(&vec![u64::MAX, 5, 6]), u64::MAX);
}

#[test]
fn stats_skip_shells_and_stopped_apps() {
    let mut t = ProcessTable::new();
    t.record_started("web", 10, None, false);
    t.record_started("oneoff:01HZZZZZZZZZZZZZZZZZZZZZZZ", 11, None, false);
    t.record_started("db", 12, None, false);
    t.record_started("old", 13, None, false);
    t.record_exit("old", 1);
    assert_eq!(t.app_pids(), vec![("web".to_string(), 10), ("db".to_string(), 12)]);
}

#[test]
fn term_waits() {
    assert_eq!(term_wait_ms(0), None);
    assert_eq!(term_wait_ms(1), Some(1));
    assert_eq!(term_wait_ms(199), Some(199));
    assert_eq!(term_wait_ms(STOP_GRACE_MS), Some(TERM_RESEND_MS));
}

fn failure(reason: &str) -> ProbeOutcome {
    ProbeOutcome { ready: false, reason: Some(reason.to_string()) }
}

#[test]
fn probe_outcomes() {
    assert_eq!(ready_outcome(), ProbeOutcome { ready: true, reason: None });
    assert_eq!(failed_outcome(ProbeFailure::Timeout), failure("timeout"));
    assert_eq!(failed_outcome(ProbeFailure::Exited), failure("exited"));
    assert_eq!(failed_outcome(ProbeFailure::InvalidPattern), failure("invalid-pattern"));
    assert_eq!(failed_outcome(ProbeFailure::StreamClosed), failure("stream-closed"));
    assert_eq!(failed_outcome(ProbeFailure::ClientBuildFailed), failure("client-build-failed"));
}

#[test]
fn log_regex_probe_fires_on_match() {
    let p = start_log_probe("listening on").ok().unwrap();
    assert_eq!(log_probe_step(&p, &LogEvent::Chunk("booting...\r\n".into())), None);
    assert_eq!(log_probe_step(&p, &LogEvent::Lagged), None);
    assert_eq!(log_probe_step(&p, &LogEvent::Chunk("now listening on :8080".into())), Some(ready_outcome()));
}

#[test]
fn log_probe_ends_on_close_or_timeout() {
    let p = start_log_probe("ready$").ok().unwrap();
    assert_eq!(log_probe_step(&p, &LogEvent::Chunk("ready!".into())), None);
    assert_eq!(log_probe_step(&p, &LogEvent::Chunk("all ready".into())), Some(ready_outcome()));
    assert_eq!(log_probe_step(&p, &LogEvent::Closed), Some(failure("stream-closed")));
    assert_eq!(log_probe_step(&p, &LogEvent::TimedOut), Some(failure("timeout")));
}

#[test]
fn invalid_log_pattern_fails_the_probe_at_once() {
    match start_log_probe("(unclosed") {
        Err(o) => assert_eq!(o, failure("invalid-pattern")),
        Ok(_) => panic!("pattern should not compile"),
    }
}

#[test]
fn poll_probe_steps() {
    assert_eq!(poll_probe_step(500, true), Some(ready_outcome()));
    assert_eq!(poll_probe_step(0, true), Some(ready_outcome()));
    assert_eq!(poll_probe_step(500, false), None);
    assert_eq!(poll_probe_step(0, false), Some(failure("timeout")));
}
