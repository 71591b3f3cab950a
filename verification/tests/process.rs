use std::collections::{HashMap, HashSet};

use switchboard::ids::{new_app_id, new_shell_id};
use switchboard::pidtree::descendants_set;
use switchboard::process::{
    already_running_message, is_shell, not_running_message, output_payload, running_label, ProcessTable, RunInfo,
    StatusSnapshot, RING_CAP_BYTES,
};
use switchboard::ring::{bytecount_newlines, RingBuffer};

const SHELL_ID_PREFIX: &str = "oneoff:";

#[test]
fn ring_buffer_trims_to_cap_lines() {
    let mut r = RingBuffer::new(300, 10 * 1024 * 1024);
    for _ in 0..500 {
        r.push(b"x\n");
    }
    let snap = r.snapshot();
    let lines = snap.iter().filter(|&&c| c == b'\n').count();
    assert_eq!(lines, 300, "expected exactly 300 newlines, got {lines}");
}

#[test]
fn ring_buffer_trims_to_cap_bytes() {
    let mut r = RingBuffer::new(usize::MAX, 512 * 1024);
    // One 1MB chunk with no newlines. With a single oversized chunk and no
    // smaller predecessors, trimming pops the only chunk, ending at 0 bytes:
    // better empty than unbounded.
    let big = vec![b'a'; 1024 * 1024];
    r.push(&big);
    let snap = r.snapshot();
    assert!(snap.len() <= 512 * 1024, "snapshot len {} exceeds cap", snap.len());
}

#[test]
fn ring_buffer_preserves_recent_bytes_with_byte_cap() {
    // Push many small chunks totaling more than the byte cap; verify the
    // tail is preserved (the newest chunk is intact).
    let mut r = RingBuffer::new(usize::MAX, 1024);
    for i in 0..100u8 {
        r.push(&[i; 64]); // 100 * 64 = 6400 bytes total
    }
    let snap = r.snapshot();
    assert!(snap.len() <= 1024, "snapshot len {}", snap.len());
    // Last chunk should be all 99s.
    assert!(snap.iter().rev().take(64).all(|&b| b == 99), "tail not preserved");
}

#[test]
fn ring_buffer_keeps_exactly_what_fits() {
    let mut r = RingBuffer::new(2, 1024);
    r.push(b"a\n");
    r.push(b"");
    r.push(b"b\n");
    r.push(b"c\nd");
    // "a\n" is dropped: three lines would exceed the budget of two.
    assert_eq!(r.snapshot(), b"b\nc\nd".to_vec());
}

#[test]
fn ring_buffer_drops_oversized_newest_chunk() {
    let mut r = RingBuffer::new(10, 4);
    r.push(b"ab");
    r.push(b"cdefgh");
    assert!(r.snapshot().is_empty());
}

#[test]
fn newline_count() {
    assert_eq!(bytecount_newlines(b""), 0);
    assert_eq!(bytecount_newlines(b"a\nb\n\n"), 3);
}

#[test]
fn shell_id_has_oneoff_prefix_and_ulid_suffix() {
    // ULIDs are 26 chars; the prefix is `oneoff:` (7 chars). This locks
    // the id shape the running_count / stats sampler filters depend on.
    let id = new_shell_id();
    assert!(id.starts_with(SHELL_ID_PREFIX), "id was {id}");
    assert_eq!(id.len(), SHELL_ID_PREFIX.len() + 26, "id was {id}");
}

#[test]
fn app_ids_are_ulids() {
    let a = new_app_id();
    let b = new_app_id();
    assert_eq!(a.len(), 26);
    assert!(a.parse::<ulid::Ulid>().is_ok(), "not a ULID: {a}");
    assert_ne!(a, b);
    assert!(!is_shell(&a));
    assert!(is_shell(&new_shell_id()));
    assert!(!is_shell("oneoff"));
}

#[test]
fn descendants_set_collects_full_tree() {
    // Shape:
    //   1
    //   ├── 2
    //   │   └── 4
    //   │       └── 5
    //   └── 3
    //   100  (unrelated)
    let mut by_parent: HashMap<u32, Vec<u32>> = HashMap::new();
    by_parent.insert(1, vec![2, 3]);
    by_parent.insert(2, vec![4]);
    by_parent.insert(4, vec![5]);
    // pid 100 has its own subtree that must not be included
    by_parent.insert(99, vec![100]);

    let tree = descendants_set(1, &by_parent);
    let expected: HashSet<u32> = [1u32, 2, 3, 4, 5].into_iter().collect();
    assert_eq!(tree, expected);
}

#[test]
fn descendants_set_handles_leaf_with_no_children() {
    let by_parent: HashMap<u32, Vec<u32>> = HashMap::new();
    let tree = descendants_set(42, &by_parent);
    assert_eq!(tree.len(), 1);
    assert!(tree.contains(&42));
}

#[test]
fn descendants_set_is_cycle_safe() {
    // Real process data should not contain cycles, but the walk must not
    // trust the source.
    let mut by_parent: HashMap<u32, Vec<u32>> = HashMap::new();
    by_parent.insert(1, vec![2]);
    by_parent.insert(2, vec![1]); // cycle
    let tree = descendants_set(1, &by_parent);
    let expected: HashSet<u32> = [1u32, 2].into_iter().collect();
    assert_eq!(tree, expected);
}

fn status(running: bool, pid: Option<u32>, last_exit: Option<i32>, ready: bool) -> StatusSnapshot {
    StatusSnapshot { running, pid, last_exit, ready }
}

#[test]
fn unknown_id_reports_stopped() {
    let t = ProcessTable::new();
    assert_eq!(t.status("ghost"), status(false, None, None, false));
    assert!(t.recent_snapshot("ghost").is_empty());
    assert_eq!(t.running_info("ghost"), None);
    assert_eq!(t.running_count(), 0);
}

#[test]
fn second_start_with_same_id_is_rejected() {
    let mut t = ProcessTable::new();
    t.begin_start("dup").unwrap();
    let err = t.begin_start("dup").unwrap_err();
    assert!(err.contains("already running"), "unexpected error: {err}");
    t.record_started("dup", 10, None, false);
    assert_eq!(t.begin_start("dup").unwrap_err(), "app dup already running");
    t.record_exit("dup", 0);
    assert!(t.begin_start("dup").is_ok());
}

#[test]
fn aborted_start_frees_the_id() {
    let mut t = ProcessTable::new();
    t.begin_start("a").unwrap();
    t.abort_start("a");
    assert!(t.begin_start("a").is_ok());
}

#[test]
fn status_follows_the_run_cycle() {
    let mut t = ProcessTable::new();
    t.begin_start("web").unwrap();
    t.record_started("web", 4242, Some(8080), true);
    assert_eq!(t.status("web"), status(true, Some(4242), None, false));
    assert_eq!(t.running_info("web"), Some(RunInfo { pid: 4242, port: Some(8080) }));
    t.record_probe("web", true);
    assert_eq!(t.status("web"), status(true, Some(4242), None, true));
    t.record_exit("web", 3);
    assert_eq!(t.status("web"), status(false, None, Some(3), false));
    // A probe that resolves after the exit changes nothing.
    t.record_probe("web", true);
    assert_eq!(t.status("web"), status(false, None, Some(3), false));
}

#[test]
fn status_reflects_ready_flag() {
    let mut t = ProcessTable::new();
    t.record_started("statusprobe", 7, None, false);
    assert!(t.status("statusprobe").ready, "probe-less app should be ready");
}

#[test]
fn ring_buffer_resets_on_restart() {
    let mut t = ProcessTable::new();
    t.record_started("reset", 1, None, false);
    t.push_output("reset", b"first-run\n");
    t.record_exit("reset", 0);
    t.record_started("reset", 2, None, false);
    let s2 = t.recent_snapshot("reset");
    assert!(!String::from_utf8_lossy(&s2).contains("first-run"), "first-run leaked into ring after restart: {s2:?}");
    t.push_output("reset", b"second-run\n");
    assert_eq!(t.recent_snapshot("reset"), b"second-run\n".to_vec());
}

#[test]
fn ring_buffer_survives_process_exit() {
    let mut t = ProcessTable::new();
    t.record_started("survive", 1, None, false);
    t.push_output("survive", b"last-words\n");
    t.record_exit("survive", 0);
    assert_eq!(t.recent_snapshot("survive"), b"last-words\n".to_vec());
}

#[test]
fn probe_none_marks_ready_immediately() {
    let mut t = ProcessTable::new();
    t.begin_start("noprobe").unwrap();
    t.record_started("noprobe", 9, None, false);
    assert!(t.status("noprobe").ready);
    t.record_started("probed", 10, None, true);
    assert!(!t.status("probed").ready);
}

#[test]
fn concurrent_starts_with_same_id_only_one_wins() {
    let mut t = ProcessTable::new();
    let r1 = t.begin_start("race");
    let r2 = t.begin_start("race");
    let oks = [r1.is_ok(), r2.is_ok()].iter().filter(|&&b| b).count();
    assert_eq!(oks, 1, "exactly one start should succeed, got {oks}: {r1:?} / {r2:?}");
}

#[test]
fn detach_unknown_id_is_ok() {
    let mut t = ProcessTable::new();
    assert!(!t.detach("ghost"));
    assert_eq!(t.status("ghost"), status(false, None, None, false));
}

#[test]
fn clear_ring_drops_buffer() {
    let mut t = ProcessTable::new();
    t.record_started("zap", 1, None, false);
    t.push_output("zap", b"hi\n");
    assert!(!t.recent_snapshot("zap").is_empty());
    t.clear_ring("zap");
    assert!(t.recent_snapshot("zap").is_empty(), "ring not cleared");
    // Output arriving without a buffer is dropped.
    t.push_output("zap", b"late\n");
    assert!(t.recent_snapshot("zap").is_empty());
}

#[test]
fn scrollback_is_capped() {
    let mut t = ProcessTable::new();
    t.record_started("big", 1, None, false);
    let chunk = vec![b'z'; 4096];
    for _ in 0..200 {
        t.push_output("big", &chunk);
    }
    assert!(t.recent_snapshot("big").len() <= RING_CAP_BYTES);
}

#[test]
fn attach_and_detach() {
    let mut t = ProcessTable::new();
    let (replay, plan) = t.attach("idle");
    assert_eq!(replay, None);
    assert!(!plan.forward && !plan.abort_previous);
    assert!(!t.detach("ghost"));

    t.record_started("svc", 5, None, false);
    t.push_output("svc", b"hello");
    let (replay, plan) = t.attach("svc");
    assert_eq!(replay, Some("aGVsbG8=".to_string()));
    assert!(plan.forward && !plan.abort_previous);
    let (_, plan) = t.attach("svc");
    assert!(plan.abort_previous);
    assert!(t.detach("svc"));
    assert!(!t.detach("svc"));
}

#[test]
fn waiter_clears_attachment_entry_on_exit() {
    let mut t = ProcessTable::new();
    t.record_started("decay", 5, None, false);
    t.attach("decay");
    assert!(t.record_exit("decay", 0));
    assert!(!t.detach("decay"), "waiter should have cleared the attachment entry");
}

#[test]
fn running_ids_and_count_skip_shells() {
    let mut t = ProcessTable::new();
    t.record_started("a", 1, None, false);
    t.record_started("oneoff:01ABCDEFGHJKMNPQRSTVWXYZ0", 2, None, false);
    t.record_started("b", 3, None, false);
    t.record_started("c", 4, None, false);
    t.record_exit("b", 0);
    assert_eq!(
        t.running_ids(),
        vec!["a".to_string(), "oneoff:01ABCDEFGHJKMNPQRSTVWXYZ0".to_string(), "c".to_string()]
    );
    assert_eq!(t.running_count(), 2);
    assert_eq!(running_label(t.running_count()), "Running: 2");
}

#[test]
fn messages() {
    assert_eq!(already_running_message("x"), "app x already running");
    assert_eq!(not_running_message("x"), "app x not running");
    assert_eq!(running_label(0), "Running: 0");
    assert_eq!(running_label(105), "Running: 105");
}

#[test]
fn output_payload_is_standard_base64() {
    assert_eq!(output_payload(b""), "");
    assert_eq!(output_payload(b"hi\n"), "aGkK");
    assert_eq!(output_payload(&[0u8, 255, 62, 63]), "AP8+Pw==");
}

#[test]
fn replay_is_the_base64_of_the_scrollback() {
    let mut t = ProcessTable::new();
    t.record_started("web", 3, None, false);
    t.push_output("web", b"\x1b[32mok\x1b[0m\r\n");
    let (replay, _) = t.attach("web");
    assert_eq!(replay, Some(output_payload(&t.recent_snapshot("web"))));
}

#[test]
fn ring_buffer_keeps_everything_that_fits() {
    let mut r = RingBuffer::new(10, 100);
    let chunks: [&[u8]; 4] = [b"one\n", b"two", b"\nthree\n", b"four"];
    let mut all = Vec::new();
    for c in chunks {
        r.push(c);
        all.extend_from_slice(c);
        assert_eq!(r.snapshot(), all);
        assert_eq!(r.held_bytes(), all.len());
    }
}

#[test]
fn ring_buffer_accepts_pushes_under_a_huge_cap() {
    let mut r = RingBuffer::new(usize::MAX, usize::MAX);
    r.push(b"abc");
    r.push(b"def");
    assert_eq!(r.snapshot(), b"abcdef".to_vec());
}

#[test]
fn opening_a_shell_leaves_the_app_count_unchanged() {
    let mut t = ProcessTable::new();
    t.record_started("web", 1, None, false);
    let before = t.running_count();
    let shell = switchboard::ids::new_shell_id();
    t.begin_start(&shell).unwrap();
    t.record_started(&shell, 2, None, false);
    assert!(t.status(&shell).running);
    assert_eq!(t.running_count(), before);
    assert_eq!(t.running_ids().len(), 2);
}
