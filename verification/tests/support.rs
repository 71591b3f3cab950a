use switchboard::process::{ready_plan, ReadyPlan};
use switchboard::stopping::{stop_step, StopAction, TERM_RESEND_MS};
use switchboard::git::{branch_step, detached_label, BranchStep};
use switchboard::logs::{http_status_ready, LogBudget, MAX_LOG_BYTES};
use switchboard::text::{decimal, join, str_eq, str_less};

#[test]
fn decimal_digits() {
    assert_eq!(decimal(0), "0");
    assert_eq!(decimal(7), "7");
    assert_eq!(decimal(1040), "1040");
    assert_eq!(decimal(u64::MAX), u64::MAX.to_string());
}

#[test]
fn join_with_separator() {
    assert_eq!(join(&vec![], " → "), "");
    assert_eq!(join(&vec!["a".into()], " → "), "a");
    assert_eq!(join(&vec!["a".into(), "b".into(), "a".into()], " → "), "a → b → a");
}

#[test]
fn string_order_is_by_code_point() {
    assert!(str_less("a", "b"));
    assert!(str_less("a", "ab"));
    assert!(!str_less("ab", "a"));
    assert!(!str_less("a", "a"));
    assert!(str_less("Z", "a"));
    assert!(str_less("é", "ê"));
    assert!(str_eq("abc", "abc"));
    assert!(!str_eq("abc", "abd"));
}

#[test]
fn log_budget_rotates_before_the_cap_is_passed() {
    let mut b = LogBudget::open(0);
    assert!(!b.needs_rotation(MAX_LOG_BYTES));
    b.wrote(MAX_LOG_BYTES - 10);
    assert!(!b.needs_rotation(10));
    assert!(b.needs_rotation(11));
    b.rotated();
    assert!(!b.needs_rotation(11));
}

#[test]
fn oversized_existing_log_rotates_on_first_write() {
    let b = LogBudget::open(MAX_LOG_BYTES + 1);
    assert!(b.needs_rotation(1));
    assert!(!LogBudget::open(MAX_LOG_BYTES).needs_rotation(0));
}

#[test]
fn log_budget_keeps_live_file_within_cap() {
    // Simulates the writer: many 64-byte writes under the cap never
    // push the live file past the cap.
    let mut b = LogBudget::open(0);
    let mut live: u64 = 0;
    let mut rotations = 0;
    for _ in 0..200_000 {
        if b.needs_rotation(64) {
            b.rotated();
            live = 0;
            rotations += 1;
        }
        b.wrote(64);
        live += 64;
        assert!(live <= MAX_LOG_BYTES, "live log {live} exceeds cap");
    }
    assert_eq!(rotations, 2);
}

#[test]
fn http_readiness_statuses() {
    assert!(http_status_ready(200, None));
    assert!(http_status_ready(302, None));
    assert!(!http_status_ready(404, None));
    assert!(!http_status_ready(199, None));
    assert!(http_status_ready(204, Some(204)));
    assert!(!http_status_ready(200, Some(204)));
}

#[test]
fn branch_labels() {
    assert_eq!(branch_step("main\n"), BranchStep::Named("main".into()));
    assert_eq!(branch_step("HEAD\n"), BranchStep::Detached);
    assert_eq!(branch_step("  \n"), BranchStep::NoBranch);
    assert_eq!(detached_label("abc1234\n"), Some("@abc1234".to_string()));
    assert_eq!(detached_label("\n"), None);
}

#[test]
fn log_and_event_names() {
    assert_eq!(switchboard::logs::log_file_name("01H1"), "01H1.log");
    assert_eq!(switchboard::logs::rotated_file_name("01H1.log"), "01H1.log.1");
    assert_eq!(switchboard::process::pty_event_name("web"), "pty:web:data");
}

#[test]
fn stop_steps() {
    assert_eq!(stop_step(true, 0), StopAction::Done);
    assert_eq!(stop_step(true, 4000), StopAction::Done);
    assert_eq!(stop_step(false, 4000), StopAction::TermThenWait(TERM_RESEND_MS));
    assert_eq!(stop_step(false, 50), StopAction::TermThenWait(50));
    assert_eq!(stop_step(false, 0), StopAction::Kill);
}

#[test]
fn ready_plans() {
    assert_eq!(ready_plan("oneoff:01HZZZZZZZZZZZZZZZZZZZZZZZ", false), ReadyPlan::NoEvent);
    assert_eq!(ready_plan("oneoff:01HZZZZZZZZZZZZZZZZZZZZZZZ", true), ReadyPlan::NoEvent);
    assert_eq!(ready_plan("web", false), ReadyPlan::ReadyNow);
    assert_eq!(ready_plan("web", true), ReadyPlan::RunProbe);
}
