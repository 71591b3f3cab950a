//! The timing of a stop: SIGTERM to the whole process tree, re-sent at a
//! short interval during a grace period (a shell still reading its start-up
//! files drops the signal, and children may appear late); SIGKILL once the
//! grace period is over.
use vstd::prelude::*;

verus! {

/// How long a stopped app gets to exit after SIGTERM, in milliseconds.
pub const STOP_GRACE_MS: u64 = 5000;

/// The interval at which SIGTERM is sent again during the grace period.
pub const TERM_RESEND_MS: u64 = 200;

/// How long to wait for the exit after SIGKILL.
pub const KILL_WAIT_MS: u64 = 1000;

/// How long listeners on a port get after SIGTERM before SIGKILL.
pub const PORT_SWEEP_GRACE_MS: u64 = 1000;

/// How long to wait for the exit after a SIGTERM, with `remaining_ms` left of
/// the grace period: until the next re-send, but never past the deadline.
/// `None` once the grace period is over: escalate to SIGKILL.
pub fn term_wait_ms(remaining_ms: u64) -> (r: Option<u64>)
    ensures
        remaining_ms == 0 ==> r is None,
        remaining_ms > 0 ==> r == Some(if remaining_ms < TERM_RESEND_MS {
            remaining_ms
        } else {
            TERM_RESEND_MS
        }),
        r matches Some(w) ==> 0 < w <= remaining_ms && w <= TERM_RESEND_MS,
{
    if remaining_ms == 0 {
        None
    } else if remaining_ms < TERM_RESEND_MS {
        Some(remaining_ms)
    } else {
        Some(TERM_RESEND_MS)
    }
}

/// What a stop does next.
#[derive(Debug, Clone, Copy, PartialEq, Eq, Structural)]
pub enum StopAction {
    /// The process has exited: nothing more to signal.
    Done,
    /// Send SIGTERM to the process tree, then wait this many milliseconds
    /// for the exit.
    TermThenWait(u64),
    /// The grace period is over: send SIGKILL, then wait `KILL_WAIT_MS`.
    Kill,
}

/// One step of a stop, given whether the exit was seen and how much of the
/// grace period is left: done once exited; SIGTERM and a wait while time is
/// left; SIGKILL once it is not.
pub fn stop_step(exited: bool, remaining_ms: u64) -> (a: StopAction)
    ensures
        exited ==> a == StopAction::Done,
        !exited && remaining_ms == 0 ==> a == StopAction::Kill,
        !exited && remaining_ms > 0 ==> a == StopAction::TermThenWait(
            if remaining_ms < TERM_RESEND_MS {
                remaining_ms
            } else {
                TERM_RESEND_MS
            },
        ),
{
    if exited {
        return StopAction::Done;
    }
    match term_wait_ms(remaining_ms) {
        Some(w) => StopAction::TermThenWait(w),
        None => StopAction::Kill,
    }
}

} // verus!
