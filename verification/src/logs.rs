//! The size budget of an app's on-disk output log. When the next write would
//! take the live file past the cap, the file is first rotated to `<id>.log.1`
//! (one generation kept) and a fresh live file started.
use vstd::prelude::*;
use vstd::string::*;

verus! {

/// Hard size cap of a live log file, in bytes.
pub const MAX_LOG_BYTES: u64 = 5242880;

/// Bytes written to the live log file since it was opened or rotated.
pub struct LogBudget {
    written: u64,
}

impl LogBudget {
    pub closed spec fn written(&self) -> nat {
        self.written as nat
    }

    /// The budget of a log file that already holds `existing_len` bytes, so an
    /// oversized file rotates on its first write instead of growing further.
    pub fn open(existing_len: u64) -> (b: Self)
        ensures
            b.written() == existing_len,
    {
        LogBudget { written: existing_len }
    }

    /// The bytes counted so far.
    pub fn written_bytes(&self) -> (r: u64)
        ensures
            r == self.written(),
    {
        self.written
    }

    /// Whether a write of `len` bytes must rotate the file first.
    pub fn needs_rotation(&self, len: u64) -> (r: bool)
        ensures
            r == (self.written() + len > MAX_LOG_BYTES),
    {
        self.written as u128 + len as u128 > MAX_LOG_BYTES as u128
    }

    /// The live file was rotated: it starts empty.
    pub fn rotated(&mut self)
        ensures
            final(self).written() == 0,
    {
        self.written = 0;
    }

    /// `len` bytes were written to the live file.
    pub fn wrote(&mut self, len: u64)
        requires
            old(self).written() + len <= u64::MAX,
        ensures
            final(self).written() == old(self).written() + len,
    {
        self.written = self.written + len;
    }
}

/// A write no larger than the cap, rotating first when the budget says so,
/// leaves the live file within the cap.
pub proof fn lemma_live_log_within_cap(written: nat, len: nat)
    requires
        written <= MAX_LOG_BYTES,
        len <= MAX_LOG_BYTES,
    ensures
        (if written + len > MAX_LOG_BYTES {
            0 + len
        } else {
            written + len
        }) <= MAX_LOG_BYTES,
{
}

/// The live log file of an app: `<id>.log`.
pub fn log_file_name(id: &str) -> (s: String)
    ensures
        s@ == id@ + ".log"@,
{
    let mut s = String::new();
    s.append(id);
    s.append(".log");
    s
}

/// The rotated generation of a log file: `<name>.1`.
pub fn rotated_file_name(name: &str) -> (s: String)
    ensures
        s@ == name@ + ".1"@,
{
    let mut s = String::new();
    s.append(name);
    s.append(".1");
    s
}

/// Whether an HTTP readiness probe counts a response status as ready: the
/// expected status when one is configured, else any 2xx or 3xx.
pub fn http_status_ready(status: u16, expect_status: Option<u16>) -> (r: bool)
    ensures
        r == match expect_status {
            Some(want) => status == want,
            None => 200 <= status < 400,
        },
{
    match expect_status {
        Some(want) => status == want,
        None => 200 <= status && status < 400,
    }
}

} // verus!
