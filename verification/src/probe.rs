//! Readiness probes: how each kind of probe ends. Connecting, fetching and
//! reading the output stream happen outside; each observation is handed to a
//! step here, which says whether the probe has resolved and how.
use vstd::prelude::*;
use vstd::string::*;

verus! {

/// How long a probe may take before it reports a timeout.
pub const PROBE_TIMEOUT_MS: u64 = 60000;

/// The pause between two attempts of a TCP or HTTP probe.
pub const PROBE_POLL_MS: u64 = 1000;

/// The time limit of one TCP connect or HTTP request.
pub const PROBE_ATTEMPT_MS: u64 = 250;

/// What `regex::Regex::new` reports for a pattern: nothing when it compiles,
/// the error's text when it does not.
pub uninterp spec fn regex_compile_error(pattern: Seq<char>) -> Option<Seq<char>>;

/// Whether the regular expression `pattern`, compiled by `regex`, matches
/// somewhere in `text`.
pub uninterp spec fn regex_finds(pattern: Seq<char>, text: Seq<char>) -> bool;

#[verifier::external_type_specification]
#[verifier::external_body]
pub struct ExRegex(regex::Regex);

/// A log pattern compiled by `regex`, kept with its source text. Only
/// `compile_pattern` makes one, so the compiled form is always that of
/// `source`.
pub struct LogPattern {
    source: String,
    re: regex::Regex,
}

impl LogPattern {
    pub closed spec fn source(&self) -> Seq<char> {
        self.source@
    }
}

/// `regex::Regex::new`. Its outcome is tied to `regex_compile_error`: success
/// exactly when that is `None`, else the error's `Display` text. On success
/// the compiled pattern keeps `pattern` as its source. Which patterns compile
/// is not stated.
#[verifier::external_body]
pub(crate) fn compile_pattern(pattern: &str) -> (r: Result<LogPattern, String>)
    ensures
        match r {
            Ok(p) => regex_compile_error(pattern@) == None::<Seq<char>> && p.source() == pattern@,
            Err(e) => regex_compile_error(pattern@) == Some(e@),
        },
{
    match regex::Regex::new(pattern) {
        Ok(re) => Ok(LogPattern { source: pattern.to_string(), re }),
        Err(e) => Err(e.to_string()),
    }
}

/// `regex::Regex::is_match`: whether the pattern matches somewhere in `text`,
/// tied to `regex_finds` over the pattern's source. Which texts match is not
/// stated.
#[verifier::external_body]
fn pattern_finds(p: &LogPattern, text: &str) -> (r: bool)
    ensures
        r == regex_finds(p.source(), text@),
{
    p.re.is_match(text)
}

/// Why a probe resolved as not ready.
#[derive(Debug, Clone, Copy, PartialEq, Eq, Structural)]
pub enum ProbeFailure {
    /// The time limit passed without a positive observation.
    Timeout,
    /// The process exited before the probe resolved.
    Exited,
    /// The log pattern does not compile.
    InvalidPattern,
    /// The output stream ended.
    StreamClosed,
    /// No HTTP client could be built.
    ClientBuildFailed,
}

/// The reason text reported for a failure.
pub open spec fn failure_text(f: ProbeFailure) -> Seq<char> {
    match f {
        ProbeFailure::Timeout => "timeout"@,
        ProbeFailure::Exited => "exited"@,
        ProbeFailure::InvalidPattern => "invalid-pattern"@,
        ProbeFailure::StreamClosed => "stream-closed"@,
        ProbeFailure::ClientBuildFailed => "client-build-failed"@,
    }
}

/// How a probe resolved: ready, or not ready with a reason.
#[derive(Debug, Clone, PartialEq, Eq)]
pub struct ProbeOutcome {
    pub ready: bool,
    pub reason: Option<String>,
}

pub open spec fn is_ready_outcome(o: ProbeOutcome) -> bool {
    o.ready && o.reason is None
}

pub open spec fn is_failure_outcome(o: ProbeOutcome, f: ProbeFailure) -> bool {
    !o.ready && (o.reason matches Some(t) && t@ == failure_text(f))
}

/// The probe succeeded.
pub fn ready_outcome() -> (o: ProbeOutcome)
    ensures
        is_ready_outcome(o),
{
    ProbeOutcome { ready: true, reason: None }
}

/// The probe failed for `f`.
pub fn failed_outcome(f: ProbeFailure) -> (o: ProbeOutcome)
    ensures
        is_failure_outcome(o, f),
{
    let t = match f {
        ProbeFailure::Timeout => "timeout",
        ProbeFailure::Exited => "exited",
        ProbeFailure::InvalidPattern => "invalid-pattern",
        ProbeFailure::StreamClosed => "stream-closed",
        ProbeFailure::ClientBuildFailed => "client-build-failed",
    };
    proof {
        reveal_strlit("timeout");
        reveal_strlit("exited");
        reveal_strlit("invalid-pattern");
        reveal_strlit("stream-closed");
        reveal_strlit("client-build-failed");
    }
    ProbeOutcome { ready: false, reason: Some(t.to_owned()) }
}

/// Prepares a log probe. A pattern that does not compile (say, one written
/// into the config file by hand) resolves the probe as not ready at once.
pub fn start_log_probe(pattern: &str) -> (r: Result<LogPattern, ProbeOutcome>)
    ensures
        match r {
            Ok(p) => regex_compile_error(pattern@) is None && p.source() == pattern@,
            Err(o) => regex_compile_error(pattern@) is Some && is_failure_outcome(o, ProbeFailure::InvalidPattern),
        },
{
    match compile_pattern(pattern) {
        Ok(p) => Ok(p),
        Err(_) => Err(failed_outcome(ProbeFailure::InvalidPattern)),
    }
}

/// What a log probe observed while waiting for the output stream.
pub enum LogEvent {
    /// A chunk of output, decoded as text.
    Chunk(String),
    /// Some chunks were missed by a slow reader.
    Lagged,
    /// The stream ended.
    Closed,
    /// The time limit passed.
    TimedOut,
}

/// One step of a log probe: a chunk in which the pattern matches resolves it
/// as ready; missed chunks and chunks without a match keep it waiting; the
/// end of the stream or of the time limit resolves it as not ready.
pub fn log_probe_step(p: &LogPattern, ev: &LogEvent) -> (r: Option<ProbeOutcome>)
    ensures
        match ev {
            LogEvent::Chunk(t) => if regex_finds(p.source(), t@) {
                r matches Some(o) && is_ready_outcome(o)
            } else {
                r is None
            },
            LogEvent::Lagged => r is None,
            LogEvent::Closed => r matches Some(o) && is_failure_outcome(o, ProbeFailure::StreamClosed),
            LogEvent::TimedOut => r matches Some(o) && is_failure_outcome(o, ProbeFailure::Timeout),
        },
{
    match ev {
        LogEvent::Chunk(t) => {
            if pattern_finds(p, t.as_str()) {
                Some(ready_outcome())
            } else {
                None
            }
        },
        LogEvent::Lagged => None,
        LogEvent::Closed => Some(failed_outcome(ProbeFailure::StreamClosed)),
        LogEvent::TimedOut => Some(failed_outcome(ProbeFailure::Timeout)),
    }
}

/// One attempt of a TCP or HTTP probe, `remaining_ms` before its time limit:
/// `succeeded` resolves it as ready; otherwise it times out once no time is
/// left, else it keeps polling.
pub fn poll_probe_step(remaining_ms: u64, succeeded: bool) -> (r: Option<ProbeOutcome>)
    ensures
        succeeded ==> (r matches Some(o) && is_ready_outcome(o)),
        !succeeded && remaining_ms == 0 ==> (r matches Some(o) && is_failure_outcome(o, ProbeFailure::Timeout)),
        !succeeded && remaining_ms > 0 ==> r is None,
{
    if succeeded {
        Some(ready_outcome())
    } else if remaining_ms == 0 {
        Some(failed_outcome(ProbeFailure::Timeout))
    } else {
        None
    }
}

} // verus!
