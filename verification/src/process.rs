//! Bookkeeping for the services this app runs: which are starting, running
//! (with which pid), ready, or exited (with which code), the recent output of
//! each, and whether a terminal view is attached. The processes themselves,
//! their terminals and log files, are driven outside this module; each event
//! there becomes one transition here.
use vstd::prelude::*;
use vstd::string::*;

use crate::ring::{concat, trimmed_to_caps, RingBuffer};
use crate::text::{decimal, str_eq, views};

verus! {

/// Scrollback budget per app, in lines.
pub const RING_CAP_LINES: usize = 300;

/// Hard byte cap per app scrollback, so one huge line cannot pin much memory.
pub const RING_CAP_BYTES: usize = 524288;

/// The id prefix of one-off shell sessions; they are not counted as apps.
pub open spec fn shell_prefix() -> Seq<char> {
    seq!['o', 'n', 'e', 'o', 'f', 'f', ':']
}

/// `id` names a one-off shell session.
pub open spec fn is_shell_id(id: Seq<char>) -> bool {
    id.len() >= 7 && id.take(7) == shell_prefix()
}

/// `id` starts with the shell prefix.
pub fn is_shell(id: &str) -> (r: bool)
    ensures
        r == is_shell_id(id@),
{
    let n = id.unicode_len();
    if n < 7 {
        return false;
    }
    let head = id.substring_char(0, 7);
    let p = "oneoff:";
    proof {
        reveal_strlit("oneoff:");
    }
    assert(p@ =~= shell_prefix());
    str_eq(head, p)
}

/// A live process: its pid and the port it was started with.
#[derive(Clone, Copy, Debug, PartialEq, Eq)]
pub struct RunInfo {
    pub pid: u32,
    pub port: Option<u16>,
}

/// What `status` reports for an app.
#[derive(Clone, Debug, PartialEq, Eq)]
pub struct StatusSnapshot {
    pub running: bool,
    pub pid: Option<u32>,
    pub last_exit: Option<i32>,
    pub ready: bool,
}

/// A readiness resolution: `ready` is false when the probe timed out or the
/// process went away first; `reason` says which.
#[derive(Clone, Debug, PartialEq, Eq)]
pub struct ReadyPayload {
    pub id: String,
    pub ready: bool,
    pub reason: Option<String>,
}

/// An app's process exited with `code`.
#[derive(Clone, Debug, PartialEq, Eq)]
pub struct ExitPayload {
    pub id: String,
    pub code: i32,
}

/// An app's process started with `pid`.
#[derive(Clone, Debug, PartialEq, Eq)]
pub struct StartedPayload {
    pub id: String,
    pub pid: u32,
}

/// The state kept for one id.
pub struct AppState {
    pub running: Option<RunInfo>,
    pub starting: bool,
    pub last_exit: Option<i32>,
    pub ring: Option<Seq<Seq<u8>>>,
    pub ready: Option<bool>,
    pub attached: bool,
}

/// The state of an id never seen.
pub open spec fn fresh_state() -> AppState {
    AppState { running: None, starting: false, last_exit: None, ring: None, ready: None, attached: false }
}

/// A start may begin: nothing is running or starting under the id.
pub open spec fn may_start(s: AppState) -> bool {
    s.running is None && !s.starting
}

pub open spec fn after_begin_start(s: AppState) -> AppState {
    AppState { starting: true, ..s }
}

pub open spec fn after_abort_start(s: AppState) -> AppState {
    AppState { starting: false, ..s }
}

/// A spawn succeeded: running with `pid`, no stale exit code, an empty
/// scrollback, and ready at once exactly when no probe is configured.
pub open spec fn after_started(s: AppState, pid: u32, port: Option<u16>, has_probe: bool) -> AppState {
    AppState {
        running: Some(RunInfo { pid, port }),
        starting: false,
        last_exit: None,
        ring: Some(Seq::empty()),
        ready: Some(!has_probe),
        ..s
    }
}

/// The process exited: not running, the code kept, any terminal view dropped.
/// The scrollback stays so a crashed app's tail can still be read.
pub open spec fn after_exited(s: AppState, code: i32) -> AppState {
    AppState { running: None, last_exit: Some(code), attached: false, ..s }
}

/// A probe resolved; it counts only if the process is still running.
pub open spec fn after_probe(s: AppState, ready: bool) -> AppState {
    if s.running is Some {
        AppState { ready: Some(ready), ..s }
    } else {
        s
    }
}

pub open spec fn after_clear_ring(s: AppState) -> AppState {
    AppState { ring: None, ready: None, ..s }
}

pub open spec fn after_attach(s: AppState) -> AppState {
    AppState { attached: s.running is Some, ..s }
}

pub open spec fn after_detach(s: AppState) -> AppState {
    AppState { attached: false, ..s }
}

/// The status reported for a state.
pub open spec fn status_of(s: AppState) -> StatusSnapshot {
    StatusSnapshot {
        running: s.running is Some,
        pid: match s.running {
            Some(r) => Some(r.pid),
            None => None,
        },
        last_exit: s.last_exit,
        ready: match s.running {
            Some(_) => match s.ready {
                Some(b) => b,
                None => false,
            },
            None => false,
        },
    }
}

/// The scrollback bytes of a state (none when there is no buffer).
pub open spec fn scrollback_of(s: AppState) -> Seq<u8> {
    match s.ring {
        Some(c) => concat(c),
        None => Seq::empty(),
    }
}

/// What `attach` asks the caller to do.
#[derive(Clone, Copy, Debug, PartialEq, Eq)]
pub struct AttachPlan {
    /// Start forwarding live output (the process is running).
    pub forward: bool,
    /// Abort the forwarding task installed before.
    pub abort_previous: bool,
}

/// The text of the error for a second start of a running id.
pub open spec fn already_running_text(id: Seq<char>) -> Seq<char> {
    "app "@ + id + " already running"@
}

/// The text of the error for output sent to an id that is not running.
pub open spec fn not_running_text(id: Seq<char>) -> Seq<char> {
    "app "@ + id + " not running"@
}

pub fn already_running_message(id: &str) -> (s: String)
    ensures
        s@ == already_running_text(id@),
{
    let mut s = String::new();
    s.append("app ");
    s.append(id);
    s.append(" already running");
    s
}

pub fn not_running_message(id: &str) -> (s: String)
    ensures
        s@ == not_running_text(id@),
{
    let mut s = String::new();
    s.append("app ");
    s.append(id);
    s.append(" not running");
    s
}

/// The event that carries an app's terminal output: `pty:<id>:data`.
pub fn pty_event_name(id: &str) -> (s: String)
    ensures
        s@ == "pty:"@ + id@ + ":data"@,
{
    let mut s = String::new();
    s.append("pty:");
    s.append(id);
    s.append(":data");
    s
}

/// The character of the standard base64 alphabet for the 6-bit value `v`.
pub open spec fn base64_char(v: int) -> char {
    if v < 26 {
        ('A' as int + v) as char
    } else if v < 52 {
        ('a' as int + (v - 26)) as char
    } else if v < 62 {
        ('0' as int + (v - 52)) as char
    } else if v == 62 {
        '+'
    } else {
        '/'
    }
}

/// The standard base64 text of `bytes` (RFC 4648: each group of three
/// bytes becomes four characters; a last group of one or two bytes is
/// padded with `=`), as `base64::engine::general_purpose::STANDARD` writes
/// it.
pub open spec fn base64_standard(bytes: Seq<u8>) -> Seq<char>
    decreases bytes.len(),
{
    if bytes.len() == 0 {
        Seq::empty()
    } else if bytes.len() == 1 {
        let x = bytes[0] as int;
        seq![base64_char(x / 4), base64_char((x % 4) * 16), '=', '=']
    } else if bytes.len() == 2 {
        let x = bytes[0] as int;
        let y = bytes[1] as int;
        seq![base64_char(x / 4), base64_char((x % 4) * 16 + y / 16), base64_char((y % 16) * 4), '=']
    } else {
        let x = bytes[0] as int;
        let y = bytes[1] as int;
        let z = bytes[2] as int;
        seq![
            base64_char(x / 4),
            base64_char((x % 4) * 16 + y / 16),
            base64_char((y % 16) * 4 + z / 64),
            base64_char(z % 64),
        ] + base64_standard(bytes.subrange(3, bytes.len() as int))
    }
}

/// The 6-bit value of a character of the standard base64 alphabet.
pub open spec fn base64_value(c: char) -> int {
    if 'A' <= c <= 'Z' {
        c as int - 'A' as int
    } else if 'a' <= c <= 'z' {
        c as int - 'a' as int + 26
    } else if '0' <= c <= '9' {
        c as int - '0' as int + 52
    } else if c == '+' {
        62
    } else {
        63
    }
}

/// Decoding standard base64 text: each group of four characters gives
/// three bytes, fewer where the group ends in `=` padding.
pub open spec fn base64_decode(t: Seq<char>) -> Seq<u8>
    decreases t.len(),
{
    if t.len() < 4 {
        Seq::empty()
    } else {
        let a = base64_value(t[0]);
        let b = base64_value(t[1]);
        let c = base64_value(t[2]);
        let d = base64_value(t[3]);
        let x = (a * 4 + b / 16) as u8;
        let y = ((b % 16) * 16 + c / 4) as u8;
        let z = ((c % 4) * 64 + d) as u8;
        let group = if t[2] == '=' {
            seq![x]
        } else if t[3] == '=' {
            seq![x, y]
        } else {
            seq![x, y, z]
        };
        group + base64_decode(t.subrange(4, t.len() as int))
    }
}

proof fn lemma_base64_char(v: int)
    requires
        0 <= v < 64,
    ensures
        base64_value(base64_char(v)) == v,
        base64_char(v) != '=',
{
}

proof fn lemma_base64_group(x: int, y: int, z: int)
    requires
        0 <= x < 256,
        0 <= y < 256,
        0 <= z < 256,
    ensures
        (x / 4) * 4 + ((x % 4) * 16 + y / 16) / 16 == x,
        (((x % 4) * 16 + y / 16) % 16) * 16 + ((y % 16) * 4 + z / 64) / 4 == y,
        (((y % 16) * 4 + z / 64) % 4) * 64 + z % 64 == z,
        ((y % 16) * 4) / 4 == y % 16,
        0 <= x / 4 < 64,
        0 <= (x % 4) * 16 + y / 16 < 64,
        0 <= (x % 4) * 16 < 64,
        0 <= (y % 16) * 4 + z / 64 < 64,
        0 <= (y % 16) * 4 < 64,
        0 <= z % 64 < 64,
{
    assert((x / 4) * 4 + ((x % 4) * 16 + y / 16) / 16 == x) by (nonlinear_arith)
        requires
            0 <= x < 256,
            0 <= y < 256,
    ;
    assert((((x % 4) * 16 + y / 16) % 16) * 16 + ((y % 16) * 4 + z / 64) / 4 == y) by (nonlinear_arith)
        requires
            0 <= x < 256,
            0 <= y < 256,
            0 <= z < 256,
    ;
    assert((((y % 16) * 4 + z / 64) % 4) * 64 + z % 64 == z) by (nonlinear_arith)
        requires
            0 <= y < 256,
            0 <= z < 256,
    ;
    assert(((y % 16) * 4) / 4 == y % 16) by (nonlinear_arith)
        requires
            0 <= y < 256,
    ;
}

/// Decoding the payload gives back the bytes: no byte of the output is lost
/// or changed on its way to the window.
pub proof fn lemma_payload_decodes(bytes: Seq<u8>)
    ensures
        base64_decode(base64_standard(bytes)) == bytes,
    decreases bytes.len(),
{
    let t = base64_standard(bytes);
    if bytes.len() == 0 {
    } else if bytes.len() == 1 {
        let x = bytes[0] as int;
        lemma_base64_group(x, 0, 0);
        lemma_base64_char(x / 4);
        lemma_base64_char((x % 4) * 16);
        assert(t.len() == 4);
        assert(t[2] == '=');
        assert(base64_value(t[0]) == x / 4);
        assert(base64_value(t[1]) == (x % 4) * 16);
        assert(((x % 4) * 16) / 16 == x % 4);
        assert((x / 4) * 4 + x % 4 == x);
        assert(t.subrange(4, 4) =~= Seq::<char>::empty());
        assert(((x / 4) * 4 + ((x % 4) * 16) / 16) as u8 == bytes[0]);
        assert(base64_decode(Seq::<char>::empty()) =~= Seq::<u8>::empty());
        assert(base64_decode(t) == seq![bytes[0]] + base64_decode(t.subrange(4, 4)));
        assert(base64_decode(t) =~= bytes);
    } else if bytes.len() == 2 {
        let x = bytes[0] as int;
        let y = bytes[1] as int;
        lemma_base64_group(x, y, 0);
        lemma_base64_char(x / 4);
        lemma_base64_char((x % 4) * 16 + y / 16);
        lemma_base64_char((y % 16) * 4);
        assert(t.len() == 4);
        assert(t[2] != '=');
        assert(t[3] == '=');
        assert(base64_value(t[0]) == x / 4);
        assert(base64_value(t[1]) == (x % 4) * 16 + y / 16);
        assert(base64_value(t[2]) == (y % 16) * 4);
        assert(((x / 4) * 4 + ((x % 4) * 16 + y / 16) / 16) as u8 == bytes[0]);
        assert(((((x % 4) * 16 + y / 16) % 16) * 16 + ((y % 16) * 4) / 4) as u8 == bytes[1]) by {
            assert((((x % 4) * 16 + y / 16) % 16) * 16 + ((y % 16) * 4 + 0int / 64) / 4 == y);
        }
        assert(t.subrange(4, 4) =~= Seq::<char>::empty());
        assert(base64_decode(Seq::<char>::empty()) =~= Seq::<u8>::empty());
        assert(base64_decode(t) == seq![bytes[0], bytes[1]] + base64_decode(t.subrange(4, 4)));
        assert(base64_decode(t) =~= bytes);
    } else {
        let x = bytes[0] as int;
        let y = bytes[1] as int;
        let z = bytes[2] as int;
        let rest = bytes.subrange(3, bytes.len() as int);
        lemma_base64_group(x, y, z);
        lemma_base64_char(x / 4);
        lemma_base64_char((x % 4) * 16 + y / 16);
        lemma_base64_char((y % 16) * 4 + z / 64);
        lemma_base64_char(z % 64);
        lemma_payload_decodes(rest);
        let head = seq![
            base64_char(x / 4),
            base64_char((x % 4) * 16 + y / 16),
            base64_char((y % 16) * 4 + z / 64),
            base64_char(z % 64),
        ];
        assert(t == head + base64_standard(rest));
        assert(t.subrange(4, t.len() as int) =~= base64_standard(rest));
        assert(base64_decode(t) =~= seq![bytes[0], bytes[1], bytes[2]] + rest);
        assert(seq![bytes[0], bytes[1], bytes[2]] + rest =~= bytes);
    }
}

/// `base64::Engine::encode` with the `STANDARD` engine; the contract claims
/// the text is `base64_standard` of the bytes.
#[verifier::external_body]
fn encode_payload(bytes: &[u8]) -> (s: String)
    ensures
        s@ == base64_standard(bytes@),
{
    base64::Engine::encode(&base64::engine::general_purpose::STANDARD, bytes)
}

/// The payload of a `pty:<id>:data` event for a chunk of terminal output:
/// its standard base64 text, so arbitrary bytes survive the trip to the
/// window as text.
pub fn output_payload(bytes: &[u8]) -> (s: String)
    ensures
        s@ == base64_standard(bytes@),
        base64_decode(s@) == bytes@,
{
    proof {
        lemma_payload_decodes(bytes@);
    }
    encode_payload(bytes)
}

/// What readiness event a freshly started process gets.
#[derive(Debug, Clone, Copy, PartialEq, Eq, Structural)]
pub enum ReadyPlan {
    /// A one-off shell: no readiness event at all.
    NoEvent,
    /// No probe is configured: ready at once.
    ReadyNow,
    /// Run the configured probe and report its outcome.
    RunProbe,
}

/// The readiness plan of a start: shells get no event; an app without a
/// probe is ready at once; an app with one waits for the probe.
pub fn ready_plan(id: &str, has_probe: bool) -> (p: ReadyPlan)
    ensures
        is_shell_id(id@) ==> p == ReadyPlan::NoEvent,
        !is_shell_id(id@) && !has_probe ==> p == ReadyPlan::ReadyNow,
        !is_shell_id(id@) && has_probe ==> p == ReadyPlan::RunProbe,
{
    if is_shell(id) {
        ReadyPlan::NoEvent
    } else if has_probe {
        ReadyPlan::RunProbe
    } else {
        ReadyPlan::ReadyNow
    }
}

/// How often the stats sampler measures the running apps, in milliseconds.
pub const STATS_INTERVAL_MS: u64 = 2000;

/// The "Running: N" label of the tray menu.
pub open spec fn running_label_text(n: nat) -> Seq<char> {
    "Running: "@ + crate::text::decimal_chars(n)
}

pub fn running_label(n: usize) -> (s: String)
    ensures
        s@ == running_label_text(n as nat),
{
    let mut s = String::new();
    s.append("Running: ");
    s.append(decimal(n as u64).as_str());
    s
}

struct Slot {
    id: String,
    running: Option<RunInfo>,
    starting: bool,
    last_exit: Option<i32>,
    ring: Option<RingBuffer>,
    ready: Option<bool>,
    attached: bool,
}

spec fn slot_state(s: Slot) -> AppState {
    AppState {
        running: s.running,
        starting: s.starting,
        last_exit: s.last_exit,
        ring: match s.ring {
            Some(r) => Some(r.chunk_seq()),
            None => None,
        },
        ready: s.ready,
        attached: s.attached,
    }
}

spec fn slot_ok(s: Slot) -> bool {
    s.ring matches Some(r) ==> r.wf() && r.line_cap() == RING_CAP_LINES && r.byte_cap() == RING_CAP_BYTES
}

/// Per-id state of every app and shell this process has dealt with.
pub struct ProcessTable {
    slots: Vec<Slot>,
}

impl ProcessTable {
    /// Slots have distinct ids and sound scrollback buffers.
    pub closed spec fn wf(&self) -> bool {
        &&& forall|i: int, j: int|
            0 <= i < j < self.slots@.len() ==> self.slots@[i].id@ != self.slots@[j].id@
        &&& forall|i: int| 0 <= i < self.slots@.len() ==> slot_ok(#[trigger] self.slots@[i])
    }

    /// The ids seen so far, in the order first seen.
    pub closed spec fn known_ids(&self) -> Seq<Seq<char>> {
        self.slots@.map_values(|s: Slot| s.id@)
    }

    /// The state of `id`.
    pub closed spec fn entry(&self, id: Seq<char>) -> AppState {
        if exists|i: int| 0 <= i < self.slots@.len() && (#[trigger] self.slots@[i]).id@ == id {
            slot_state(self.slots@[choose|i: int| 0 <= i < self.slots@.len() && (#[trigger] self.slots@[i]).id@ == id])
        } else {
            fresh_state()
        }
    }

    proof fn lemma_entry_at(&self, i: int)
        requires
            self.wf(),
            0 <= i < self.slots@.len(),
        ensures
            self.entry(self.slots@[i].id@) == slot_state(self.slots@[i]),
            self.known_ids()[i] == self.slots@[i].id@,
    {
        let id = self.slots@[i].id@;
        let k = choose|k: int| 0 <= k < self.slots@.len() && (#[trigger] self.slots@[k]).id@ == id;
        if k != i {
            if k < i {
                assert(self.slots@[k].id@ != self.slots@[i].id@);
            } else {
                assert(self.slots@[i].id@ != self.slots@[k].id@);
            }
        }
    }

    proof fn lemma_entry_absent(&self, id: Seq<char>)
        requires
            forall|i: int| 0 <= i < self.slots@.len() ==> (#[trigger] self.slots@[i]).id@ != id,
        ensures
            self.entry(id) == fresh_state(),
    {
    }

    /// The known ids list each id once, and every id whose state is not the
    /// fresh one is among them: the table's id lists and counts cover
    /// exactly the ids it has dealt with.
    pub proof fn lemma_known_ids(&self)
        requires
            self.wf(),
        ensures
            self.known_ids().no_duplicates(),
            forall|id: Seq<char>| #[trigger] self.entry(id) != fresh_state() ==> self.known_ids().contains(id),
    {
        let ids = self.known_ids();
        assert forall|a: int, b: int| 0 <= a < ids.len() && 0 <= b < ids.len() && a != b implies ids[a] != ids[b] by {
            if a < b {
                assert(self.slots@[a].id@ != self.slots@[b].id@);
            } else {
                assert(self.slots@[b].id@ != self.slots@[a].id@);
            }
        }
        assert forall|id: Seq<char>| #[trigger] self.entry(id) != fresh_state() implies ids.contains(id) by {
            if exists|i: int| 0 <= i < self.slots@.len() && (#[trigger] self.slots@[i]).id@ == id {
                let i = choose|i: int| 0 <= i < self.slots@.len() && (#[trigger] self.slots@[i]).id@ == id;
                assert(ids[i] == id);
            }
        }
    }

    /// The ids whose process runs.
    pub open spec fn running_set(&self) -> Set<Seq<char>> {
        Set::new(|x: Seq<char>| self.entry(x).running is Some)
    }

    /// The apps whose process runs, one-off shells left out.
    pub open spec fn running_app_set(&self) -> Set<Seq<char>> {
        Set::new(|x: Seq<char>| self.entry(x).running is Some && !is_shell_id(x))
    }

    /// An empty table.
    pub fn new() -> (t: Self)
        ensures
            t.wf(),
            t.known_ids() == Seq::<Seq<char>>::empty(),
            forall|id: Seq<char>| #[trigger] t.entry(id) == fresh_state(),
    {
        let t = ProcessTable { slots: Vec::new() };
        assert(t.known_ids() =~= Seq::<Seq<char>>::empty());
        t
    }

    fn find(&self, id: &str) -> (r: Option<usize>)
        requires
            self.wf(),
        ensures
            r matches Some(i) ==> i < self.slots@.len() && self.slots@[i as int].id@ == id@,
            r is None ==> forall|i: int| 0 <= i < self.slots@.len() ==> (#[trigger] self.slots@[i]).id@ != id@,
    {
        let mut i: usize = 0;
        while i < self.slots.len()
            invariant
                i <= self.slots@.len(),
                forall|k: int| 0 <= k < i ==> (#[trigger] self.slots@[k]).id@ != id@,
            decreases self.slots@.len() - i,
        {
            if str_eq(self.slots[i].id.as_str(), id) {
                return Some(i);
            }
            i = i + 1;
        }
        None
    }

    /// Takes the slot of `id` out of the table (a fresh one if none), to be
    /// put back with `put_back`.
    fn take_slot(&mut self, id: &str) -> (r: (usize, Slot))
        requires
            old(self).wf(),
        ensures
            r.0 <= final(self).slots@.len(),
            r.1.id@ == id@,
            slot_ok(r.1),
            slot_state(r.1) == old(self).entry(id@),
            forall|i: int| 0 <= i < final(self).slots@.len() ==> (#[trigger] final(self).slots@[i]).id@ != id@,
            forall|i: int| 0 <= i < final(self).slots@.len() ==> slot_ok(#[trigger] final(self).slots@[i]),
            forall|i: int, j: int|
                0 <= i < j < final(self).slots@.len() ==> final(self).slots@[i].id@ != final(self).slots@[j].id@,
            forall|x: Seq<char>| x != id@ ==> #[trigger] old(self).entry(x) == final(self).entry(x),
            old(self).known_ids().contains(id@) ==> old(self).known_ids() == final(self).known_ids().insert(r.0 as int, id@),
            !old(self).known_ids().contains(id@) ==> old(self).known_ids() == final(self).known_ids() && r.0 == final(self).slots@.len(),
    {
        let ghost old_slots = self.slots@;
        match self.find(id) {
            Some(i) => {
                proof {
                    self.lemma_entry_at(i as int);
                }
                let s = self.slots.remove(i);
                proof {
                    assert(self.slots@ == old_slots.remove(i as int));
                    assert forall|x: Seq<char>| x != id@ implies #[trigger] old(self).entry(x) == self.entry(x) by {
                        if exists|k: int| 0 <= k < self.slots@.len() && (#[trigger] self.slots@[k]).id@ == x {
                            let k = choose|k: int| 0 <= k < self.slots@.len() && (#[trigger] self.slots@[k]).id@ == x;
                            self.lemma_entry_at(k);
                            let k0 = if k < i { k } else { k + 1 };
                            assert(old_slots[k0] == self.slots@[k]);
                            old(self).lemma_entry_at(k0);
                        } else {
                            assert forall|k: int| 0 <= k < old_slots.len() implies (#[trigger] old_slots[k]).id@ != x by {
                                if k < i {
                                    assert(self.slots@[k] == old_slots[k]);
                                } else if k > i {
                                    assert(self.slots@[k - 1] == old_slots[k]);
                                }
                            }
                        }
                    }
                    assert(old(self).known_ids() =~= self.known_ids().insert(i as int, id@));
                    assert(old(self).known_ids()[i as int] == id@);
                }
                (i, s)
            },
            None => {
                proof {
                    self.lemma_entry_absent(id@);
                    assert(!old(self).known_ids().contains(id@)) by {
                        if old(self).known_ids().contains(id@) {
                            let k = choose|k: int| 0 <= k < old(self).known_ids().len() && old(self).known_ids()[k] == id@;
                            assert(old_slots[k].id@ == id@);
                        }
                    }
                }
                let s = Slot {
                    id: id.to_owned(),
                    running: None,
                    starting: false,
                    last_exit: None,
                    ring: None,
                    ready: None,
                    attached: false,
                };
                (self.slots.len(), s)
            },
        }
    }

    /// Puts back a slot taken with `take_slot`.
    fn put_back(&mut self, at: usize, s: Slot)
        requires
            at <= old(self).slots@.len(),
            slot_ok(s),
            forall|i: int| 0 <= i < old(self).slots@.len() ==> (#[trigger] old(self).slots@[i]).id@ != s.id@,
            forall|i: int| 0 <= i < old(self).slots@.len() ==> slot_ok(#[trigger] old(self).slots@[i]),
            forall|i: int, j: int|
                0 <= i < j < old(self).slots@.len() ==> old(self).slots@[i].id@ != old(self).slots@[j].id@,
        ensures
            final(self).wf(),
            final(self).entry(s.id@) == slot_state(s),
            forall|x: Seq<char>| x != s.id@ ==> #[trigger] final(self).entry(x) == old(self).entry(x),
            final(self).known_ids() == old(self).known_ids().insert(at as int, s.id@),
    {
        let ghost old_slots = self.slots@;
        let ghost sid = s.id@;
        self.slots.insert(at, s);
        proof {
            assert(self.slots@ == old_slots.insert(at as int, s));
            assert forall|i: int, j: int| 0 <= i < j < self.slots@.len() implies self.slots@[i].id@ != self.slots@[j].id@ by {
                if i == at {
                    assert(self.slots@[j] == old_slots[j - 1]);
                } else if j == at {
                    assert(self.slots@[i] == old_slots[i]);
                } else {
                    let i0 = if i < at { i } else { i - 1 };
                    let j0 = if j < at { j } else { j - 1 };
                    assert(self.slots@[i] == old_slots[i0]);
                    assert(self.slots@[j] == old_slots[j0]);
                }
            }
            assert forall|i: int| 0 <= i < self.slots@.len() implies slot_ok(#[trigger] self.slots@[i]) by {
                if i < at {
                    assert(self.slots@[i] == old_slots[i]);
                } else if i > at {
                    assert(self.slots@[i] == old_slots[i - 1]);
                }
            }
            self.lemma_entry_at(at as int);
            assert forall|x: Seq<char>| x != sid implies #[trigger] self.entry(x) == old(self).entry(x) by {
                if exists|k: int| 0 <= k < old_slots.len() && (#[trigger] old_slots[k]).id@ == x {
                    let k = choose|k: int| 0 <= k < old_slots.len() && (#[trigger] old_slots[k]).id@ == x;
                    let k1 = if k < at { k } else { k + 1 };
                    assert(self.slots@[k1] == old_slots[k]);
                    self.lemma_entry_at(k1);
                    assert forall|i: int, j: int| 0 <= i < j < old_slots.len() implies old_slots[i].id@ != old_slots[j].id@ by {}
                    old(self).lemma_entry_at(k);
                } else {
                    assert forall|k: int| 0 <= k < self.slots@.len() implies (#[trigger] self.slots@[k]).id@ != x by {
                        if k < at {
                            assert(self.slots@[k] == old_slots[k]);
                        } else if k > at {
                            assert(self.slots@[k] == old_slots[k - 1]);
                        }
                    }
                }
            }
            assert(self.known_ids() =~= old(self).known_ids().insert(at as int, sid));
        }
    }

    /// Claims `id` for a start. Refused while a run is in progress or
    /// another start of the same id is mid-flight.
    pub fn begin_start(&mut self, id: &str) -> (r: Result<(), String>)
        requires
            old(self).wf(),
        ensures
            final(self).wf(),
            may_start(old(self).entry(id@)) ==> r is Ok && final(self).entry(id@) == after_begin_start(old(self).entry(id@)),
            !may_start(old(self).entry(id@)) ==> (r matches Err(e) && e@ == already_running_text(id@))
                && final(self).entry(id@) == old(self).entry(id@),
            forall|x: Seq<char>| x != id@ ==> #[trigger] final(self).entry(x) == old(self).entry(x),
    {
        let (at, mut s) = self.take_slot(id);
        let ok = s.running.is_none() && !s.starting;
        if ok {
            s.starting = true;
        }
        self.put_back(at, s);
        if ok {
            Ok(())
        } else {
            Err(already_running_message(id))
        }
    }

    /// Releases the claim of a start that failed before the process ran.
    pub fn abort_start(&mut self, id: &str)
        requires
            old(self).wf(),
        ensures
            final(self).wf(),
            final(self).entry(id@) == after_abort_start(old(self).entry(id@)),
            forall|x: Seq<char>| x != id@ ==> #[trigger] final(self).entry(x) == old(self).entry(x),
    {
        let (at, mut s) = self.take_slot(id);
        s.starting = false;
        self.put_back(at, s);
    }

    /// Records a spawned process.
    pub fn record_started(&mut self, id: &str, pid: u32, port: Option<u16>, has_probe: bool)
        requires
            old(self).wf(),
        ensures
            final(self).wf(),
            final(self).entry(id@) == after_started(old(self).entry(id@), pid, port, has_probe),
            final(self).entry(id@).running == Some(RunInfo { pid, port }),
            status_of(final(self).entry(id@)) == (StatusSnapshot {
                running: true,
                pid: Some(pid),
                last_exit: None,
                ready: !has_probe,
            }),
            forall|x: Seq<char>| x != id@ ==> #[trigger] final(self).entry(x) == old(self).entry(x),
    {
        let (at, mut s) = self.take_slot(id);
        s.running = Some(RunInfo { pid, port });
        s.last_exit = None;
        s.starting = false;
        s.ring = Some(RingBuffer::new(RING_CAP_LINES, RING_CAP_BYTES));
        s.ready = Some(!has_probe);
        self.put_back(at, s);
    }

    /// Records the exit of `id`'s process; returns whether a terminal view was
    /// attached (its forwarding task is then to be aborted).
    pub fn record_exit(&mut self, id: &str, code: i32) -> (had_view: bool)
        requires
            old(self).wf(),
        ensures
            final(self).wf(),
            had_view == old(self).entry(id@).attached,
            final(self).entry(id@) == after_exited(old(self).entry(id@), code),
            forall|x: Seq<char>| x != id@ ==> #[trigger] final(self).entry(x) == old(self).entry(x),
    {
        let (at, mut s) = self.take_slot(id);
        let had_view = s.attached;
        s.running = None;
        s.last_exit = Some(code);
        s.attached = false;
        self.put_back(at, s);
        had_view
    }

    /// Records a probe's outcome, if the run it was for is still the current one.
    pub fn record_probe(&mut self, id: &str, ready: bool)
        requires
            old(self).wf(),
        ensures
            final(self).wf(),
            final(self).entry(id@) == after_probe(old(self).entry(id@), ready),
            old(self).entry(id@).running is Some ==> status_of(final(self).entry(id@)) == (StatusSnapshot {
                ready,
                ..status_of(old(self).entry(id@))
            }),
            old(self).entry(id@).running is None ==> final(self).entry(id@) == old(self).entry(id@),
            forall|x: Seq<char>| x != id@ ==> #[trigger] final(self).entry(x) == old(self).entry(x),
    {
        let (at, mut s) = self.take_slot(id);
        if s.running.is_some() {
            s.ready = Some(ready);
        }
        self.put_back(at, s);
    }

    /// Drops the scrollback and the readiness flag of `id`.
    pub fn clear_ring(&mut self, id: &str)
        requires
            old(self).wf(),
        ensures
            final(self).wf(),
            final(self).entry(id@) == after_clear_ring(old(self).entry(id@)),
            forall|x: Seq<char>| x != id@ ==> #[trigger] final(self).entry(x) == old(self).entry(x),
    {
        let (at, mut s) = self.take_slot(id);
        s.ring = None;
        s.ready = None;
        self.put_back(at, s);
    }

    /// Attaches a terminal view: the scrollback, if any, is replayed as one
    /// event payload (its base64 text); live output is forwarded only while
    /// the process runs; any view attached before is replaced.
    pub fn attach(&mut self, id: &str) -> (r: (Option<String>, AttachPlan))
        requires
            old(self).wf(),
        ensures
            final(self).wf(),
            scrollback_of(old(self).entry(id@)).len() == 0 ==> r.0 is None,
            scrollback_of(old(self).entry(id@)).len() > 0 ==> (r.0 matches Some(p) && p@ == base64_standard(
                scrollback_of(old(self).entry(id@)),
            )),
            r.0 matches Some(p) ==> base64_decode(p@) == scrollback_of(old(self).entry(id@)),
            r.1.forward == old(self).entry(id@).running is Some,
            r.1.abort_previous == old(self).entry(id@).attached,
            final(self).entry(id@) == after_attach(old(self).entry(id@)),
            forall|x: Seq<char>| x != id@ ==> #[trigger] final(self).entry(x) == old(self).entry(x),
    {
        let (at, mut s) = self.take_slot(id);
        let replay = match &s.ring {
            Some(ring) => ring.snapshot(),
            None => Vec::new(),
        };
        let plan = AttachPlan { forward: s.running.is_some(), abort_previous: s.attached };
        s.attached = s.running.is_some();
        self.put_back(at, s);
        assert(replay@ =~= scrollback_of(old(self).entry(id@)));
        proof {
            lemma_payload_decodes(replay@);
        }
        let payload = if replay.len() == 0 {
            None
        } else {
            Some(encode_payload(replay.as_slice()))
        };
        (payload, plan)
    }

    /// Detaches the terminal view of `id`; returns whether one was attached.
    pub fn detach(&mut self, id: &str) -> (had_view: bool)
        requires
            old(self).wf(),
        ensures
            final(self).wf(),
            had_view == old(self).entry(id@).attached,
            final(self).entry(id@) == after_detach(old(self).entry(id@)),
            forall|x: Seq<char>| x != id@ ==> #[trigger] final(self).entry(x) == old(self).entry(x),
    {
        let (at, mut s) = self.take_slot(id);
        let had_view = s.attached;
        s.attached = false;
        self.put_back(at, s);
        had_view
    }

    /// Appends terminal output of `id` to its scrollback, if it has one.
    pub fn push_output(&mut self, id: &str, bytes: &[u8])
        requires
            old(self).wf(),
            bytes@.len() <= usize::MAX - RING_CAP_BYTES,
        ensures
            final(self).wf(),
            old(self).entry(id@).ring is None ==> final(self).entry(id@) == old(self).entry(id@),
            old(self).entry(id@).ring matches Some(c) ==> {
                let n = final(self).entry(id@);
                &&& n.ring matches Some(k) && (if bytes@.len() == 0 {
                    k == c
                } else {
                    trimmed_to_caps(c.push(bytes@), k, RING_CAP_LINES as nat, RING_CAP_BYTES as nat)
                })
                &&& n.running == old(self).entry(id@).running
                &&& n.starting == old(self).entry(id@).starting
                &&& n.last_exit == old(self).entry(id@).last_exit
                &&& n.ready == old(self).entry(id@).ready
                &&& n.attached == old(self).entry(id@).attached
            },
            forall|x: Seq<char>| x != id@ ==> #[trigger] final(self).entry(x) == old(self).entry(x),
    {
        let (at, mut s) = self.take_slot(id);
        match s.ring {
            Some(mut ring) => {
                proof {
                    ring.lemma_within_byte_cap();
                }
                ring.push(bytes);
                s.ring = Some(ring);
            },
            None => {},
        }
        self.put_back(at, s);
    }

    /// The scrollback of `id`, oldest byte first; empty when it has none.
    pub fn recent_snapshot(&self, id: &str) -> (r: Vec<u8>)
        requires
            self.wf(),
        ensures
            r@ == scrollback_of(self.entry(id@)),
    {
        match self.find(id) {
            Some(i) => {
                proof {
                    self.lemma_entry_at(i as int);
                }
                match &self.slots[i].ring {
                    Some(ring) => ring.snapshot(),
                    None => Vec::new(),
                }
            },
            None => {
                proof {
                    self.lemma_entry_absent(id@);
                }
                let v = Vec::new();
                assert(v@ =~= scrollback_of(self.entry(id@)));
                v
            },
        }
    }

    /// The live process of `id`, if it runs.
    pub fn running_info(&self, id: &str) -> (r: Option<RunInfo>)
        requires
            self.wf(),
        ensures
            r == self.entry(id@).running,
    {
        match self.find(id) {
            Some(i) => {
                proof {
                    self.lemma_entry_at(i as int);
                }
                self.slots[i].running
            },
            None => {
                proof {
                    self.lemma_entry_absent(id@);
                }
                None
            },
        }
    }

    /// Running flag, pid, last exit code and readiness of `id`.
    pub fn status(&self, id: &str) -> (r: StatusSnapshot)
        requires
            self.wf(),
        ensures
            r == status_of(self.entry(id@)),
    {
        match self.find(id) {
            Some(i) => {
                proof {
                    self.lemma_entry_at(i as int);
                }
                let s = &self.slots[i];
                match s.running {
                    Some(info) => StatusSnapshot {
                        running: true,
                        pid: Some(info.pid),
                        last_exit: s.last_exit,
                        ready: match s.ready {
                            Some(b) => b,
                            None => false,
                        },
                    },
                    None => StatusSnapshot { running: false, pid: None, last_exit: s.last_exit, ready: false },
                }
            },
            None => {
                proof {
                    self.lemma_entry_absent(id@);
                }
                StatusSnapshot { running: false, pid: None, last_exit: None, ready: false }
            },
        }
    }

    /// The ids whose process runs, in the order first seen.
    pub fn running_ids(&self) -> (r: Vec<String>)
        requires
            self.wf(),
        ensures
            views(r@) == self.known_ids().filter(|x: Seq<char>| self.entry(x).running is Some),
            views(r@).no_duplicates(),
            views(r@).to_set() == self.running_set(),
    {
        proof {
            self.lemma_known_ids();
            lemma_filter_listing(
                self.known_ids(),
                |x: Seq<char>| self.entry(x).running is Some,
                self.running_set(),
            );
        }
        let ghost ids = self.known_ids();
        let ghost pred = |x: Seq<char>| self.entry(x).running is Some;
        let mut r: Vec<String> = Vec::new();
        let mut i: usize = 0;
        while i < self.slots.len()
            invariant
                self.wf(),
                ids == self.known_ids(),
                pred == (|x: Seq<char>| self.entry(x).running is Some),
                i <= self.slots@.len(),
                views(r@) == ids.take(i as int).filter(pred),
            decreases self.slots@.len() - i,
        {
            proof {
                self.lemma_entry_at(i as int);
                reveal_with_fuel(Seq::filter, 1);
                assert(ids.take(i + 1).drop_last() =~= ids.take(i as int));
            }
            if self.slots[i].running.is_some() {
                let ghost before = views(r@);
                r.push(self.slots[i].id.clone());
                assert(views(r@) =~= before.push(ids[i as int]));
            }
            i = i + 1;
        }
        assert(ids.take(self.slots@.len() as int) =~= ids);
        r
    }

    /// The running apps, one-off shells left out, each with its pid, in the
    /// order first seen: what the stats sampler measures.
    pub fn app_pids(&self) -> (r: Vec<(String, u32)>)
        requires
            self.wf(),
        ensures
            r@.map_values(|q: (String, u32)| (q.0@, q.1)) == self.known_ids().filter(
                |x: Seq<char>| self.entry(x).running is Some && !is_shell_id(x),
            ).map_values(|x: Seq<char>| (x, self.entry(x).running.unwrap().pid)),
    {
        let ghost ids = self.known_ids();
        let ghost pred = |x: Seq<char>| self.entry(x).running is Some && !is_shell_id(x);
        let ghost f = |x: Seq<char>| (x, self.entry(x).running.unwrap().pid);
        let ghost g = |q: (String, u32)| (q.0@, q.1);
        let mut r: Vec<(String, u32)> = Vec::new();
        let mut i: usize = 0;
        while i < self.slots.len()
            invariant
                self.wf(),
                ids == self.known_ids(),
                pred == (|x: Seq<char>| self.entry(x).running is Some && !is_shell_id(x)),
                f == (|x: Seq<char>| (x, self.entry(x).running.unwrap().pid)),
                g == (|q: (String, u32)| (q.0@, q.1)),
                i <= self.slots@.len(),
                r@.map_values(g) == ids.take(i as int).filter(pred).map_values(f),
            decreases self.slots@.len() - i,
        {
            proof {
                self.lemma_entry_at(i as int);
                reveal_with_fuel(Seq::filter, 1);
                assert(ids.take(i + 1).drop_last() =~= ids.take(i as int));
            }
            match self.slots[i].running {
                Some(info) => {
                    if !is_shell(self.slots[i].id.as_str()) {
                        let ghost before = r@;
                        r.push((self.slots[i].id.clone(), info.pid));
                        proof {
                            let fl = ids.take(i as int).filter(pred);
                            assert(ids.take(i + 1).filter(pred) == fl.push(ids[i as int]));
                            assert(fl.push(ids[i as int]).map_values(f) =~= fl.map_values(f).push(f(ids[i as int])));
                            assert(r@.map_values(g) =~= before.map_values(g).push(g(r@[before.len() as int])));
                        }
                    }
                },
                None => {},
            }
            i = i + 1;
        }
        assert(ids.take(self.slots@.len() as int) =~= ids);
        r
    }

    /// Number of running apps, one-off shells not counted.
    pub fn running_count(&self) -> (n: usize)
        requires
            self.wf(),
        ensures
            n == self.known_ids().filter(|x: Seq<char>| self.entry(x).running is Some && !is_shell_id(x)).len(),
            self.running_app_set().finite(),
            n == self.running_app_set().len(),
    {
        proof {
            self.lemma_known_ids();
            lemma_filter_listing(
                self.known_ids(),
                |x: Seq<char>| self.entry(x).running is Some && !is_shell_id(x),
                self.running_app_set(),
            );
        }
        let ghost ids = self.known_ids();
        let ghost pred = |x: Seq<char>| self.entry(x).running is Some && !is_shell_id(x);
        let mut n: usize = 0;
        let mut i: usize = 0;
        while i < self.slots.len()
            invariant
                self.wf(),
                ids == self.known_ids(),
                pred == (|x: Seq<char>| self.entry(x).running is Some && !is_shell_id(x)),
                i <= self.slots@.len(),
                n == ids.take(i as int).filter(pred).len(),
                n <= i,
            decreases self.slots@.len() - i,
        {
            proof {
                self.lemma_entry_at(i as int);
                reveal_with_fuel(Seq::filter, 1);
                assert(ids.take(i + 1).drop_last() =~= ids.take(i as int));
            }
            if self.slots[i].running.is_some() && !is_shell(self.slots[i].id.as_str()) {
                n = n + 1;
            }
            i = i + 1;
        }
        assert(ids.take(self.slots@.len() as int) =~= ids);
        n
    }
}

/// Starting or ending a one-off shell never changes the count of running
/// apps: when two tables differ only in the state of a shell id, their
/// running apps are the same.
pub proof fn lemma_shell_not_counted(before: ProcessTable, after: ProcessTable, shell: Seq<char>)
    requires
        is_shell_id(shell),
        forall|x: Seq<char>| x != shell ==> #[trigger] after.entry(x) == before.entry(x),
    ensures
        after.running_app_set() == before.running_app_set(),
{
    assert(after.running_app_set() =~= before.running_app_set());
}

/// A duplicate-free list filtered by `p` lists, each once, the elements of
/// the list that satisfy `p`.
proof fn lemma_filter_listing(ids: Seq<Seq<char>>, p: spec_fn(Seq<char>) -> bool, s: Set<Seq<char>>)
    requires
        ids.no_duplicates(),
        forall|x: Seq<char>| #[trigger] s.contains(x) <==> ids.contains(x) && p(x),
    ensures
        ids.filter(p).no_duplicates(),
        ids.filter(p).to_set() == s,
        s.finite(),
        ids.filter(p).len() == s.len(),
{
    lemma_filter_no_duplicates(ids, p);
    ids.filter_lemma(p);
    assert forall|x: Seq<char>| ids.filter(p).to_set().contains(x) <==> s.contains(x) by {
        if ids.filter(p).contains(x) {
            ids.lemma_filter_contains_rev(p, x);
            let k = choose|k: int| 0 <= k < ids.filter(p).len() && ids.filter(p)[k] == x;
            assert(p(ids.filter(p)[k]));
        }
        if s.contains(x) {
            let k = choose|k: int| 0 <= k < ids.len() && ids[k] == x;
            assert(ids.filter(p).contains(ids[k]));
        }
    }
    assert(ids.filter(p).to_set() =~= s);
    ids.filter(p).unique_seq_to_set();
}

proof fn lemma_filter_no_duplicates(ids: Seq<Seq<char>>, p: spec_fn(Seq<char>) -> bool)
    requires
        ids.no_duplicates(),
    ensures
        ids.filter(p).no_duplicates(),
    decreases ids.len(),
{
    reveal_with_fuel(Seq::filter, 1);
    if ids.len() > 0 {
        let init = ids.drop_last();
        assert(init.no_duplicates()) by {
            assert forall|a: int, b: int| 0 <= a < init.len() && 0 <= b < init.len() && a != b implies init[a] != init[b] by {
                assert(init[a] == ids[a]);
                assert(init[b] == ids[b]);
            }
        }
        lemma_filter_no_duplicates(init, p);
        let f = init.filter(p);
        if p(ids.last()) {
            assert(!f.contains(ids.last())) by {
                if f.contains(ids.last()) {
                    init.lemma_filter_contains_rev(p, ids.last());
                    let k = choose|k: int| 0 <= k < init.len() && init[k] == ids.last();
                    assert(ids[k] == ids[ids.len() - 1]);
                }
            }
            assert(ids.filter(p) == f.push(ids.last()));
            assert forall|a: int, b: int| 0 <= a < f.len() + 1 && 0 <= b < f.len() + 1 && a != b implies f.push(
                ids.last(),
            )[a] != f.push(ids.last())[b] by {
                if a < f.len() && b < f.len() {
                } else if a < f.len() {
                    assert(f.contains(f[a]));
                } else if b < f.len() {
                    assert(f.contains(f[b]));
                }
            }
        }
    }
}

// ---------------------------------------------------------------------------
// Laws of the run cycle.

/// A fresh run reports running with its pid, no exit code, and readiness
/// exactly when no probe is configured; its scrollback starts empty.
pub proof fn lemma_status_after_start(s: AppState, pid: u32, port: Option<u16>, has_probe: bool)
    ensures
        status_of(after_started(s, pid, port, has_probe)) == (StatusSnapshot {
            running: true,
            pid: Some(pid),
            last_exit: None,
            ready: !has_probe,
        }),
        scrollback_of(after_started(s, pid, port, has_probe)) == Seq::<u8>::empty(),
{
    assert(concat(Seq::<Seq<u8>>::empty()) =~= Seq::<u8>::empty());
}

/// After the process exits, status reports it stopped with its exit code
/// and not ready; the scrollback of the run is kept.
pub proof fn lemma_status_after_exit(s: AppState, code: i32)
    ensures
        status_of(after_exited(s, code)) == (StatusSnapshot {
            running: false,
            pid: None,
            last_exit: Some(code),
            ready: false,
        }),
        scrollback_of(after_exited(s, code)) == scrollback_of(s),
        !after_exited(s, code).attached,
{
}

/// A probe that resolves while its process runs decides readiness: the
/// status reports ready exactly when the probe succeeded (a timed-out or
/// failed probe never makes the app ready), and nothing else in the status
/// changes.
pub proof fn lemma_probe_outcome_reported(s: AppState, ready: bool)
    requires
        s.running is Some,
    ensures
        status_of(after_probe(s, ready)).ready == ready,
        status_of(after_probe(s, ready)).running,
        status_of(after_probe(s, ready)).pid == status_of(s).pid,
        status_of(after_probe(s, ready)).last_exit == status_of(s).last_exit,
{
}

/// A probed start reports not ready until its probe resolves, then exactly
/// the probe's outcome.
pub proof fn lemma_probed_start_ready_iff_probe(s: AppState, pid: u32, port: Option<u16>, ready: bool)
    ensures
        !status_of(after_started(s, pid, port, true)).ready,
        status_of(after_probe(after_started(s, pid, port, true), ready)) == (StatusSnapshot {
            running: true,
            pid: Some(pid),
            last_exit: None,
            ready,
        }),
{
}

/// A start records the run's pid and the port it was started with, whether
/// or not a probe is configured (the port is what a later stop sweeps).
pub proof fn lemma_start_records_port(s: AppState, pid: u32, port: Option<u16>, has_probe: bool)
    ensures
        after_started(s, pid, port, has_probe).running == Some(RunInfo { pid, port }),
        after_started(s, pid, port, true).running == after_started(s, pid, port, false).running,
{
}

/// While a start is claimed or a run is live, no second start of the same
/// id is allowed; once the run has exited, it is again.
pub proof fn lemma_one_run_per_id(s: AppState, pid: u32, port: Option<u16>, has_probe: bool, code: i32)
    ensures
        !may_start(after_begin_start(s)),
        !may_start(after_started(s, pid, port, has_probe)),
        may_start(after_exited(after_started(s, pid, port, has_probe), code)),
{
}

/// A probe that resolves after its process exited changes nothing.
pub proof fn lemma_late_probe_ignored(s: AppState, code: i32, ready: bool)
    ensures
        after_probe(after_exited(s, code), ready) == after_exited(s, code),
{
}

} // verus!
