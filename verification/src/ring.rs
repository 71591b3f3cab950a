//! The per-app scrollback: a rolling buffer of recent terminal output that
//! drops its oldest chunks once a line budget or a byte budget is exceeded.
use std::collections::VecDeque;
use vstd::prelude::*;

verus! {

/// Number of newline bytes in `b`.
pub open spec fn newlines(b: Seq<u8>) -> nat
    decreases b.len(),
{
    if b.len() == 0 {
        0
    } else {
        newlines(b.drop_last()) + if b.last() == 10u8 {
            1nat
        } else {
            0nat
        }
    }
}

/// Newlines over all chunks.
pub open spec fn lines_in(chunks: Seq<Seq<u8>>) -> nat
    decreases chunks.len(),
{
    if chunks.len() == 0 {
        0
    } else {
        newlines(chunks[0]) + lines_in(chunks.drop_first())
    }
}

/// Bytes over all chunks.
pub open spec fn bytes_in(chunks: Seq<Seq<u8>>) -> nat
    decreases chunks.len(),
{
    if chunks.len() == 0 {
        0
    } else {
        chunks[0].len() + bytes_in(chunks.drop_first())
    }
}

/// All chunks, oldest first, as one byte sequence.
pub open spec fn concat(chunks: Seq<Seq<u8>>) -> Seq<u8>
    decreases chunks.len(),
{
    if chunks.len() == 0 {
        Seq::empty()
    } else {
        chunks[0] + concat(chunks.drop_first())
    }
}

/// `chunks` is within both budgets.
pub open spec fn within_caps(chunks: Seq<Seq<u8>>, cap_lines: nat, cap_bytes: nat) -> bool {
    lines_in(chunks) <= cap_lines && bytes_in(chunks) <= cap_bytes
}

/// `kept` is `all` with the fewest oldest chunks dropped that brings it within
/// both budgets.
pub open spec fn trimmed_to_caps(all: Seq<Seq<u8>>, kept: Seq<Seq<u8>>, cap_lines: nat, cap_bytes: nat) -> bool {
    exists|d: int|
        0 <= d <= all.len() && kept == all.skip(d) && within_caps(kept, cap_lines, cap_bytes) && forall|e: int|
            0 <= e < d ==> !within_caps(#[trigger] all.skip(e), cap_lines, cap_bytes)
}

pub proof fn lemma_newlines_le_len(b: Seq<u8>)
    ensures
        newlines(b) <= b.len(),
    decreases b.len(),
{
    if b.len() > 0 {
        lemma_newlines_le_len(b.drop_last());
    }
}

proof fn lemma_sums_push(chunks: Seq<Seq<u8>>, x: Seq<u8>)
    ensures
        lines_in(chunks.push(x)) == lines_in(chunks) + newlines(x),
        bytes_in(chunks.push(x)) == bytes_in(chunks) + x.len(),
        concat(chunks.push(x)) == concat(chunks) + x,
    decreases chunks.len(),
{
    assert(chunks.push(x)[0] == if chunks.len() == 0 { x } else { chunks[0] });
    assert(lines_in(Seq::<Seq<u8>>::empty()) == 0);
    assert(bytes_in(Seq::<Seq<u8>>::empty()) == 0);
    assert(concat(Seq::<Seq<u8>>::empty()) == Seq::<u8>::empty());
    if chunks.len() == 0 {
        assert(chunks.push(x).drop_first() =~= Seq::<Seq<u8>>::empty());
        assert(x + Seq::<u8>::empty() =~= x);
        assert(Seq::<u8>::empty() + x =~= x);
    } else {
        assert(chunks.push(x).drop_first() =~= chunks.drop_first().push(x));
        lemma_sums_push(chunks.drop_first(), x);
        assert(concat(chunks.push(x)) =~= chunks[0] + (concat(chunks.drop_first()) + x));
        assert(concat(chunks) + x =~= chunks[0] + (concat(chunks.drop_first()) + x));
    }
}

proof fn lemma_lines_le_bytes(chunks: Seq<Seq<u8>>)
    ensures
        lines_in(chunks) <= bytes_in(chunks),
    decreases chunks.len(),
{
    if chunks.len() > 0 {
        lemma_newlines_le_len(chunks[0]);
        lemma_lines_le_bytes(chunks.drop_first());
    }
}

/// Number of newline bytes in `b`.
pub fn bytecount_newlines(b: &[u8]) -> (n: usize)
    ensures
        n == newlines(b@),
{
    let mut n: usize = 0;
    let mut i: usize = 0;
    while i < b.len()
        invariant
            i <= b@.len(),
            n == newlines(b@.take(i as int)),
            n <= i,
        decreases b@.len() - i,
    {
        assert(b@.take(i + 1).drop_last() =~= b@.take(i as int));
        if b[i] == 10u8 {
            n = n + 1;
        }
        i = i + 1;
    }
    assert(b@.take(b@.len() as int) =~= b@);
    n
}

/// Rolling buffer of recent output chunks. Trims from the front when either
/// the line budget or the byte budget is exceeded.
pub struct RingBuffer {
    chunks: VecDeque<Vec<u8>>,
    line_count: usize,
    cap_lines: usize,
    cap_bytes: usize,
    total_bytes: usize,
}

impl RingBuffer {
    /// The chunks held, oldest first.
    pub closed spec fn chunk_seq(&self) -> Seq<Seq<u8>> {
        self.chunks@.map_values(|c: Vec<u8>| c@)
    }

    pub closed spec fn line_cap(&self) -> nat {
        self.cap_lines as nat
    }

    pub closed spec fn byte_cap(&self) -> nat {
        self.cap_bytes as nat
    }

    /// The counters agree with the chunks.
    closed spec fn counters_ok(&self) -> bool {
        &&& self.line_count == lines_in(self.chunk_seq())
        &&& self.total_bytes == bytes_in(self.chunk_seq())
    }

    /// The counters agree with the chunks, which are within both budgets.
    pub closed spec fn wf(&self) -> bool {
        &&& self.counters_ok()
        &&& within_caps(self.chunk_seq(), self.line_cap(), self.byte_cap())
    }

    /// An empty buffer with the given budgets.
    pub fn new(cap_lines: usize, cap_bytes: usize) -> (r: Self)
        ensures
            r.wf(),
            r.chunk_seq() == Seq::<Seq<u8>>::empty(),
            r.line_cap() == cap_lines,
            r.byte_cap() == cap_bytes,
    {
        let r = RingBuffer { chunks: VecDeque::new(), line_count: 0, cap_lines, cap_bytes, total_bytes: 0 };
        assert(r.chunk_seq() =~= Seq::<Seq<u8>>::empty());
        r
    }

    /// Appends a chunk (an empty one is ignored), then drops the oldest
    /// chunks until both budgets hold.
    pub fn push(&mut self, bytes: &[u8])
        requires
            old(self).wf(),
            bytes_in(old(self).chunk_seq()) + bytes@.len() <= usize::MAX,
        ensures
            final(self).wf(),
            final(self).line_cap() == old(self).line_cap(),
            final(self).byte_cap() == old(self).byte_cap(),
            bytes@.len() == 0 ==> final(self).chunk_seq() == old(self).chunk_seq(),
            bytes@.len() > 0 ==> trimmed_to_caps(
                old(self).chunk_seq().push(bytes@),
                final(self).chunk_seq(),
                old(self).line_cap(),
                old(self).byte_cap(),
            ),
    {
        if bytes.len() == 0 {
            return;
        }
        let added_lines = bytecount_newlines(bytes);
        let ghost all = self.chunk_seq().push(bytes@);
        proof {
            lemma_sums_push(self.chunk_seq(), bytes@);
            lemma_lines_le_bytes(all);
        }
        let mut v: Vec<u8> = Vec::new();
        let mut i: usize = 0;
        while i < bytes.len()
            invariant
                i <= bytes@.len(),
                v@ == bytes@.take(i as int),
            decreases bytes@.len() - i,
        {
            v.push(bytes[i]);
            assert(bytes@.take(i + 1) =~= bytes@.take(i as int).push(bytes@[i as int]));
            i = i + 1;
        }
        assert(bytes@.take(bytes@.len() as int) =~= bytes@);
        self.chunks.push_back(v);
        assert(self.chunk_seq() =~= all);
        self.line_count = self.line_count + added_lines;
        self.total_bytes = self.total_bytes + bytes.len();
        let ghost mut d: int = 0;
        assert(all.skip(0) =~= all);
        while self.line_count > self.cap_lines || self.total_bytes > self.cap_bytes
            invariant
                0 <= d <= all.len(),
                self.chunk_seq() == all.skip(d),
                self.counters_ok(),
                self.cap_lines == old(self).cap_lines,
                self.cap_bytes == old(self).cap_bytes,
                forall|e: int| 0 <= e < d ==> !within_caps(#[trigger] all.skip(e), self.cap_lines as nat, self.cap_bytes as nat),
            decreases all.len() - d,
        {
            assert(!within_caps(all.skip(d), self.cap_lines as nat, self.cap_bytes as nat));
            let ghost before = self.chunk_seq();
            proof {
                if before.len() == 0 {
                    assert(before =~= Seq::<Seq<u8>>::empty());
                }
            }
            let front = self.chunks.pop_front().unwrap();
            proof {
                assert(before.len() > 0);
                assert(before[0] == front@);
                assert(self.chunk_seq() =~= before.drop_first());
                assert(all.skip(d + 1) =~= before.drop_first());
                lemma_newlines_le_len(front@);
            }
            let front_lines = bytecount_newlines(front.as_slice());
            self.line_count = self.line_count - front_lines;
            self.total_bytes = self.total_bytes - front.len();
            proof {
                d = d + 1;
            }
        }
        assert(within_caps(all.skip(d), self.cap_lines as nat, self.cap_bytes as nat));
        assert(trimmed_to_caps(all, self.chunk_seq(), self.cap_lines as nat, self.cap_bytes as nat));
    }

    /// The number of bytes held.
    pub fn held_bytes(&self) -> (n: usize)
        requires
            self.wf(),
        ensures
            n == bytes_in(self.chunk_seq()),
    {
        self.total_bytes
    }

    /// Bytes held never exceed the byte budget.
    pub proof fn lemma_within_byte_cap(&self)
        requires
            self.wf(),
        ensures
            bytes_in(self.chunk_seq()) <= self.byte_cap(),
            lines_in(self.chunk_seq()) <= self.line_cap(),
    {
    }

    /// The bytes held, oldest first, as one sequence.
    pub fn snapshot(&self) -> (out: Vec<u8>)
        ensures
            out@ == concat(self.chunk_seq()),
    {
        let mut out: Vec<u8> = Vec::new();
        let mut k: usize = 0;
        while k < self.chunks.len()
            invariant
                k <= self.chunk_seq().len(),
                self.chunk_seq().len() == self.chunks@.len(),
                out@ == concat(self.chunk_seq().take(k as int)),
            decreases self.chunks@.len() - k,
        {
            let c = &self.chunks[k];
            let mut i: usize = 0;
            let ghost base = out@;
            while i < c.len()
                invariant
                    i <= c@.len(),
                    out@ == base + c@.take(i as int),
                decreases c@.len() - i,
            {
                out.push(c[i]);
                assert(c@.take(i + 1) =~= c@.take(i as int).push(c@[i as int]));
                assert(out@ =~= base + c@.take(i + 1));
                i = i + 1;
            }
            assert(c@.take(c@.len() as int) =~= c@);
            proof {
                assert(self.chunk_seq()[k as int] == c@);
                assert(self.chunk_seq().take(k + 1) =~= self.chunk_seq().take(k as int).push(c@));
                lemma_sums_push(self.chunk_seq().take(k as int), c@);
            }
            k = k + 1;
        }
        assert(self.chunk_seq().take(k as int) =~= self.chunk_seq());
        out
    }
}

/// A chunk that fits both budgets on its own survives the trim that follows
/// its push: the newest output is never lost.
pub proof fn lemma_newest_chunk_kept(all: Seq<Seq<u8>>, kept: Seq<Seq<u8>>, cap_lines: nat, cap_bytes: nat)
    requires
        all.len() > 0,
        trimmed_to_caps(all, kept, cap_lines, cap_bytes),
        within_caps(seq![all.last()], cap_lines, cap_bytes),
    ensures
        kept.len() > 0,
        kept.last() == all.last(),
{
    let d = choose|d: int|
        0 <= d <= all.len() && kept == all.skip(d) && within_caps(kept, cap_lines, cap_bytes) && forall|e: int|
            0 <= e < d ==> !within_caps(#[trigger] all.skip(e), cap_lines, cap_bytes);
    assert(all.skip(all.len() - 1) =~= seq![all.last()]);
    if d == all.len() {
        assert(!within_caps(all.skip(all.len() - 1), cap_lines, cap_bytes));
    }
}

proof fn lemma_sums_prefix(ps: Seq<Seq<u8>>, k: int)
    requires
        0 <= k <= ps.len(),
    ensures
        lines_in(ps.take(k)) <= lines_in(ps),
        bytes_in(ps.take(k)) <= bytes_in(ps),
    decreases ps.len(),
{
    if k == 0 {
        assert(ps.take(0) =~= Seq::<Seq<u8>>::empty());
    } else {
        assert(ps.take(k)[0] == ps[0]);
        assert(ps.take(k).drop_first() =~= ps.drop_first().take(k - 1));
        lemma_sums_prefix(ps.drop_first(), k - 1);
    }
}

/// Output that fits both budgets is never trimmed. When the chunks pushed
/// so far, `pushed`, together hold at most `cap_lines` newlines and
/// `cap_bytes` bytes, the buffer after the first `k` pushes holds exactly
/// those `k` chunks, so its snapshot is all of them, oldest first.
pub proof fn lemma_fitting_pushes_all_kept(
    pushed: Seq<Seq<u8>>,
    k: int,
    kept: Seq<Seq<u8>>,
    cap_lines: nat,
    cap_bytes: nat,
)
    requires
        within_caps(pushed, cap_lines, cap_bytes),
        0 <= k <= pushed.len(),
        trimmed_to_caps(pushed.take(k), kept, cap_lines, cap_bytes),
    ensures
        kept == pushed.take(k),
        concat(kept) == concat(pushed.take(k)),
{
    lemma_sums_prefix(pushed, k);
    let all = pushed.take(k);
    let d = choose|d: int|
        0 <= d <= all.len() && kept == all.skip(d) && within_caps(kept, cap_lines, cap_bytes) && forall|e: int|
            0 <= e < d ==> !within_caps(#[trigger] all.skip(e), cap_lines, cap_bytes);
    assert(all.skip(0) =~= all);
    if d > 0 {
        assert(!within_caps(all.skip(0), cap_lines, cap_bytes));
    }
}

proof fn lemma_run_prefix(
    pushed: Seq<Seq<u8>>,
    states: Seq<Seq<Seq<u8>>>,
    cap_lines: nat,
    cap_bytes: nat,
    k: int,
)
    requires
        within_caps(pushed, cap_lines, cap_bytes),
        states.len() == pushed.len() + 1,
        states[0] == Seq::<Seq<u8>>::empty(),
        forall|i: int|
            0 <= i < pushed.len() ==> #[trigger] trimmed_to_caps(
                states[i].push(pushed[i]),
                states[i + 1],
                cap_lines,
                cap_bytes,
            ),
        0 <= k <= pushed.len(),
    ensures
        states[k] == pushed.take(k),
    decreases k,
{
    if k == 0 {
        assert(pushed.take(0) =~= Seq::<Seq<u8>>::empty());
    } else {
        lemma_run_prefix(pushed, states, cap_lines, cap_bytes, k - 1);
        assert(pushed.take(k - 1).push(pushed[k - 1]) =~= pushed.take(k));
        assert(trimmed_to_caps(states[k - 1].push(pushed[k - 1]), states[k], cap_lines, cap_bytes));
        lemma_fitting_pushes_all_kept(pushed, k, states[k], cap_lines, cap_bytes);
    }
}

/// A whole run of pushes that fits: `states[i]` is what the buffer holds
/// after the first `i` pushes of non-empty chunks (each step as `push`
/// states it). When the chunks together fit both budgets, after every push
/// the buffer holds all chunks pushed so far, and at the end its snapshot is
/// all of them, oldest first.
pub proof fn lemma_fitting_run_all_kept(
    pushed: Seq<Seq<u8>>,
    states: Seq<Seq<Seq<u8>>>,
    cap_lines: nat,
    cap_bytes: nat,
)
    requires
        within_caps(pushed, cap_lines, cap_bytes),
        states.len() == pushed.len() + 1,
        states[0] == Seq::<Seq<u8>>::empty(),
        forall|i: int|
            0 <= i < pushed.len() ==> #[trigger] trimmed_to_caps(
                states[i].push(pushed[i]),
                states[i + 1],
                cap_lines,
                cap_bytes,
            ),
    ensures
        forall|k: int| 0 <= k <= pushed.len() ==> #[trigger] states[k] == pushed.take(k),
        concat(states[pushed.len() as int]) == concat(pushed),
{
    assert forall|k: int| 0 <= k <= pushed.len() implies #[trigger] states[k] == pushed.take(k) by {
        lemma_run_prefix(pushed, states, cap_lines, cap_bytes, k);
    }
    assert(pushed.take(pushed.len() as int) =~= pushed);
}

} // verus!
