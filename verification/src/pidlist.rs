//! Reading pids out of the text that process-listing tools print: one pid
//! per line (`lsof -t`), or pids separated by white space (`pgrep -P`).
//! Pieces that are not a pid are skipped.
use vstd::prelude::*;
use vstd::string::*;

use crate::newapp::{is_white, is_white_char, trim, trimmed};

verus! {

/// `c` is an ASCII decimal digit.
pub open spec fn is_digit(c: char) -> bool {
    '0' <= c <= '9'
}

pub open spec fn all_digits(s: Seq<char>) -> bool {
    forall|i: int| 0 <= i < s.len() ==> is_digit(#[trigger] s[i])
}

/// The value of a run of decimal digits, most significant first.
pub open spec fn digits_value(s: Seq<char>) -> int
    decreases s.len(),
{
    if s.len() == 0 {
        0
    } else {
        digits_value(s.drop_last()) * 10 + (s.last() as int - '0' as int)
    }
}

/// What `str::parse::<u32>` accepts: an optional `+`, then one or more ASCII
/// digits whose value fits in a `u32`; anything else is an error.
pub open spec fn u32_text_value(s: Seq<char>) -> Option<u32> {
    let body = if s.len() > 0 && s[0] == '+' {
        s.drop_first()
    } else {
        s
    };
    if body.len() > 0 && all_digits(body) && digits_value(body) <= u32::MAX {
        Some(digits_value(body) as u32)
    } else {
        None
    }
}

proof fn lemma_digits_value_nonneg(s: Seq<char>)
    requires
        all_digits(s),
    ensures
        digits_value(s) >= 0,
    decreases s.len(),
{
    if s.len() > 0 {
        lemma_digits_value_nonneg(s.drop_last());
    }
}

/// With more digits the value does not shrink.
proof fn lemma_digits_value_prefix(s: Seq<char>, k: int)
    requires
        all_digits(s),
        0 <= k <= s.len(),
    ensures
        digits_value(s.take(k)) <= digits_value(s),
    decreases s.len(),
{
    if k < s.len() {
        let d = s.drop_last();
        assert(d.take(k) =~= s.take(k));
        lemma_digits_value_prefix(d, k);
        lemma_digits_value_nonneg(d);
    } else {
        assert(s.take(k) =~= s);
    }
}

/// `str::parse::<u32>`.
pub fn parse_u32(s: &str) -> (r: Option<u32>)
    ensures
        r == u32_text_value(s@),
{
    let n = s.unicode_len();
    let mut i: usize = 0;
    if n > 0 && s.get_char(0) == '+' {
        i = 1;
    }
    let ghost body = s@.skip(i as int);
    proof {
        if n > 0 && s@[0] == '+' {
            assert(body =~= s@.drop_first());
        } else {
            assert(body =~= s@);
        }
    }
    if i >= n {
        return None;
    }
    let start = i;
    let mut v: u64 = 0;
    assert(body.len() > 0);
    assert(body.take(0) =~= Seq::<char>::empty());
    while i < n
        invariant
            n == s@.len(),
            start < n,
            start <= i <= n,
            body == s@.skip(start as int),
            u32_text_value(s@) == (if all_digits(body) && digits_value(body) <= u32::MAX {
                Some(digits_value(body) as u32)
            } else {
                None
            }),
            all_digits(body.take(i - start)),
            v == digits_value(body.take(i - start)),
            v <= u32::MAX,
        decreases n - i,
    {
        let c = s.get_char(i);
        assert(body[i - start] == c);
        if !('0' <= c && c <= '9') {
            assert(!all_digits(body)) by {
                assert(!is_digit(body[i - start]));
            }
            return None;
        }
        let d: u64 = (c as u32 - '0' as u32) as u64;
        let nv: u64 = v * 10 + d;
        proof {
            let t = body.take(i - start + 1);
            assert(t.drop_last() =~= body.take(i - start));
            assert(t.last() == c);
            assert(all_digits(t)) by {
                assert forall|k: int| 0 <= k < t.len() implies is_digit(#[trigger] t[k]) by {
                    if k < t.len() - 1 {
                        assert(t[k] == body.take(i - start)[k]);
                    }
                }
            }
            assert(nv == digits_value(t));
        }
        if nv > 0xffff_ffffu64 {
            proof {
                let t = body.take(i - start + 1);
                if all_digits(body) {
                    lemma_digits_value_prefix(body, i - start + 1);
                }
            }
            return None;
        }
        v = nv;
        i = i + 1;
    }
    assert(body.take(n - start) =~= body);
    Some(v as u32)
}

/// A separator of the pieces: white space when reading words, else a line end.
pub open spec fn is_separator(words: bool, c: char) -> bool {
    if words {
        is_white(c)
    } else {
        c == '\n'
    }
}

/// The pieces of `s` between separators, in order; there is always a last
/// piece, possibly empty.
pub open spec fn pieces(s: Seq<char>, words: bool) -> Seq<Seq<char>>
    decreases s.len(),
{
    if s.len() == 0 {
        seq![Seq::<char>::empty()]
    } else {
        let r = pieces(s.drop_last(), words);
        if is_separator(words, s.last()) {
            r.push(Seq::<char>::empty())
        } else {
            r.update(r.len() - 1, r.last().push(s.last()))
        }
    }
}

proof fn lemma_pieces_nonempty(s: Seq<char>, words: bool)
    ensures
        pieces(s, words).len() >= 1,
    decreases s.len(),
{
    if s.len() > 0 {
        lemma_pieces_nonempty(s.drop_last(), words);
    }
}

/// The pids read from a list of pieces: each piece, trimmed, that parses as
/// a `u32`, in order.
pub open spec fn pids_of(ps: Seq<Seq<char>>) -> Seq<u32>
    decreases ps.len(),
{
    if ps.len() == 0 {
        Seq::empty()
    } else {
        let rest = pids_of(ps.drop_last());
        match u32_text_value(trimmed(ps.last())) {
            Some(p) => rest.push(p),
            None => rest,
        }
    }
}

/// The pids in a tool's output: one per line, each line trimmed (as
/// `lines()` then `trim()` then `parse::<u32>()` read them), or, with
/// `words`, one per white-space-separated word (as `split_whitespace()`).
pub fn pids_in_output(out: &str, words: bool) -> (r: Vec<u32>)
    ensures
        r@ == pids_of(pieces(out@, words)),
{
    let n = out.unicode_len();
    let mut r: Vec<u32> = Vec::new();
    let mut start: usize = 0;
    let mut i: usize = 0;
    assert(out@.take(0) =~= Seq::<char>::empty());
    assert(out@.subrange(0, 0) =~= Seq::<char>::empty());
    while i < n
        invariant
            n == out@.len(),
            start <= i <= n,
            pieces(out@.take(i as int), words).len() >= 1,
            pieces(out@.take(i as int), words).last() == out@.subrange(start as int, i as int),
            r@ == pids_of(pieces(out@.take(i as int), words).drop_last()),
        decreases n - i,
    {
        let c = out.get_char(i);
        let ghost p = pieces(out@.take(i as int), words);
        proof {
            let t = out@.take(i + 1);
            assert(t.drop_last() =~= out@.take(i as int));
            assert(t.last() == c);
        }
        let sep = if words {
            is_white_char(c)
        } else {
            c == '\n'
        };
        if sep {
            let piece = out.substring_char(start, i);
            let t = trim(piece);
            match parse_u32(t.as_str()) {
                Some(pid) => r.push(pid),
                None => {},
            }
            proof {
                let q = pieces(out@.take(i + 1), words);
                assert(q == p.push(Seq::<char>::empty()));
                assert(q.drop_last() =~= p);
                assert(p =~= p.drop_last().push(p.last()));
                assert(out@.subrange(i + 1, i + 1) =~= Seq::<char>::empty());
            }
            start = i + 1;
        } else {
            proof {
                let q = pieces(out@.take(i + 1), words);
                assert(q == p.update(p.len() - 1, p.last().push(c)));
                assert(q.drop_last() =~= p.drop_last());
                assert(out@.subrange(start as int, i + 1) =~= out@.subrange(start as int, i as int).push(c));
            }
        }
        i = i + 1;
    }
    let ghost p = pieces(out@.take(n as int), words);
    assert(out@.take(n as int) =~= out@);
    let piece = out.substring_char(start, n);
    let t = trim(piece);
    match parse_u32(t.as_str()) {
        Some(pid) => r.push(pid),
        None => {},
    }
    assert(p =~= p.drop_last().push(p.last()));
    r
}

} // verus!
