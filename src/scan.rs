//! The mathematical model of a scan: which spans of a byte sequence are tokens.

use vstd::prelude::*;
use vstd::utf8::*;

verus! {

/// ASCII whitespace: space, tab, line feed, vertical tab, form feed and carriage return.
pub open spec fn is_ws(b: u8) -> bool {
    b == 0x20u8 || b == 0x09u8 || b == 0x0au8 || b == 0x0bu8 || b == 0x0cu8 || b == 0x0du8
}

/// The first index at or after `i` whose byte is not whitespace, or the length.
pub open spec fn next_start(b: Seq<u8>, i: int) -> int
    decreases b.len() - i,
{
    if i >= b.len() {
        b.len() as int
    } else if !is_ws(b[i]) {
        i
    } else {
        next_start(b, i + 1)
    }
}

/// The first index at or after `i` whose byte is whitespace, or the length.
pub open spec fn run_end(b: Seq<u8>, i: int) -> int
    decreases b.len() - i,
{
    if i >= b.len() {
        b.len() as int
    } else if is_ws(b[i]) {
        i
    } else {
        run_end(b, i + 1)
    }
}

/// The spans `[from, to)` of the tokens that a scan finds from index `i` on.
pub open spec fn spans(b: Seq<u8>, i: int) -> Seq<(int, int)>
    decreases b.len() - i,
    via spans_decreases
{
    let s = next_start(b, i);
    if i < 0 || s >= b.len() {
        Seq::empty()
    } else {
        seq![(s, run_end(b, s))] + spans(b, run_end(b, s))
    }
}

#[via_fn]
proof fn spans_decreases(b: Seq<u8>, i: int) {
    if 0 <= i && next_start(b, i) < b.len() {
        lemma_next_start(b, i);
        lemma_run_end(b, next_start(b, i));
    }
}

/// `next_start` skips whitespace only, and stops on a byte that is not whitespace.
pub proof fn lemma_next_start(b: Seq<u8>, i: int)
    requires
        0 <= i <= b.len(),
    ensures
        i <= next_start(b, i) <= b.len(),
        next_start(b, i) < b.len() ==> !is_ws(b[next_start(b, i)]),
        forall|k: int| i <= k < next_start(b, i) ==> is_ws(#[trigger] b[k]),
    decreases b.len() - i,
{
    if i < b.len() && is_ws(b[i]) {
        lemma_next_start(b, i + 1);
    }
}

/// `run_end` passes over bytes that are not whitespace, and stops on whitespace.
pub proof fn lemma_run_end(b: Seq<u8>, i: int)
    requires
        0 <= i <= b.len(),
    ensures
        i <= run_end(b, i) <= b.len(),
        run_end(b, i) < b.len() ==> is_ws(b[run_end(b, i)]),
        forall|k: int| i <= k < run_end(b, i) ==> !is_ws(#[trigger] b[k]),
        i < b.len() && !is_ws(b[i]) ==> i < run_end(b, i),
    decreases b.len() - i,
{
    if i < b.len() && !is_ws(b[i]) {
        lemma_run_end(b, i + 1);
    }
}

/// A maximal run of bytes that are not whitespace begins at `k`.
pub open spec fn is_run_start(b: Seq<u8>, k: int) -> bool {
    0 <= k < b.len() && !is_ws(b[k]) && (k == 0 || is_ws(b[k - 1]))
}

/// The number of maximal runs of bytes that are not whitespace which begin at or after `i`.
pub open spec fn count_runs(b: Seq<u8>, i: int) -> nat
    decreases b.len() - i,
{
    if i < 0 || i >= b.len() {
        0
    } else {
        (if is_run_start(b, i) { 1nat } else { 0nat }) + count_runs(b, i + 1)
    }
}

/// Inside a run no further run begins.
proof fn lemma_count_inside_run(b: Seq<u8>, i: int, e: int)
    requires
        0 < i <= e <= b.len(),
        forall|k: int| i - 1 <= k < e ==> !is_ws(#[trigger] b[k]),
    ensures
        count_runs(b, i) == count_runs(b, e),
    decreases e - i,
{
    if i < e {
        lemma_count_inside_run(b, i + 1, e);
    }
}

/// From an index that does not cut a run, the scan finds one token per run.
proof fn lemma_spans_count_from(b: Seq<u8>, i: int)
    requires
        0 <= i <= b.len(),
        i == 0 || i == b.len() || is_ws(b[i - 1]) || is_ws(b[i]),
    ensures
        spans(b, i).len() == count_runs(b, i),
    decreases b.len() - i,
{
    if i < b.len() {
        if is_ws(b[i]) {
            assert(next_start(b, i) == next_start(b, i + 1));
            assert(spans(b, i) == spans(b, i + 1));
            lemma_spans_count_from(b, i + 1);
        } else {
            let e = run_end(b, i);
            lemma_run_end(b, i);
            assert(next_start(b, i) == i);
            assert(is_run_start(b, i));
            lemma_count_inside_run(b, i + 1, e);
            lemma_spans_count_from(b, e);
        }
    }
}

/// The scan of a whole sequence finds exactly as many tokens as the sequence
/// has maximal runs of bytes that are not whitespace.
pub proof fn lemma_token_count(b: Seq<u8>)
    ensures
        spans(b, 0).len() == count_runs(b, 0),
{
    lemma_spans_count_from(b, 0);
}

/// A sequence that is empty or holds only whitespace yields no token.
pub proof fn lemma_blank_has_no_token(b: Seq<u8>)
    requires
        forall|k: int| 0 <= k < b.len() ==> is_ws(#[trigger] b[k]),
    ensures
        spans(b, 0).len() == 0,
{
    lemma_next_start(b, 0);
}

/// In UTF-8, a character boundary followed by an ASCII byte is followed by
/// another boundary right after that byte.
proof fn lemma_boundary_after_ascii(b: Seq<u8>, i: int)
    requires
        valid_utf8(b),
        0 <= i < b.len(),
        is_char_boundary(b, i),
        b[i] <= 0x7f,
    ensures
        is_char_boundary(b, i + 1),
    decreases b.len(),
{
    let n = length_of_first_scalar(b);
    let rest = pop_first_scalar(b);
    assert(valid_first_scalar(b) && valid_utf8(rest));
    assert(rest.len() == b.len() - n);
    if i == 0 {
        assert(n == 1);
        assert(is_char_boundary(rest, 0));
    } else {
        assert(is_char_boundary(rest, i - n));
        assert(0 <= i - n);
        assert(rest[i - n] == b[i]);
        lemma_boundary_after_ascii(rest, i - n);
    }
}

/// Where a token's span begins and ends, the UTF-8 text can be cut: both ends
/// are character boundaries.
pub proof fn lemma_span_on_boundaries(b: Seq<u8>, s: int)
    requires
        valid_utf8(b),
        0 <= s < b.len(),
        !is_ws(b[s]),
        s == 0 || is_ws(b[s - 1]),
    ensures
        is_char_boundary(b, s),
        is_char_boundary(b, run_end(b, s)),
{
    lemma_run_end(b, s);
    is_char_boundary_start_end_of_seq(b);
    let e = run_end(b, s);
    if s > 0 {
        is_char_boundary_iff_not_is_continuation_byte(b, s - 1);
        lemma_boundary_after_ascii(b, s - 1);
    }
    if e < b.len() {
        is_char_boundary_iff_not_is_continuation_byte(b, e);
    }
}

} // verus!
