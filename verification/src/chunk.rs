//! Splitting the input into line-aligned work units.
//!
//! The boundary rule is deliberately *self-consistent*: chunk `i`'s end is computed by the
//! same expression as chunk `i+1`'s start, so workers never need to communicate to agree
//! on where a line belongs.

use crate::bytes::first_at;
use crate::bytes::lemma_first_at;
use crate::bytes::lemma_first_at_is;
use crate::bytes::NEWLINE;
use crate::rows::lemma_line_shape;
use crate::rows::lemma_lines_split;
use crate::rows::remaining;
use crate::rows::row_next;
use crate::rows::rows;
use crate::rows::rows_as;
use crate::rows::Names;
use crate::rows::Record;
use vstd::prelude::*;

verus! {

/// 1 MiB, measured. The curve is nearly flat from 768 KiB to 1.5 MiB; below 512 KiB it climbs
/// steeply, because the bookkeeping of a hundred thousand reads is the whole difference.
pub const CHUNK_SIZE: usize = 0x10_0000;

/// The first byte after the next newline at or after `from`, or the end where there is none.
pub open spec fn line_start_after(d: Seq<u8>, from: int) -> int {
    if from < d.len() && first_at(d, NEWLINE, from) < d.len() {
        first_at(d, NEWLINE, from) + 1
    } else {
        d.len() as int
    }
}

/// A position where a line starts, or the end of the input.
pub open spec fn at_line_start(d: Seq<u8>, p: int) -> bool {
    p == 0 || p == d.len() || d[p - 1] == NEWLINE
}

/// Index of the first byte after the next `\n` at or after `from`, clamped to the end.
#[inline]
pub fn next_line_start(data: &[u8], from: usize) -> (p: usize)
    ensures
        p == line_start_after(data@, from as int),
{
    if from >= data.len() {
        return data.len();
    }
    let mut i = from;
    while i < data.len()
        invariant
            from <= i <= data.len(),
            forall|j: int| from <= j < i ==> data@[j] != NEWLINE,
        decreases data.len() - i,
    {
        if data[i] == NEWLINE {
            proof {
                lemma_first_at_is(data@, NEWLINE, from as int, i as int);
            }
            return i + 1;
        }
        i += 1;
    }
    proof {
        lemma_first_at_is(data@, NEWLINE, from as int, data@.len() as int);
    }
    data.len()
}

/// Where [`line_start_after`] lies.
pub proof fn lemma_line_start_after(d: Seq<u8>, from: int)
    requires
        0 <= from,
    ensures
        at_line_start(d, line_start_after(d, from)),
        line_start_after(d, from) <= d.len(),
        from < d.len() ==> from < line_start_after(d, from),
        forall|p: int|
            from < p < line_start_after(d, from) && p <= d.len() ==> #[trigger] d[p - 1]
                != NEWLINE,
{
    if from < d.len() {
        lemma_first_at(d, NEWLINE, from);
    }
}

/// Later searches find later lines.
pub proof fn lemma_line_start_monotone(d: Seq<u8>, a: int, b: int)
    requires
        0 <= a <= b,
    ensures
        line_start_after(d, a) <= line_start_after(d, b),
{
    lemma_line_start_after(d, a);
    lemma_line_start_after(d, b);
    if a < d.len() && b < d.len() {
        lemma_first_at(d, NEWLINE, a);
        lemma_first_at(d, NEWLINE, b);
    }
}

/// The bounds of raw chunk `i`.
pub open spec fn bounds(d: Seq<u8>, i: int, chunk_size: int) -> Option<(usize, usize)> {
    let raw = i * chunk_size;
    let start = if raw == 0 {
        0
    } else {
        line_start_after(d, raw)
    };
    let end = line_start_after(d, raw + chunk_size);
    if raw < d.len() && start < end {
        Some((start as usize, end as usize))
    } else {
        None
    }
}

/// Line-aligned `[start, end)` for raw chunk `i`: the lines that start after its raw start, up
/// to and including one that starts at its raw end. The first chunk also has the line that
/// starts the input. `None` if there are no such lines, which happens when a single line spans
/// the whole chunk; the chunk that the line starts in owns it.
pub fn chunk_bounds(data: &[u8], i: usize, chunk_size: usize) -> (r: Option<(usize, usize)>)
    ensures
        r == bounds(data@, i as int, chunk_size as int),
        r matches Some((start, end)) ==> {
            &&& start < end <= data@.len()
            &&& at_line_start(data@, start as int)
            &&& at_line_start(data@, end as int)
        },
{
    assert(data.len() == data@.len());
    let raw: usize = match i.checked_mul(chunk_size) {
        Some(raw) => raw,
        None => {
            return None;
        },
    };
    if raw >= data.len() {
        return None;
    }
    let start: usize = if raw == 0 {
        0
    } else {
        next_line_start(data, raw)
    };
    let end = if chunk_size >= data.len() - raw {
        data.len()
    } else {
        next_line_start(data, raw + chunk_size)
    };
    proof {
        lemma_line_start_after(data@, raw as int);
        lemma_line_start_after(data@, raw + chunk_size);
    }
    if start >= end {
        None
    } else {
        Some((start, end))
    }
}

/// How many chunks of `chunk_size` bytes cover `len` bytes.
pub open spec fn chunk_count(len: int, chunk_size: int) -> int {
    if len % chunk_size == 0 {
        len / chunk_size
    } else {
        len / chunk_size + 1
    }
}

pub fn num_chunks(len: usize, chunk_size: usize) -> (n: usize)
    requires
        chunk_size > 0,
    ensures
        n == chunk_count(len as int, chunk_size as int),
{
    proof {
        lemma_chunk_count(len as int, chunk_size as int);
    }
    let whole = len / chunk_size;
    if len % chunk_size == 0 {
        whole
    } else {
        whole + 1
    }
}

/// The chunks reach the end, and without the last of them they would not.
pub proof fn lemma_chunk_count(len: int, chunk_size: int)
    requires
        len >= 0,
        chunk_size > 0,
    ensures
        0 <= chunk_count(len, chunk_size) <= len,
        chunk_count(len, chunk_size) * chunk_size >= len,
        len > 0 ==> (chunk_count(len, chunk_size) - 1) * chunk_size < len,
{
    let q = len / chunk_size;
    let r = len % chunk_size;
    vstd::arithmetic::div_mod::lemma_fundamental_div_mod(len, chunk_size);
    vstd::arithmetic::div_mod::lemma_mod_bound(len, chunk_size);
    vstd::arithmetic::div_mod::lemma_div_pos_is_pos(len, chunk_size);
    assert(q * chunk_size == chunk_size * q && (q + 1) * chunk_size == chunk_size * q + chunk_size
        && (q - 1) * chunk_size == chunk_size * q - chunk_size) by (nonlinear_arith);
    assert(chunk_size * q >= q) by (nonlinear_arith)
        requires
            chunk_size > 0,
            q >= 0,
    ;
}

/// [`chunk_bounds`] for a reader that can only see its own chunk, in local coordinates.
///
/// `view` is the bytes at `base`: the chunk itself plus enough overlap to contain the line
/// crossing its end (one maximum line length is enough), truncated at the end of the file.
/// `base` is only consulted for whether this is the first chunk.
///
/// Both sides of a boundary evaluate the same expression over the same bytes, so they agree
/// on who owns the straddling line without communicating.
pub fn local_bounds(view: &[u8], base: usize, chunk_size: usize) -> (r: Option<(usize, usize)>)
    ensures
        r == local(view@, base as int, chunk_size as int),
        r matches Some((start, end)) ==> {
            &&& start < end <= view@.len()
            &&& start == 0 || at_line_start(view@, start as int)
            &&& at_line_start(view@, end as int)
        },
{
    assert(view.len() == view@.len());
    let start: usize = if base == 0 {
        0
    } else {
        next_line_start(view, 0)
    };
    // At the end of the file the view is shorter than the chunk and this yields its length,
    // which is right: the file's last line needs no newline after it.
    let end = next_line_start(view, chunk_size);
    proof {
        lemma_line_start_after(view@, 0);
        lemma_line_start_after(view@, chunk_size as int);
    }
    if start >= end {
        None
    } else {
        Some((start, end))
    }
}

/// The bounds of a chunk within its view.
pub open spec fn local(view: Seq<u8>, base: int, chunk_size: int) -> Option<(usize, usize)> {
    let start = if base == 0 {
        0
    } else {
        line_start_after(view, 0)
    };
    let end = line_start_after(view, chunk_size);
    if start < end {
        Some((start as usize, end as usize))
    } else {
        None
    }
}

/// Searching a window of the input finds what searching the input finds, as long as that lies
/// in the window.
proof fn lemma_window_search(d: Seq<u8>, base: int, avail: int, from: int)
    requires
        0 <= base,
        0 <= from <= avail,
        base + avail <= d.len(),
        base + avail == d.len() || line_start_after(d, base + from) <= base + avail,
    ensures
        line_start_after(d.subrange(base, base + avail), from) == line_start_after(d, base + from)
            - base,
{
    let view = d.subrange(base, base + avail);
    lemma_line_start_after(d, base + from);
    if from < avail {
        lemma_first_at(d, NEWLINE, base + from);
        let nl = first_at(d, NEWLINE, base + from);
        if nl < base + avail {
            lemma_first_at_is(view, NEWLINE, from, nl - base);
        } else {
            lemma_first_at_is(view, NEWLINE, from, avail);
        }
    }
}

/// A reader that sees only its chunk and `overlap` bytes more decides as one that sees the whole
/// file does, provided that the line crossing the chunk's end is no longer than the overlap.
pub proof fn law_local_bounds_agree(d: Seq<u8>, i: int, chunk_size: int, overlap: int)
    requires
        0 <= i,
        0 < chunk_size,
        0 <= overlap,
        i * chunk_size < d.len() <= usize::MAX,
        line_start_after(d, i * chunk_size + chunk_size) <= i * chunk_size + chunk_size + overlap
            || i * chunk_size + chunk_size + overlap >= d.len(),
    ensures
        ({
            let base = i * chunk_size;
            let rest = d.len() - base;
            let avail = if chunk_size + overlap < rest {
                chunk_size + overlap
            } else {
                rest
            };
            let view = d.subrange(base, base + avail);
            match bounds(d, i, chunk_size) {
                Some((start, end)) => {
                    &&& base <= start
                    &&& local(view, base, chunk_size) == Some(
                        ((start - base) as usize, (end - base) as usize),
                    )
                },
                None => local(view, base, chunk_size) is None,
            }
        }),
{
    let base = i * chunk_size;
    let rest = d.len() - base;
    let avail = if chunk_size + overlap < rest {
        chunk_size + overlap
    } else {
        rest
    };
    let view = d.subrange(base, base + avail);
    assert(base >= 0) by (nonlinear_arith)
        requires
            base == i * chunk_size,
            i >= 0,
            chunk_size > 0,
    ;
    lemma_line_start_after(d, base);
    lemma_line_start_after(d, base + chunk_size);
    lemma_line_start_monotone(d, base, base + chunk_size);
    lemma_window_search(d, base, avail, 0);
    if chunk_size <= avail {
        lemma_window_search(d, base, avail, chunk_size);
    }
}

/// Where chunk `k` begins and chunk `k - 1` ends.
pub open spec fn edge(d: Seq<u8>, k: int, chunk_size: int) -> int {
    if k == 0 {
        0
    } else {
        line_start_after(d, k * chunk_size)
    }
}

/// The chunks tile the input: they begin at its start, each where the one before ends, they
/// reach its end, and they are cut only at line starts. A chunk is handed out exactly when it
/// holds a line start.
pub proof fn law_chunks_tile(d: Seq<u8>, k: int, chunk_size: int)
    requires
        0 < chunk_size,
        0 <= k < chunk_count(d.len() as int, chunk_size),
        d.len() <= usize::MAX,
    ensures
        edge(d, 0, chunk_size) == 0,
        edge(d, chunk_count(d.len() as int, chunk_size), chunk_size) == d.len(),
        0 <= edge(d, k, chunk_size) <= edge(d, k + 1, chunk_size) <= d.len(),
        at_line_start(d, edge(d, k, chunk_size)),
        bounds(d, k, chunk_size) == if edge(d, k, chunk_size) < edge(d, k + 1, chunk_size) {
            Some((edge(d, k, chunk_size) as usize, edge(d, k + 1, chunk_size) as usize))
        } else {
            None
        },
{
    let len = d.len() as int;
    let n = chunk_count(len, chunk_size);
    lemma_chunk_count(len, chunk_size);
    assert(k * chunk_size >= 0 && (k + 1) * chunk_size == k * chunk_size + chunk_size)
        by (nonlinear_arith)
        requires
            k >= 0,
            chunk_size > 0,
    ;
    assert(k * chunk_size <= (n - 1) * chunk_size) by (nonlinear_arith)
        requires
            k <= n - 1,
            chunk_size > 0,
    ;
    assert(k > 0 ==> k * chunk_size > 0) by (nonlinear_arith)
        requires
            chunk_size > 0,
    ;
    lemma_line_start_after(d, k * chunk_size);
    lemma_line_start_after(d, (k + 1) * chunk_size);
    lemma_line_start_monotone(d, k * chunk_size, (k + 1) * chunk_size);
}

/// The rows of the first `k` chunks, chunk after chunk.
pub open spec fn chunk_rows(d: Seq<u8>, k: int, chunk_size: int) -> Seq<Record>
    decreases k,
{
    if k <= 0 {
        seq![]
    } else {
        chunk_rows(d, k - 1, chunk_size) + rows(
            d,
            edge(d, k - 1, chunk_size),
            edge(d, k, chunk_size),
        )
    }
}

/// No row is lost or read twice: the rows of all the chunks are the rows of the input.
pub proof fn law_chunks_hold_every_row(d: Seq<u8>, chunk_size: int, names: Names)
    requires
        0 < chunk_size,
        d.len() <= usize::MAX,
        rows_as(d, 0, d.len() as int, d.len() as int, names),
    ensures
        chunk_rows(d, chunk_count(d.len() as int, chunk_size), chunk_size) == rows(
            d,
            0,
            d.len() as int,
        ),
{
    let n = chunk_count(d.len() as int, chunk_size);
    lemma_chunk_count(d.len() as int, chunk_size);
    if n > 0 {
        lemma_chunk_rows(d, n, chunk_size, names);
        law_chunks_tile(d, n - 1, chunk_size);
    } else {
        assert(0 * chunk_size == 0);
        assert(rows(d, 0, d.len() as int) =~= seq![]);
    }
}

/// The rows of the first `k` chunks are the rows up to where the last of them ends, and every
/// chunk's rows are whole.
pub proof fn lemma_chunk_rows(d: Seq<u8>, k: int, chunk_size: int, names: Names)
    requires
        0 < chunk_size,
        0 <= k <= chunk_count(d.len() as int, chunk_size),
        d.len() <= usize::MAX,
        rows_as(d, 0, d.len() as int, d.len() as int, names),
    ensures
        chunk_rows(d, k, chunk_size) == rows(d, 0, edge(d, k, chunk_size)),
        rows_as(d, 0, edge(d, k, chunk_size), d.len() as int, names),
        k > 0 ==> rows_as(
            d,
            edge(d, k - 1, chunk_size),
            edge(d, k, chunk_size),
            d.len() as int, names),
    decreases k,
{
    let len = d.len() as int;
    if k > 0 {
        lemma_chunk_rows(d, k - 1, chunk_size, names);
        law_chunks_tile(d, k - 1, chunk_size);
        let a = edge(d, k - 1, chunk_size);
        let b = edge(d, k, chunk_size);
        if k < chunk_count(len, chunk_size) {
            law_chunks_tile(d, k, chunk_size);
        }
        lemma_lines_split(d, 0, b, len, len, names);
        lemma_lines_split(d, 0, a, b, len, names);
    }
}

/// Where stream `k` of `n` over `[start, end)` begins: the next line start after its share, but
/// never before the stream ahead of it.
pub open spec fn head(d: Seq<u8>, start: int, end: int, n: int, k: int) -> int
    decreases k,
{
    if k <= 0 {
        start
    } else {
        let line = line_start_after(d, start + ((end - start) / n) * k);
        let capped = if end < line {
            end
        } else {
            line
        };
        let before = head(d, start, end, n, k - 1);
        if before > capped {
            before
        } else {
            capped
        }
    }
}

/// Where stream `k` of `n` over `[start, end)` ends: where the next one begins.
pub open spec fn tail(d: Seq<u8>, start: int, end: int, n: int, k: int) -> int {
    if k + 1 < n {
        head(d, start, end, n, k + 1)
    } else {
        end
    }
}

/// Divides the line-aligned range `[start, end)` into `N` line-aligned sub-ranges.
///
/// This is for instruction-level parallelism, not load balancing. Consecutive rows form a
/// serial dependency chain (a row's start is only known once the previous row's value has
/// been parsed), so one stream leaves most of the core's out-of-order window idle. Walking
/// `N` independent streams lets those chains overlap.
///
/// The sub-ranges are contiguous, ordered, and together cover `[start, end)` exactly. Any
/// of them may be empty when the range holds fewer than `N` lines. `start` must already be
/// a line start, as `chunk_bounds` guarantees.
pub fn split_streams<const N: usize>(data: &[u8], start: usize, end: usize) -> (out: [(
    usize,
    usize,
); N])
    requires
        N > 0,
        start <= end,
    ensures
        forall|k: int|
            0 <= k < N ==> (#[trigger] out@[k]).0 == head(
                data@,
                start as int,
                end as int,
                N as int,
                k,
            ) && out@[k].1 == tail(data@, start as int, end as int, N as int, k),
{
    let ghost d = data@;
    let ghost (a, b, n) = (start as int, end as int, N as int);
    let mut heads: [usize; N] = [start; N];
    let step = (end - start) / N;
    for k in 1..N
        invariant
            N > 0,
            start <= end,
            d == data@,
            a == start,
            b == end,
            n == N,
            step == (end - start) / n,
            heads@.len() == N,
            forall|j: int| 0 <= j < k ==> #[trigger] heads@[j] == head(d, a, b, n, j),
    {
        proof {
            assert(0 <= step * k <= step * n <= end - start) by (nonlinear_arith)
                requires
                    0 <= k <= n,
                    step == (end - start) / n,
                    n > 0,
                    end >= start,
            ;
            lemma_line_start_after(d, start + step * k);
        }
        // Clamping to the previous head keeps the heads ordered when a line straddles
        // several split points.
        let line = next_line_start(data, start + step * k);
        let capped = if end < line {
            end
        } else {
            line
        };
        let before = heads[k - 1];
        assert(before == head(d, a, b, n, k - 1));
        heads[k] = if before > capped {
            before
        } else {
            capped
        };
    }
    let mut out: [(usize, usize); N] = [(end, end); N];
    for k in 0..N
        invariant
            N > 0,
            d == data@,
            a == start,
            b == end,
            n == N,
            heads@.len() == N,
            out@.len() == N,
            forall|j: int| 0 <= j < N ==> #[trigger] heads@[j] == head(d, a, b, n, j),
            forall|j: int|
                0 <= j < k ==> (#[trigger] out@[j]).0 == head(d, a, b, n, j) && out@[j].1 == tail(
                    d,
                    a,
                    b,
                    n,
                    j,
                ),
    {
        assert(heads@[k as int] == head(d, a, b, n, k as int));
        let stop: usize = if k + 1 < N {
            assert(heads@[k + 1] == head(d, a, b, n, k + 1));
            heads[k + 1]
        } else {
            end
        };
        out[k] = (heads[k], stop);
    }
    out
}

/// The streams tile the range: ordered, each beginning where the one before ends, the first at
/// its start and the last at its end, and cut only at line starts (or, for empty streams, at
/// the range's end).
pub proof fn law_streams_tile(d: Seq<u8>, start: int, end: int, n: int, k: int)
    requires
        0 <= start <= end <= d.len(),
        0 <= k < n,
    ensures
        head(d, start, end, n, 0) == start,
        tail(d, start, end, n, n - 1) == end,
        start <= head(d, start, end, n, k) <= tail(d, start, end, n, k) <= end,
        head(d, start, end, n, k) == start || head(d, start, end, n, k) == end || d[head(
            d,
            start,
            end,
            n,
            k,
        ) - 1] == NEWLINE,
        k + 1 < n ==> tail(d, start, end, n, k) == head(d, start, end, n, k + 1),
{
    lemma_head(d, start, end, n, k);
    if k + 1 < n {
        lemma_head(d, start, end, n, k + 1);
    }
}

proof fn lemma_head(d: Seq<u8>, start: int, end: int, n: int, k: int)
    requires
        0 <= start <= end <= d.len(),
        0 <= k < n,
    ensures
        start <= head(d, start, end, n, k) <= end,
        k > 0 ==> head(d, start, end, n, k - 1) <= head(d, start, end, n, k),
        head(d, start, end, n, k) == start || head(d, start, end, n, k) == end || d[head(
            d,
            start,
            end,
            n,
            k,
        ) - 1] == NEWLINE,
    decreases k,
{
    if k > 0 {
        lemma_head(d, start, end, n, k - 1);
        let at = start + ((end - start) / n) * k;
        assert(at >= start) by (nonlinear_arith)
            requires
                at == start + ((end - start) / n) * k,
                k >= 0,
                n > 0,
                end >= start,
        ;
        lemma_line_start_after(d, at);
    }
}

/// Where the first row at or after `at` starts, for a range that starts at `start` and whose
/// rows up to `at` have been dealt with.
pub fn resume_at(data: &[u8], start: usize, at: usize) -> (p: usize)
    requires
        start <= at <= data@.len(),
    ensures
        p == if start == at {
            start as int
        } else {
            line_start_after(data@, at - 1)
        },
{
    if start >= at {
        start
    } else {
        next_line_start(data, at - 1)
    }
}

/// The rows of a range are those that start before `at` and those from where it is resumed.
pub proof fn lemma_resume(d: Seq<u8>, start: int, at: int, end: int, names: Names)
    requires
        0 <= start <= at <= end <= d.len(),
        rows_as(d, start, end, d.len() as int, names),
        at_line_start(d, end),
    ensures
        ({
            let p = if start == at {
                start
            } else {
                line_start_after(d, at - 1)
            };
            &&& at <= p <= end
            &&& rows(d, start, end) == rows(d, start, at) + rows(d, p, end)
            &&& rows_as(d, start, at, d.len() as int, names)
            &&& rows_as(d, p, end, d.len() as int, names)
        }),
{
    if start == at {
        assert(rows(d, start, at) =~= seq![]);
        assert(rows(d, start, end) =~= rows(d, start, at) + rows(d, start, end));
    } else {
        let p = line_start_after(d, at - 1);
        lemma_line_start_after(d, at - 1);
        lemma_lines_split(d, start, p, end, d.len() as int, names);
        lemma_no_row_between(d, start, at, p, names);
    }
}

/// No row starts between `at` and the next line start.
proof fn lemma_no_row_between(d: Seq<u8>, pos: int, at: int, p: int, names: Names)
    requires
        0 <= pos <= d.len(),
        0 < at <= p <= d.len(),
        p == line_start_after(d, at - 1),
        pos < at || pos >= p,
        rows_as(d, pos, p, d.len() as int, names),
    ensures
        rows(d, pos, p) == rows(d, pos, at),
        rows_as(d, pos, at, d.len() as int, names),
    decreases remaining(pos, p),
{
    if pos < at {
        let next = row_next(d, pos);
        lemma_line_shape(d, pos, d.len() as int, names);
        lemma_line_start_after(d, at - 1);
        if next <= d.len() {
            assert(d[next - 1] == NEWLINE);
            lemma_no_row_between(d, next, at, p, names);
        } else {
            assert(rows(d, next, p) =~= seq![]);
            assert(rows(d, next, at) =~= seq![]);
        }
    }
}

/// Where the next line starts, byte by byte: right after the first newline from `from` on, or at the
/// end where there is none.
pub proof fn law_next_line_starts_after_a_newline(d: Seq<u8>, from: int)
    requires
        0 <= from,
    ensures
        from >= d.len() ==> line_start_after(d, from) == d.len(),
        from < d.len() ==> {
            let p = line_start_after(d, from);
            &&& from < p <= d.len()
            &&& d[p - 1] == 0x0A || p == d.len()
            &&& forall|i: int| from <= i < p - 1 ==> #[trigger] d[i] != 0x0A
        },
{
    if from < d.len() {
        lemma_first_at(d, NEWLINE, from);
    }
}

/// How many chunks there are: as few as hold every byte.
pub proof fn law_chunks_are_as_few_as_hold_the_input(len: int, chunk_size: int, n: int)
    requires
        0 <= len,
        0 < chunk_size,
        0 <= n,
    ensures
        chunk_count(len, chunk_size) == n <==> len <= n * chunk_size && (n == 0 || (n - 1)
            * chunk_size < len),
{
    let c = chunk_count(len, chunk_size);
    let q = len / chunk_size;
    let r = len % chunk_size;
    vstd::arithmetic::div_mod::lemma_fundamental_div_mod(len, chunk_size);
    vstd::arithmetic::div_mod::lemma_mod_bound(len, chunk_size);
    assert(len <= c * chunk_size && (c == 0 || (c - 1) * chunk_size < len) && c >= 0)
        by (nonlinear_arith)
        requires
            len == chunk_size * q + r,
            0 <= r < chunk_size,
            0 <= len,
            c == if r == 0 {
                q
            } else {
                q + 1
            },
    ;
    if len <= n * chunk_size && (n == 0 || (n - 1) * chunk_size < len) {
        assert(n == c) by (nonlinear_arith)
            requires
                len <= n * chunk_size,
                n == 0 || (n - 1) * chunk_size < len,
                len <= c * chunk_size,
                c == 0 || (c - 1) * chunk_size < len,
                chunk_size > 0,
                len >= 0,
                n >= 0,
                c >= 0,
        ;
    }
}

/// **Which chunk a line belongs to.** The one in whose raw bytes it starts, but for a line that
/// starts with the chunk, which belongs to the one before; the first line belongs to the first. What
/// a chunk is given starts and ends with lines.
pub proof fn law_chunk_owns_the_lines_that_start_in_it(
    d: Seq<u8>,
    i: int,
    chunk_size: int,
    p: int,
)
    requires
        0 <= i,
        0 < chunk_size,
        d.len() <= usize::MAX,
        0 <= p < d.len(),
        p == 0 || d[p - 1] == 0x0A,
    ensures
        (bounds(d, i, chunk_size) matches Some((start, end)) && start <= p < end) <==> i * chunk_size
            < p <= i * chunk_size + chunk_size || i == 0 && p == 0,
        bounds(d, i, chunk_size) matches Some((start, end)) ==> {
            &&& start < end <= d.len()
            &&& start == 0 || d[start - 1] == 0x0A
            &&& end == d.len() || d[end - 1] == 0x0A
        },
{
    let raw = i * chunk_size;
    assert(raw >= 0 && (raw == 0 <==> i == 0)) by (nonlinear_arith)
        requires
            raw == i * chunk_size,
            0 <= i,
            0 < chunk_size,
    ;
    law_next_line_starts_after_a_newline(d, raw);
    law_next_line_starts_after_a_newline(d, raw + chunk_size);
    let a = line_start_after(d, raw);
    let b = line_start_after(d, raw + chunk_size);
    if p > 0 {
        assert(raw < p < a ==> p - 1 < a - 1 && d[p - 1] != 0x0A);
        assert(raw + chunk_size < p < b ==> p - 1 < b - 1 && d[p - 1] != 0x0A);
    }
}

/// Which stream a line of a range belongs to: the range is cut into equal shares, and a line belongs
/// to the stream in whose share it starts.
pub proof fn law_stream_owns_the_lines_that_start_in_it(
    d: Seq<u8>,
    start: int,
    end: int,
    n: int,
    k: int,
    p: int,
)
    requires
        0 <= start < p < end <= d.len(),
        0 <= k < n,
        d[p - 1] == 0x0A,
    ensures
        head(d, start, end, n, k) <= p <==> k == 0 || start + ((end - start) / n) * k < p,
    decreases k,
{
    if k > 0 {
        law_stream_owns_the_lines_that_start_in_it(d, start, end, n, k - 1, p);
        let step = (end - start) / n;
        let share = start + step * k;
        assert(0 <= step && step * (k - 1) <= step * k && 0 <= step * k) by (nonlinear_arith)
            requires
                step == (end - start) / n,
                end > start,
                n > 0,
                k > 0,
        ;
        law_next_line_starts_after_a_newline(d, share);
        let line = line_start_after(d, share);
        assert(share < p < line ==> p - 1 < line - 1 && d[p - 1] != 0x0A);
    }
}

/// Which lines a reader that sees its chunk alone is given: those that start in it or right at its
/// end, but not the one it starts with, unless that is the first of all.
pub proof fn law_reader_is_given_the_lines_that_start_in_its_chunk(
    view: Seq<u8>,
    base: int,
    chunk_size: int,
    p: int,
)
    requires
        0 <= base,
        0 < chunk_size,
        view.len() <= usize::MAX,
        0 <= p < view.len(),
        p == 0 || view[p - 1] == 0x0A,
    ensures
        (local(view, base, chunk_size) matches Some((start, end)) && start <= p < end) <==> 0 < p
            <= chunk_size || base == 0 && p == 0,
        local(view, base, chunk_size) matches Some((start, end)) ==> {
            &&& start < end <= view.len()
            &&& start == 0 || view[start - 1] == 0x0A
            &&& end == view.len() || view[end - 1] == 0x0A
        },
{
    law_next_line_starts_after_a_newline(view, 0);
    law_next_line_starts_after_a_newline(view, chunk_size);
    let a = line_start_after(view, 0);
    let b = line_start_after(view, chunk_size);
    if p > 0 {
        assert(p < a ==> p - 1 < a - 1 && view[p - 1] != 0x0A);
        assert(chunk_size < p < b ==> p - 1 < b - 1 && view[p - 1] != 0x0A);
    }
}

} // verus!
