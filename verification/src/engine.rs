//! Row loops: the drivers that hand rows to whatever is done with them.
//!
//! What is done with a row is an [`Engine`]: a context that rows are fed to, and the meaning of
//! feeding it one. A driver decides in which order rows are reached, and every driver leaves
//! the context as if they had been fed in the order of the input.

use crate::bytes::NEWLINE;
use crate::chunk::head;
use crate::chunk::law_streams_tile;
use crate::chunk::split_streams;
use crate::chunk::tail;
use crate::rows::lemma_line_shape;
use crate::rows::lemma_rows_split;
use crate::rows::record_at;
use crate::rows::remaining;
use crate::rows::row_as;
use crate::rows::row_next;
use crate::rows::row_stop;
use crate::rows::rows;
use crate::rows::rows_as;
use crate::rows::rows_ok;
use crate::rows::Names;
use crate::rows::Record;
use vstd::prelude::*;

verus! {

/// What feeding rows to a context means.
pub trait Engine {
    /// What rows are fed to.
    type Ctx;

    /// What the context amounts to.
    type S;

    /// The context is sound, over the input `d`.
    spec fn inv(ctx: Self::Ctx, d: Seq<u8>) -> bool;

    /// What the context amounts to, over the input `d`.
    spec fn state(ctx: Self::Ctx, d: Seq<u8>) -> Self::S;

    /// What it amounts to after one more row.
    spec fn next(s: Self::S, r: Record) -> Self::S;

    /// There is room for one more row.
    spec fn accepts(s: Self::S, r: Record) -> bool;

    /// How many bytes from the start of a row a step may touch.
    spec fn reach() -> int;
}

/// An engine that is fed by position: it finds the row's end itself.
pub trait Step: Engine {
    /// Which names the step can read.
    spec fn names() -> Names;

    /// Feeds the row at `pos`, and returns where the next one starts. Where no newline ends the
    /// row, which only the last one of an input may do, what is returned lies past its end.
    fn step(ctx: &mut Self::Ctx, data: &[u8], pos: usize) -> (next: usize)
        requires
            Self::inv(*old(ctx), data@),
            whole_line(data@, pos as int, Self::names()),
            pos + Self::reach() <= data@.len() < usize::MAX,
            pos <= data@.len(),
            Self::accepts(Self::state(*old(ctx), data@), record_at(data@, pos as int)),
        ensures
            Self::inv(*final(ctx), data@),
            Self::state(*final(ctx), data@) == Self::next(
                Self::state(*old(ctx), data@),
                record_at(data@, pos as int),
            ),
            next >= row_next(data@, pos as int),
            ends_in_newline(data@, pos as int) ==> next == row_next(data@, pos as int),
    ;
}

/// An engine for which the order of rows does not matter.
pub trait Commuting: Engine {
    /// What the context has room to amount to.
    spec fn fits(s: Self::S) -> bool;

    /// Two rows can be swapped.
    proof fn swap(s: Self::S, a: Record, b: Record)
        ensures
            Self::next(Self::next(s, a), b) == Self::next(Self::next(s, b), a),
    ;

    /// What fits after a row fits before it, and the row can be fed.
    proof fn room(s: Self::S, r: Record)
        requires
            Self::fits(Self::next(s, r)),
        ensures
            Self::fits(s),
            Self::accepts(s, r),
    ;
}

/// A station's row starts at `pos`, whole but for its newline.
#[verifier::inline]
pub open spec fn whole_row(d: Seq<u8>, pos: int) -> bool {
    whole_line(d, pos, Names::Station)
}

/// A row with one of `names` starts at `pos`, whole but for its newline.
pub open spec fn whole_line(d: Seq<u8>, pos: int, names: Names) -> bool {
    row_as(d, pos, row_stop(d, pos), names)
}

/// The row at `pos` ends in a newline.
pub open spec fn ends_in_newline(d: Seq<u8>, pos: int) -> bool {
    row_stop(d, pos) < d.len() && d[row_stop(d, pos)] == NEWLINE
}

/// Every row that starts in `[start, end)` is a station's and whole, in an input that ends at `end`
/// or later.
#[verifier::inline]
pub open spec fn holds_rows(d: Seq<u8>, start: int, end: int) -> bool {
    holds_lines(d, start, end, Names::Station)
}

/// Every row that starts in `[start, end)` has one of `names` and is whole, in an input that ends
/// at `end` or later.
pub open spec fn holds_lines(d: Seq<u8>, start: int, end: int, names: Names) -> bool {
    exists|lim: int| end <= lim <= d.len() && #[trigger] rows_as(d, start, end, lim, names)
}

/// What a context amounts to after `rows`, fed in order.
pub open spec fn run_all<E: Engine>(s: E::S, rows: Seq<Record>) -> E::S
    decreases rows.len(),
{
    if rows.len() == 0 {
        s
    } else {
        run_all::<E>(E::next(s, rows[0]), rows.drop_first())
    }
}

/// There is room for each of `rows` in turn.
pub open spec fn accepts_all<E: Engine>(s: E::S, rows: Seq<Record>) -> bool
    decreases rows.len(),
{
    rows.len() == 0 || {
        &&& E::accepts(s, rows[0])
        &&& accepts_all::<E>(E::next(s, rows[0]), rows.drop_first())
    }
}

/// The first row of `[pos, end)` and the others.
pub proof fn lemma_first_line(d: Seq<u8>, pos: int, end: int, lim: int, names: Names)
    requires
        rows_as(d, pos, end, lim, names),
        pos < end <= lim <= d.len(),
    ensures
        rows(d, pos, end).len() > 0,
        rows(d, pos, end)[0] == record_at(d, pos),
        rows(d, pos, end).drop_first() == rows(d, row_next(d, pos), end),
        whole_line(d, pos, names),
        rows_as(d, row_next(d, pos), end, lim, names),
        row_next(d, pos) > pos,
        ends_in_newline(d, pos) || row_next(d, pos) > end,
{
    let rest = rows(d, row_next(d, pos), end);
    assert(rows(d, pos, end) =~= seq![record_at(d, pos)] + rest);
    assert(rows(d, pos, end).drop_first() =~= rest);
    lemma_line_shape(d, pos, lim, names);
}

/// [`lemma_first_line`] for rows of stations.
pub proof fn lemma_first_row(d: Seq<u8>, pos: int, end: int, lim: int)
    requires
        rows_ok(d, pos, end, lim),
        pos < end <= lim <= d.len(),
    ensures
        rows(d, pos, end).len() > 0,
        rows(d, pos, end)[0] == record_at(d, pos),
        rows(d, pos, end).drop_first() == rows(d, row_next(d, pos), end),
        whole_row(d, pos),
        rows_ok(d, row_next(d, pos), end, lim),
        row_next(d, pos) > pos,
        ends_in_newline(d, pos) || row_next(d, pos) > end,
{
    lemma_first_line(d, pos, end, lim, Names::Station);
}

/// Wherever a step says that the next row starts, the rows left are the same.
pub proof fn lemma_line_stepped(
    d: Seq<u8>,
    pos: int,
    next: int,
    end: int,
    lim: int,
    names: Names,
)
    requires
        rows_as(d, pos, end, lim, names),
        pos < end <= lim <= d.len(),
        next >= row_next(d, pos),
        ends_in_newline(d, pos) ==> next == row_next(d, pos),
    ensures
        rows(d, next, end) == rows(d, row_next(d, pos), end),
        rows_as(d, next, end, lim, names),
        next > pos,
{
    lemma_first_line(d, pos, end, lim, names);
    if !ends_in_newline(d, pos) {
        assert(rows(d, next, end) =~= seq![]);
        assert(rows(d, row_next(d, pos), end) =~= seq![]);
    }
}

/// [`lemma_line_stepped`] for rows of stations.
pub proof fn lemma_stepped(d: Seq<u8>, pos: int, next: int, end: int, lim: int)
    requires
        rows_ok(d, pos, end, lim),
        pos < end <= lim <= d.len(),
        next >= row_next(d, pos),
        ends_in_newline(d, pos) ==> next == row_next(d, pos),
    ensures
        rows(d, next, end) == rows(d, row_next(d, pos), end),
        rows_ok(d, next, end, lim),
        next > pos,
{
    lemma_line_stepped(d, pos, next, end, lim, Names::Station);
}

/// Rows fed in two parts.
pub proof fn lemma_run_concat<E: Engine>(s: E::S, a: Seq<Record>, b: Seq<Record>)
    ensures
        run_all::<E>(s, a + b) == run_all::<E>(run_all::<E>(s, a), b),
    decreases a.len(),
{
    if a.len() == 0 {
        assert(a + b =~= b);
    } else {
        assert((a + b)[0] == a[0]);
        assert((a + b).drop_first() =~= a.drop_first() + b);
        lemma_run_concat::<E>(E::next(s, a[0]), a.drop_first(), b);
    }
}

/// A row fed before others might as well be fed after them.
pub proof fn lemma_run_later<E: Commuting>(s: E::S, r: Record, rows: Seq<Record>)
    ensures
        run_all::<E>(E::next(s, r), rows) == E::next(run_all::<E>(s, rows), r),
    decreases rows.len(),
{
    if rows.len() > 0 {
        E::swap(s, r, rows[0]);
        lemma_run_later::<E>(E::next(s, rows[0]), r, rows.drop_first());
    }
}

/// What fits at the end fits at the start, and each row on the way can be fed.
pub proof fn lemma_run_fits<E: Commuting>(s: E::S, rows: Seq<Record>)
    requires
        E::fits(run_all::<E>(s, rows)),
    ensures
        E::fits(s),
        accepts_all::<E>(s, rows),
    decreases rows.len(),
{
    if rows.len() > 0 {
        lemma_run_fits::<E>(E::next(s, rows[0]), rows.drop_first());
        E::room(s, rows[0]);
    }
}

/// The rows that are left in streams `k` and up.
pub open spec fn pending(d: Seq<u8>, s: Seq<(usize, usize)>, k: int) -> Seq<Record>
    decreases s.len() - k,
{
    if k >= s.len() {
        seq![]
    } else {
        rows(d, s[k].0 as int, s[k].1 as int) + pending(d, s, k + 1)
    }
}

/// Every stream holds whole rows.
pub open spec fn streams_ok(d: Seq<u8>, s: Seq<(usize, usize)>, end: int, lim: int) -> bool {
    forall|k: int|
        0 <= k < s.len() ==> (#[trigger] s[k]).1 <= end && rows_ok(
            d,
            s[k].0 as int,
            s[k].1 as int,
            lim,
        )
}

/// What is pending in later streams does not depend on earlier ones.
pub proof fn lemma_pending_same(
    d: Seq<u8>,
    a: Seq<(usize, usize)>,
    b: Seq<(usize, usize)>,
    k: int,
)
    requires
        a.len() == b.len(),
        0 <= k,
        forall|j: int| k <= j < a.len() ==> #[trigger] a[j] == b[j],
    ensures
        pending(d, a, k) == pending(d, b, k),
    decreases a.len() - k,
{
    if k < a.len() {
        lemma_pending_same(d, a, b, k + 1);
    }
}

/// Taking the first row of stream `k` out of what is pending.
pub proof fn lemma_pending_step<E: Commuting>(
    st: E::S,
    d: Seq<u8>,
    s: Seq<(usize, usize)>,
    k: int,
    next: usize,
    j: int,
)
    requires
        0 <= j <= k < s.len(),
        rows(d, s[k].0 as int, s[k].1 as int).len() > 0,
        rows(d, s[k].0 as int, s[k].1 as int).drop_first() == rows(d, next as int, s[k].1 as int),
    ensures
        run_all::<E>(st, pending(d, s, j)) == run_all::<E>(
            E::next(st, rows(d, s[k].0 as int, s[k].1 as int)[0]),
            pending(d, s.update(k, (next, s[k].1)), j),
        ),
    decreases k - j,
{
    let after = s.update(k, (next, s[k].1));
    let here = rows(d, s[j].0 as int, s[j].1 as int);
    let others = pending(d, s, j + 1);
    if j == k {
        lemma_pending_same(d, s, after, k + 1);
        assert((here + others)[0] == here[0]);
        assert((here + others).drop_first() =~= here.drop_first() + others);
    } else {
        let r = rows(d, s[k].0 as int, s[k].1 as int)[0];
        lemma_run_concat::<E>(st, here, others);
        lemma_pending_step::<E>(run_all::<E>(st, here), d, s, k, next, j + 1);
        lemma_run_later::<E>(st, r, here);
        lemma_run_concat::<E>(E::next(st, r), here, pending(d, after, j + 1));
    }
}

/// The streams that a range is split into hold its rows between them.
pub proof fn lemma_split_pending(
    d: Seq<u8>,
    s: Seq<(usize, usize)>,
    start: int,
    end: int,
    lim: int,
    k: int,
)
    requires
        0 <= start <= end <= lim <= d.len(),
        rows_ok(d, start, end, lim),
        0 <= k < s.len(),
        forall|j: int|
            0 <= j < s.len() ==> (#[trigger] s[j]).0 == head(d, start, end, s.len() as int, j)
                && s[j].1 == tail(d, start, end, s.len() as int, j),
    ensures
        pending(d, s, k) == rows(d, s[k].0 as int, end),
        rows_ok(d, s[k].0 as int, end, lim),
        forall|j: int|
            k <= j < s.len() ==> (#[trigger] s[j]).1 <= end && rows_ok(
                d,
                s[j].0 as int,
                s[j].1 as int,
                lim,
            ),
    decreases s.len() - k,
{
    let n = s.len() as int;
    law_streams_tile(d, start, end, n, k);
    let a = s[k].0 as int;
    let b = s[k].1 as int;
    lemma_rows_split(d, start, a, end, lim);
    if k + 1 < n {
        lemma_split_pending(d, s, start, end, lim, k + 1);
        law_streams_tile(d, start, end, n, k + 1);
        assert(b == s[k + 1].0);
        // A stream that begins at the range's end is followed by empty ones.
        assert(b == a || b == end || d[b - 1] == NEWLINE) by {
            if b == start {
                assert(a == start);
            }
        }
        lemma_rows_split(d, a, b, end, lim);
    } else {
        assert(pending(d, s, k + 1) =~= seq![]);
        assert(pending(d, s, k) =~= rows(d, a, end));
    }
}

/// Nothing is pending in streams that have run dry.
pub proof fn lemma_pending_none(d: Seq<u8>, s: Seq<(usize, usize)>, k: int)
    requires
        0 <= k,
        forall|j: int| k <= j < s.len() ==> (#[trigger] s[j]).0 >= s[j].1,
    ensures
        pending(d, s, k) == Seq::<Record>::empty(),
    decreases s.len() - k,
{
    if k < s.len() {
        lemma_pending_none(d, s, k + 1);
        assert(s[k].0 >= s[k].1);
    }
}

/// One step of stream `k`, as far as the streams are concerned.
pub proof fn lemma_streams_step<E: Commuting>(
    st: E::S,
    d: Seq<u8>,
    s: Seq<(usize, usize)>,
    k: int,
    next: usize,
    end: int,
    lim: int,
)
    requires
        streams_ok(d, s, end, lim),
        end <= lim <= d.len(),
        0 <= k < s.len(),
        s[k].0 < s[k].1,
        next >= row_next(d, s[k].0 as int),
        ends_in_newline(d, s[k].0 as int) ==> next == row_next(d, s[k].0 as int),
    ensures
        streams_ok(d, s.update(k, (next, s[k].1)), end, lim),
        run_all::<E>(st, pending(d, s, 0)) == run_all::<E>(
            E::next(st, record_at(d, s[k].0 as int)),
            pending(d, s.update(k, (next, s[k].1)), 0),
        ),
        next > s[k].0,
{
    let a = s[k].0 as int;
    let b = s[k].1 as int;
    assert(b <= end && rows_ok(d, a, b, lim));
    lemma_first_row(d, a, b, lim);
    lemma_stepped(d, a, next as int, b, lim);
    lemma_pending_step::<E>(st, d, s, k, next, 0);
}

/// The row at the head of a stream can be fed.
pub proof fn lemma_streams_room<E: Commuting>(
    st: E::S,
    d: Seq<u8>,
    s: Seq<(usize, usize)>,
    k: int,
    end: int,
    lim: int,
)
    requires
        streams_ok(d, s, end, lim),
        end <= lim <= d.len(),
        0 <= k < s.len(),
        s[k].0 < s[k].1,
        E::fits(run_all::<E>(st, pending(d, s, 0))),
    ensures
        whole_row(d, s[k].0 as int),
        E::accepts(st, record_at(d, s[k].0 as int)),
        s[k].0 < end,
{
    let a = s[k].0 as int;
    let b = s[k].1 as int;
    assert(b <= end && rows_ok(d, a, b, lim));
    lemma_first_row(d, a, b, lim);
    let st2 = E::next(st, record_at(d, a));
    lemma_pending_step::<E>(st, d, s, k, row_next_in(d, a, b), 0);
    lemma_run_fits::<E>(st2, pending(d, s.update(k, (row_next_in(d, a, b), s[k].1)), 0));
    E::room(st, record_at(d, a));
}

/// Where the next row starts, or the stream's end where it lies past it.
spec fn row_next_in(d: Seq<u8>, pos: int, end: int) -> usize {
    if row_next(d, pos) < end {
        row_next(d, pos) as usize
    } else {
        end as usize
    }
}

/// The context has been fed the rows that start in `[start, end)`.
pub open spec fn fed<E: Engine>(
    before: E::Ctx,
    after: E::Ctx,
    d: Seq<u8>,
    start: int,
    end: int,
) -> bool {
    &&& E::inv(after, d)
    &&& E::state(after, d) == run_all::<E>(E::state(before, d), rows(d, start, end))
}

/// Runs the engine's step over `[start, end)`, one row after the other: the serial dependency
/// chain that a row's start is only known once the previous row has been parsed.
#[inline(always)]
pub fn serial<E: Step>(ctx: &mut E::Ctx, data: &[u8], start: usize, end: usize)
    requires
        E::inv(*old(ctx), data@),
        start <= end,
        holds_lines(data@, start as int, end as int, E::names()),
        end + E::reach() <= data@.len() + 1,
        E::reach() >= 0,
        data@.len() < usize::MAX,
        accepts_all::<E>(
            E::state(*old(ctx), data@),
            rows(data@, start as int, end as int),
        ),
    ensures
        fed::<E>(*old(ctx), *final(ctx), data@, start as int, end as int),
{
    let ghost d = data@;
    let ghost lim = choose|lim: int|
        end <= lim <= d.len() && #[trigger] rows_as(d, start as int, end as int, lim, E::names());
    let ghost goal = run_all::<E>(E::state(*ctx, d), rows(d, start as int, end as int));
    let mut pos = start;
    while pos < end
        invariant
            d == data@,
            d.len() < usize::MAX,
            end <= lim <= d.len(),
            end + E::reach() <= d.len() + 1,
            rows_as(d, pos as int, end as int, lim, E::names()),
            E::inv(*ctx, d),
            goal == run_all::<E>(E::state(*ctx, d), rows(d, pos as int, end as int)),
            accepts_all::<E>(E::state(*ctx, d), rows(d, pos as int, end as int)),
        decreases remaining(pos as int, end as int),
    {
        proof {
            lemma_first_line(d, pos as int, end as int, lim, E::names());
        }
        let next = E::step(ctx, data, pos);
        proof {
            lemma_line_stepped(d, pos as int, next as int, end as int, lim, E::names());
        }
        pos = next;
    }
    assert(rows(d, pos as int, end as int) =~= seq![]);
}

/// Runs the engine's step over `N` independent line streams covering `[start, end)`.
#[inline(always)]
pub fn streamed<const N: usize, E: Step + Commuting>(
    ctx: &mut E::Ctx,
    data: &[u8],
    start: usize,
    end: usize,
)
    requires
        N > 0,
        E::names() == Names::Station,
        E::inv(*old(ctx), data@),
        start <= end,
        holds_rows(data@, start as int, end as int),
        end + E::reach() <= data@.len() + 1,
        E::reach() >= 0,
        data@.len() < usize::MAX,
        E::fits(
            run_all::<E>(E::state(*old(ctx), data@), rows(data@, start as int, end as int)),
        ),
    ensures
        fed::<E>(*old(ctx), *final(ctx), data@, start as int, end as int),
{
    let ghost d = data@;
    let ghost lim = choose|lim: int|
        end <= lim <= d.len() && #[trigger] rows_ok(d, start as int, end as int, lim);
    let ghost goal = run_all::<E>(E::state(*ctx, d), rows(d, start as int, end as int));
    let mut s = split_streams::<N>(data, start, end);
    proof {
        lemma_split_pending(d, s@, start as int, end as int, lim, 0);
        law_streams_tile(d, start as int, end as int, N as int, 0);
    }
    loop
        invariant
            N > 0,
            d == data@,
            E::names() == Names::Station,
            d.len() < usize::MAX,
            end <= lim <= d.len(),
            end + E::reach() <= d.len() + 1,
            s@.len() == N,
            streams_ok(d, s@, end as int, lim),
            E::inv(*ctx, d),
            E::fits(goal),
            goal == run_all::<E>(E::state(*ctx, d), pending(d, s@, 0)),
        decreases remaining(s@[0].0 as int, s@[0].1 as int),
    {
        let mut all = true;
        for k in 0..N
            invariant
                s@.len() == N,
                all == (forall|j: int| 0 <= j < k ==> (#[trigger] s@[j]).0 < s@[j].1),
        {
            assert(s@[k as int] == s@[k as int]);
            all = all && s[k].0 < s[k].1;
        }
        if !all {
            break ;
        }
        let ghost first = s@[0];
        for k in 0..N
            invariant
                d == data@,
                E::names() == Names::Station,
                d.len() < usize::MAX,
                end <= lim <= d.len(),
                end + E::reach() <= d.len() + 1,
                s@.len() == N,
                streams_ok(d, s@, end as int, lim),
                E::inv(*ctx, d),
                E::fits(goal),
                goal == run_all::<E>(E::state(*ctx, d), pending(d, s@, 0)),
                forall|j: int| k <= j < N ==> (#[trigger] s@[j]).0 < s@[j].1,
                s@[0].1 == first.1,
                k > 0 ==> s@[0].0 > first.0,
                k == 0 ==> s@[0].0 == first.0,
        {
            let ghost before = s@;
            proof {
                assert(s@[k as int].0 < s@[k as int].1);
                lemma_streams_room::<E>(E::state(*ctx, d), d, s@, k as int, end as int, lim);
            }
            let ghost st = E::state(*ctx, d);
            let next = E::step(ctx, data, s[k].0);
            s[k].0 = next;
            proof {
                lemma_streams_step::<E>(st, d, before, k as int, next, end as int, lim);
                assert(s@ =~= before.update(k as int, (next, before[k as int].1)));
            }
        }
    }
    for k in 0..N
        invariant
            d == data@,
            E::names() == Names::Station,
            d.len() < usize::MAX,
            end <= lim <= d.len(),
            end + E::reach() <= d.len() + 1,
            s@.len() == N,
            streams_ok(d, s@, end as int, lim),
            E::inv(*ctx, d),
            E::fits(goal),
            goal == run_all::<E>(E::state(*ctx, d), pending(d, s@, 0)),
            forall|j: int| 0 <= j < k ==> (#[trigger] s@[j]).0 >= s@[j].1,
    {
        while s[k].0 < s[k].1
            invariant
                d == data@,
                E::names() == Names::Station,
                d.len() < usize::MAX,
                end <= lim <= d.len(),
                end + E::reach() <= d.len() + 1,
                k < N,
                s@.len() == N,
                streams_ok(d, s@, end as int, lim),
                E::inv(*ctx, d),
                E::fits(goal),
                goal == run_all::<E>(E::state(*ctx, d), pending(d, s@, 0)),
                forall|j: int| 0 <= j < k ==> (#[trigger] s@[j]).0 >= s@[j].1,
            decreases remaining(s@[k as int].0 as int, s@[k as int].1 as int),
        {
            let ghost before = s@;
            proof {
                lemma_streams_room::<E>(E::state(*ctx, d), d, s@, k as int, end as int, lim);
            }
            let ghost st = E::state(*ctx, d);
            let next = E::step(ctx, data, s[k].0);
            s[k].0 = next;
            proof {
                lemma_streams_step::<E>(st, d, before, k as int, next, end as int, lim);
                assert(s@ =~= before.update(k as int, (next, before[k as int].1)));
            }
        }
    }
    proof {
        lemma_pending_none(d, s@, 0);
    }
}

} // verus!
