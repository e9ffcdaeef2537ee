//! Streams that each fill a table of their own.

use crate::chunk::head;
use crate::chunk::law_streams_tile;
use crate::chunk::split_streams;
use crate::chunk::tail;
use crate::engine::holds_rows;
use crate::engine::lemma_first_row;
use crate::engine::lemma_pending_none;
use crate::engine::lemma_run_fits;
use crate::engine::lemma_split_pending;
use crate::engine::lemma_stepped;
use crate::engine::lemma_streams_room;
use crate::engine::lemma_streams_step;
use crate::engine::pending;
use crate::engine::run_all;
use crate::engine::streams_ok;
use crate::feed::by_name_hash;
use crate::feed::offsets_fit;
use crate::feed::offsets_of;
use crate::feed::shelved;
use crate::feed::Offsets;
use crate::feed::TAIL_GUARD;
use crate::hot::count::law_counted_run;
use crate::hot::count::law_same_sink;
use crate::hot::count::sinks;
use crate::hot::count::Count;
use crate::hot::count::Counted;
use crate::hot::rows::full;
use crate::hot::rows::Full;
use crate::hot::rows::NameHash;
use crate::hot::rows::Plain;
use crate::rows::remaining;
use crate::rows::rows;
use crate::rows::rows_ok;
use crate::rows::Record;
use crate::table::Table;
use vstd::prelude::*;

verus! {

/// The rows of stream `k` out of `n`.
pub open spec fn stream_rows(d: Seq<u8>, start: int, end: int, n: int, k: int) -> Seq<Record> {
    rows(d, head(d, start, end, n, k), tail(d, start, end, n, k))
}

/// What is left in the streams goes into their tables, and makes `goals` of them.
spec fn on_course(
    tables: Seq<Table>,
    goals: Seq<Offsets>,
    d: Seq<u8>,
    s: Seq<(usize, usize)>,
) -> bool {
    forall|k: int|
        0 <= k < s.len() ==> {
            &&& shelved(#[trigger] tables[k], d, by_name_hash())
            &&& offsets_fit(goals[k])
            &&& goals[k] == run_all::<Full>(
                offsets_of(tables[k], d),
                rows(d, s[k].0 as int, s[k].1 as int),
            )
        }
}

/// The row at the head of stream `k` goes into its table.
#[inline(always)]
fn feed_stream<const N: usize>(
    data: &[u8],
    tables: &mut [Table],
    s: &mut [(usize, usize); N],
    k: usize,
    a: &mut u64,
    rows: &mut u64,
    end: Ghost<int>,
    lim: Ghost<int>,
    goals: Ghost<Seq<Offsets>>,
    goal: Ghost<Count<()>>,
)
    requires
        k < N,
        end@ <= lim@ <= data@.len(),
        end@ + TAIL_GUARD <= data@.len() + 1,
        data@.len() < usize::MAX,
        old(tables)@.len() >= N,
        streams_ok(data@, old(s)@, end@, lim@),
        old(s)@[k as int].0 < old(s)@[k as int].1,
        on_course(old(tables)@, goals@, data@, old(s)@),
        goal@.n <= u64::MAX,
        goal@ == run_all::<Counted<Plain<NameHash>>>(
            Count { acc: *old(a), n: *old(rows) as nat, inner: () },
            pending(data@, old(s)@, 0),
        ),
    ensures
        final(tables)@.len() == old(tables)@.len(),
        forall|j: int|
            0 <= j < old(tables)@.len() && j != k ==> #[trigger] final(tables)@[j] == old(
                tables,
            )@[j],
        streams_ok(data@, final(s)@, end@, lim@),
        exists|next: usize|
            next > old(s)@[k as int].0 && final(s)@ == #[trigger] old(s)@.update(
                k as int,
                (next, old(s)@[k as int].1),
            ),
        on_course(final(tables)@, goals@, data@, final(s)@),
        goal@ == run_all::<Counted<Plain<NameHash>>>(
            Count { acc: *final(a), n: *final(rows) as nat, inner: () },
            pending(data@, final(s)@, 0),
        ),
{
    let ghost d = data@;
    let ghost before = s@;
    let ghost was = tables@;
    let ghost st = Count { acc: *a, n: *rows as nat, inner: () };
    let pos = s[k].0;
    proof {
        let stop = s@[k as int].1 as int;
        assert(shelved(tables@[k as int], d, by_name_hash()));
        assert(rows_ok(d, pos as int, stop, lim@));
        lemma_streams_room::<Counted<Plain<NameHash>>>(st, d, s@, k as int, end@, lim@);
        lemma_first_row(d, pos as int, stop, lim@);
        lemma_run_fits::<Full>(
            offsets_of(tables@[k as int], d),
            crate::rows::rows(d, pos as int, stop),
        );
    }
    let (h, next) = full(data, &mut tables[k], pos);
    *a = *a ^ h;
    s[k].0 = next;
    *rows = *rows + 1;
    proof {
        let stop = before[k as int].1 as int;
        lemma_streams_step::<Counted<Plain<NameHash>>>(
            st,
            d,
            before,
            k as int,
            next,
            end@,
            lim@,
        );
        lemma_stepped(d, pos as int, next as int, stop, lim@);
        assert(s@ =~= before.update(k as int, (next, before[k as int].1)));
        assert forall|j: int| 0 <= j < s@.len() implies {
            &&& shelved(#[trigger] tables@[j], d, by_name_hash())
            &&& offsets_fit(goals@[j])
            &&& goals@[j] == run_all::<Full>(
                offsets_of(tables@[j], d),
                crate::rows::rows(d, s@[j].0 as int, s@[j].1 as int),
            )
        } by {
            assert(shelved(was[j], d, by_name_hash()));
        }
    }
}

/// As [`streamed`](crate::engine::streamed), but each stream upserts into its own table, so no
/// two streams ever write the same address.
#[inline(always)]
pub fn streamed_split<const N: usize>(
    data: &[u8],
    start: usize,
    end: usize,
    acc: &mut u64,
    n: &mut u64,
    tables: &mut [Table],
)
    requires
        N > 0,
        old(tables)@.len() >= N,
        start <= end,
        holds_rows(data@, start as int, end as int),
        end + TAIL_GUARD <= data@.len() + 1,
        data@.len() < usize::MAX,
        *old(n) + rows(data@, start as int, end as int).len() <= u64::MAX,
        forall|k: int|
            0 <= k < N ==> shelved(#[trigger] old(tables)@[k], data@, by_name_hash())
                && offsets_fit(
                run_all::<Full>(
                    offsets_of(old(tables)@[k], data@),
                    stream_rows(data@, start as int, end as int, N as int, k),
                ),
            ),
    ensures
        *final(acc) == sinks::<Full>(*old(acc), rows(data@, start as int, end as int)),
        *final(n) == *old(n) + rows(data@, start as int, end as int).len(),
        final(tables)@.len() == old(tables)@.len(),
        forall|k: int|
            0 <= k < N ==> shelved(#[trigger] final(tables)@[k], data@, by_name_hash())
                && offsets_of(final(tables)@[k], data@) == run_all::<Full>(
                offsets_of(old(tables)@[k], data@),
                stream_rows(data@, start as int, end as int, N as int, k),
            ),
        forall|k: int|
            N <= k < old(tables)@.len() ==> #[trigger] final(tables)@[k] == old(tables)@[k],
{
    let ghost d = data@;
    let ghost lim = choose|lim: int|
        end <= lim <= d.len() && #[trigger] rows_ok(d, start as int, end as int, lim);
    let ghost all_rows = rows(d, start as int, end as int);
    let ghost st = Count { acc: *acc, n: *n as nat, inner: () };
    let ghost goal = run_all::<Counted<Plain<NameHash>>>(st, all_rows);
    let ghost goals = Seq::new(
        N as nat,
        |k: int|
            run_all::<Full>(
                offsets_of(tables@[k], d),
                stream_rows(d, start as int, end as int, N as int, k),
            ),
    );
    let mut a = *acc;
    let mut count = *n;
    let mut s = split_streams::<N>(data, start, end);
    proof {
        lemma_split_pending(d, s@, start as int, end as int, lim, 0);
        law_streams_tile(d, start as int, end as int, N as int, 0);
        law_counted_run::<Plain<NameHash>>(st, all_rows);
        law_same_sink::<Plain<NameHash>, Full>(st.acc, all_rows);
        assert forall|k: int| 0 <= k < s@.len() implies {
            &&& shelved(#[trigger] tables@[k], d, by_name_hash())
            &&& offsets_fit(goals[k])
            &&& goals[k] == run_all::<Full>(
                offsets_of(tables@[k], d),
                rows(d, s@[k].0 as int, s@[k].1 as int),
            )
        } by {
            assert(s@[k].0 == head(d, start as int, end as int, N as int, k));
        }
    }
    loop
        invariant
            N > 0,
            d == data@,
            d.len() < usize::MAX,
            end <= lim <= d.len(),
            end + TAIL_GUARD <= d.len() + 1,
            tables@.len() == old(tables)@.len() >= N,
            forall|k: int|
                N <= k < old(tables)@.len() ==> #[trigger] tables@[k] == old(tables)@[k],
            s@.len() == N,
            streams_ok(d, s@, end as int, lim),
            on_course(tables@, goals, d, s@),
            goal.n <= u64::MAX,
            goal == run_all::<Counted<Plain<NameHash>>>(
                Count { acc: a, n: count as nat, inner: () },
                pending(d, s@, 0),
            ),
        decreases remaining(s@[0].0 as int, s@[0].1 as int),
    {
        let mut all = true;
        for k in 0..N
            invariant
                s@.len() == N,
                all == (forall|j: int| 0 <= j < k ==> (#[trigger] s@[j]).0 < s@[j].1),
        {
            assert(s@[k as int] == s@[k as int]);
            all = all && s[k].0 < s[k].1;
        }
        if !all {
            break ;
        }
        let ghost first = s@[0];
        for k in 0..N
            invariant
                d == data@,
                d.len() < usize::MAX,
                end <= lim <= d.len(),
                end + TAIL_GUARD <= d.len() + 1,
                tables@.len() == old(tables)@.len() >= N,
                forall|k: int|
                    N <= k < old(tables)@.len() ==> #[trigger] tables@[k] == old(tables)@[k],
                s@.len() == N,
                streams_ok(d, s@, end as int, lim),
                on_course(tables@, goals, d, s@),
                goal.n <= u64::MAX,
                goal == run_all::<Counted<Plain<NameHash>>>(
                    Count { acc: a, n: count as nat, inner: () },
                    pending(d, s@, 0),
                ),
                forall|j: int| k <= j < N ==> (#[trigger] s@[j]).0 < s@[j].1,
                s@[0].1 == first.1,
                k > 0 ==> s@[0].0 > first.0,
                k == 0 ==> s@[0].0 == first.0,
        {
            assert(s@[k as int].0 < s@[k as int].1);
            feed_stream::<N>(
                data,
                tables,
                &mut s,
                k,
                &mut a,
                &mut count,
                Ghost(end as int),
                Ghost(lim),
                Ghost(goals),
                Ghost(goal),
            );
        }
    }
    for k in 0..N
        invariant
            d == data@,
            d.len() < usize::MAX,
            end <= lim <= d.len(),
            end + TAIL_GUARD <= d.len() + 1,
            tables@.len() == old(tables)@.len() >= N,
            forall|k: int|
                N <= k < old(tables)@.len() ==> #[trigger] tables@[k] == old(tables)@[k],
            s@.len() == N,
            streams_ok(d, s@, end as int, lim),
            on_course(tables@, goals, d, s@),
            goal.n <= u64::MAX,
            goal == run_all::<Counted<Plain<NameHash>>>(
                Count { acc: a, n: count as nat, inner: () },
                pending(d, s@, 0),
            ),
            forall|j: int| 0 <= j < k ==> (#[trigger] s@[j]).0 >= s@[j].1,
    {
        while s[k].0 < s[k].1
            invariant
                k < N,
                d == data@,
                d.len() < usize::MAX,
                end <= lim <= d.len(),
                end + TAIL_GUARD <= d.len() + 1,
                tables@.len() == old(tables)@.len() >= N,
                forall|k: int|
                    N <= k < old(tables)@.len() ==> #[trigger] tables@[k] == old(tables)@[k],
                s@.len() == N,
                streams_ok(d, s@, end as int, lim),
                on_course(tables@, goals, d, s@),
                goal.n <= u64::MAX,
                goal == run_all::<Counted<Plain<NameHash>>>(
                    Count { acc: a, n: count as nat, inner: () },
                    pending(d, s@, 0),
                ),
                forall|j: int| 0 <= j < k ==> (#[trigger] s@[j]).0 >= s@[j].1,
            decreases remaining(s@[k as int].0 as int, s@[k as int].1 as int),
        {
            feed_stream::<N>(
                data,
                tables,
                &mut s,
                k,
                &mut a,
                &mut count,
                Ghost(end as int),
                Ghost(lim),
                Ghost(goals),
                Ghost(goal),
            );
        }
    }
    proof {
        lemma_pending_none(d, s@, 0);
        assert forall|k: int| 0 <= k < N implies shelved(
            #[trigger] tables@[k],
            d,
            by_name_hash(),
        ) && offsets_of(tables@[k], d) == goals[k] by {
            assert(s@[k].0 >= s@[k].1);
        }
    }
    *acc = a;
    *n = count;
}

} // verus!
