//! Rows against slots borrowed out of the table, so that its header stays in registers.

use crate::chunk::law_streams_tile;
use crate::chunk::split_streams;
use crate::engine::fed;
use crate::engine::holds_rows;
use crate::engine::lemma_pending_none;
use crate::engine::lemma_split_pending;
use crate::engine::lemma_streams_room;
use crate::engine::lemma_streams_step;
use crate::engine::pending;
use crate::engine::run_all;
use crate::engine::streams_ok;
use crate::feed::by_raw_hash;
use crate::feed::fits;
use crate::feed::has_room;
use crate::feed::lemma_readable;
use crate::feed::stocked;
use crate::feed::TAIL_GUARD;
use crate::hot::count::law_counted_run;
use crate::hot::count::sinks;
use crate::hot::count::Count;
use crate::hot::count::Counted;
use crate::hot::count::Counter;
use crate::hot::rows::full_keyed;
use crate::hot::rows::keyed_win;
use crate::hot::rows::law_inline_run;
use crate::hot::rows::readable;
use crate::hot::rows::FullKeyed;
use crate::hot::rows::Inline;
use crate::inline_table::cells_of;
use crate::inline_table::lemma_hot_noted;
use crate::inline_table::lemma_hot_probe;
use crate::inline_table::lemma_probeable;
use crate::inline_table::lemma_shape;
use crate::inline_table::low_probe;
use crate::inline_table::probe_words;
use crate::inline_table::probeable;
use crate::inline_table::slot_of;
use crate::inline_table::slots_ok;
use crate::inline_table::Entry;
use crate::inline_table::InlineTable;
use crate::keys::wide;
use crate::parse::parse_temp_branchless;
use crate::probing::agrees;
use crate::probing::along;
use crate::probing::held;
use crate::rows::absorb;
use crate::rows::absorb_all;
use crate::rows::bytes_in;
use crate::rows::lemma_absorb_modest;
use crate::rows::modest;
use crate::rows::record_at;
use crate::rows::remaining;
use crate::rows::row_next;
use crate::rows::rows;
use crate::rows::rows_ok;
use crate::rows::Tally;
use crate::swar::keyed;
use crate::swar::name_at;
use crate::swar::raw_hash;
use crate::swar::scan_flat_keyed;
use vstd::prelude::*;

verus! {

/// There is room in the slot that the row at `pos` would hit.
pub open spec fn probe_room(slots: Seq<Entry>, shift: u32, d: Seq<u8>, pos: int) -> bool {
    match keyed(d, pos) {
        Some((_, h, lo, hi)) => forall|k: int| #[trigger]
            low_probe(slots, slot_of(shift)(h), wide(lo, hi), k) ==> {
                let e = slots[along(slot_of(shift)(h), k, slots.len() as int)];
                e.key_lo() == wide(lo, hi) ==> e.has_room(record_at(d, pos).value)
            },
        None => true,
    }
}

/// What a probe for the row at `pos` does to the slots: a hit accumulates into the slot where
/// the probe ends, and otherwise nothing is written.
pub open spec fn probed(
    before: Seq<Entry>,
    after: Seq<Entry>,
    shift: u32,
    d: Seq<u8>,
    pos: int,
    hit: bool,
) -> bool {
    match keyed(d, pos) {
        Some((_, h, lo, hi)) => exists|k: int| #[trigger]
            low_probe(before, slot_of(shift)(h), wide(lo, hi), k) && ({
                let at = along(slot_of(shift)(h), k, before.len() as int);
                let e = before[at];
                &&& hit == (e.key_lo() == wide(lo, hi))
                &&& after == if hit {
                    before.update(at, e.and(record_at(d, pos).value))
                } else {
                    before
                }
            }),
        None => !hit && after == before,
    }
}

/// One row against slots borrowed out of the table.
///
/// `None` means the row could not be finished here (a name too long for the window, or a
/// probe that reached an empty slot), and in both cases **nothing has been written**. The
/// caller drops the borrow and repeats the row through [`full_keyed`], which owns the table.
#[inline(always)]
pub fn step_hot<const WIN: bool>(
    data: &[u8],
    slots: &mut [Entry],
    shift: u32,
    pos: usize,
) -> (r: Option<(u64, usize)>)
    requires
        readable(data@, pos as int),
        probeable(old(slots)@, shift),
        probe_room(old(slots)@, shift, data@, pos as int),
    ensures
        probed(old(slots)@, final(slots)@, shift, data@, pos as int, r is Some),
        r matches Some((h, next)) ==> h == raw_hash(name_at(data@, pos as int)) && next
            == row_next(data@, pos as int),
{
    proof {
        lemma_readable(data@, pos as int);
    }
    let (h, klo, khi, v, next): (u64, u64, u64, i16, usize) = if WIN {
        match keyed_win(data, pos) {
            Some((_, h, klo, khi, v, next)) => (h, klo, khi, v, next),
            None => {
                return None;
            },
        }
    } else {
        match scan_flat_keyed(data, pos) {
            Some((semi, h, klo, khi)) => {
                let (v, next) = parse_temp_branchless(data, semi + 1);
                (h, klo, khi, v, next)
            },
            None => {
                return None;
            },
        }
    };
    let key_lo: u128 = (klo as u128) | ((khi as u128) << 64);
    let ghost row = keyed(data@, pos as int)->0;
    assert(row.1 == h && row.2 == klo && row.3 == khi && key_lo == wide(row.2, row.3));
    assert(v == record_at(data@, pos as int).value);
    if probe_words(slots, shift, h, key_lo, v) {
        Some((h, next))
    } else {
        None
    }
}

/// What borrowed slots hold.
pub open spec fn held_in(slots: Seq<Entry>, keys: Seq<u8>) -> Tally {
    held(cells_of(slots, keys), slots.len() as int)
}

/// Slots borrowed out of a table of stations.
pub open spec fn lent(slots: Seq<Entry>, keys: Seq<u8>, shift: u32, used: int) -> bool {
    &&& slots_ok(slots, keys, shift, used)
    &&& modest(held_in(slots, keys))
    &&& keys.len() == bytes_in(held_in(slots, keys).dom())
    &&& forall|n: Seq<u8>| #[trigger] agrees(cells_of(slots, keys), n, raw_hash(n))
}

/// A row can be probed in slots that have room for the tally with it.
proof fn lemma_lent_room(
    slots: Seq<Entry>,
    keys: Seq<u8>,
    shift: u32,
    used: int,
    d: Seq<u8>,
    pos: int,
)
    requires
        lent(slots, keys, shift, used),
        readable(d, pos),
        has_room(held_in(slots, keys), record_at(d, pos)),
    ensures
        probeable(slots, shift),
        probe_room(slots, shift, d, pos),
{
    lemma_probeable(slots, keys, shift, used);
    lemma_readable(d, pos);
    let r = record_at(d, pos);
    let m = held_in(slots, keys);
    if let Some((_, h, lo, hi)) = keyed(d, pos) {
        assert forall|k: int| #[trigger] low_probe(slots, slot_of(shift)(h), wide(lo, hi), k) implies ({
            let e = slots[along(slot_of(shift)(h), k, slots.len() as int)];
            e.key_lo() == wide(lo, hi) ==> e.has_room(r.value)
        }) by {
            assert(agrees(cells_of(slots, keys), r.name, raw_hash(r.name)));
            lemma_hot_probe(slots, keys, shift, used, r.name, h, wide(lo, hi), k);
        }
    }
}

/// What a probe does, seen from the stations: a hit adds the row's measurement.
proof fn lemma_probed(
    before: Seq<Entry>,
    after: Seq<Entry>,
    keys: Seq<u8>,
    shift: u32,
    used: int,
    d: Seq<u8>,
    pos: int,
    hit: bool,
)
    requires
        lent(before, keys, shift, used),
        readable(d, pos),
        has_room(held_in(before, keys), record_at(d, pos)),
        probed(before, after, shift, d, pos, hit),
    ensures
        lent(after, keys, shift, used),
        held_in(after, keys) == if hit {
            absorb(held_in(before, keys), record_at(d, pos))
        } else {
            held_in(before, keys)
        },
{
    lemma_readable(d, pos);
    lemma_lent_room(before, keys, shift, used, d, pos);
    let r = record_at(d, pos);
    if hit {
        let (_, h, lo, hi) = keyed(d, pos)->0;
        let k = choose|k: int| #[trigger]
            low_probe(before, slot_of(shift)(h), wide(lo, hi), k) && ({
                let at = along(slot_of(shift)(h), k, before.len() as int);
                let e = before[at];
                &&& hit == (e.key_lo() == wide(lo, hi))
                &&& after == if hit {
                    before.update(at, e.and(r.value))
                } else {
                    before
                }
            });
        assert(agrees(cells_of(before, keys), r.name, raw_hash(r.name)));
        lemma_hot_probe(before, keys, shift, used, r.name, h, wide(lo, hi), k);
        lemma_hot_noted(before, keys, shift, used, r.name, h, wide(lo, hi), k, r.value);
        lemma_absorb_modest(held_in(before, keys), r);
        assert(absorb(held_in(before, keys), r).dom() =~= held_in(before, keys).dom());
        assert forall|n: Seq<u8>| #[trigger] agrees(cells_of(after, keys), n, raw_hash(n)) by {
            assert(agrees(cells_of(before, keys), n, raw_hash(n)));
        }
    }
}

/// How much is left in streams `k` and up.
pub open spec fn left(s: Seq<(usize, usize)>, k: int) -> int
    decreases s.len() - k,
{
    if k >= s.len() {
        0
    } else {
        remaining(s[k].0 as int, s[k].1 as int) + left(s, k + 1)
    }
}

/// Stepping a stream leaves less.
proof fn lemma_left(s: Seq<(usize, usize)>, k: int, next: usize, j: int)
    requires
        0 <= j,
        0 <= k < s.len(),
        s[k].0 < s[k].1,
        next > s[k].0,
    ensures
        left(s.update(k, (next, s[k].1)), j) <= left(s, j),
        j <= k ==> left(s.update(k, (next, s[k].1)), j) < left(s, j),
        left(s, j) >= 0,
    decreases s.len() - j,
{
    if j < s.len() {
        lemma_left(s, k, next, j + 1);
    }
}

proof fn lemma_left_positive(s: Seq<(usize, usize)>, j: int)
    requires
        0 <= j,
    ensures
        left(s, j) >= 0,
    decreases s.len() - j,
{
    if j < s.len() {
        lemma_left_positive(s, j + 1);
    }
}

/// What the counters and the borrowed slots amount to.
pub open spec fn counted(acc: u64, n: u64, m: Tally) -> Count<Tally> {
    Count { acc, n: n as nat, inner: m }
}

/// Runs the streams against borrowed slots until one of them runs dry, which returns `N`, or
/// until a row has to insert, which returns its stream.
#[inline(always)]
fn run_hot<const N: usize, const WIN: bool>(
    data: &[u8],
    slots: &mut [Entry],
    shift: u32,
    s: &mut [(usize, usize); N],
    a: &mut u64,
    rows: &mut u64,
    keys: Ghost<Seq<u8>>,
    used: Ghost<int>,
    end: Ghost<int>,
    lim: Ghost<int>,
    goal: Ghost<Count<Tally>>,
) -> (cold: usize)
    requires
        N > 0,
        lent(old(slots)@, keys@, shift, used@),
        end@ <= lim@ <= data@.len(),
        end@ + TAIL_GUARD <= data@.len() + 1,
        data@.len() < usize::MAX,
        streams_ok(data@, old(s)@, end@, lim@),
        goal@.n <= u64::MAX,
        fits(goal@.inner),
        goal@ == run_all::<Counted<Inline<FullKeyed>>>(
            counted(*old(a), *old(rows), held_in(old(slots)@, keys@)),
            pending(data@, old(s)@, 0),
        ),
    ensures
        lent(final(slots)@, keys@, shift, used@),
        streams_ok(data@, final(s)@, end@, lim@),
        goal@ == run_all::<Counted<Inline<FullKeyed>>>(
            counted(*final(a), *final(rows), held_in(final(slots)@, keys@)),
            pending(data@, final(s)@, 0),
        ),
        left(final(s)@, 0) <= left(old(s)@, 0),
        cold <= N,
        cold < N ==> final(s)@[cold as int].0 < final(s)@[cold as int].1,
{
    let ghost d = data@;
    loop
        invariant
            N > 0,
            d == data@,
            lent(slots@, keys@, shift, used@),
            end@ <= lim@ <= d.len(),
            end@ + TAIL_GUARD <= d.len() + 1,
            d.len() < usize::MAX,
            s@.len() == N,
            streams_ok(d, s@, end@, lim@),
            goal@.n <= u64::MAX,
            fits(goal@.inner),
            goal@ == run_all::<Counted<Inline<FullKeyed>>>(
                counted(*a, *rows, held_in(slots@, keys@)),
                pending(d, s@, 0),
            ),
            left(s@, 0) <= left(old(s)@, 0),
        decreases left(s@, 0),
    {
        let mut all = true;
        for k in 0..N
            invariant
                s@.len() == N,
                all == (forall|j: int| 0 <= j < k ==> (#[trigger] s@[j]).0 < s@[j].1),
        {
            assert(s@[k as int] == s@[k as int]);
            all = all && s[k].0 < s[k].1;
        }
        if !all {
            return N;
        }
        let ghost round = s@;
        proof {
            lemma_left_positive(s@, 0);
        }
        for k in 0..N
            invariant
                d == data@,
                lent(slots@, keys@, shift, used@),
                end@ <= lim@ <= d.len(),
                end@ + TAIL_GUARD <= d.len() + 1,
                d.len() < usize::MAX,
                s@.len() == N,
                streams_ok(d, s@, end@, lim@),
                goal@.n <= u64::MAX,
                fits(goal@.inner),
                goal@ == run_all::<Counted<Inline<FullKeyed>>>(
                    counted(*a, *rows, held_in(slots@, keys@)),
                    pending(d, s@, 0),
                ),
                left(round, 0) <= left(old(s)@, 0),
                left(s@, 0) <= left(round, 0),
                left(s@, 0) >= 0,
                k > 0 ==> left(s@, 0) < left(round, 0),
                forall|j: int| k <= j < N ==> (#[trigger] s@[j]).0 < s@[j].1,
        {
            let ghost before = s@;
            let ghost was = slots@;
            let ghost st = counted(*a, *rows, held_in(slots@, keys@));
            let pos = s[k].0;
            proof {
                assert(s@[k as int].0 < s@[k as int].1);
                lemma_streams_room::<Counted<Inline<FullKeyed>>>(
                    st,
                    d,
                    s@,
                    k as int,
                    end@,
                    lim@,
                );
                lemma_lent_room(slots@, keys@, shift, used@, d, pos as int);
            }
            let stepped = step_hot::<WIN>(data, slots, shift, pos);
            proof {
                lemma_probed(was, slots@, keys@, shift, used@, d, pos as int, stepped is Some);
            }
            match stepped {
                Some((v, next)) => {
                    *a = *a ^ v;
                    s[k].0 = next;
                    *rows = *rows + 1;
                    proof {
                        lemma_streams_step::<Counted<Inline<FullKeyed>>>(
                            st,
                            d,
                            before,
                            k as int,
                            next,
                            end@,
                            lim@,
                        );
                        lemma_left(before, k as int, next, 0);
                        lemma_left_positive(s@, 0);
                        assert(s@ =~= before.update(k as int, (next, before[k as int].1)));
                    }
                },
                None => {
                    return k;
                },
            }
        }
    }
}

/// A sink, a count and a table, as the counted engines hold them.
pub open spec fn counter(acc: u64, n: u64, table: InlineTable) -> Counter<InlineTable> {
    Counter { acc, n, inner: table }
}

/// [`streamed`](crate::engine::streamed) with the table's slots and shift held in registers
/// across a run of rows.
///
/// The borrow is what buys the codegen: nothing can reallocate while it lasts. The price is that
/// a row which has to insert cannot run under it. [`step_hot`] returns `None` having written
/// nothing, the run ends, the borrow drops, and that one row is redone through [`full_keyed`].
/// Once per distinct station, so the repeated scan is not a cost. Streams that already advanced
/// in the interrupted batch simply continue from where they are.
#[inline(always)]
pub fn streamed_hot<const N: usize, const WIN: bool>(
    data: &[u8],
    start: usize,
    end: usize,
    acc: &mut u64,
    n: &mut u64,
    table: &mut InlineTable,
)
    requires
        N > 0,
        stocked(*old(table), by_raw_hash()),
        start <= end,
        holds_rows(data@, start as int, end as int),
        end + TAIL_GUARD <= data@.len() + 1,
        data@.len() < usize::MAX,
        ({
            let goal = run_all::<Counted<Inline<FullKeyed>>>(
                counted(*old(acc), *old(n), old(table)@),
                rows(data@, start as int, end as int),
            );
            goal.n <= u64::MAX && fits(goal.inner)
        }),
    ensures
        fed::<Counted<Inline<FullKeyed>>>(
            counter(*old(acc), *old(n), *old(table)),
            counter(*final(acc), *final(n), *final(table)),
            data@,
            start as int,
            end as int,
        ),
{
    let ghost d = data@;
    let ghost lim = choose|lim: int|
        end <= lim <= d.len() && #[trigger] rows_ok(d, start as int, end as int, lim);
    let ghost goal = run_all::<Counted<Inline<FullKeyed>>>(
        counted(*acc, *n, table@),
        rows(d, start as int, end as int),
    );
    let mut a = *acc;
    let mut count = *n;
    let mut s = split_streams::<N>(data, start, end);
    proof {
        lemma_split_pending(d, s@, start as int, end as int, lim, 0);
        law_streams_tile(d, start as int, end as int, N as int, 0);
    }
    loop
        invariant
            N > 0,
            d == data@,
            end <= lim <= d.len(),
            end + TAIL_GUARD <= d.len() + 1,
            d.len() < usize::MAX,
            stocked(*table, by_raw_hash()),
            s@.len() == N,
            streams_ok(d, s@, end as int, lim),
            goal.n <= u64::MAX,
            fits(goal.inner),
            goal == run_all::<Counted<Inline<FullKeyed>>>(
                counted(a, count, table@),
                pending(d, s@, 0),
            ),
        decreases left(s@, 0),
    {
        let ghost keys = table.arena();
        let ghost used = table.live_slots();
        let ghost round = s@;
        proof {
            lemma_shape(*table);
            assert forall|name: Seq<u8>| #[trigger] agrees(
                cells_of(table.slots(), keys),
                name,
                raw_hash(name),
            ) by {
                assert(table.agrees(name, (by_raw_hash())(name)));
            }
        }
        // `N` when the interleaved loop ran out of rows, otherwise the stream that missed.
        let (slots, shift) = table.hot_slots();
        let cold = run_hot::<N, WIN>(
            data,
            slots,
            shift,
            &mut s,
            &mut a,
            &mut count,
            Ghost(keys),
            Ghost(used),
            Ghost(end as int),
            Ghost(lim),
            Ghost(goal),
        );
        proof {
            lemma_shape(*table);
            assert forall|name: Seq<u8>| #[trigger] table.agrees(name, (by_raw_hash())(name)) by {
                assert(agrees(cells_of(table.slots(), keys), name, raw_hash(name)));
            }
        }
        if cold == N {
            break ;
        }
        let ghost before = s@;
        let ghost st = counted(a, count, table@);
        proof {
            lemma_streams_room::<Counted<Inline<FullKeyed>>>(
                st,
                d,
                s@,
                cold as int,
                end as int,
                lim,
            );
        }
        let (v, next) = full_keyed(data, table, s[cold].0);
        a = a ^ v;
        s[cold].0 = next;
        count = count + 1;
        proof {
            lemma_streams_step::<Counted<Inline<FullKeyed>>>(
                st,
                d,
                before,
                cold as int,
                next,
                end as int,
                lim,
            );
            lemma_left(before, cold as int, next, 0);
            lemma_left_positive(s@, 0);
            assert(s@ =~= before.update(cold as int, (next, before[cold as int].1)));
        }
    }

    // The few rows past the point where the first stream ran dry.
    for k in 0..N
        invariant
            d == data@,
            end <= lim <= d.len(),
            end + TAIL_GUARD <= d.len() + 1,
            d.len() < usize::MAX,
            stocked(*table, by_raw_hash()),
            s@.len() == N,
            streams_ok(d, s@, end as int, lim),
            goal.n <= u64::MAX,
            fits(goal.inner),
            goal == run_all::<Counted<Inline<FullKeyed>>>(
                counted(a, count, table@),
                pending(d, s@, 0),
            ),
            forall|j: int| 0 <= j < k ==> (#[trigger] s@[j]).0 >= s@[j].1,
    {
        while s[k].0 < s[k].1
            invariant
                k < N,
                d == data@,
                end <= lim <= d.len(),
                end + TAIL_GUARD <= d.len() + 1,
                d.len() < usize::MAX,
                stocked(*table, by_raw_hash()),
                s@.len() == N,
                streams_ok(d, s@, end as int, lim),
                goal.n <= u64::MAX,
                fits(goal.inner),
                goal == run_all::<Counted<Inline<FullKeyed>>>(
                    counted(a, count, table@),
                    pending(d, s@, 0),
                ),
                forall|j: int| 0 <= j < k ==> (#[trigger] s@[j]).0 >= s@[j].1,
            decreases remaining(s@[k as int].0 as int, s@[k as int].1 as int),
        {
            let ghost before = s@;
            let ghost st = counted(a, count, table@);
            proof {
                lemma_streams_room::<Counted<Inline<FullKeyed>>>(
                    st,
                    d,
                    s@,
                    k as int,
                    end as int,
                    lim,
                );
            }
            let (v, next) = full_keyed(data, table, s[k].0);
            a = a ^ v;
            s[k].0 = next;
            count = count + 1;
            proof {
                lemma_streams_step::<Counted<Inline<FullKeyed>>>(
                    st,
                    d,
                    before,
                    k as int,
                    next,
                    end as int,
                    lim,
                );
                assert(s@ =~= before.update(k as int, (next, before[k as int].1)));
            }
        }
    }
    proof {
        lemma_pending_none(d, s@, 0);
    }
    *acc = a;
    *n = count;
}

/// **Borrowing the slots changes nothing.** From the same sink, the same count and tables of the
/// same contents, [`streamed_hot`] leaves what [`streamed`](crate::engine::streamed) over the keyed
/// row leaves, whatever the number of streams and the window of each: the sink with every row's
/// hash folded in, the count with every row counted, and a table with the tally of the rows.
pub proof fn law_hot_is_keyed(
    d: Seq<u8>,
    start: int,
    end: int,
    hot: Counter<InlineTable>,
    hot_after: Counter<InlineTable>,
    keyed: Counter<InlineTable>,
    keyed_after: Counter<InlineTable>,
)
    requires
        (hot.acc, hot.n, hot.inner@) == (keyed.acc, keyed.n, keyed.inner@),
        fed::<Counted<Inline<FullKeyed>>>(hot, hot_after, d, start, end),
        fed::<Counted<Inline<FullKeyed>>>(keyed, keyed_after, d, start, end),
    ensures
        (hot_after.acc, hot_after.n, hot_after.inner@) == (
            keyed_after.acc,
            keyed_after.n,
            keyed_after.inner@,
        ),
        hot_after.acc == sinks::<Inline<FullKeyed>>(hot.acc, rows(d, start, end)),
        hot_after.n == hot.n + rows(d, start, end).len(),
        hot_after.inner@ == absorb_all(hot.inner@, rows(d, start, end)),
{
    let r = rows(d, start, end);
    law_counted_run::<Inline<FullKeyed>>(counted(hot.acc, hot.n, hot.inner@), r);
    law_inline_run::<FullKeyed>(hot.inner@, r);
}

} // verus!
