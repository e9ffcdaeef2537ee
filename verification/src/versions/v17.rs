//! Cursors: two streams held in two pairs of locals instead of an array.

use crate::chunk::law_streams_tile;
use crate::chunk::split_streams;
use crate::engine::holds_rows;
use crate::engine::lemma_pending_none;
use crate::engine::lemma_split_pending;
use crate::engine::lemma_streams_room;
use crate::engine::lemma_streams_step;
use crate::engine::pending;
use crate::engine::run_all;
use crate::engine::streams_ok;
use crate::feed::by_raw_hash;
use crate::feed::fits;
use crate::feed::has_room;
use crate::feed::lemma_fits_before;
use crate::feed::lemma_fits_less;
use crate::feed::lemma_run_is_absorb;
use crate::feed::stocked;
use crate::feed::Stations;
use crate::feed::TAIL_GUARD;
use crate::inline_table::InlineTable;
use crate::intake::table_admits;
use crate::intake::table_spare;
use crate::intake::Intake;
use crate::rows::absorb_all;
use crate::rows::lemma_rows_any;
use crate::rows::record_at;
use crate::rows::remaining;
use crate::rows::rows;
use crate::rows::rows_ok;
use crate::rows::Names;
use crate::rows::Record;
use crate::rows::Tally;
use crate::versions::v16::step;
use crate::versions::v16::Row;
use crate::workers::Buffered;
use vstd::prelude::*;
use vstd::slice::slice_subrange;

verus! {

/// The rows of one chunk, two streams at a time.
pub fn drain(buf: &[u8], table: &mut InlineTable, start: usize, end: usize)
    requires
        stocked(*old(table), by_raw_hash()),
        start <= end,
        holds_rows(buf@, start as int, end as int),
        end + TAIL_GUARD <= buf@.len() < usize::MAX,
        fits(absorb_all(old(table)@, rows(buf@, start as int, end as int))),
    ensures
        stocked(*final(table), by_raw_hash()),
        final(table)@ == absorb_all(old(table)@, rows(buf@, start as int, end as int)),
{
    let ghost d = buf@;
    let ghost lim = choose|lim: int|
        end <= lim <= d.len() && #[trigger] rows_ok(d, start as int, end as int, lim);
    let ghost goal = absorb_all(table@, rows(d, start as int, end as int));
    let s = split_streams::<2>(buf, start, end);
    proof {
        lemma_split_pending(d, s@, start as int, end as int, lim, 0);
        law_streams_tile(d, start as int, end as int, 2, 0);
        lemma_run_is_absorb::<Row>(table@, rows(d, start as int, end as int));
    }
    let (mut p0, e0) = s[0];
    let (mut p1, e1) = s[1];
    assert(seq![(p0, e0), (p1, e1)] =~= s@);
    while p0 < e0 && p1 < e1
        invariant
            d == buf@,
            end <= lim <= d.len(),
            end + TAIL_GUARD <= d.len() < usize::MAX,
            stocked(*table, by_raw_hash()),
            fits(goal),
            streams_ok(d, seq![(p0, e0), (p1, e1)], end as int, lim),
            goal == run_all::<Stations<Row>>(table@, pending(d, seq![(p0, e0), (p1, e1)], 0)),
        decreases remaining(p0 as int, e0 as int),
    {
        p0 = first(buf, table, p0, e0, p1, e1, Ghost(end as int), Ghost(lim), Ghost(goal));
        p1 = second(buf, table, p0, e0, p1, e1, Ghost(end as int), Ghost(lim), Ghost(goal));
    }
    while p0 < e0
        invariant
            d == buf@,
            end <= lim <= d.len(),
            end + TAIL_GUARD <= d.len() < usize::MAX,
            stocked(*table, by_raw_hash()),
            fits(goal),
            streams_ok(d, seq![(p0, e0), (p1, e1)], end as int, lim),
            goal == run_all::<Stations<Row>>(table@, pending(d, seq![(p0, e0), (p1, e1)], 0)),
        decreases remaining(p0 as int, e0 as int),
    {
        p0 = first(buf, table, p0, e0, p1, e1, Ghost(end as int), Ghost(lim), Ghost(goal));
    }
    while p1 < e1
        invariant
            d == buf@,
            end <= lim <= d.len(),
            end + TAIL_GUARD <= d.len() < usize::MAX,
            stocked(*table, by_raw_hash()),
            fits(goal),
            p0 >= e0,
            streams_ok(d, seq![(p0, e0), (p1, e1)], end as int, lim),
            goal == run_all::<Stations<Row>>(table@, pending(d, seq![(p0, e0), (p1, e1)], 0)),
        decreases remaining(p1 as int, e1 as int),
    {
        p1 = second(buf, table, p0, e0, p1, e1, Ghost(end as int), Ghost(lim), Ghost(goal));
    }
    proof {
        let left = seq![(p0, e0), (p1, e1)];
        assert forall|j: int| 0 <= j < left.len() implies (#[trigger] left[j]).0 >= left[j].1 by {}
        lemma_pending_none(d, left, 0);
    }
}

/// Steps the first cursor.
#[inline(always)]
fn first(
    buf: &[u8],
    table: &mut InlineTable,
    p0: usize,
    e0: usize,
    p1: usize,
    e1: usize,
    end: Ghost<int>,
    lim: Ghost<int>,
    goal: Ghost<crate::rows::Tally>,
) -> (next: usize)
    requires
        p0 < e0,
        end@ <= lim@ <= buf@.len(),
        end@ + TAIL_GUARD <= buf@.len() < usize::MAX,
        stocked(*old(table), by_raw_hash()),
        fits(goal@),
        streams_ok(buf@, seq![(p0, e0), (p1, e1)], end@, lim@),
        goal@ == run_all::<Stations<Row>>(
            old(table)@,
            pending(buf@, seq![(p0, e0), (p1, e1)], 0),
        ),
    ensures
        next > p0,
        stocked(*final(table), by_raw_hash()),
        streams_ok(buf@, seq![(next, e0), (p1, e1)], end@, lim@),
        goal@ == run_all::<Stations<Row>>(
            final(table)@,
            pending(buf@, seq![(next, e0), (p1, e1)], 0),
        ),
{
    let ghost s = seq![(p0, e0), (p1, e1)];
    let ghost before = table@;
    proof {
        lemma_streams_room::<Stations<Row>>(before, buf@, s, 0, end@, lim@);
    }
    let next = step(buf, table, p0);
    proof {
        lemma_streams_step::<Stations<Row>>(before, buf@, s, 0, next, end@, lim@);
        assert(s.update(0, (next, e0)) =~= seq![(next, e0), (p1, e1)]);
    }
    next
}

/// Steps the second cursor.
#[inline(always)]
fn second(
    buf: &[u8],
    table: &mut InlineTable,
    p0: usize,
    e0: usize,
    p1: usize,
    e1: usize,
    end: Ghost<int>,
    lim: Ghost<int>,
    goal: Ghost<crate::rows::Tally>,
) -> (next: usize)
    requires
        p1 < e1,
        end@ <= lim@ <= buf@.len(),
        end@ + TAIL_GUARD <= buf@.len() < usize::MAX,
        stocked(*old(table), by_raw_hash()),
        fits(goal@),
        streams_ok(buf@, seq![(p0, e0), (p1, e1)], end@, lim@),
        goal@ == run_all::<Stations<Row>>(
            old(table)@,
            pending(buf@, seq![(p0, e0), (p1, e1)], 0),
        ),
    ensures
        next > p1,
        stocked(*final(table), by_raw_hash()),
        streams_ok(buf@, seq![(p0, e0), (next, e1)], end@, lim@),
        goal@ == run_all::<Stations<Row>>(
            final(table)@,
            pending(buf@, seq![(p0, e0), (next, e1)], 0),
        ),
{
    let ghost s = seq![(p0, e0), (p1, e1)];
    let ghost before = table@;
    proof {
        lemma_streams_room::<Stations<Row>>(before, buf@, s, 1, end@, lim@);
    }
    let next = step(buf, table, p1);
    proof {
        lemma_streams_step::<Stations<Row>>(before, buf@, s, 1, next, end@, lim@);
        assert(s.update(1, (next, e1)) =~= seq![(p0, e0), (next, e1)]);
    }
    next
}

/// A chunk at a time, tested first.
pub struct Chunk;

impl Intake for Chunk {
    type Ctx = InlineTable;

    open spec fn ok(ctx: InlineTable, d: Seq<u8>) -> bool {
        stocked(ctx, by_raw_hash())
    }

    open spec fn tally(ctx: InlineTable, d: Seq<u8>) -> Tally {
        ctx@
    }

    open spec fn names() -> Names {
        Names::Keyed
    }

    open spec fn accepts(ctx: InlineTable, d: Seq<u8>, r: Record) -> bool {
        has_room(ctx@, r)
    }

    open spec fn size(ctx: InlineTable) -> nat {
        0
    }

    open spec fn fits(size: nat, m: Tally) -> bool {
        fits(m)
    }

    open spec fn slack() -> int {
        TAIL_GUARD as int
    }

    open spec fn whole() -> bool {
        false
    }

    proof fn fits_less(size: nat, a: Tally, b: Tally) {
        lemma_fits_less(a, b);
    }

    proof fn has_its_room(ctx: InlineTable, d: Seq<u8>, r: Record) {
        lemma_fits_before(ctx@, r);
    }

    fn reads() -> (names: Names) {
        Names::Keyed
    }

    fn spare(ctx: &InlineTable, data: &[u8]) -> (n: usize) {
        table_spare(ctx)
    }

    fn admits(ctx: &InlineTable, data: &[u8], pos: usize, semi: usize) -> (b: bool) {
        let ghost r = record_at(data@, pos as int);
        assert(data.len() == data@.len());
        table_admits(ctx, slice_subrange(data, pos, semi), Ghost(r))
    }

    fn row(ctx: &mut InlineTable, data: &[u8], pos: usize, lim: usize) {
        step(data, ctx, pos);
    }

    fn drain(ctx: &mut InlineTable, data: &[u8], start: usize, end: usize, lim: usize) {
        proof {
            lemma_rows_any(
                data@,
                start as int,
                end as int,
                lim as int,
                Names::Keyed,
                Names::Station,
            );
        }
        self::drain(data, ctx, start, end);
    }
}

impl Buffered for Chunk {
    proof fn owns(ctx: InlineTable, a: Seq<u8>, b: Seq<u8>) {
    }

    proof fn reads_stations() {
    }
}

} // verus!
