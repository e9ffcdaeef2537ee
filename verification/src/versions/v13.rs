//! Hoisted: the table's slots borrowed for a run of rows, so that its header stays in registers.

use crate::engine::holds_rows;
use crate::feed::by_raw_hash;
use crate::feed::fits;
use crate::feed::has_room;
use crate::feed::lemma_fits_before;
use crate::feed::lemma_fits_less;
use crate::feed::stocked;
use crate::feed::TAIL_GUARD;
use crate::hot::borrowed::counted;
use crate::hot::borrowed::streamed_hot;
use crate::hot::count::law_counted_run;
use crate::hot::rows::law_inline_run;
use crate::hot::rows::FullKeyed;
use crate::hot::rows::Inline;
use crate::inline_table::InlineTable;
use crate::intake::table_admits;
use crate::intake::table_spare;
use crate::intake::Intake;
use crate::rows::absorb_all;
use crate::rows::lemma_rows_any;
use crate::rows::lemma_rows_count;
use crate::rows::record_at;
use crate::rows::rows;
use crate::rows::Names;
use crate::rows::Record;
use crate::rows::Tally;
use crate::workers::Buffered;
use vstd::prelude::*;
use vstd::slice::slice_subrange;

verus! {

/// Line streams walked at once.
pub const STREAMS: usize = 2;

/// Walks `[start, end)` as interleaved line streams, holding the table header in registers for
/// as long as no row needs to insert.
pub fn run(buf: &[u8], table: &mut InlineTable, start: usize, end: usize)
    requires
        stocked(*old(table), by_raw_hash()),
        start <= end,
        holds_rows(buf@, start as int, end as int),
        end + TAIL_GUARD <= buf@.len() + 1,
        buf@.len() < usize::MAX,
        fits(absorb_all(old(table)@, rows(buf@, start as int, end as int))),
    ensures
        stocked(*final(table), by_raw_hash()),
        final(table)@ == absorb_all(old(table)@, rows(buf@, start as int, end as int)),
{
    let mut acc: u64 = 0;
    let mut n: u64 = 0;
    proof {
        let found = rows(buf@, start as int, end as int);
        lemma_rows_count(buf@, start as int, end as int);
        law_counted_run::<Inline<FullKeyed>>(counted(acc, n, table@), found);
        law_inline_run::<FullKeyed>(table@, found);
    }
    streamed_hot::<STREAMS, true>(buf, start, end, &mut acc, &mut n, table);
}

/// A chunk at a time, tested first.
pub struct Chunk;

impl Intake for Chunk {
    type Ctx = InlineTable;

    open spec fn ok(ctx: InlineTable, d: Seq<u8>) -> bool {
        stocked(ctx, by_raw_hash())
    }

    open spec fn tally(ctx: InlineTable, d: Seq<u8>) -> Tally {
        ctx@
    }

    open spec fn names() -> Names {
        Names::Keyed
    }

    open spec fn accepts(ctx: InlineTable, d: Seq<u8>, r: Record) -> bool {
        has_room(ctx@, r)
    }

    open spec fn size(ctx: InlineTable) -> nat {
        0
    }

    open spec fn fits(size: nat, m: Tally) -> bool {
        fits(m)
    }

    open spec fn slack() -> int {
        TAIL_GUARD as int
    }

    open spec fn whole() -> bool {
        false
    }

    proof fn fits_less(size: nat, a: Tally, b: Tally) {
        lemma_fits_less(a, b);
    }

    proof fn has_its_room(ctx: InlineTable, d: Seq<u8>, r: Record) {
        lemma_fits_before(ctx@, r);
    }

    fn reads() -> (names: Names) {
        Names::Keyed
    }

    fn spare(ctx: &InlineTable, data: &[u8]) -> (n: usize) {
        table_spare(ctx)
    }

    fn admits(ctx: &InlineTable, data: &[u8], pos: usize, semi: usize) -> (b: bool) {
        let ghost r = record_at(data@, pos as int);
        assert(data.len() == data@.len());
        table_admits(ctx, slice_subrange(data, pos, semi), Ghost(r))
    }

    fn row(ctx: &mut InlineTable, data: &[u8], pos: usize, lim: usize) {
        crate::versions::v11::step(data, ctx, pos);
    }

    fn drain(ctx: &mut InlineTable, data: &[u8], start: usize, end: usize, lim: usize) {
        proof {
            lemma_rows_any(
                data@,
                start as int,
                end as int,
                lim as int,
                Names::Keyed,
                Names::Station,
            );
        }
        run(data, ctx, start, end);
    }
}

impl Buffered for Chunk {
    proof fn owns(ctx: InlineTable, a: Seq<u8>, b: Seq<u8>) {
    }

    proof fn reads_stations() {
    }
}

} // verus!
