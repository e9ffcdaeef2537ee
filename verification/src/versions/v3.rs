//! The offset-keyed table, indexed by an Fx hash of the name.

use crate::bytes::find_byte;
use crate::bytes::SEMICOLON;
use crate::engine::lemma_run_fits;
use crate::engine::serial;
use crate::engine::whole_line;
use crate::feed::lemma_offsets_less;
use crate::feed::lemma_room_is_fit;
use crate::feed::lemma_run_is_offsets;
use crate::feed::lemma_shelf_takes;
use crate::feed::lemma_stays_shelved;
use crate::feed::offsets_after;
use crate::feed::offsets_fit;
use crate::feed::offsets_of;
use crate::feed::offsets_room;
use crate::feed::shelved;
use crate::feed::OffsetStep;
use crate::feed::Offsets;
use crate::feed::Shelf;
use crate::hash::fx_hash;
use crate::hash::fx_hashed;
use crate::intake::offsets_admit;
use crate::intake::offsets_spare;
use crate::intake::Intake;
use crate::parse::parse_temp;
use crate::rows::absorb_all;
use crate::rows::lemma_line_shape;
use crate::rows::record_at;
use crate::rows::row_next;
use crate::rows::row_stop;
use crate::rows::rows;
use crate::rows::rows_as;
use crate::rows::Names;
use crate::rows::Record;
use crate::rows::Tally;
use crate::swar::name_at;
use crate::table::Table;
use vstd::prelude::*;
use vstd::slice::slice_subrange;

verus! {

/// Slots per table, as a power of two.
pub const TABLE_BITS: u32 = 16;

/// Names under their Fx hash.
pub open spec fn by_fx_hash() -> spec_fn(Seq<u8>) -> u64 {
    |name: Seq<u8>| fx_hashed(name)
}

/// One row: find the `;`, hash the name, parse, upsert.
pub fn step(data: &[u8], table: &mut Table, pos: usize) -> (next: usize)
    requires
        shelved(*old(table), data@, by_fx_hash()),
        whole_line(data@, pos as int, Names::Held),
        pos <= data@.len() < usize::MAX,
        offsets_fit(offsets_after(offsets_of(*old(table), data@), record_at(data@, pos as int))),
    ensures
        shelved(*final(table), data@, by_fx_hash()),
        offsets_of(*final(table), data@) == offsets_after(
            offsets_of(*old(table), data@),
            record_at(data@, pos as int),
        ),
        next == row_next(data@, pos as int),
{
    assert(data.len() == data@.len());
    proof {
        lemma_line_shape(data@, pos as int, row_stop(data@, pos as int), Names::Held);
    }
    let semi = find_byte(data, SEMICOLON, pos);
    let hash = fx_hash(slice_subrange(data, pos, semi));
    let (value, next) = parse_temp(data, semi + 1);
    let len = semi - pos;
    proof {
        lemma_shelf_takes(*table, data@, by_fx_hash(), pos, len, value);
    }
    let ghost before = *table;
    table.upsert(data, pos, len, hash, value);
    proof {
        lemma_stays_shelved(before, *table, data@, by_fx_hash(), pos, len, value);
    }
    next
}

/// The version's row, for the drivers.
pub struct Row;

impl OffsetStep for Row {
    open spec fn names() -> Names {
        Names::Held
    }

    open spec fn hash() -> spec_fn(Seq<u8>) -> u64 {
        by_fx_hash()
    }

    open spec fn reach() -> int {
        0
    }

    fn feed(table: &mut Table, data: &[u8], pos: usize) -> (next: usize) {
        step(data, table, pos)
    }
}

/// The rows of one chunk.
pub fn drain(table: &mut Table, data: &[u8], start: usize, end: usize)
    requires
        shelved(*old(table), data@, by_fx_hash()),
        start <= end <= data@.len() < usize::MAX,
        rows_as(data@, start as int, end as int, data@.len() as int, Names::Held),
        offsets_fit(
            Offsets {
                capacity: old(table).capacity(),
                tally: absorb_all(
                    old(table).tally(data@),
                    rows(data@, start as int, end as int),
                ),
            },
        ),
    ensures
        shelved(*final(table), data@, by_fx_hash()),
        final(table).capacity() == old(table).capacity(),
        final(table).tally(data@) == absorb_all(
            old(table).tally(data@),
            rows(data@, start as int, end as int),
        ),
{
    let ghost r = rows(data@, start as int, end as int);
    proof {
        lemma_run_is_offsets::<Row>(offsets_of(*table, data@), r);
        lemma_run_fits::<Shelf<Row>>(offsets_of(*table, data@), r);
    }
    serial::<Shelf<Row>>(table, data, start, end)
}

/// A chunk at a time, tested first.
pub struct Chunk;

impl Intake for Chunk {
    type Ctx = Table;

    open spec fn ok(ctx: Table, d: Seq<u8>) -> bool {
        shelved(ctx, d, by_fx_hash())
    }

    open spec fn tally(ctx: Table, d: Seq<u8>) -> Tally {
        ctx.tally(d)
    }

    open spec fn names() -> Names {
        Names::Held
    }

    open spec fn accepts(ctx: Table, d: Seq<u8>, r: Record) -> bool {
        offsets_room(ctx, d, r)
    }

    open spec fn size(ctx: Table) -> nat {
        ctx.capacity()
    }

    open spec fn fits(size: nat, m: Tally) -> bool {
        offsets_fit(Offsets { capacity: size, tally: m })
    }

    open spec fn slack() -> int {
        0
    }

    open spec fn whole() -> bool {
        true
    }

    proof fn fits_less(size: nat, a: Tally, b: Tally) {
        lemma_offsets_less(size, a, b);
    }

    proof fn has_its_room(ctx: Table, d: Seq<u8>, r: Record) {
        lemma_room_is_fit(ctx, d, r);
    }

    fn reads() -> (names: Names) {
        Names::Held
    }

    fn spare(ctx: &Table, data: &[u8]) -> (n: usize) {
        offsets_spare(ctx, data)
    }

    fn admits(ctx: &Table, data: &[u8], pos: usize, semi: usize) -> (b: bool) {
        let ghost name = name_at(data@, pos as int);
        assert(data.len() == data@.len());
        assert(data@.subrange(pos as int, pos + (semi - pos)) =~= name);
        assert(ctx.agrees(data@, name, (by_fx_hash())(name)));
        let hash = fx_hash(slice_subrange(data, pos, semi));
        offsets_admit(ctx, data, pos, semi - pos, hash, Ghost(record_at(data@, pos as int)))
    }

    fn row(ctx: &mut Table, data: &[u8], pos: usize, lim: usize) {
        proof {
            lemma_room_is_fit(*ctx, data@, record_at(data@, pos as int));
        }
        step(data, ctx, pos);
    }

    fn drain(ctx: &mut Table, data: &[u8], start: usize, end: usize, lim: usize) {
        self::drain(ctx, data, start, end);
    }
}

} // verus!
