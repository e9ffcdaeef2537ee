//! The fused scan: the `;` is found and the name hashed a word at a time.

use crate::chunk::at_line_start;
use crate::chunk::lemma_resume;
use crate::chunk::resume_at;
use crate::engine::lemma_run_fits;
use crate::engine::serial;
use crate::engine::whole_line;
use crate::engine::whole_row;
use crate::feed::by_name_hash;
use crate::feed::lemma_offsets_less;
use crate::feed::lemma_readable;
use crate::feed::lemma_room_is_fit;
use crate::feed::lemma_run_is_offsets;
use crate::feed::lemma_shelf_takes;
use crate::feed::lemma_stays_shelved;
use crate::feed::offsets_after;
use crate::feed::offsets_fit;
use crate::feed::offsets_of;
use crate::feed::offsets_room;
use crate::feed::shelved;
use crate::feed::LOOP_GUARD;
use crate::feed::OffsetStep;
use crate::feed::Offsets;
use crate::feed::Shelf;
use crate::intake::offsets_admit;
use crate::intake::offsets_spare;
use crate::intake::Intake;
use crate::parse::parse_temp;
use crate::rows::absorb_all;
use crate::rows::check_rows;
use crate::rows::lemma_absorb_concat;
use crate::rows::lemma_line_shape;
use crate::rows::lemma_rows_any;
use crate::rows::record_at;
use crate::rows::row_next;
use crate::rows::row_stop;
use crate::rows::rows;
use crate::rows::rows_as;
use crate::rows::rows_ok;
use crate::rows::Names;
use crate::rows::Record;
use crate::rows::Tally;
use crate::swar::find_semi_and_hash;
use crate::swar::find_semi_and_hash_scalar;
use crate::swar::name_at;
use crate::table::Table;
use vstd::prelude::*;

verus! {

/// Slots per table, as a power of two.
pub const TABLE_BITS: u32 = 16;

/// One row, scanned a word at a time.
pub fn step(data: &[u8], table: &mut Table, pos: usize) -> (next: usize)
    requires
        shelved(*old(table), data@, by_name_hash()),
        whole_row(data@, pos as int),
        pos + LOOP_GUARD <= data@.len() < usize::MAX,
        offsets_fit(offsets_after(offsets_of(*old(table), data@), record_at(data@, pos as int))),
    ensures
        shelved(*final(table), data@, by_name_hash()),
        offsets_of(*final(table), data@) == offsets_after(
            offsets_of(*old(table), data@),
            record_at(data@, pos as int),
        ),
        next == row_next(data@, pos as int),
{
    assert(data.len() == data@.len());
    proof {
        lemma_readable(data@, pos as int);
    }
    let (semi, hash) = find_semi_and_hash(data, pos);
    let (value, next) = parse_temp(data, semi + 1);
    let len = semi - pos;
    proof {
        lemma_shelf_takes(*table, data@, by_name_hash(), pos, len, value);
    }
    let ghost before = *table;
    table.upsert(data, pos, len, hash, value);
    proof {
        lemma_stays_shelved(before, *table, data@, by_name_hash(), pos, len, value);
    }
    next
}

/// One row at the end of the file, where a wide load would run off the data.
pub fn step_tail(data: &[u8], table: &mut Table, pos: usize) -> (next: usize)
    requires
        shelved(*old(table), data@, by_name_hash()),
        whole_line(data@, pos as int, Names::Held),
        pos <= data@.len() < usize::MAX,
        offsets_fit(offsets_after(offsets_of(*old(table), data@), record_at(data@, pos as int))),
    ensures
        shelved(*final(table), data@, by_name_hash()),
        offsets_of(*final(table), data@) == offsets_after(
            offsets_of(*old(table), data@),
            record_at(data@, pos as int),
        ),
        next == row_next(data@, pos as int),
{
    assert(data.len() == data@.len());
    proof {
        lemma_line_shape(data@, pos as int, row_stop(data@, pos as int), Names::Held);
    }
    let (semi, hash) = find_semi_and_hash_scalar(data, pos);
    let (value, next) = parse_temp(data, semi + 1);
    let len = semi - pos;
    proof {
        lemma_shelf_takes(*table, data@, by_name_hash(), pos, len, value);
    }
    let ghost before = *table;
    table.upsert(data, pos, len, hash, value);
    proof {
        lemma_stays_shelved(before, *table, data@, by_name_hash(), pos, len, value);
    }
    next
}

/// The version's row, for the drivers.
pub struct Row;

impl OffsetStep for Row {
    open spec fn names() -> Names {
        Names::Station
    }

    open spec fn hash() -> spec_fn(Seq<u8>) -> u64 {
        by_name_hash()
    }

    open spec fn reach() -> int {
        LOOP_GUARD as int
    }

    fn feed(table: &mut Table, data: &[u8], pos: usize) -> (next: usize) {
        step(data, table, pos)
    }
}

/// A row at the end of the file, for the drivers.
pub struct TailRow;

impl OffsetStep for TailRow {
    open spec fn names() -> Names {
        Names::Held
    }

    open spec fn hash() -> spec_fn(Seq<u8>) -> u64 {
        by_name_hash()
    }

    open spec fn reach() -> int {
        0
    }

    fn feed(table: &mut Table, data: &[u8], pos: usize) -> (next: usize) {
        step_tail(data, table, pos)
    }
}

/// Where the rows that can be read wide end: the guard's length before the end of the data.
pub open spec fn wide_limit(len: int) -> int {
    if len >= LOOP_GUARD {
        len - LOOP_GUARD
    } else {
        0
    }
}

/// The rows of `[start, end)` go wide up to here.
pub open spec fn wide_end(len: int, start: int, end: int) -> int {
    let capped = if end < wide_limit(len) {
        end
    } else {
        wide_limit(len)
    };
    if capped > start {
        capped
    } else {
        start
    }
}

/// [`wide_end`], computed.
pub fn find_wide_end(data: &[u8], start: usize, end: usize) -> (at: usize)
    requires
        start <= end <= data@.len(),
    ensures
        at == wide_end(data@.len() as int, start as int, end as int),
        start <= at <= end,
        at == start || at + LOOP_GUARD <= data@.len(),
{
    let len = data.len();
    let limit: usize = if len >= LOOP_GUARD {
        len - LOOP_GUARD
    } else {
        0
    };
    let capped = if end < limit {
        end
    } else {
        limit
    };
    if capped > start {
        capped
    } else {
        start
    }
}

/// The rows of one chunk: wide while the slack lasts, and the rest a byte at a time.
pub fn drain(table: &mut Table, data: &[u8], start: usize, end: usize)
    requires
        shelved(*old(table), data@, by_name_hash()),
        start <= end <= data@.len() < usize::MAX,
        at_line_start(data@, end as int),
        rows_ok(data@, start as int, end as int, data@.len() as int),
        offsets_fit(
            Offsets {
                capacity: old(table).capacity(),
                tally: absorb_all(
                    old(table).tally(data@),
                    rows(data@, start as int, end as int),
                ),
            },
        ),
    ensures
        shelved(*final(table), data@, by_name_hash()),
        final(table).capacity() == old(table).capacity(),
        final(table).tally(data@) == absorb_all(
            old(table).tally(data@),
            rows(data@, start as int, end as int),
        ),
{
    let ghost d = data@;
    let wide = find_wide_end(data, start, end);
    let rest = resume_at(data, start, wide);
    let ghost a = rows(d, start as int, wide as int);
    let ghost b = rows(d, rest as int, end as int);
    let ghost s = offsets_of(*table, d);
    proof {
        lemma_resume(d, start as int, wide as int, end as int, Names::Station);
        lemma_rows_any(
            d,
            rest as int,
            end as int,
            d.len() as int,
            Names::Station,
            Names::Held,
        );
        lemma_absorb_concat(table.tally(d), a, b);
        lemma_run_is_offsets::<Row>(s, a);
        let mid = Offsets { capacity: s.capacity, tally: absorb_all(s.tally, a) };
        lemma_run_is_offsets::<TailRow>(mid, b);
        lemma_run_fits::<Shelf<TailRow>>(mid, b);
        lemma_run_fits::<Shelf<Row>>(s, a);
    }
    if start < wide {
        serial::<Shelf<Row>>(table, data, start, wide);
    } else {
        assert(a =~= seq![]);
    }
    serial::<Shelf<TailRow>>(table, data, rest, end);
}

/// The rows of one chunk, whatever their names, a byte at a time.
pub fn drain_bytewise(table: &mut Table, data: &[u8], start: usize, end: usize)
    requires
        shelved(*old(table), data@, by_name_hash()),
        start <= end <= data@.len() < usize::MAX,
        rows_as(data@, start as int, end as int, data@.len() as int, Names::Held),
        offsets_fit(
            Offsets {
                capacity: old(table).capacity(),
                tally: absorb_all(
                    old(table).tally(data@),
                    rows(data@, start as int, end as int),
                ),
            },
        ),
    ensures
        shelved(*final(table), data@, by_name_hash()),
        final(table).capacity() == old(table).capacity(),
        final(table).tally(data@) == absorb_all(
            old(table).tally(data@),
            rows(data@, start as int, end as int),
        ),
{
    let ghost s = offsets_of(*table, data@);
    let ghost r = rows(data@, start as int, end as int);
    proof {
        lemma_run_is_offsets::<TailRow>(s, r);
        lemma_run_fits::<Shelf<TailRow>>(s, r);
    }
    serial::<Shelf<TailRow>>(table, data, start, end);
}

/// A chunk at a time, tested first.
pub struct Chunk;

impl Intake for Chunk {
    type Ctx = Table;

    open spec fn ok(ctx: Table, d: Seq<u8>) -> bool {
        shelved(ctx, d, by_name_hash())
    }

    open spec fn tally(ctx: Table, d: Seq<u8>) -> Tally {
        ctx.tally(d)
    }

    open spec fn names() -> Names {
        Names::Held
    }

    open spec fn accepts(ctx: Table, d: Seq<u8>, r: Record) -> bool {
        offsets_room(ctx, d, r)
    }

    open spec fn size(ctx: Table) -> nat {
        ctx.capacity()
    }

    open spec fn fits(size: nat, m: Tally) -> bool {
        offsets_fit(Offsets { capacity: size, tally: m })
    }

    open spec fn slack() -> int {
        0
    }

    open spec fn whole() -> bool {
        true
    }

    proof fn fits_less(size: nat, a: Tally, b: Tally) {
        lemma_offsets_less(size, a, b);
    }

    proof fn has_its_room(ctx: Table, d: Seq<u8>, r: Record) {
        lemma_room_is_fit(ctx, d, r);
    }

    fn reads() -> (names: Names) {
        Names::Held
    }

    fn spare(ctx: &Table, data: &[u8]) -> (n: usize) {
        offsets_spare(ctx, data)
    }

    fn admits(ctx: &Table, data: &[u8], pos: usize, semi: usize) -> (b: bool) {
        let ghost name = name_at(data@, pos as int);
        assert(data.len() == data@.len());
        assert(data@.subrange(pos as int, pos + (semi - pos)) =~= name);
        assert(ctx.agrees(data@, name, (by_name_hash())(name)));
        let hash = find_semi_and_hash_scalar(data, pos).1;
        offsets_admit(ctx, data, pos, semi - pos, hash, Ghost(record_at(data@, pos as int)))
    }

    fn row(ctx: &mut Table, data: &[u8], pos: usize, lim: usize) {
        proof {
            lemma_room_is_fit(*ctx, data@, record_at(data@, pos as int));
        }
        step_tail(data, ctx, pos);
    }

    fn drain(ctx: &mut Table, data: &[u8], start: usize, end: usize, lim: usize) {
        if check_rows(data, start, end, lim, Names::Station) {
            self::drain(ctx, data, start, end);
        } else {
            // A wide load trusts names to be no longer than stations' are.
            drain_bytewise(ctx, data, start, end);
        }
    }
}

/// How far rows are read wide: as long as the guard's 115 bytes come after.
pub proof fn law_wide_reads_keep_to_the_guard(len: int, start: int, end: int, q: int)
    requires
        0 <= start <= q <= end <= len,
    ensures
        q <= wide_end(len, start, end) <==> q == start || q + 115 <= len,
        0 <= q < wide_limit(len) ==> q + 115 < len,
{
}

} // verus!
