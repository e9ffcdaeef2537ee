//! The work of one row, mode by mode.

use crate::bytes::window;
use crate::engine::run_all;
use crate::engine::whole_row;
use crate::engine::Commuting;
use crate::engine::Engine;
use crate::feed::at_hand;
use crate::feed::by_name_hash;
use crate::feed::by_raw_hash;
use crate::feed::fits;
use crate::feed::has_room;
use crate::feed::lemma_fits_before;
use crate::feed::lemma_offsets_before;
use crate::feed::lemma_readable;
use crate::feed::lemma_shelf_takes;
use crate::feed::lemma_stays_shelved;
use crate::feed::lemma_window_keyed;
use crate::feed::lemma_window_temp;
use crate::feed::name_room;
use crate::feed::offsets_after;
use crate::feed::offsets_fit;
use crate::feed::offsets_of;
use crate::feed::put;
use crate::feed::put_words;
use crate::feed::shelved;
use crate::feed::stocked;
use crate::feed::Offsets;
use crate::feed::TAIL_GUARD;
use crate::hot::count::Sunk;
use crate::hot::count::TakePair;
use crate::hot::count::TakeRow;
use crate::hot::count::TakeStep;
use crate::inline_table::lemma_shape;
use crate::inline_table::reslotted;
use crate::inline_table::slot_of;
use crate::inline_table::InlineTable;
use crate::inline_table::MAX_ENTRIES;
use crate::keys::nul_free;
use crate::output::single;
use crate::parse::parse_temp_branchless;
use crate::parse::parse_temp_branchless_win;
use crate::parse::parse_temp_len;
use crate::probing::held;
use crate::probing::is_len;
use crate::probing::landed;
use crate::probing::landing;
use crate::probing::law_probe_ends_at_the_first_that_will_do;
use crate::probing::live;
use crate::probing::Cell;
use crate::probing::Cells;
use crate::rows::absorb;
use crate::rows::absorb_all;
use crate::rows::law_absorb_any_order;
use crate::rows::lemma_bytes_insert;
use crate::rows::record_at;
use crate::rows::row_next;
use crate::rows::row_stop;
use crate::rows::Record;
use crate::rows::Tally;
use crate::swar::find_semi;
use crate::swar::find_semi_and_hash;
use crate::swar::find_semi_and_hash_flat;
use crate::swar::find_semi_and_hash_flat_raw;
use crate::swar::hash_len_raw;
use crate::swar::keyed;
use crate::swar::name_at;
use crate::swar::name_hash;
use crate::swar::raw_hash;
use crate::swar::scan_flat_keyed;
use crate::swar::scan_flat_keyed_win;
use crate::swar::semi_at;
use crate::table::Table;
use vstd::prelude::*;

verus! {

/// A value as a word: its two's complement in 64 bits.
pub open spec fn value_word(v: int) -> u64 {
    #[verifier::truncate]
    ((v as i16) as u64)
}

/// A row is whole and readable.
pub open spec fn readable(d: Seq<u8>, pos: int) -> bool {
    whole_row(d, pos) && pos + TAIL_GUARD <= d.len() < usize::MAX
}

/// Scan + parse, no table. Returns the value and the next line.
#[inline(always)]
pub fn parse_only(data: &[u8], pos: usize) -> (r: (u64, usize))
    requires
        readable(data@, pos as int),
    ensures
        r.0 == value_word(record_at(data@, pos as int).value),
        r.1 == row_next(data@, pos as int),
{
    proof {
        lemma_readable(data@, pos as int);
    }
    let semi = find_semi(data, pos);
    let (v, next) = parse_temp_branchless(data, semi + 1);
    (v as u64, next)
}

/// Flat scan + hash + parse, no table.
#[inline(always)]
pub fn fhash_only(data: &[u8], pos: usize) -> (r: (u64, usize))
    requires
        readable(data@, pos as int),
    ensures
        r.0 == name_hash(name_at(data@, pos as int)) ^ value_word(
            record_at(data@, pos as int).value,
        ),
        r.1 == row_next(data@, pos as int),
{
    proof {
        lemma_readable(data@, pos as int);
    }
    let (semi, h) = find_semi_and_hash_flat(data, pos);
    let (v, next) = parse_temp_branchless(data, semi + 1);
    (h ^ v as u64, next)
}

/// Loop scan + hash + parse, no table.
#[inline(always)]
pub fn hash_only(data: &[u8], pos: usize) -> (r: (u64, usize))
    requires
        readable(data@, pos as int),
    ensures
        r.0 == name_hash(name_at(data@, pos as int)) ^ value_word(
            record_at(data@, pos as int).value,
        ),
        r.1 == row_next(data@, pos as int),
{
    proof {
        lemma_readable(data@, pos as int);
    }
    let (semi, h) = find_semi_and_hash(data, pos);
    let (v, next) = parse_temp_branchless(data, semi + 1);
    (h ^ v as u64, next)
}

/// Scan + hash + parse + upsert into the offset-keyed table.
#[inline(always)]
pub fn full(data: &[u8], table: &mut Table, pos: usize) -> (r: (u64, usize))
    requires
        old(table).can_take(data@, pos),
    ensures
        final(table).took(*old(table), data@, pos),
        r.0 == name_hash_at(data@, pos),
        r.1 == next_at(data@, pos),
{
    proof {
        lemma_row_reads(data@, pos);
    }
    let (semi, h) = find_semi_and_hash(data, pos);
    let (v, next) = parse_temp_branchless(data, semi + 1);
    let len = semi - pos;
    proof {
        lemma_shelf_takes(*table, data@, by_name_hash(), pos, len, v);
    }
    let ghost before = *table;
    table.upsert_wide_cmp(data, pos, len, h, v);
    proof {
        lemma_stays_shelved(before, *table, data@, by_name_hash(), pos, len, v);
    }
    (h, next)
}

/// The hash of the name at `pos`.
pub open spec fn name_hash_at(d: Seq<u8>, pos: usize) -> u64 {
    name_hash(name_at(d, pos as int))
}

/// Where the row after the one at `pos` starts.
pub open spec fn next_at(d: Seq<u8>, pos: usize) -> int {
    row_next(d, pos as int)
}

proof fn lemma_row_reads(d: Seq<u8>, pos: usize)
    requires
        readable(d, pos as int),
    ensures
        crate::swar::loop_readable(d, pos as int),
        crate::parse::temp_ok(d, semi_at(d, pos as int) + 1),
        semi_at(d, pos as int) + 9 <= d.len(),
        pos < semi_at(d, pos as int) <= pos + 100,
        d.subrange(pos as int, pos + (semi_at(d, pos as int) - pos)) == name_at(d, pos as int),
        next_at(d, pos) == semi_at(d, pos as int) + 1 + crate::parse::temp_width(
            d,
            semi_at(d, pos as int) + 1,
        ) + 1,
        crate::rows::name_ok(name_at(d, pos as int)),
        -999 <= record_at(d, pos as int).value <= 999,
        record_at(d, pos as int).value == crate::parse::temp_value(d, semi_at(d, pos as int) + 1),
{
    lemma_readable(d, pos as int);
}

impl Table {
    /// The row at `pos` can be taken.
    pub open spec fn can_take(&self, d: Seq<u8>, pos: usize) -> bool {
        &&& shelved(*self, d, by_name_hash())
        &&& readable(d, pos as int)
        &&& offsets_fit(offsets_after(offsets_of(*self, d), record_at(d, pos as int)))
    }

    /// The row at `pos` has been taken.
    pub open spec fn took(&self, before: Table, d: Seq<u8>, pos: usize) -> bool {
        &&& shelved(*self, d, by_name_hash())
        &&& offsets_of(*self, d) == offsets_after(
            offsets_of(before, d),
            record_at(d, pos as int),
        )
    }
}

/// [`full`] against the inline-key table.
#[inline(always)]
pub fn full_inline(data: &[u8], table: &mut InlineTable, pos: usize) -> (r: (u64, usize))
    requires
        stocked(*old(table), by_name_hash()),
        at_hand(*old(table), data@, pos as int, TAIL_GUARD as int),
    ensures
        stocked(*final(table), by_name_hash()),
        final(table)@ == absorb(old(table)@, record_at(data@, pos as int)),
        r.0 == name_hash(name_at(data@, pos as int)),
        r.1 == row_next(data@, pos as int),
{
    proof {
        lemma_readable(data@, pos as int);
    }
    let (semi, h) = find_semi_and_hash(data, pos);
    let (v, next) = parse_temp_branchless(data, semi + 1);
    put(table, data, pos, semi, h, v, Ghost(by_name_hash()));
    (h, next)
}

/// [`full_inline`] with the loop scan swapped for the fixed 16-byte one. The hash is
/// identical, so this must end with the same sink.
#[inline(always)]
pub fn full_flat(data: &[u8], table: &mut InlineTable, pos: usize) -> (r: (u64, usize))
    requires
        stocked(*old(table), by_name_hash()),
        at_hand(*old(table), data@, pos as int, TAIL_GUARD as int),
    ensures
        stocked(*final(table), by_name_hash()),
        final(table)@ == absorb(old(table)@, record_at(data@, pos as int)),
        r.0 == name_hash(name_at(data@, pos as int)),
        r.1 == row_next(data@, pos as int),
{
    proof {
        lemma_readable(data@, pos as int);
    }
    let (semi, h) = find_semi_and_hash_flat(data, pos);
    let (v, next) = parse_temp_branchless(data, semi + 1);
    put(table, data, pos, semi, h, v, Ghost(by_name_hash()));
    (h, next)
}

/// [`full_flat`] with the hash's final avalanche dropped. Same rows, different hash, so the
/// sink differs by design; the tally is what has to match.
#[inline(always)]
pub fn full_raw(data: &[u8], table: &mut InlineTable, pos: usize) -> (r: (u64, usize))
    requires
        stocked(*old(table), by_raw_hash()),
        at_hand(*old(table), data@, pos as int, TAIL_GUARD as int),
    ensures
        stocked(*final(table), by_raw_hash()),
        final(table)@ == absorb(old(table)@, record_at(data@, pos as int)),
        r.0 == raw_hash(name_at(data@, pos as int)),
        r.1 == row_next(data@, pos as int),
{
    proof {
        lemma_readable(data@, pos as int);
    }
    let (semi, h) = find_semi_and_hash_flat_raw(data, pos);
    let (v, next) = parse_temp_branchless(data, semi + 1);
    put(table, data, pos, semi, h, v, Ghost(by_raw_hash()));
    (h, next)
}

/// [`full_raw`] with the probe key taken from the scan rather than rebuilt from memory, and the
/// probe collapsed to the key's low half. Names of 16 bytes and over fall out of the scan's
/// window, so they take `full_raw` itself, out of line. Same hash, so the sink must match it
/// exactly.
#[inline(always)]
pub fn full_keyed(data: &[u8], table: &mut InlineTable, pos: usize) -> (r: (u64, usize))
    requires
        stocked(*old(table), by_raw_hash()),
        at_hand(*old(table), data@, pos as int, TAIL_GUARD as int),
    ensures
        stocked(*final(table), by_raw_hash()),
        final(table)@ == absorb(old(table)@, record_at(data@, pos as int)),
        r.0 == raw_hash(name_at(data@, pos as int)),
        r.1 == row_next(data@, pos as int),
{
    proof {
        lemma_readable(data@, pos as int);
    }
    let Some((semi, h, klo, khi)) = scan_flat_keyed(data, pos) else {
        return full_keyed_long(data, table, pos);
    };
    let (v, next) = parse_temp_branchless(data, semi + 1);
    put_words(table, data, pos, semi, h, v, klo, khi);
    (h, next)
}

#[inline(never)]
pub fn full_keyed_long(data: &[u8], table: &mut InlineTable, pos: usize) -> (r: (u64, usize))
    requires
        stocked(*old(table), by_raw_hash()),
        at_hand(*old(table), data@, pos as int, TAIL_GUARD as int),
    ensures
        stocked(*final(table), by_raw_hash()),
        final(table)@ == absorb(old(table)@, record_at(data@, pos as int)),
        r.0 == raw_hash(name_at(data@, pos as int)),
        r.1 == row_next(data@, pos as int),
{
    full_raw(data, table, pos)
}

/// [`full_keyed`] with its two fixed-size loads fetched as windows whose length the type
/// system carries, so neither the scan nor the parse checks anything.
#[inline(always)]
pub fn full_keyed_win(data: &[u8], table: &mut InlineTable, pos: usize) -> (r: (u64, usize))
    requires
        stocked(*old(table), by_raw_hash()),
        at_hand(*old(table), data@, pos as int, TAIL_GUARD as int),
    ensures
        stocked(*final(table), by_raw_hash()),
        final(table)@ == absorb(old(table)@, record_at(data@, pos as int)),
        r.0 == raw_hash(name_at(data@, pos as int)),
        r.1 == row_next(data@, pos as int),
{
    let Some(row) = keyed_win(data, pos) else {
        return full_keyed_long(data, table, pos);
    };
    let (len, h, klo, khi, v, next) = row;
    put_words(table, data, pos, pos + len, h, v, klo, khi);
    (h, next)
}

/// The window half of [`full_keyed_win`]: scan and parse, no table. `None` where the name runs
/// past the window.
///
/// Returns the name length rather than the `;` position, which is what its callers want.
#[inline(always)]
pub fn keyed_win(data: &[u8], pos: usize) -> (r: Option<(usize, u64, u64, u64, i16, usize)>)
    requires
        readable(data@, pos as int),
    ensures
        match r {
            Some((len, h, klo, khi, v, next)) => {
                &&& keyed(data@, pos as int) == Some(((pos + len) as usize, h, klo, khi))
                &&& pos + len == semi_at(data@, pos as int)
                &&& v == record_at(data@, pos as int).value
                &&& next == row_next(data@, pos as int)
            },
            None => keyed(data@, pos as int) is None,
        },
{
    proof {
        lemma_readable(data@, pos as int);
    }
    let w: [u8; 16] = window(data, pos);
    proof {
        lemma_window_keyed(data@, pos as int, w@);
    }
    let (len, h, klo, khi) = match scan_flat_keyed_win(&w) {
        Some(found) => found,
        None => {
            return None;
        },
    };
    let val = pos + len + 1;
    let t: [u8; 8] = window(data, val);
    proof {
        lemma_window_temp(data@, val as int, t@);
    }
    let (v, adv) = parse_temp_branchless_win(&t);
    Some((len, h, klo, khi, v, val + adv))
}

/// Scan + hash + parse for a row whose end is already known. The parser still finds the line
/// end itself, so nothing hangs on the one it is told.
#[inline(always)]
pub fn row_flat(data: &[u8], pos: usize, _nl: usize) -> (v: u64)
    requires
        readable(data@, pos as int),
    ensures
        v == raw_hash(name_at(data@, pos as int)) ^ value_word(record_at(data@, pos as int).value),
{
    proof {
        lemma_readable(data@, pos as int);
    }
    let (semi, h) = find_semi_and_hash_flat_raw(data, pos);
    let (v, _) = parse_temp_branchless(data, semi + 1);
    h ^ v as u64
}

/// [`row_flat`] with the parser's dot search replaced by the length the mask already gave us.
#[inline(always)]
pub fn row_len(data: &[u8], pos: usize, nl: usize) -> (v: u64)
    requires
        readable(data@, pos as int),
        nl == row_stop(data@, pos as int),
    ensures
        v == raw_hash(name_at(data@, pos as int)) ^ value_word(record_at(data@, pos as int).value),
{
    proof {
        lemma_readable(data@, pos as int);
    }
    let (semi, h) = find_semi_and_hash_flat_raw(data, pos);
    let v = parse_temp_len(data, semi + 1, nl - semi - 1);
    h ^ v as u64
}

/// [`row_len`] plus the inline-key upsert.
#[inline(always)]
pub fn row_table(data: &[u8], table: &mut InlineTable, pos: usize, nl: usize) -> (h: u64)
    requires
        stocked(*old(table), by_raw_hash()),
        at_hand(*old(table), data@, pos as int, TAIL_GUARD as int),
        nl == row_stop(data@, pos as int),
    ensures
        stocked(*final(table), by_raw_hash()),
        final(table)@ == absorb(old(table)@, record_at(data@, pos as int)),
        h == raw_hash(name_at(data@, pos as int)),
{
    proof {
        lemma_readable(data@, pos as int);
    }
    let (semi, h) = find_semi_and_hash_flat_raw(data, pos);
    let v = parse_temp_len(data, semi + 1, nl - semi - 1);
    put(table, data, pos, semi, h, v, Ghost(by_raw_hash()));
    h
}

/// Both delimiters come from the bitmap, so nothing scans the row: the hash is driven by the
/// name length and the temperature by the value length.
#[inline(always)]
pub fn pair_rows(data: &[u8], pos: usize, semi: usize, nl: usize) -> (v: u64)
    requires
        readable(data@, pos as int),
        semi == semi_at(data@, pos as int),
        nl == row_stop(data@, pos as int),
    ensures
        v == raw_hash(name_at(data@, pos as int)) ^ value_word(record_at(data@, pos as int).value),
{
    proof {
        lemma_readable(data@, pos as int);
    }
    let h = hash_len_raw(data, pos, semi - pos);
    let v = parse_temp_len(data, semi + 1, nl - semi - 1);
    h ^ v as u64
}

/// [`pair_rows`] plus the inline-key upsert.
#[inline(always)]
pub fn pair_table(
    data: &[u8],
    table: &mut InlineTable,
    pos: usize,
    semi: usize,
    nl: usize,
) -> (h: u64)
    requires
        stocked(*old(table), by_raw_hash()),
        at_hand(*old(table), data@, pos as int, TAIL_GUARD as int),
        semi == semi_at(data@, pos as int),
        nl == row_stop(data@, pos as int),
    ensures
        stocked(*final(table), by_raw_hash()),
        final(table)@ == absorb(old(table)@, record_at(data@, pos as int)),
        h == raw_hash(name_at(data@, pos as int)),
{
    proof {
        lemma_readable(data@, pos as int);
    }
    let h = hash_len_raw(data, pos, semi - pos);
    let v = parse_temp_len(data, semi + 1, nl - semi - 1);
    put(table, data, pos, semi, h, v, Ghost(by_raw_hash()));
    h
}

/// The slots of an offset-keyed table and how they are picked, for a probe by length.
pub struct Shelves {
    pub cells: Cells,
    pub home: spec_fn(u64) -> int,
}

/// Where the probe by length for a row ends.
pub open spec fn shelf_at(s: Shelves, r: Record) -> int {
    landing(s.cells, (s.home)(name_hash(r.name)), is_len(r.name.len()))
}

/// The slots after a row whose measurement goes wherever the probe by length ends.
pub open spec fn shelves_after(s: Shelves, r: Record) -> Shelves {
    Shelves {
        cells: landed(s.cells, shelf_at(s, r), r.name, name_hash(r.name), r.value),
        home: s.home,
    }
}

/// A live slot can take one more measurement.
pub open spec fn cell_has_room(c: Cell, value: int) -> bool {
    c.stats.count < u32::MAX && i64::MIN <= c.stats.sum + value <= i64::MAX
}

/// There is room for a row wherever the probe by length ends.
pub open spec fn shelves_accept(s: Shelves, r: Record) -> bool {
    match s.cells[shelf_at(s, r)] {
        Some(c) => cell_has_room(c, r.value),
        None => held(s.cells, s.cells.len() as int).len() + 1 < s.cells.len(),
    }
}

/// What an offset-keyed table amounts to for a probe by length.
pub open spec fn shelves_of(t: Table, d: Seq<u8>) -> Shelves {
    Shelves { cells: t.cells(d), home: t.home() }
}

/// A sound offset-keyed table with every name under its hash.
pub open spec fn racked(t: Table, d: Seq<u8>) -> bool {
    t.wf(d) && forall|name: Seq<u8>| #[trigger] t.agrees(d, name, name_hash(name))
}

/// The row at `pos` can be taken by length.
pub open spec fn rack_takes(t: Table, d: Seq<u8>, pos: usize) -> bool {
    &&& racked(t, d)
    &&& readable(d, pos as int)
    &&& shelves_accept(shelves_of(t, d), record_at(d, pos as int))
}

/// The row at `pos` has been taken by length.
pub open spec fn rack_took(t: Table, before: Table, d: Seq<u8>, pos: usize) -> bool {
    racked(t, d) && shelves_of(t, d) == shelves_after(
        shelves_of(before, d),
        record_at(d, pos as int),
    )
}

proof fn lemma_rack(t: Table, d: Seq<u8>, pos: usize)
    requires
        rack_takes(t, d, pos),
    ensures
        t.agrees(d, name_at(d, pos as int), name_hash_at(d, pos)),
        t.cells(d).len() == t.capacity(),
{
    crate::table::lemma_wf(t, d);
}

proof fn lemma_racked(t: Table, before: Table, d: Seq<u8>, pos: usize)
    requires
        racked(before, d),
        t.wf(d),
        forall|n: Seq<u8>, h: u64|
            (n != name_at(d, pos as int) || h == name_hash_at(d, pos)) && before.agrees(d, n, h)
                ==> #[trigger] t.agrees(d, n, h),
    ensures
        racked(t, d),
{
    assert forall|name: Seq<u8>| #[trigger] t.agrees(d, name, name_hash(name)) by {
        assert(before.agrees(d, name, name_hash(name)));
    }
}

/// [`full`] with the key comparison removed, to price it.
#[inline(always)]
pub fn nocmp(data: &[u8], table: &mut Table, pos: usize) -> (r: (u64, usize))
    requires
        rack_takes(*old(table), data@, pos),
    ensures
        rack_took(*final(table), *old(table), data@, pos),
        r.0 == name_hash_at(data@, pos),
        r.1 == next_at(data@, pos),
{
    proof {
        lemma_row_reads(data@, pos);
        lemma_rack(*table, data@, pos);
    }
    let (semi, h) = find_semi_and_hash(data, pos);
    let (v, next) = parse_temp_branchless(data, semi + 1);
    let len = semi - pos;
    let ghost before = *table;
    table.upsert_no_key_compare(data, pos, len, h, v);
    proof {
        lemma_racked(*table, before, data@, pos);
    }
    (h, next)
}

/// The slots of an inline-key table whose keys are not kept, for a probe by length.
pub struct Unkeyed {
    pub cells: Cells,
    pub shift: u32,
    pub arena: nat,
}

/// Where the probe by length for a row ends.
pub open spec fn unkeyed_at(s: Unkeyed, r: Record) -> int {
    landing(s.cells, slot_of(s.shift)(raw_hash(r.name)), is_len(r.name.len()))
}

/// One more live slot takes more than half of them.
pub open spec fn overfull(cells: Cells) -> bool {
    2 * (live(cells, cells.len() as int) + 1) > cells.len()
}

/// The slots after a row: its measurement goes wherever the probe by length ends, and the
/// slots double when that claims one too many.
pub open spec fn unkeyed_after(s: Unkeyed, r: Record) -> Unkeyed {
    let at = unkeyed_at(s, r);
    let after = landed(s.cells, at, r.name, raw_hash(r.name), r.value);
    let claimed = s.cells[at] is None;
    let shift = (s.shift - 1) as u32;
    Unkeyed {
        cells: if claimed && overfull(s.cells) {
            reslotted(after, 2 * after.len(), slot_of(shift), after.len() as int)
        } else {
            after
        },
        shift: if claimed && overfull(s.cells) {
            shift
        } else {
            s.shift
        },
        arena: s.arena + if claimed {
            r.name.len()
        } else {
            0
        },
    }
}

/// There is room for a row wherever the probe by length ends.
pub open spec fn unkeyed_accepts(s: Unkeyed, r: Record) -> bool {
    match s.cells[unkeyed_at(s, r)] {
        Some(c) => cell_has_room(c, r.value),
        None => s.arena <= u32::MAX && held(s.cells, s.cells.len() as int).len() < MAX_ENTRIES,
    }
}

/// What an inline-key table amounts to for a probe by length.
pub open spec fn unkeyed_of(t: InlineTable) -> Unkeyed {
    Unkeyed { cells: t.cells(), shift: t.slot_shift(), arena: t.arena().len() }
}

/// A well-shaped table with every name under its hash, whatever its keys.
pub open spec fn unkeyed_ok(t: InlineTable) -> bool {
    t.shape_ok() && forall|name: Seq<u8>| #[trigger] t.agrees(name, raw_hash(name))
}

/// [`pair_table`] with the key dropped, to price it.
#[inline(always)]
pub fn pair_nokey(
    data: &[u8],
    table: &mut InlineTable,
    pos: usize,
    semi: usize,
    nl: usize,
) -> (h: u64)
    requires
        unkeyed_ok(*old(table)),
        readable(data@, pos as int),
        unkeyed_accepts(unkeyed_of(*old(table)), record_at(data@, pos as int)),
        semi == semi_at(data@, pos as int),
        nl == row_stop(data@, pos as int),
    ensures
        unkeyed_ok(*final(table)),
        unkeyed_of(*final(table)) == unkeyed_after(
            unkeyed_of(*old(table)),
            record_at(data@, pos as int),
        ),
        h == raw_hash(name_at(data@, pos as int)),
{
    let ghost name = name_at(data@, pos as int);
    let ghost before = *table;
    proof {
        lemma_readable(data@, pos as int);
        lemma_shape(*table);
        assert(table.agrees(name, raw_hash(name)));
    }
    let h = hash_len_raw(data, pos, semi - pos);
    let v = parse_temp_len(data, semi + 1, nl - semi - 1);
    table.upsert_no_key(data, pos, semi - pos, h, v);
    assert forall|n: Seq<u8>| #[trigger] table.agrees(n, raw_hash(n)) by {
        assert(before.agrees(n, raw_hash(n)));
    }
    h
}

/// The tally after a row whose measurement is dropped unless it is its station's first.
pub open spec fn met(m: Tally, r: Record) -> Tally {
    if m.contains_key(r.name) {
        m
    } else {
        m.insert(r.name, single(r.value))
    }
}

/// There is room for a row where only first measurements are kept.
pub open spec fn met_room(m: Tally, r: Record) -> bool {
    nul_free(r.name) && (m.contains_key(r.name) || name_room(m))
}

/// [`pair_table`] with the accumulate dropped, to price it.
#[inline(always)]
pub fn pair_nostats(
    data: &[u8],
    table: &mut InlineTable,
    pos: usize,
    semi: usize,
    nl: usize,
) -> (h: u64)
    requires
        stocked(*old(table), by_raw_hash()),
        readable(data@, pos as int),
        met_room(old(table)@, record_at(data@, pos as int)),
        semi == semi_at(data@, pos as int),
        nl == row_stop(data@, pos as int),
    ensures
        stocked(*final(table), by_raw_hash()),
        final(table)@ == met(old(table)@, record_at(data@, pos as int)),
        h == raw_hash(name_at(data@, pos as int)),
{
    let ghost name = name_at(data@, pos as int);
    let ghost before = *table;
    proof {
        lemma_readable(data@, pos as int);
        lemma_shape(*table);
        assert(table.agrees(name, (by_raw_hash())(name)));
    }
    let h = hash_len_raw(data, pos, semi - pos);
    let v = parse_temp_len(data, semi + 1, nl - semi - 1);
    table.upsert_no_stats(data, pos, semi - pos, h, v);
    proof {
        lemma_bytes_insert(before@.dom(), name);
        assert(before@.contains_key(name) ==> before@.dom().insert(name) =~= before@.dom());
        assert(before@.insert(name, crate::output::single(v as int)).dom() =~= before@.dom().insert(
            name,
        ));
    }
    assert forall|n: Seq<u8>| #[trigger] table.agrees(n, (by_raw_hash())(n)) by {
        assert(before.agrees(n, (by_raw_hash())(n)));
    }
    h
}

/// What a row yields where no table is kept.
pub trait PlainSink {
    spec fn yields(r: Record) -> u64;
}

/// An engine without a table.
pub struct Plain<P> {
    pub row: P,
}

impl<P: PlainSink> Engine for Plain<P> {
    type Ctx = ();

    type S = ();

    open spec fn inv(ctx: (), d: Seq<u8>) -> bool {
        true
    }

    open spec fn state(ctx: (), d: Seq<u8>) -> () {
        ()
    }

    open spec fn next(s: (), r: Record) -> () {
        ()
    }

    open spec fn accepts(s: (), r: Record) -> bool {
        true
    }

    open spec fn reach() -> int {
        TAIL_GUARD as int
    }
}

impl<P: PlainSink> Sunk for Plain<P> {
    open spec fn sink(r: Record) -> u64 {
        P::yields(r)
    }
}

impl<P: PlainSink> Commuting for Plain<P> {
    open spec fn fits(s: ()) -> bool {
        true
    }

    proof fn swap(s: (), a: Record, b: Record) {
    }

    proof fn room(s: (), r: Record) {
    }
}

pub struct ParseOnly;

impl PlainSink for ParseOnly {
    open spec fn yields(r: Record) -> u64 {
        value_word(r.value)
    }
}

impl TakeStep for Plain<ParseOnly> {
    #[inline(always)]
    fn take(ctx: &mut (), data: &[u8], pos: usize) -> (r: (u64, usize)) {
        parse_only(data, pos)
    }
}

pub struct HashOnly;

impl PlainSink for HashOnly {
    open spec fn yields(r: Record) -> u64 {
        name_hash(r.name) ^ value_word(r.value)
    }
}

impl TakeStep for Plain<HashOnly> {
    #[inline(always)]
    fn take(ctx: &mut (), data: &[u8], pos: usize) -> (r: (u64, usize)) {
        hash_only(data, pos)
    }
}

pub struct FhashOnly;

impl PlainSink for FhashOnly {
    open spec fn yields(r: Record) -> u64 {
        name_hash(r.name) ^ value_word(r.value)
    }
}

impl TakeStep for Plain<FhashOnly> {
    #[inline(always)]
    fn take(ctx: &mut (), data: &[u8], pos: usize) -> (r: (u64, usize)) {
        fhash_only(data, pos)
    }
}

/// The name's hash alone: what every row of an offset-keyed table yields.
pub struct NameHash;

impl PlainSink for NameHash {
    open spec fn yields(r: Record) -> u64 {
        name_hash(r.name)
    }
}

pub struct RowFlat;

impl PlainSink for RowFlat {
    open spec fn yields(r: Record) -> u64 {
        raw_hash(r.name) ^ value_word(r.value)
    }
}

impl TakeRow for Plain<RowFlat> {
    open spec fn by_end() -> bool {
        false
    }

    #[inline(always)]
    fn row(ctx: &mut (), data: &[u8], pos: usize, nl: usize) -> (v: u64) {
        row_flat(data, pos, nl)
    }
}

pub struct RowLen;

impl PlainSink for RowLen {
    open spec fn yields(r: Record) -> u64 {
        raw_hash(r.name) ^ value_word(r.value)
    }
}

impl TakeRow for Plain<RowLen> {
    open spec fn by_end() -> bool {
        true
    }

    #[inline(always)]
    fn row(ctx: &mut (), data: &[u8], pos: usize, nl: usize) -> (v: u64) {
        row_len(data, pos, nl)
    }
}

pub struct PairRows;

impl PlainSink for PairRows {
    open spec fn yields(r: Record) -> u64 {
        raw_hash(r.name) ^ value_word(r.value)
    }
}

impl TakePair for Plain<PairRows> {
    #[inline(always)]
    fn pair(ctx: &mut (), data: &[u8], pos: usize, semi: usize, nl: usize) -> (v: u64) {
        pair_rows(data, pos, semi, nl)
    }
}

/// The hash that a mode over the inline-key table holds names under, and yields.
pub trait InlineSink {
    spec fn by() -> spec_fn(Seq<u8>) -> u64;
}

/// An engine over the inline-key table.
pub struct Inline<P> {
    pub row: P,
}

impl<P: InlineSink> Engine for Inline<P> {
    type Ctx = InlineTable;

    type S = Tally;

    open spec fn inv(ctx: InlineTable, d: Seq<u8>) -> bool {
        stocked(ctx, P::by())
    }

    open spec fn state(ctx: InlineTable, d: Seq<u8>) -> Tally {
        ctx@
    }

    open spec fn next(s: Tally, r: Record) -> Tally {
        absorb(s, r)
    }

    open spec fn accepts(s: Tally, r: Record) -> bool {
        has_room(s, r)
    }

    open spec fn reach() -> int {
        TAIL_GUARD as int
    }
}

impl<P: InlineSink> Sunk for Inline<P> {
    open spec fn sink(r: Record) -> u64 {
        (P::by())(r.name)
    }
}

impl<P: InlineSink> Commuting for Inline<P> {
    open spec fn fits(s: Tally) -> bool {
        fits(s)
    }

    proof fn swap(s: Tally, a: Record, b: Record) {
        law_absorb_any_order(s, a, b);
    }

    proof fn room(s: Tally, r: Record) {
        lemma_fits_before(s, r);
    }
}

/// Whichever scan and probe feed the inline-key table, it ends with the tally of the rows.
pub proof fn law_inline_run<P: InlineSink>(m: Tally, rows: Seq<Record>)
    ensures
        run_all::<Inline<P>>(m, rows) == absorb_all(m, rows),
    decreases rows.len(),
{
    if rows.len() > 0 {
        law_inline_run::<P>(absorb(m, rows[0]), rows.drop_first());
    }
}

pub struct FullInline;

impl InlineSink for FullInline {
    open spec fn by() -> spec_fn(Seq<u8>) -> u64 {
        by_name_hash()
    }
}

impl TakeStep for Inline<FullInline> {
    #[inline(always)]
    fn take(ctx: &mut InlineTable, data: &[u8], pos: usize) -> (r: (u64, usize)) {
        full_inline(data, ctx, pos)
    }
}

pub struct FullFlat;

impl InlineSink for FullFlat {
    open spec fn by() -> spec_fn(Seq<u8>) -> u64 {
        by_name_hash()
    }
}

impl TakeStep for Inline<FullFlat> {
    #[inline(always)]
    fn take(ctx: &mut InlineTable, data: &[u8], pos: usize) -> (r: (u64, usize)) {
        full_flat(data, ctx, pos)
    }
}

pub struct FullRaw;

impl InlineSink for FullRaw {
    open spec fn by() -> spec_fn(Seq<u8>) -> u64 {
        by_raw_hash()
    }
}

impl TakeStep for Inline<FullRaw> {
    #[inline(always)]
    fn take(ctx: &mut InlineTable, data: &[u8], pos: usize) -> (r: (u64, usize)) {
        full_raw(data, ctx, pos)
    }
}

pub struct FullKeyed;

impl InlineSink for FullKeyed {
    open spec fn by() -> spec_fn(Seq<u8>) -> u64 {
        by_raw_hash()
    }
}

impl TakeStep for Inline<FullKeyed> {
    #[inline(always)]
    fn take(ctx: &mut InlineTable, data: &[u8], pos: usize) -> (r: (u64, usize)) {
        full_keyed(data, ctx, pos)
    }
}

pub struct FullKeyedWin;

impl InlineSink for FullKeyedWin {
    open spec fn by() -> spec_fn(Seq<u8>) -> u64 {
        by_raw_hash()
    }
}

impl TakeStep for Inline<FullKeyedWin> {
    #[inline(always)]
    fn take(ctx: &mut InlineTable, data: &[u8], pos: usize) -> (r: (u64, usize)) {
        full_keyed_win(data, ctx, pos)
    }
}

pub struct RowTable;

impl InlineSink for RowTable {
    open spec fn by() -> spec_fn(Seq<u8>) -> u64 {
        by_raw_hash()
    }
}

impl TakeRow for Inline<RowTable> {
    open spec fn by_end() -> bool {
        true
    }

    #[inline(always)]
    fn row(ctx: &mut InlineTable, data: &[u8], pos: usize, nl: usize) -> (v: u64) {
        row_table(data, ctx, pos, nl)
    }
}

pub struct PairTable;

impl InlineSink for PairTable {
    open spec fn by() -> spec_fn(Seq<u8>) -> u64 {
        by_raw_hash()
    }
}

impl TakePair for Inline<PairTable> {
    #[inline(always)]
    fn pair(ctx: &mut InlineTable, data: &[u8], pos: usize, semi: usize, nl: usize) -> (v: u64) {
        pair_table(data, ctx, pos, semi, nl)
    }
}

pub struct PairNokey;

impl Engine for PairNokey {
    type Ctx = InlineTable;

    type S = Unkeyed;

    open spec fn inv(ctx: InlineTable, d: Seq<u8>) -> bool {
        unkeyed_ok(ctx)
    }

    open spec fn state(ctx: InlineTable, d: Seq<u8>) -> Unkeyed {
        unkeyed_of(ctx)
    }

    open spec fn next(s: Unkeyed, r: Record) -> Unkeyed {
        unkeyed_after(s, r)
    }

    open spec fn accepts(s: Unkeyed, r: Record) -> bool {
        unkeyed_accepts(s, r)
    }

    open spec fn reach() -> int {
        TAIL_GUARD as int
    }
}

impl Sunk for PairNokey {
    open spec fn sink(r: Record) -> u64 {
        raw_hash(r.name)
    }
}

impl TakePair for PairNokey {
    #[inline(always)]
    fn pair(ctx: &mut InlineTable, data: &[u8], pos: usize, semi: usize, nl: usize) -> (v: u64) {
        pair_nokey(data, ctx, pos, semi, nl)
    }
}

pub struct PairNostats;

impl Engine for PairNostats {
    type Ctx = InlineTable;

    type S = Tally;

    open spec fn inv(ctx: InlineTable, d: Seq<u8>) -> bool {
        stocked(ctx, by_raw_hash())
    }

    open spec fn state(ctx: InlineTable, d: Seq<u8>) -> Tally {
        ctx@
    }

    open spec fn next(s: Tally, r: Record) -> Tally {
        met(s, r)
    }

    open spec fn accepts(s: Tally, r: Record) -> bool {
        met_room(s, r)
    }

    open spec fn reach() -> int {
        TAIL_GUARD as int
    }
}

impl Sunk for PairNostats {
    open spec fn sink(r: Record) -> u64 {
        raw_hash(r.name)
    }
}

impl TakePair for PairNostats {
    #[inline(always)]
    fn pair(ctx: &mut InlineTable, data: &[u8], pos: usize, semi: usize, nl: usize) -> (v: u64) {
        pair_nostats(data, ctx, pos, semi, nl)
    }
}

/// [`full`], for the drivers.
pub struct Full;

impl Engine for Full {
    type Ctx = Table;

    type S = Offsets;

    open spec fn inv(ctx: Table, d: Seq<u8>) -> bool {
        shelved(ctx, d, by_name_hash())
    }

    open spec fn state(ctx: Table, d: Seq<u8>) -> Offsets {
        offsets_of(ctx, d)
    }

    open spec fn next(s: Offsets, r: Record) -> Offsets {
        offsets_after(s, r)
    }

    open spec fn accepts(s: Offsets, r: Record) -> bool {
        offsets_fit(offsets_after(s, r))
    }

    open spec fn reach() -> int {
        TAIL_GUARD as int
    }
}

impl Sunk for Full {
    open spec fn sink(r: Record) -> u64 {
        name_hash(r.name)
    }
}

impl Commuting for Full {
    open spec fn fits(s: Offsets) -> bool {
        offsets_fit(s)
    }

    proof fn swap(s: Offsets, a: Record, b: Record) {
        law_absorb_any_order(s.tally, a, b);
    }

    proof fn room(s: Offsets, r: Record) {
        lemma_offsets_before(s, r);
    }
}

/// The offset-keyed table ends with the tally of the rows too.
pub proof fn law_full_run(s: Offsets, rows: Seq<Record>)
    ensures
        run_all::<Full>(s, rows) == (Offsets {
            capacity: s.capacity,
            tally: absorb_all(s.tally, rows),
        }),
    decreases rows.len(),
{
    if rows.len() > 0 {
        law_full_run(offsets_after(s, rows[0]), rows.drop_first());
    }
}

impl TakeStep for Full {
    #[inline(always)]
    fn take(ctx: &mut Table, data: &[u8], pos: usize) -> (r: (u64, usize)) {
        full(data, ctx, pos)
    }
}

/// [`nocmp`], for the drivers.
pub struct Nocmp;

impl Engine for Nocmp {
    type Ctx = Table;

    type S = Shelves;

    open spec fn inv(ctx: Table, d: Seq<u8>) -> bool {
        racked(ctx, d)
    }

    open spec fn state(ctx: Table, d: Seq<u8>) -> Shelves {
        shelves_of(ctx, d)
    }

    open spec fn next(s: Shelves, r: Record) -> Shelves {
        shelves_after(s, r)
    }

    open spec fn accepts(s: Shelves, r: Record) -> bool {
        shelves_accept(s, r)
    }

    open spec fn reach() -> int {
        TAIL_GUARD as int
    }
}

impl Sunk for Nocmp {
    open spec fn sink(r: Record) -> u64 {
        name_hash(r.name)
    }
}

impl TakeStep for Nocmp {
    #[inline(always)]
    fn take(ctx: &mut Table, data: &[u8], pos: usize) -> (r: (u64, usize)) {
        nocmp(data, ctx, pos)
    }
}

/// A value as a word: itself, or what it lacks to 2^64 where it is negative.
pub proof fn law_value_word_in_numbers(v: int)
    requires
        -0x8000 <= v < 0x8000,
    ensures
        value_word(v) == if v < 0 {
            v + 0x1_0000_0000_0000_0000
        } else {
            v
        },
{
    let x = v as i16;
    assert(x < 0 ==> #[verifier::truncate] (x as u64) == x + 0x1_0000_0000_0000_0000) by (bit_vector);
}

/// What a row yields to the sink, engine by engine: the value, the name's hash, or the one folded
/// into the other.
pub proof fn law_engines_yield_hash_and_value(r: Record)
    ensures
        Plain::<ParseOnly>::sink(r) == value_word(r.value),
        Plain::<HashOnly>::sink(r) == name_hash(r.name) ^ value_word(r.value),
        Plain::<RowFlat>::sink(r) == raw_hash(r.name) ^ value_word(r.value),
        Inline::<FullInline>::sink(r) == name_hash(r.name),
        Inline::<FullRaw>::sink(r) == raw_hash(r.name),
        PairNokey::sink(r) == raw_hash(r.name),
        PairNostats::sink(r) == raw_hash(r.name),
{
}

/// Where only first measurements are kept, a station's first row is all that is known of it, and no
/// row of another station changes that.
pub proof fn law_only_first_measurements_are_kept(m: Tally, r: Record, name: Seq<u8>)
    ensures
        m.contains_key(name) ==> met(m, r).contains_key(name) && met(m, r)[name] == m[name],
        met(m, r).contains_key(name) ==> m.contains_key(name) || name == r.name,
        met(m, r).contains_key(r.name),
        !m.contains_key(r.name) ==> {
            let s = met(m, r)[r.name];
            s.min == r.value && s.max == r.value && s.sum == r.value && s.count == 1
        },
{
}

/// Where only lengths are matched, a row goes to the first slot, from the one that its hash picks,
/// that is free or holds a name of its length.
pub proof fn law_unmatched_names_go_by_length(s: Shelves, r: Record, i: int)
    requires
        0 <= (s.home)(name_hash(r.name)) < s.cells.len(),
        0 <= i < s.cells.len(),
        s.cells[i] is None || s.cells[i]->0.name.len() == r.name.len(),
    ensures
        ({
            let start = (s.home)(name_hash(r.name));
            let at = shelf_at(s, r);
            &&& 0 <= at < s.cells.len()
            &&& s.cells[at] is None || s.cells[at]->0.name.len() == r.name.len()
            &&& start <= i ==> start <= at <= i
            &&& i < start ==> at >= start || at <= i
        }),
{
    law_probe_ends_at_the_first_that_will_do(
        s.cells,
        (s.home)(name_hash(r.name)),
        is_len(r.name.len()),
        i,
    );
}

} // verus!
