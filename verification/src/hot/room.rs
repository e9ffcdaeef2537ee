//! How many rows a mode's scratch has room for.

use crate::engine::accepts_all;
use crate::engine::lemma_first_row;
use crate::engine::Engine;
use crate::hot::count::Count;
use crate::hot::count::Counted;
use crate::hot::count::Sunk;
use crate::hot::rows::met;
use crate::hot::rows::overfull;
use crate::hot::rows::shelf_at;
use crate::hot::rows::shelves_accept;
use crate::hot::rows::shelves_after;
use crate::hot::rows::unkeyed_accepts;
use crate::hot::rows::unkeyed_after;
use crate::hot::rows::unkeyed_at;
use crate::hot::rows::Nocmp;
use crate::hot::rows::PairNokey;
use crate::hot::rows::PairNostats;
use crate::hot::rows::Shelves;
use crate::hot::rows::Unkeyed;
use crate::inline_table::lemma_shift_down;
use crate::inline_table::lemma_slot_below;
use crate::inline_table::reslotted;
use crate::inline_table::slot_of;
use crate::inline_table::MAX_ENTRIES;
use crate::probing::along;
use crate::probing::held;
use crate::probing::homely;
use crate::probing::is_free;
use crate::probing::is_len;
use crate::probing::landed;
use crate::probing::landing;
use crate::probing::landing_from;
use crate::probing::lemma_blank;
use crate::probing::lemma_live_update;
use crate::probing::live;
use crate::probing::Cell;
use crate::probing::Cells;
use crate::rows::all_covered;
use crate::rows::bytes_in;
use crate::rows::lemma_bytes_insert;
use crate::rows::lemma_row_shape;
use crate::rows::name_ok;
use crate::rows::remaining;
use crate::rows::row_next;
use crate::rows::rows;
use crate::rows::rows_ok;
use crate::rows::MAX_NAME_LEN;
use crate::rows::Names;
use crate::rows::Record;
use crate::rows::Tally;
use vstd::prelude::*;

verus! {

/// A row's value and name are within what rows can have.
pub open spec fn fair(r: Record) -> bool {
    -999 <= r.value <= 999 && name_ok(r.name)
}

/// Rows of an input are fair.
pub proof fn lemma_rows_fair(d: Seq<u8>, pos: int, end: int, lim: int)
    requires
        rows_ok(d, pos, end, lim),
        end <= lim <= d.len(),
    ensures
        forall|i: int| 0 <= i < rows(d, pos, end).len() ==> fair(#[trigger] rows(d, pos, end)[i]),
    decreases remaining(pos, end),
{
    if pos < end {
        lemma_first_row(d, pos, end, lim);
        lemma_row_shape(d, pos, lim);
        lemma_rows_fair(d, row_next(d, pos), end, lim);
        let all = rows(d, pos, end);
        assert forall|i: int| 0 <= i < all.len() implies fair(#[trigger] all[i]) by {
            if i > 0 {
                assert(all.drop_first()[i - 1] == all[i]);
            }
        }
    }
}

/// How many slots are live.
pub open spec fn live_slots(cells: Cells) -> int {
    live(cells, cells.len() as int) as int
}

/// Every live slot has been counted at most `c` times, with a sum that its count allows.
pub open spec fn lean(cells: Cells, c: int) -> bool {
    forall|i: int|
        0 <= i < cells.len() && (#[trigger] cells[i]) is Some ==> lean_cell(cells[i]->0, c)
}

pub open spec fn lean_cell(cell: Cell, c: int) -> bool {
    &&& cell.stats.count <= c
    &&& -999 * cell.stats.count <= cell.stats.sum <= 999 * cell.stats.count
}

/// A probe that starts at a slot ends at one.
proof fn lemma_landing_range(
    cells: Cells,
    start: int,
    ok: spec_fn(Option<Cell>) -> bool,
    k: int,
)
    requires
        0 <= start < cells.len(),
        0 <= k <= cells.len(),
    ensures
        0 <= landing_from(cells, start, ok, k) < cells.len(),
    decreases cells.len() - k,
{
    if k < cells.len() && !ok(cells[along(start, k, cells.len() as int)]) {
        lemma_landing_range(cells, start, ok, k + 1);
    }
}

/// There are no more names than live slots.
proof fn lemma_held_few(cells: Cells, n: int)
    requires
        0 <= n <= cells.len(),
    ensures
        held(cells, n).dom().finite(),
        held(cells, n).len() <= live(cells, n),
    decreases n,
{
    if n > 0 {
        lemma_held_few(cells, n - 1);
        match cells[n - 1] {
            Some(c) => {
                assert(held(cells, n).dom() =~= held(cells, n - 1).dom().insert(c.name));
            },
            None => {},
        }
    }
}

/// A row makes at most one more slot live, and counts one of them once more.
proof fn lemma_lean_landed(cells: Cells, at: int, r: Record, hash: u64, c: int)
    requires
        lean(cells, c),
        0 <= at < cells.len(),
        fair(r),
        c >= 0,
    ensures
        lean(landed(cells, at, r.name, hash, r.value), c + 1),
        live_slots(landed(cells, at, r.name, hash, r.value)) <= live_slots(cells) + 1,
{
    let after = landed(cells, at, r.name, hash, r.value);
    lemma_live_update(cells, at, after[at], cells.len() as int);
    assert forall|i: int| 0 <= i < after.len() && (#[trigger] after[i]) is Some implies lean_cell(
        after[i]->0,
        c + 1,
    ) by {
        if cells[i] is Some {
            assert(lean_cell(cells[i]->0, c));
        }
    }
}

/// A mode that probes the offset-keyed table by length has room for as many rows as there are
/// slots to spare and counts left.
pub proof fn lemma_shelves_run(s: Count<Shelves>, rows: Seq<Record>, c: int)
    requires
        lean(s.inner.cells, c),
        homely(s.inner.cells, s.inner.home),
        c >= 0,
        c + rows.len() <= u32::MAX,
        live_slots(s.inner.cells) + rows.len() < s.inner.cells.len(),
        s.n + rows.len() <= u64::MAX,
        forall|i: int| 0 <= i < rows.len() ==> fair(#[trigger] rows[i]),
    ensures
        accepts_all::<Counted<Nocmp>>(s, rows),
    decreases rows.len(),
{
    if rows.len() > 0 {
        let r = rows[0];
        assert(fair(r));
        lemma_shelves_step(s.inner, r, c);
        let next = Counted::<Nocmp>::next(s, r);
        assert forall|i: int| 0 <= i < rows.drop_first().len() implies fair(
            #[trigger] rows.drop_first()[i],
        ) by {
            assert(fair(rows[i + 1]));
        }
        lemma_shelves_run(next, rows.drop_first(), c + 1);
    }
}

proof fn lemma_shelves_step(s: Shelves, r: Record, c: int)
    requires
        lean(s.cells, c),
        homely(s.cells, s.home),
        0 <= c < u32::MAX,
        live_slots(s.cells) + 1 < s.cells.len(),
        fair(r),
    ensures
        shelves_accept(s, r),
        lean(shelves_after(s, r).cells, c + 1),
        homely(shelves_after(s, r).cells, shelves_after(s, r).home),
        shelves_after(s, r).cells.len() == s.cells.len(),
        live_slots(shelves_after(s, r).cells) <= live_slots(s.cells) + 1,
{
    let start = (s.home)(crate::swar::name_hash(r.name));
    let at = shelf_at(s, r);
    lemma_landing_range(s.cells, start, is_len(r.name.len()), 0);
    lemma_held_few(s.cells, s.cells.len() as int);
    lemma_lean_landed(s.cells, at, r, crate::swar::name_hash(r.name), c);
    if s.cells[at] is Some {
        assert(lean_cell(s.cells[at]->0, c));
    }
}

/// Slots of an inline-key table that can be probed by length.
pub open spec fn unkeyed_lean(s: Unkeyed, c: int) -> bool {
    &&& lean(s.cells, c)
    &&& 1 <= s.shift < 64
    &&& 2 <= s.cells.len() == 1u64 << (64 - s.shift)
}

/// Growing moves slots and changes none.
proof fn lemma_reslotted(cells: Cells, cap: nat, home: spec_fn(u64) -> int, n: int, c: int)
    requires
        lean(cells, c),
        0 <= n <= cells.len(),
        forall|h: u64| 0 <= #[trigger] home(h) < cap,
    ensures
        reslotted(cells, cap, home, n).len() == cap,
        lean(reslotted(cells, cap, home, n), c),
        live_slots(reslotted(cells, cap, home, n)) <= live(cells, n),
    decreases n,
{
    let after = reslotted(cells, cap, home, n);
    if n <= 0 {
        lemma_blank(after, cap as int);
    } else {
        lemma_reslotted(cells, cap, home, n - 1, c);
        let before = reslotted(cells, cap, home, n - 1);
        match cells[n - 1] {
            Some(cell) => {
                let at = landing(before, home(cell.hash), is_free());
                lemma_landing_range(before, home(cell.hash), is_free(), 0);
                lemma_live_update(before, at, Some(cell), cap as int);
                assert(lean_cell(cells[n - 1]->0, c));
            },
            None => {},
        }
    }
}

proof fn lemma_unkeyed_step(s: Unkeyed, r: Record, c: int)
    requires
        unkeyed_lean(s, c),
        0 <= c < u32::MAX,
        live_slots(s.cells) < MAX_ENTRIES,
        s.arena <= u32::MAX,
        fair(r),
    ensures
        unkeyed_accepts(s, r),
        unkeyed_lean(unkeyed_after(s, r), c + 1),
        live_slots(unkeyed_after(s, r).cells) <= live_slots(s.cells) + 1,
        unkeyed_after(s, r).arena <= s.arena + 100,
{
    let hash = crate::swar::raw_hash(r.name);
    let at = unkeyed_at(s, r);
    lemma_slot_below(hash, s.shift);
    lemma_landing_range(s.cells, slot_of(s.shift)(hash), is_len(r.name.len()), 0);
    lemma_held_few(s.cells, s.cells.len() as int);
    lemma_lean_landed(s.cells, at, r, hash, c);
    if s.cells[at] is Some {
        assert(lean_cell(s.cells[at]->0, c));
    } else if overfull(s.cells) {
        let after = landed(s.cells, at, r.name, hash, r.value);
        let shift = (s.shift - 1) as u32;
        lemma_shift_down(s.shift);
        assert forall|h: u64| 0 <= #[trigger] slot_of(shift)(h) < 2 * after.len() by {
            lemma_slot_below(h, shift);
        }
        lemma_reslotted(after, 2 * after.len(), slot_of(shift), after.len() as int, c + 1);
    }
}

/// A mode that probes the inline-key table by length has room for as many rows as there are
/// names, counts and bytes of names left.
pub proof fn lemma_unkeyed_run(s: Count<Unkeyed>, rows: Seq<Record>, c: int)
    requires
        unkeyed_lean(s.inner, c),
        c >= 0,
        c + rows.len() <= u32::MAX,
        live_slots(s.inner.cells) + rows.len() <= MAX_ENTRIES,
        s.inner.arena + 100 * rows.len() <= u32::MAX,
        s.n + rows.len() <= u64::MAX,
        forall|i: int| 0 <= i < rows.len() ==> fair(#[trigger] rows[i]),
    ensures
        accepts_all::<Counted<PairNokey>>(s, rows),
    decreases rows.len(),
{
    if rows.len() > 0 {
        let r = rows[0];
        assert(fair(r));
        lemma_unkeyed_step(s.inner, r, c);
        let next = Counted::<PairNokey>::next(s, r);
        assert forall|i: int| 0 <= i < rows.drop_first().len() implies fair(
            #[trigger] rows.drop_first()[i],
        ) by {
            assert(fair(rows[i + 1]));
        }
        lemma_unkeyed_run(next, rows.drop_first(), c + 1);
    }
}

/// A mode that keeps only first measurements has room for as many rows as there are names left.
pub proof fn lemma_met_run(s: Count<Tally>, rows: Seq<Record>)
    requires
        s.inner.dom().finite(),
        s.inner.len() + rows.len() <= MAX_ENTRIES,
        bytes_in(s.inner.dom()) + MAX_NAME_LEN * rows.len() <= u32::MAX,
        s.n + rows.len() <= u64::MAX,
        all_covered(rows, Names::Keyed),
    ensures
        accepts_all::<Counted<PairNostats>>(s, rows),
    decreases rows.len(),
{
    if rows.len() > 0 {
        let m = met(s.inner, rows[0]);
        let rest = rows.drop_first();
        assert(m.dom() =~= s.inner.dom().insert(rows[0].name));
        lemma_bytes_insert(s.inner.dom(), rows[0].name);
        assert(Names::Keyed.cover(rows[0].name));
        assert forall|i: int| 0 <= i < rest.len() implies Names::Keyed.cover(
            (#[trigger] rest[i]).name,
        ) by {
            assert(Names::Keyed.cover(rows[i + 1].name));
        }
        lemma_met_run(Counted::<PairNostats>::next(s, rows[0]), rest);
    }
}

} // verus!
