//! What the tables do with their slots, in terms of where a slot is and what it has.

use crate::hot::modes::Mode;
use crate::hot::modes::State;
use crate::inline_table::lemma_shape;
use crate::inline_table::lemma_shift_down;
use crate::inline_table::lemma_slot_below;
use crate::inline_table::reslotted;
use crate::inline_table::slot_of;
use crate::inline_table::InlineTable;
use crate::output::Stats;
use crate::probing::compact;
use crate::probing::distinct;
use crate::probing::held;
use crate::probing::is_free;
use crate::probing::is_len;
use crate::probing::landed;
use crate::probing::landing;
use crate::probing::law_probe_ends_at_the_first_that_will_do;
use crate::probing::lemma_blank;
use crate::probing::lemma_compact;
use crate::probing::lemma_compact_covers;
use crate::probing::lemma_compact_distinct;
use crate::probing::lemma_live_update;
use crate::probing::lemma_roomy;
use crate::probing::live;
use crate::probing::Cell;
use crate::probing::Cells;
use crate::rows::Tally;
use crate::table::lemma_wf;
use crate::table::Table;
use vstd::prelude::*;

verus! {

/// A list has every name of a tally, once, with what the tally has for it, and nothing else.
pub open spec fn lists(v: Seq<(&[u8], Stats)>, m: Tally) -> bool {
    &&& v.len() == m.len()
    &&& forall|i: int|
        #![trigger v[i]]
        0 <= i < v.len() ==> m.contains_key(v[i].0@) && m[v[i].0@] == v[i].1@
    &&& forall|i: int, j: int|
        #![trigger v[i], v[j]]
        0 <= i < j < v.len() ==> v[i].0@ != v[j].0@
    &&& forall|name: Seq<u8>| #[trigger]
        m.contains_key(name) ==> exists|i: int| 0 <= i < v.len() && (#[trigger] v[i]).0@ == name
}

/// Walking a table gives its stations, each once, with its statistics.
pub proof fn law_walking_a_table_gives_its_stations(
    t: &InlineTable,
    v: Vec<(&[u8], Stats)>,
    offsets: &Table,
    data: &[u8],
    w: Vec<(&[u8], Stats)>,
)
    ensures
        t.shape_ok() && call_ensures(InlineTable::iter, (t,), v) ==> lists(v@, t@),
        offsets.wf(data@) && call_ensures(Table::iter, (offsets, data), w) ==> lists(
            w@,
            offsets.tally(data@),
        ),
{
    if t.shape_ok() && call_ensures(InlineTable::iter, (t,), v) {
        lemma_shape(*t);
        lemma_walk(v@, t.cells(), t@);
    }
    if offsets.wf(data@) && call_ensures(Table::iter, (offsets, data), w) {
        lemma_wf(*offsets, data@);
        lemma_walk(w@, offsets.cells(data@), offsets.tally(data@));
    }
}

proof fn lemma_walk(v: Seq<(&[u8], Stats)>, cells: Cells, m: Tally)
    requires
        distinct(cells),
        m == held(cells, cells.len() as int),
        m.len() == live(cells, cells.len() as int),
        v.len() == compact(cells, cells.len() as int).len(),
        forall|i: int|
            #![trigger v[i]]
            0 <= i < v.len() ==> {
                let c = compact(cells, cells.len() as int)[i];
                v[i].0@ == c.name && v[i].1@ == c.stats
            },
    ensures
        lists(v, m),
{
    let n = cells.len() as int;
    let list = compact(cells, n);
    lemma_compact(cells, n);
    lemma_compact_distinct(cells, n);
    assert forall|i: int| #![trigger v[i]] 0 <= i < v.len() implies m.contains_key(v[i].0@)
        && m[v[i].0@] == v[i].1@ by {
        assert(m.contains_key(list[i].name));
    }
    assert forall|i: int, j: int|
        #![trigger v[i], v[j]]
        0 <= i < j < v.len() implies v[i].0@ != v[j].0@ by {
        assert(list[i].name != list[j].name);
    }
    assert forall|name: Seq<u8>| #[trigger] m.contains_key(name) implies exists|i: int|
        0 <= i < v.len() && (#[trigger] v[i]).0@ == name by {
        lemma_compact_covers(cells, n, name);
        let i = choose|i: int| 0 <= i < list.len() && (#[trigger] list[i]).name == name;
        assert(v[i].0@ == name);
    }
}

/// From `start` on and round the end, slot `at` comes no later than slot `i`.
pub open spec fn no_later(start: int, at: int, i: int) -> bool {
    if start <= i {
        start <= at <= i
    } else {
        at >= start || at <= i
    }
}

/// Slot `at` is free or has a name of `len` bytes, and from `start` on none before it is.
pub open spec fn first_of_length(cells: Cells, start: int, len: int, at: int) -> bool {
    &&& 0 <= at < cells.len()
    &&& cells[at] is None || cells[at]->0.name.len() == len
    &&& forall|i: int|
        0 <= i < cells.len() && (#[trigger] cells[i] is None || cells[i]->0.name.len() == len)
            ==> no_later(start, at, i)
}

proof fn lemma_first_of_length(cells: Cells, start: int, len: nat)
    requires
        0 <= start < cells.len(),
        live(cells, cells.len() as int) < cells.len(),
    ensures
        first_of_length(cells, start, len as int, landing(cells, start, is_len(len))),
{
    lemma_roomy(cells);
    let f = choose|f: int| 0 <= f < cells.len() && #[trigger] cells[f] is None;
    law_probe_ends_at_the_first_that_will_do(cells, start, is_len(len), f);
    assert forall|i: int|
        0 <= i < cells.len() && (#[trigger] cells[i] is None || cells[i]->0.name.len()
            == len) implies no_later(start, landing(cells, start, is_len(len)), i) by {
        law_probe_ends_at_the_first_that_will_do(cells, start, is_len(len), i);
    }
}

/// What a slot has, where it has anything.
pub open spec fn reads(cells: Cells, at: int, r: Option<Stats>) -> bool {
    match cells[at] {
        Some(c) => r is Some && r->0@ == c.stats,
        None => r is None,
    }
}

/// A match on length alone is what the first slot with a name of that length has, if it comes
/// before a free one.
pub proof fn law_length_match_is_the_first_of_the_length(
    t: &InlineTable,
    r: Option<Stats>,
    offsets: &Table,
    data: &[u8],
    s: Option<Stats>,
    len: usize,
    hash: u64,
)
    ensures
        t.shape_ok() && call_ensures(InlineTable::length_match, (t, len, hash), r) ==> exists|
            at: int,
        |
            #[trigger] first_of_length(
                t.cells(),
                (hash >> t.slot_shift()) as int,
                len as int,
                at,
            ) && reads(t.cells(), at, r),
        offsets.wf(data@) && call_ensures(Table::length_match, (offsets, data, len, hash), s)
            ==> exists|at: int|
            #[trigger] first_of_length(
                offsets.cells(data@),
                (offsets.home())(hash),
                len as int,
                at,
            ) && reads(offsets.cells(data@), at, s),
{
    if t.shape_ok() && call_ensures(InlineTable::length_match, (t, len, hash), r) {
        lemma_shape(*t);
        lemma_slot_below(hash, t.slot_shift());
        let start = (hash >> t.slot_shift()) as int;
        lemma_first_of_length(t.cells(), start, len as nat);
        assert(reads(t.cells(), landing(t.cells(), start, is_len(len as nat)), r));
    }
    if offsets.wf(data@) && call_ensures(Table::length_match, (offsets, data, len, hash), s) {
        lemma_wf(*offsets, data@);
        let cells = offsets.cells(data@);
        let start = (offsets.home())(hash);
        offsets.lemma_home(data@, hash);
        lemma_first_of_length(cells, start, len as nat);
        assert(reads(cells, landing(cells, start, is_len(len as nat)), s));
    }
}

/// A slot after a measurement: a free one is its name's now, and a live one keeps its name and has
/// the measurement added.
pub open spec fn measured(was: Option<Cell>, now: Option<Cell>, name: Seq<u8>, value: int) -> bool {
    &&& now is Some
    &&& match was {
        Some(c) => {
            &&& now->0.name == c.name
            &&& now->0.stats.sum == c.stats.sum + value
            &&& now->0.stats.count == c.stats.count + 1
            &&& now->0.stats.min == if value < c.stats.min {
                value
            } else {
                c.stats.min
            }
            &&& now->0.stats.max == if value > c.stats.max {
                value
            } else {
                c.stats.max
            }
        },
        None => {
            &&& now->0.name == name
            &&& now->0.stats.min == value && now->0.stats.max == value
            &&& now->0.stats.sum == value && now->0.stats.count == 1
        },
    }
}

/// A measurement went into slot `at`, and no other slot changed.
pub open spec fn measured_in(was: Cells, now: Cells, at: int, name: Seq<u8>, value: int) -> bool {
    &&& 0 <= at < was.len() == now.len()
    &&& measured(was[at], now[at], name, value)
    &&& forall|i: int| 0 <= i < was.len() && i != at ==> #[trigger] now[i] == was[i]
}

/// One of the first `n` slots has `c`.
pub open spec fn in_slots(cells: Cells, n: int, c: Cell) -> bool {
    exists|i: int| 0 <= i < n && #[trigger] cells[i] == Some(c)
}

/// Moving slots to a larger table loses none, makes none up and changes none.
pub proof fn law_growing_keeps_every_slot(
    cells: Cells,
    cap: nat,
    home: spec_fn(u64) -> int,
    n: int,
    c: Cell,
)
    requires
        0 <= n <= cells.len(),
        live(cells, n) < cap,
        forall|h: u64| 0 <= #[trigger] home(h) < cap,
    ensures
        reslotted(cells, cap, home, n).len() == cap,
        live(reslotted(cells, cap, home, n), cap as int) == live(cells, n),
        in_slots(reslotted(cells, cap, home, n), cap as int, c) <==> in_slots(cells, n, c),
    decreases n,
{
    let after = reslotted(cells, cap, home, n);
    if n <= 0 {
        lemma_blank(after, cap as int);
    } else {
        law_growing_keeps_every_slot(cells, cap, home, n - 1, c);
        let before = reslotted(cells, cap, home, n - 1);
        if cells[n - 1] is Some {
            let cell = cells[n - 1]->0;
            let start = home(cell.hash);
            lemma_roomy(before);
            let f = choose|f: int| 0 <= f < before.len() && #[trigger] before[f] is None;
            law_probe_ends_at_the_first_that_will_do(before, start, is_free(), f);
            let at = landing(before, start, is_free());
            assert(before[at] is None);
            lemma_live_update(before, at, Some(cell), cap as int);
            lemma_one_more(before, after, at, cell, cap as int, c);
        }
        lemma_first_slots(cells, n, c);
    }
}

proof fn lemma_one_more(before: Cells, after: Cells, at: int, cell: Cell, cap: int, c: Cell)
    requires
        0 <= at < before.len() == cap,
        before[at] is None,
        after == before.update(at, Some(cell)),
    ensures
        in_slots(after, cap, c) <==> in_slots(before, cap, c) || c == cell,
{
    if in_slots(before, cap, c) {
        let i = choose|i: int| 0 <= i < cap && #[trigger] before[i] == Some(c);
        assert(after[i] == Some(c));
    }
    if c == cell {
        assert(after[at] == Some(c));
    }
    if in_slots(after, cap, c) && c != cell {
        let i = choose|i: int| 0 <= i < cap && #[trigger] after[i] == Some(c);
        assert(before[i] == Some(c));
    }
}

proof fn lemma_first_slots(cells: Cells, n: int, c: Cell)
    requires
        0 < n <= cells.len(),
    ensures
        in_slots(cells, n, c) <==> in_slots(cells, n - 1, c) || cells[n - 1] == Some(c),
{
    if in_slots(cells, n - 1, c) {
        let i = choose|i: int| 0 <= i < n - 1 && #[trigger] cells[i] == Some(c);
        assert(0 <= i < n && cells[i] == Some(c));
    }
}

/// A measurement that goes by the length of its name went into the first slot that is free or has
/// a name of that length.
pub open spec fn went_by_length(
    was: Cells,
    now: Cells,
    start: int,
    name: Seq<u8>,
    value: int,
) -> bool {
    exists|at: int| #[trigger]
        first_of_length(was, start, name.len() as int, at) && measured_in(was, now, at, name, value)
}

/// An upsert that compares lengths alone changes the first slot that will do and no other, in a
/// table that has no need to grow.
pub proof fn law_lengths_alone_pick_the_slot(
    data: &[u8],
    off: usize,
    len: usize,
    hash: u64,
    value: i16,
)
    requires
        off + len <= data@.len(),
    ensures
        forall|t: &mut Table|
            (*t).wf(data@) && #[trigger] call_ensures(
                Table::upsert_no_key_compare,
                (t, data, off, len, hash, value),
                (),
            ) ==> went_by_length(
                (*t).cells(data@),
                (*final(t)).cells(data@),
                ((*t).home())(hash),
                data@.subrange(off as int, off + len),
                value as int,
            ),
        forall|t: &mut InlineTable|
            (*t).shape_ok() && 2 * (*t)@.len() + 2 <= (*t).cells().len() && #[trigger] call_ensures(
                InlineTable::upsert_no_key,
                (t, data, off, len, hash, value),
                (),
            ) ==> went_by_length(
                (*t).cells(),
                (*final(t)).cells(),
                (hash >> (*t).slot_shift()) as int,
                data@.subrange(off as int, off + len),
                value as int,
            ),
{
    let name = data@.subrange(off as int, off + len);
    assert(name.len() == len);
    assert forall|t: &mut Table|
        (*t).wf(data@) && #[trigger] call_ensures(
            Table::upsert_no_key_compare,
            (t, data, off, len, hash, value),
            (),
        ) implies went_by_length(
        (*t).cells(data@),
        (*final(t)).cells(data@),
        ((*t).home())(hash),
        name,
        value as int,
    ) by {
        let cells = (*t).cells(data@);
        let start = ((*t).home())(hash);
        lemma_wf(*t, data@);
        (*t).lemma_home(data@, hash);
        lemma_first_of_length(cells, start, len as nat);
        let at = landing(cells, start, is_len(len as nat));
        assert(first_of_length(cells, start, name.len() as int, at));
        assert(measured_in(cells, (*final(t)).cells(data@), at, name, value as int));
    }
    assert forall|t: &mut InlineTable|
        (*t).shape_ok() && 2 * (*t)@.len() + 2 <= (*t).cells().len() && #[trigger] call_ensures(
            InlineTable::upsert_no_key,
            (t, data, off, len, hash, value),
            (),
        ) implies went_by_length(
        (*t).cells(),
        (*final(t)).cells(),
        (hash >> (*t).slot_shift()) as int,
        name,
        value as int,
    ) by {
        let cells = (*t).cells();
        let start = (hash >> (*t).slot_shift()) as int;
        lemma_shape(*t);
        lemma_slot_below(hash, (*t).slot_shift());
        lemma_first_of_length(cells, start, len as nat);
        let at = landing(cells, start, is_len(len as nat));
        assert(first_of_length(cells, start, name.len() as int, at));
        assert(measured_in(cells, (*final(t)).cells(), at, name, value as int));
    }
}

/// A measurement that goes by length into a table with as many live slots as it can have: one for
/// a live slot changes that slot alone. One for a free slot takes it, and then the slots are twice
/// as many and have what they had.
pub open spec fn went_into_a_full_table(
    was: Cells,
    now: Cells,
    mid: Cells,
    at: int,
    name: Seq<u8>,
    value: int,
    c: Cell,
) -> bool {
    &&& measured_in(was, mid, at, name, value)
    &&& was[at] is Some ==> now == mid
    &&& was[at] is None ==> now.len() == 2 * was.len() && (in_slots(now, now.len() as int, c)
        <==> in_slots(mid, mid.len() as int, c))
}

/// An upsert that compares lengths alone into a table whose next new name takes more than half of
/// its slots.
pub proof fn law_full_tables_double_for_a_new_name(
    data: &[u8],
    off: usize,
    len: usize,
    hash: u64,
    value: i16,
    c: Cell,
)
    requires
        off + len <= data@.len(),
    ensures
        forall|t: &mut InlineTable|
            (*t).shape_ok() && 2 * (*t)@.len() + 2 > (*t).cells().len() && 2 * (*t).cells().len()
                <= usize::MAX && #[trigger] call_ensures(
                InlineTable::upsert_no_key,
                (t, data, off, len, hash, value),
                (),
            ) ==> exists|at: int, mid: Cells|
                first_of_length(
                    (*t).cells(),
                    (hash >> (*t).slot_shift()) as int,
                    len as int,
                    at,
                ) && #[trigger] went_into_a_full_table(
                    (*t).cells(),
                    (*final(t)).cells(),
                    mid,
                    at,
                    data@.subrange(off as int, off + len),
                    value as int,
                    c,
                ),
{
    let name = data@.subrange(off as int, off + len);
    assert forall|t: &mut InlineTable|
        (*t).shape_ok() && 2 * (*t)@.len() + 2 > (*t).cells().len() && 2 * (*t).cells().len()
            <= usize::MAX && #[trigger] call_ensures(
            InlineTable::upsert_no_key,
            (t, data, off, len, hash, value),
            (),
        ) implies exists|at: int, mid: Cells|
        first_of_length((*t).cells(), (hash >> (*t).slot_shift()) as int, len as int, at)
            && #[trigger] went_into_a_full_table(
            (*t).cells(),
            (*final(t)).cells(),
            mid,
            at,
            name,
            value as int,
            c,
        ) by {
        let cells = (*t).cells();
        let shift = (*t).slot_shift();
        let start = (hash >> shift) as int;
        let n = cells.len() as int;
        lemma_shape(*t);
        lemma_slot_below(hash, shift);
        lemma_first_of_length(cells, start, len as nat);
        let at = landing(cells, start, is_len(len as nat));
        let mid = landed(cells, at, name, hash, value as int);
        assert(measured_in(cells, mid, at, name, value as int));
        if cells[at] is None {
            let down = (shift - 1) as u32;
            lemma_shift_down(shift);
            assert forall|h: u64| 0 <= #[trigger] slot_of(down)(h) < 2 * mid.len() by {
                lemma_slot_below(h, down);
            }
            assert(mid =~= cells.update(at, mid[at]));
            lemma_live_update(cells, at, mid[at], n);
            law_growing_keeps_every_slot(mid, 2 * mid.len(), slot_of(down), n, c);
        }
        assert(went_into_a_full_table(
            cells,
            (*final(t)).cells(),
            mid,
            at,
            name,
            value as int,
            c,
        ));
    }
}

/// A mode is keyed by offsets if its scratch has tables of offsets.
pub proof fn law_offset_keys_go_with_tables_of_offsets(mode: Mode, bits: u32, st: State, r: bool)
    requires
        call_ensures(State::new, (mode, bits), st),
        call_ensures(Mode::offset_keyed, (mode,), r),
    ensures
        r <==> st is Offsets || st is Split,
        r <==> mode is Table || mode is Split || mode is NoCompare,
{
}

} // verus!
