//! Feeding rows to the tables: what a table of stations is, and the engines that fill one.

use crate::MAX_LINE_LEN;
use crate::MAX_STATIONS;
use crate::bytes::lemma_first_at;
use crate::bytes::lemma_first_at_is;
use crate::bytes::SEMICOLON;
use crate::engine::whole_line;
use crate::engine::whole_row;
use crate::engine::Commuting;
use crate::engine::Engine;
use crate::engine::Step;
use crate::inline_table::lemma_shape;
use crate::inline_table::InlineTable;
use crate::inline_table::KEY_SLACK;
use crate::inline_table::MAX_ENTRIES;
use crate::keys::nul_free;
use crate::parse::parse_temp_branchless;
use crate::parse::temp_ok;
use crate::parse::temp_value;
use crate::parse::temp_width;
use crate::rows::absorb;
use crate::rows::all_covered;
use crate::rows::bytes_in;
use crate::rows::law_absorb_any_order;
use crate::rows::lemma_absorb_bounds;
use crate::rows::lemma_absorb_plain;
use crate::rows::lemma_absorbed_names;
use crate::rows::lemma_bytes_bound;
use crate::rows::lemma_bytes_insert;
use crate::rows::lemma_bytes_subset;
use crate::rows::lemma_row_shape;
use crate::rows::modest;
use crate::rows::name_ok;
use crate::rows::plain_names;
use crate::rows::record_at;
use crate::rows::row_next;
use crate::rows::row_stop;
use crate::rows::tally;
use crate::rows::within;
use crate::rows::MAX_NAME_LEN;
use crate::rows::Names;
use crate::rows::Record;
use crate::rows::Tally;
use crate::swar::find_semi_and_hash_flat_raw;
use crate::swar::flat_readable;
use crate::swar::keyed;
use crate::swar::loop_readable;
use crate::swar::name_at;
use crate::swar::name_hash;
use crate::swar::raw_hash;
use crate::swar::semi_at;
use crate::swar::FLAT_SLACK;
use crate::swar::SLACK;
use crate::table::Table;
use vstd::prelude::*;

verus! {

/// Slack past a row that the wide paths may touch: the fused scan overshoots the `;`, the
/// parser loads 8 bytes, and the inline probe reads 32 from the name start.
pub const TAIL_GUARD: usize = 123;

/// The slack of the paths that scan in a loop rather than over a fixed window.
pub const LOOP_GUARD: usize = 115;

/// Bytes to read past a chunk, so that the line straddling its end can be finished locally.
pub const OVERLAP: usize = 107;

/// The guards are what the scans' slacks add up to.
pub proof fn law_guards_cover_the_scans()
    ensures
        TAIL_GUARD == MAX_LINE_LEN + FLAT_SLACK,
        LOOP_GUARD == MAX_LINE_LEN + SLACK,
        OVERLAP == MAX_LINE_LEN,
        TAIL_GUARD >= KEY_SLACK,
        LOOP_GUARD >= KEY_SLACK,
        TAIL_GUARD >= crate::block::BLOCK,
{
}

/// A tally that a table has room for, whatever the order in which its rows come: names without a
/// NUL that 32 bits can address, and every station counted in 32 bits.
pub open spec fn fits(m: Tally) -> bool {
    &&& m.dom().finite()
    &&& plain_names(m)
    &&& bytes_in(m.dom()) <= u32::MAX
    &&& m.len() <= MAX_ENTRIES
    &&& counts_fit(m)
}

/// A table that holds `m` has room for one more row: for its measurement, if the station is known,
/// and else for its name, whose place among the names 32 bits can still address. A name with a NUL
/// has no room in a key.
pub open spec fn has_room(m: Tally, r: Record) -> bool {
    nul_free(r.name) && if m.contains_key(r.name) {
        m[r.name].count < u32::MAX
    } else {
        name_room(m)
    }
}

/// A table that holds `m` has room for one more name.
pub open spec fn name_room(m: Tally) -> bool {
    bytes_in(m.dom()) <= u32::MAX && m.len() < MAX_ENTRIES
}

/// Every station is counted in 32 bits.
pub open spec fn counts_fit(m: Tally) -> bool {
    forall|name: Seq<u8>| #[trigger] m.contains_key(name) ==> m[name].count <= u32::MAX
}

/// A table of stations: sound, every name held under its hash, sums within what their counts
/// allow, and an arena that holds each name once.
pub open spec fn stocked(t: InlineTable, hash: spec_fn(Seq<u8>) -> u64) -> bool {
    &&& t.wf()
    &&& modest(t@)
    &&& t.arena().len() == bytes_in(t@.dom())
    &&& forall|name: Seq<u8>| #[trigger] t.agrees(name, hash(name))
}

/// What reading the row at `pos` needs of the input around it.
pub proof fn lemma_readable(d: Seq<u8>, pos: int)
    requires
        whole_row(d, pos),
        pos + LOOP_GUARD <= d.len(),
    ensures
        loop_readable(d, pos),
        pos + TAIL_GUARD <= d.len() ==> flat_readable(d, pos),
        temp_ok(d, semi_at(d, pos) + 1),
        semi_at(d, pos) + 9 <= d.len(),
        pos + KEY_SLACK <= d.len(),
        pos < semi_at(d, pos) <= pos + 100,
        d.subrange(pos, pos + (semi_at(d, pos) - pos)) == name_at(d, pos),
        row_next(d, pos) == semi_at(d, pos) + 1 + temp_width(d, semi_at(d, pos) + 1) + 1,
        row_next(d, pos) <= pos + MAX_LINE_LEN,
        name_ok(name_at(d, pos)),
        -999 <= record_at(d, pos).value <= 999,
{
    lemma_row_shape(d, pos, row_stop(d, pos));
}

/// A row can go into a table that has room for the tally with it.
pub proof fn lemma_takes(t: InlineTable, hash: spec_fn(Seq<u8>) -> u64, r: Record, v: i16)
    requires
        stocked(t, hash),
        name_ok(r.name),
        v == r.value,
        -999 <= v <= 999,
        has_room(t@, r),
    ensures
        t.accepts(r.name, hash(r.name), v),
{
    lemma_shape(t);
    assert(t.agrees(r.name, hash(r.name)));
}

/// A table stays one of stations when a row has gone in.
pub proof fn lemma_stays_stocked(
    before: InlineTable,
    t: InlineTable,
    hash: spec_fn(Seq<u8>) -> u64,
    r: Record,
    v: i16,
)
    requires
        stocked(before, hash),
        name_ok(r.name),
        v == r.value,
        -999 <= v <= 999,
        t.upserted(before, r.name, hash(r.name), v),
    ensures
        stocked(t, hash),
        t@ == absorb(before@, r),
{
    lemma_shape(before);
    crate::rows::lemma_absorb_modest(before@, r);
    lemma_bytes_insert(before@.dom(), r.name);
    assert(absorb(before@, r).dom() =~= before@.dom().insert(r.name));
    assert forall|name: Seq<u8>| #[trigger] t.agrees(name, hash(name)) by {
        assert(before.agrees(name, hash(name)));
    }
}

/// What is no more than what fits, fits.
pub proof fn lemma_fits_less(a: Tally, b: Tally)
    requires
        within(a, b),
        fits(b),
    ensures
        fits(a),
{
    vstd::set_lib::lemma_len_subset(a.dom(), b.dom());
    lemma_bytes_subset(a.dom(), b.dom());
    assert forall|name: Seq<u8>| #[trigger] a.contains_key(name) implies a[name].count
        <= u32::MAX && nul_free(name) by {
        assert(b.contains_key(name));
    }
}

/// A smaller tally fits where a larger one does, and there is room for what makes it larger.
pub proof fn lemma_fits_before(m: Tally, r: Record)
    requires
        fits(absorb(m, r)),
    ensures
        fits(m),
        has_room(m, r),
{
    let n = absorb(m, r);
    assert(m.dom().subset_of(n.dom()));
    vstd::set_lib::lemma_len_subset(m.dom(), n.dom());
    lemma_bytes_subset(m.dom(), n.dom());
    assert(n.dom() =~= m.dom().insert(r.name));
    assert(n.contains_key(r.name));
    assert forall|name: Seq<u8>| #[trigger] m.contains_key(name) implies m[name].count
        <= u32::MAX && nul_free(name) by {
        assert(n.contains_key(name));
    }
}

/// A way of feeding one row to an inline-key table.
pub trait StationStep {
    /// The hash that names are held under.
    spec fn hash() -> spec_fn(Seq<u8>) -> u64;

    /// How many bytes from the start of a row a step may touch.
    spec fn reach() -> int;

    /// A step touches no more than the guard past the end.
    proof fn bounded()
        ensures
            0 <= Self::reach() <= TAIL_GUARD,
    ;

    /// Feeds the row at `pos`, and returns where the next one starts.
    fn feed(table: &mut InlineTable, data: &[u8], pos: usize) -> (next: usize)
        requires
            stocked(*old(table), Self::hash()),
            whole_row(data@, pos as int),
            pos + Self::reach() <= data@.len() < usize::MAX,
            has_room(old(table)@, record_at(data@, pos as int)),
        ensures
            stocked(*final(table), Self::hash()),
            final(table)@ == absorb(old(table)@, record_at(data@, pos as int)),
            next >= row_next(data@, pos as int),
            crate::engine::ends_in_newline(data@, pos as int) ==> next == row_next(
                data@,
                pos as int,
            ),
    ;
}

/// The engine that a [`StationStep`] makes.
pub struct Stations<R> {
    pub step: R,
}

impl<R: StationStep> Engine for Stations<R> {
    type Ctx = InlineTable;

    type S = Tally;

    open spec fn inv(ctx: InlineTable, d: Seq<u8>) -> bool {
        stocked(ctx, R::hash())
    }

    open spec fn state(ctx: InlineTable, d: Seq<u8>) -> Tally {
        ctx@
    }

    open spec fn next(s: Tally, r: Record) -> Tally {
        absorb(s, r)
    }

    open spec fn accepts(s: Tally, r: Record) -> bool {
        has_room(s, r)
    }

    open spec fn reach() -> int {
        R::reach()
    }
}

impl<R: StationStep> Step for Stations<R> {
    open spec fn names() -> Names {
        Names::Station
    }

    #[inline(always)]
    fn step(ctx: &mut InlineTable, data: &[u8], pos: usize) -> (next: usize) {
        R::feed(ctx, data, pos)
    }
}

impl<R: StationStep> Commuting for Stations<R> {
    open spec fn fits(s: Tally) -> bool {
        fits(s)
    }

    proof fn swap(s: Tally, a: Record, b: Record) {
        law_absorb_any_order(s, a, b);
    }

    proof fn room(s: Tally, r: Record) {
        lemma_fits_before(s, r);
    }
}

/// What an engine of stations makes of rows is their tally.
pub proof fn lemma_run_is_absorb<R: StationStep>(m: Tally, rows: Seq<Record>)
    ensures
        crate::engine::run_all::<Stations<R>>(m, rows) == crate::rows::absorb_all(m, rows),
    decreases rows.len(),
{
    if rows.len() > 0 {
        lemma_run_is_absorb::<R>(absorb(m, rows[0]), rows.drop_first());
    }
}

/// What an offset-keyed table has room for: its slots, all but one, and 32-bit counts.
pub struct Offsets {
    pub capacity: nat,
    pub tally: Tally,
}

pub open spec fn offsets_fit(s: Offsets) -> bool {
    &&& s.tally.dom().finite()
    &&& s.tally.len() < s.capacity
    &&& counts_fit(s.tally)
}

/// An offset-keyed table has room for one more row: for its measurement, if the station is known,
/// and else for its name.
pub open spec fn offsets_room(t: Table, d: Seq<u8>, r: Record) -> bool {
    let m = t.tally(d);
    if m.contains_key(r.name) {
        m[r.name].count < u32::MAX
    } else {
        m.len() + 1 < t.capacity()
    }
}

/// What is no more than what fits an offset-keyed table, fits it.
pub proof fn lemma_offsets_less(capacity: nat, a: Tally, b: Tally)
    requires
        within(a, b),
        offsets_fit(Offsets { capacity, tally: b }),
    ensures
        offsets_fit(Offsets { capacity, tally: a }),
{
    vstd::set_lib::lemma_len_subset(a.dom(), b.dom());
    assert forall|name: Seq<u8>| #[trigger] a.contains_key(name) implies a[name].count
        <= u32::MAX by {
        assert(b.contains_key(name));
    }
}

/// Input that keeps to the limits fits: [`MAX_STATIONS`] names without a NUL and as many rows as 32
/// bits count leave room in an inline-key table, and in an offset-keyed one with more slots than
/// there can be names.
pub proof fn law_limits_fit(rows: Seq<Record>)
    requires
        all_covered(rows, Names::Keyed),
        tally(rows).len() <= MAX_STATIONS,
        rows.len() <= u32::MAX,
    ensures
        fits(tally(rows)),
        forall|capacity: nat|
            capacity > MAX_STATIONS ==> #[trigger] offsets_fit(
                Offsets { capacity, tally: tally(rows) },
            ),
{
    let none: Tally = Map::empty();
    let m = tally(rows);
    lemma_absorb_plain(none, rows);
    lemma_absorb_bounds(none, rows, 0);
    assert forall|name: Seq<u8>| #[trigger] m.dom().contains(name) implies name.len()
        <= MAX_NAME_LEN by {
        assert(m.contains_key(name));
        lemma_absorbed_names(none, rows, name);
        let i = choose|i: int| 0 <= i < rows.len() && (#[trigger] rows[i]).name == name;
        assert(Names::Keyed.cover(rows[i].name));
    }
    lemma_bytes_bound(m.dom(), MAX_NAME_LEN as nat);
    assert(MAX_NAME_LEN * m.len() <= MAX_NAME_LEN * MAX_STATIONS) by (nonlinear_arith)
        requires
            m.len() <= MAX_STATIONS,
    ;
}

/// There is room for a row where what the table amounts to with it fits.
pub proof fn lemma_room_is_fit(t: Table, d: Seq<u8>, r: Record)
    requires
        t.wf(d),
    ensures
        offsets_room(t, d, r) == offsets_fit(offsets_after(offsets_of(t, d), r)),
{
    crate::table::lemma_wf(t, d);
    let m = t.tally(d);
    let n = absorb(m, r);
    assert(n.dom() =~= m.dom().insert(r.name));
    assert(n.contains_key(r.name));
    if offsets_room(t, d, r) {
        assert forall|name: Seq<u8>| #[trigger] n.contains_key(name) implies n[name].count
            <= u32::MAX by {
            if name != r.name {
                assert(m.contains_key(name));
            }
        }
    }
}

pub open spec fn offsets_after(s: Offsets, r: Record) -> Offsets {
    Offsets { capacity: s.capacity, tally: absorb(s.tally, r) }
}

/// An offset-keyed table of stations over the input `d`.
pub open spec fn shelved(t: Table, d: Seq<u8>, hash: spec_fn(Seq<u8>) -> u64) -> bool {
    &&& t.wf(d)
    &&& modest(t.tally(d))
    &&& forall|name: Seq<u8>| #[trigger] t.agrees(d, name, hash(name))
}

/// What an offset-keyed table amounts to.
pub open spec fn offsets_of(t: Table, d: Seq<u8>) -> Offsets {
    Offsets { capacity: t.capacity(), tally: t.tally(d) }
}

/// A row can go into an offset-keyed table that has room for the tally with it.
pub proof fn lemma_shelf_takes(
    t: Table,
    d: Seq<u8>,
    hash: spec_fn(Seq<u8>) -> u64,
    pos: usize,
    len: usize,
    v: i16,
)
    requires
        shelved(t, d, hash),
        pos + len <= d.len(),
        d.subrange(pos as int, pos + len) == name_at(d, pos as int),
        0 < len <= u32::MAX,
        v == record_at(d, pos as int).value,
        -999 <= v <= 999,
        offsets_fit(offsets_after(offsets_of(t, d), record_at(d, pos as int))),
    ensures
        t.accepts(d, pos, len, hash(name_at(d, pos as int)), v),
{
    let name = name_at(d, pos as int);
    let m = absorb(t.tally(d), record_at(d, pos as int));
    crate::table::lemma_wf(t, d);
    assert(m.contains_key(name));
    assert(t.agrees(d, name, hash(name)));
}

/// An offset-keyed table stays one of stations when a row has gone in.
pub proof fn lemma_stays_shelved(
    before: Table,
    t: Table,
    d: Seq<u8>,
    hash: spec_fn(Seq<u8>) -> u64,
    pos: usize,
    len: usize,
    v: i16,
)
    requires
        shelved(before, d, hash),
        pos + len <= d.len(),
        d.subrange(pos as int, pos + len) == name_at(d, pos as int),
        v == record_at(d, pos as int).value,
        -999 <= v <= 999,
        t.upserted(before, d, pos, len, hash(name_at(d, pos as int)), v),
    ensures
        shelved(t, d, hash),
        offsets_of(t, d) == offsets_after(offsets_of(before, d), record_at(d, pos as int)),
{
    crate::rows::lemma_absorb_modest(before.tally(d), record_at(d, pos as int));
    assert forall|name: Seq<u8>| #[trigger] t.agrees(d, name, hash(name)) by {
        assert(before.agrees(d, name, hash(name)));
    }
}

/// A way of feeding one row to an offset-keyed table.
pub trait OffsetStep {
    /// Which names the step can read.
    spec fn names() -> Names;

    /// The hash that names are held under.
    spec fn hash() -> spec_fn(Seq<u8>) -> u64;

    /// How many bytes from the start of a row a step may touch.
    spec fn reach() -> int;

    /// Feeds the row at `pos`, and returns where the next one starts.
    fn feed(table: &mut Table, data: &[u8], pos: usize) -> (next: usize)
        requires
            shelved(*old(table), data@, Self::hash()),
            whole_line(data@, pos as int, Self::names()),
            pos + Self::reach() <= data@.len() < usize::MAX,
            pos <= data@.len(),
            offsets_fit(
                offsets_after(offsets_of(*old(table), data@), record_at(data@, pos as int)),
            ),
        ensures
            shelved(*final(table), data@, Self::hash()),
            offsets_of(*final(table), data@) == offsets_after(
                offsets_of(*old(table), data@),
                record_at(data@, pos as int),
            ),
            next == row_next(data@, pos as int),
    ;
}

/// The engine that an [`OffsetStep`] makes.
pub struct Shelf<R> {
    pub step: R,
}

impl<R: OffsetStep> Engine for Shelf<R> {
    type Ctx = Table;

    type S = Offsets;

    open spec fn inv(ctx: Table, d: Seq<u8>) -> bool {
        shelved(ctx, d, R::hash())
    }

    open spec fn state(ctx: Table, d: Seq<u8>) -> Offsets {
        offsets_of(ctx, d)
    }

    open spec fn next(s: Offsets, r: Record) -> Offsets {
        offsets_after(s, r)
    }

    open spec fn accepts(s: Offsets, r: Record) -> bool {
        offsets_fit(offsets_after(s, r))
    }

    open spec fn reach() -> int {
        R::reach()
    }
}

impl<R: OffsetStep> Step for Shelf<R> {
    open spec fn names() -> Names {
        R::names()
    }

    #[inline(always)]
    fn step(ctx: &mut Table, data: &[u8], pos: usize) -> (next: usize) {
        R::feed(ctx, data, pos)
    }
}

impl<R: OffsetStep> Commuting for Shelf<R> {
    open spec fn fits(s: Offsets) -> bool {
        offsets_fit(s)
    }

    proof fn swap(s: Offsets, a: Record, b: Record) {
        law_absorb_any_order(s.tally, a, b);
    }

    proof fn room(s: Offsets, r: Record) {
        lemma_offsets_before(s, r);
    }
}

/// What an offset-keyed table has room for after a row, it has room for before.
pub proof fn lemma_offsets_before(s: Offsets, r: Record)
    requires
        offsets_fit(offsets_after(s, r)),
    ensures
        offsets_fit(s),
{
    let m = s.tally;
    let n = absorb(m, r);
    assert(m.dom().subset_of(n.dom()));
    vstd::set_lib::lemma_len_subset(m.dom(), n.dom());
    assert forall|name: Seq<u8>| #[trigger] m.contains_key(name) implies m[name].count
        <= u32::MAX by {
        assert(n.contains_key(name));
    }
}

/// What an engine over an offset-keyed table makes of rows is their tally.
pub proof fn lemma_run_is_offsets<R: OffsetStep>(s: Offsets, rows: Seq<Record>)
    ensures
        crate::engine::run_all::<Shelf<R>>(s, rows) == (Offsets {
            capacity: s.capacity,
            tally: crate::rows::absorb_all(s.tally, rows),
        }),
    decreases rows.len(),
{
    if rows.len() > 0 {
        lemma_run_is_offsets::<R>(offsets_after(s, rows[0]), rows.drop_first());
    }
}

/// A sixteen-byte window at a row's start tells of its name what scanning the row does.
pub proof fn lemma_window_keyed(d: Seq<u8>, pos: int, w: Seq<u8>)
    requires
        0 <= pos,
        pos + 16 <= d.len() <= usize::MAX,
        w == d.subrange(pos, pos + 16),
    ensures
        keyed(w, 0) is Some <==> keyed(d, pos) is Some,
        keyed(w, 0) is Some ==> {
            let (len, h, lo, hi) = keyed(w, 0)->0;
            &&& len == semi_at(d, pos) - pos
            &&& keyed(d, pos)->0 == (semi_at(d, pos) as usize, h, lo, hi)
        },
{
    lemma_first_at(d, SEMICOLON, pos);
    lemma_first_at(w, SEMICOLON, 0);
    let semi = semi_at(d, pos);
    if semi < pos + 16 {
        lemma_first_at_is(w, SEMICOLON, 0, semi - pos);
        assert(name_at(w, 0) =~= name_at(d, pos));
    } else {
        lemma_first_at_is(w, SEMICOLON, 0, 16);
    }
}

/// An eight-byte window holds the temperature that starts with it.
pub proof fn lemma_window_temp(d: Seq<u8>, p: int, w: Seq<u8>)
    requires
        temp_ok(d, p),
        p + 8 <= d.len(),
        w == d.subrange(p, p + 8),
    ensures
        temp_ok(w, 0),
        temp_value(w, 0) == temp_value(d, p),
        temp_width(w, 0) == temp_width(d, p),
{
    assert(forall|i: int| 0 <= i < 8 ==> #[trigger] w[i] == d[p + i]);
    assert(w[0] == d[p + 0] && w[1] == d[p + 1] && w[2] == d[p + 2] && w[3] == d[p + 3] && w[4]
        == d[p + 4]);
}

/// Names under their hash before its final avalanche.
pub open spec fn by_raw_hash() -> spec_fn(Seq<u8>) -> u64 {
    |name: Seq<u8>| raw_hash(name)
}

/// Names under their hash.
pub open spec fn by_name_hash() -> spec_fn(Seq<u8>) -> u64 {
    |name: Seq<u8>| name_hash(name)
}

/// A row is at hand for a table: it is whole, readable `reach` bytes on, and there is room.
pub open spec fn at_hand(t: InlineTable, d: Seq<u8>, pos: int, reach: int) -> bool {
    &&& whole_row(d, pos)
    &&& pos + reach <= d.len() < usize::MAX
    &&& has_room(t@, record_at(d, pos))
}

/// Puts a row that has been scanned and parsed into the table.
#[inline(always)]
pub(crate) fn put(
    table: &mut InlineTable,
    data: &[u8],
    pos: usize,
    semi: usize,
    hash: u64,
    value: i16,
    by: Ghost<spec_fn(Seq<u8>) -> u64>,
)
    requires
        stocked(*old(table), by@),
        at_hand(*old(table), data@, pos as int, LOOP_GUARD as int),
        semi == semi_at(data@, pos as int),
        hash == (by@)(name_at(data@, pos as int)),
        value == record_at(data@, pos as int).value,
    ensures
        stocked(*final(table), by@),
        final(table)@ == absorb(old(table)@, record_at(data@, pos as int)),
{
    let ghost r = record_at(data@, pos as int);
    proof {
        lemma_readable(data@, pos as int);
        lemma_takes(*table, by@, r, value);
    }
    let ghost before = *table;
    table.upsert(data, pos, semi - pos, hash, value);
    proof {
        lemma_stays_stocked(before, *table, by@, r, value);
    }
}

/// [`put`] for a row whose name the scan has handed over as two words.
#[inline(always)]
pub(crate) fn put_words(
    table: &mut InlineTable,
    data: &[u8],
    pos: usize,
    semi: usize,
    hash: u64,
    value: i16,
    klo: u64,
    khi: u64,
)
    requires
        stocked(*old(table), by_raw_hash()),
        at_hand(*old(table), data@, pos as int, LOOP_GUARD as int),
        keyed(data@, pos as int) == Some((semi, hash, klo, khi)),
        value == record_at(data@, pos as int).value,
    ensures
        stocked(*final(table), by_raw_hash()),
        final(table)@ == absorb(old(table)@, record_at(data@, pos as int)),
{
    let ghost r = record_at(data@, pos as int);
    proof {
        lemma_readable(data@, pos as int);
        lemma_takes(*table, by_raw_hash(), r, value);
    }
    let ghost before = *table;
    table.upsert_words(data, pos, semi - pos, hash, value, klo, khi);
    proof {
        lemma_stays_stocked(before, *table, by_raw_hash(), r, value);
    }
}

/// A row whose name runs past the scan's window, taken the long way.
#[inline(never)]
pub fn step_long(buf: &[u8], table: &mut InlineTable, pos: usize) -> (next: usize)
    requires
        stocked(*old(table), by_raw_hash()),
        at_hand(*old(table), buf@, pos as int, TAIL_GUARD as int),
    ensures
        stocked(*final(table), by_raw_hash()),
        final(table)@ == absorb(old(table)@, record_at(buf@, pos as int)),
        next == row_next(buf@, pos as int),
{
    proof {
        lemma_readable(buf@, pos as int);
    }
    let (semi, hash) = find_semi_and_hash_flat_raw(buf, pos);
    let (value, next) = parse_temp_branchless(buf, semi + 1);
    put(table, buf, pos, semi, hash, value, Ghost(by_raw_hash()));
    next
}

/// What room there is, in numbers: 32 bits count a station's measurements and address the bytes of
/// the names, and a name with a NUL has none.
pub proof fn law_room_in_numbers(m: Tally, r: Record)
    ensures
        has_room(m, r) <==> {
            &&& forall|i: int| 0 <= i < r.name.len() ==> #[trigger] r.name[i] != 0
            &&& m.contains_key(r.name) ==> m[r.name].count < 0xFFFF_FFFF
            &&& !m.contains_key(r.name) ==> bytes_in(m.dom()) <= 0xFFFF_FFFF && m.len()
                < usize::MAX / 4
        },
        counts_fit(m) <==> forall|name: Seq<u8>| #[trigger]
            m.contains_key(name) ==> m[name].count <= 0xFFFF_FFFF,
{
}

/// What room an offset-keyed table has: a slot to every name and one more, and 32 bits to every
/// count.
pub proof fn law_slots_in_numbers(t: Table, d: Seq<u8>, r: Record, m: Tally, capacity: nat)
    ensures
        offsets_room(t, d, r) <==> {
            &&& t.tally(d).contains_key(r.name) ==> t.tally(d)[r.name].count < 0xFFFF_FFFF
            &&& !t.tally(d).contains_key(r.name) ==> t.tally(d).len() + 1 < t.capacity()
        },
        offsets_fit(Offsets { capacity, tally: m }) <==> m.dom().finite() && m.len() < capacity
            && forall|name: Seq<u8>| #[trigger]
            m.contains_key(name) ==> m[name].count <= 0xFFFF_FFFF,
{
}

/// How many bytes names have: none for none, and its own for each one more.
pub proof fn law_names_have_their_bytes(names: Set<Seq<u8>>, name: Seq<u8>)
    requires
        names.finite(),
        !names.contains(name),
    ensures
        bytes_in(Set::empty()) == 0,
        bytes_in(names.insert(name)) == bytes_in(names) + name.len(),
{
    lemma_bytes_insert(names, name);
}

} // verus!
