//! Running a mode over rows that nobody has vouched for.

use crate::bytes::NEWLINE;
use crate::chunk::head;
use crate::chunk::law_streams_tile;
use crate::chunk::tail;
use crate::engine::accepts_all;
use crate::engine::lemma_first_line;
use crate::engine::lemma_run_concat;
use crate::engine::lemma_run_fits;
use crate::engine::lemma_split_pending;
use crate::engine::run_all;
use crate::engine::serial;
use crate::engine::Commuting;
use crate::engine::Engine;
use crate::feed::by_name_hash;
use crate::feed::by_raw_hash;
use crate::feed::has_room;
use crate::feed::lemma_readable;
use crate::feed::lemma_room_is_fit;
use crate::feed::offsets_fit;
use crate::feed::offsets_of;
use crate::feed::offsets_room;
use crate::feed::shelved;
use crate::feed::stocked;
use crate::feed::Offsets;
use crate::feed::TAIL_GUARD;
use crate::hot::count::law_counted_run;
use crate::hot::count::law_same_sink;
use crate::hot::count::lemma_sinks_concat;
use crate::hot::count::sinks;
use crate::hot::count::Count;
use crate::hot::count::Counted;
use crate::hot::count::Counter;
use crate::hot::count::Sunk;
use crate::hot::count::TakeStep;
use crate::hot::modes::can_run;
use crate::hot::modes::holds;
use crate::hot::modes::law_modes_share_sinks;
use crate::hot::modes::ran;
use crate::hot::modes::rows_inside;
use crate::hot::modes::rows_within;
use crate::hot::modes::run_chunk;
use crate::hot::modes::split_holds;
use crate::hot::modes::split_took;
use crate::hot::modes::takes;
use crate::hot::modes::Mode;
use crate::hot::modes::State;
use crate::hot::room::lean;
use crate::hot::room::lean_cell;
use crate::hot::room::lemma_met_run;
use crate::hot::room::lemma_rows_fair;
use crate::hot::room::lemma_shelves_run;
use crate::hot::room::lemma_unkeyed_run;
use crate::hot::room::live_slots;
use crate::hot::rows::full;
use crate::hot::rows::law_full_run;
use crate::hot::rows::law_inline_run;
use crate::hot::rows::met_room;
use crate::hot::rows::racked;
use crate::hot::rows::readable;
use crate::hot::rows::shelves_accept;
use crate::hot::rows::shelves_of;
use crate::hot::rows::unkeyed_accepts;
use crate::hot::rows::unkeyed_of;
use crate::hot::rows::unkeyed_ok;
use crate::hot::rows::FhashOnly;
use crate::hot::rows::Full;
use crate::hot::rows::FullFlat;
use crate::hot::rows::FullInline;
use crate::hot::rows::FullKeyed;
use crate::hot::rows::FullKeyedWin;
use crate::hot::rows::FullRaw;
use crate::hot::rows::HashOnly;
use crate::hot::rows::Inline;
use crate::hot::rows::InlineSink;
use crate::hot::rows::Nocmp;
use crate::hot::rows::PairNokey;
use crate::hot::rows::PairNostats;
use crate::hot::rows::PairRows;
use crate::hot::rows::PairTable;
use crate::hot::rows::ParseOnly;
use crate::hot::rows::Plain;
use crate::hot::rows::PlainSink;
use crate::hot::rows::RowFlat;
use crate::hot::rows::RowLen;
use crate::hot::rows::RowTable;
use crate::hot::split::stream_rows;
use crate::inline_table::lemma_plain;
use crate::inline_table::lemma_shape;
use crate::inline_table::InlineTable;
use crate::inline_table::MAX_ENTRIES;
use crate::intake::batch_end;
use crate::intake::count_in_table;
use crate::intake::most_in_offsets;
use crate::intake::most_in_table;
use crate::intake::offsets_admit;
use crate::intake::spare_rows;
use crate::intake::table_admits;
use crate::intake::BATCH;
use crate::intake::Outcome;
use crate::intake::SPARSE;
use crate::merge::lists;
use crate::output::Stats;
use crate::parse::parse_temp;
use crate::probing::compact;
use crate::probing::lemma_compact_slots;
use crate::probing::Cells;
use crate::rows::absorb;
use crate::rows::absorb_all;
use crate::rows::all_covered;
use crate::rows::bytes_in;
use crate::rows::check_row;
use crate::rows::check_rows;
use crate::rows::counted_to;
use crate::rows::law_joined_parts;
use crate::rows::lemma_absorb_bounds;
use crate::rows::lemma_absorb_concat;
use crate::rows::lemma_absorb_plain;
use crate::rows::lemma_line_shape;
use crate::rows::lemma_one_row;
use crate::rows::lemma_parted;
use crate::rows::lemma_row_shape;
use crate::rows::lemma_rows_any;
use crate::rows::lemma_rows_named;
use crate::rows::lemma_rows_split;
use crate::rows::record_at;
use crate::rows::row_next;
use crate::rows::row_stop;
use crate::rows::rows;
use crate::rows::rows_as;
use crate::rows::rows_ok;
use crate::rows::MAX_NAME_LEN;
use crate::rows::Names;
use crate::rows::Record;
use crate::rows::Tally;
use crate::schedule::joined_all;
use crate::swar::find_semi_and_hash_scalar;
use crate::swar::hash_len_raw;
use crate::swar::name_at;
use crate::swar::name_hash;
use crate::swar::semi_at;
use crate::table::lemma_wf;
use crate::table::Table;
use vstd::prelude::*;
use vstd::slice::slice_subrange;

verus! {

/// There is room for `n` more rows in a mode over the inline-key table.
pub open spec fn inline_spare(c: Counter<InlineTable>, n: int) -> bool {
    &&& c.n + n <= u64::MAX
    &&& c.inner@.len() + n <= MAX_ENTRIES
    &&& bytes_in(c.inner@.dom()) + MAX_NAME_LEN * n <= u32::MAX
    &&& counted_to(c.inner@, u32::MAX - n)
}

/// There is room for `n` more rows in an offset-keyed table.
pub open spec fn offsets_spare(t: Table, d: Seq<u8>, n: int) -> bool {
    &&& n <= u32::MAX
    &&& t.tally(d).len() + n < t.capacity()
    &&& counted_to(t.tally(d), u32::MAX - n)
}

/// There is room for `n` more rows in an offset-keyed table probed by length.
pub open spec fn shelves_spare(c: Counter<Table>, d: Seq<u8>, n: int) -> bool {
    &&& n <= u32::MAX
    &&& c.n + n <= u64::MAX
    &&& live_slots(c.inner.cells(d)) + n < c.inner.capacity()
    &&& lean(c.inner.cells(d), u32::MAX - n)
}

/// There is room for `n` more rows in an inline-key table probed by length.
pub open spec fn unkeyed_spare(c: Counter<InlineTable>, n: int) -> bool {
    &&& c.n + n <= u64::MAX
    &&& live_slots(c.inner.cells()) + n <= MAX_ENTRIES
    &&& c.inner.arena().len() + 100 * n <= u32::MAX
    &&& lean(c.inner.cells(), u32::MAX - n)
}

/// There is room for `n` more rows where only first measurements are kept.
pub open spec fn met_spare(c: Counter<InlineTable>, n: int) -> bool {
    &&& c.n + n <= u64::MAX
    &&& c.inner@.len() + n <= MAX_ENTRIES
    &&& bytes_in(c.inner@.dom()) + MAX_NAME_LEN * n <= u32::MAX
}

/// There is room for `n` more rows in a mode's scratch, whatever the rows.
pub open spec fn spare(mode: Mode, st: State, d: Seq<u8>, n: int) -> bool {
    match st {
        State::Plain(c) => c.n + n <= u64::MAX,
        State::Offsets(c) => if mode is NoCompare {
            shelves_spare(c, d, n)
        } else {
            c.n + n <= u64::MAX && offsets_spare(c.inner, d, n)
        },
        State::Inline(c) => if mode is DlNoKey {
            unkeyed_spare(c, n)
        } else if mode is DlNoStats {
            met_spare(c, n)
        } else {
            inline_spare(c, n)
        },
        State::Split(c) => c.n + n <= u64::MAX && forall|k: int|
            0 <= k < c.inner@.len() ==> offsets_spare(#[trigger] c.inner@[k], d, n),
    }
}

/// The scratch suits the mode and is sound.
pub open spec fn ready(mode: Mode, st: State, d: Seq<u8>) -> bool {
    &&& st.suits(mode)
    &&& match st {
        State::Plain(c) => true,
        State::Offsets(c) => if mode is NoCompare {
            racked(c.inner, d)
        } else {
            shelved(c.inner, d, by_name_hash())
        },
        State::Inline(c) => if mode is DlNoKey {
            unkeyed_ok(c.inner)
        } else if mode is Itable || mode is Flat {
            stocked(c.inner, by_name_hash())
        } else {
            stocked(c.inner, by_raw_hash())
        },
        State::Split(c) => forall|k: int|
            0 <= k < c.inner@.len() ==> shelved(#[trigger] c.inner@[k], d, by_name_hash()),
    }
}

impl Mode {
    /// The mode drains no rows.
    pub open spec fn rowless(self) -> bool {
        self is Touch || self is Mask || self is MaskSemi || self is MaskNl
    }

    /// Which names the mode can take: where they are keys, none with a NUL.
    pub open spec fn names(self) -> Names {
        match self {
            Mode::Itable(_)
            | Mode::Flat(_)
            | Mode::Raw(_)
            | Mode::Keyed(_)
            | Mode::Win(_)
            | Mode::Hdr(_)
            | Mode::Hot(_)
            | Mode::NlTable
            | Mode::DlTable
            | Mode::DlNoStats => Names::Keyed,
            _ => Names::Station,
        }
    }

    /// The mode goes by row ends that it takes from a bitmap, so that its last row must end by the
    /// range's end.
    pub open spec fn bounded(self) -> bool {
        match self {
            Mode::NlParse
            | Mode::NlTable
            | Mode::DlRows
            | Mode::DlTable
            | Mode::DlNoKey
            | Mode::DlNoStats => true,
            _ => false,
        }
    }
}

/// A mode's rows can be read.
pub open spec fn legible(mode: Mode, d: Seq<u8>, start: usize, end: usize) -> bool {
    if mode.bounded() {
        rows_inside(d, start, end)
    } else {
        rows_within(d, start, end)
    }
}

proof fn lemma_inline_holds<P: InlineSink>(
    c: Counter<InlineTable>,
    d: Seq<u8>,
    start: usize,
    end: usize,
)
    requires
        stocked(c.inner, P::by()),
        all_covered(rows(d, start as int, end as int), Names::Keyed),
        inline_spare(c, rows(d, start as int, end as int).len() as int),
    ensures
        holds::<Inline<P>>(c, d, start, end),
        takes::<Inline<P>>(c, d, start, end),
{
    let r = rows(d, start as int, end as int);
    let s = Counted::<Inline<P>>::state(c, d);
    lemma_shape(c.inner);
    law_counted_run::<Inline<P>>(s, r);
    law_inline_run::<P>(c.inner@, r);
    lemma_plain(c.inner);
    lemma_absorb_plain(c.inner@, r);
    lemma_absorb_bounds(c.inner@, r, u32::MAX - r.len());
    lemma_run_fits::<Counted<Inline<P>>>(s, r);
}

proof fn lemma_plain_holds<P: PlainSink>(c: Counter<()>, d: Seq<u8>, start: usize, end: usize)
    requires
        c.n + rows(d, start as int, end as int).len() <= u64::MAX,
    ensures
        holds::<Plain<P>>(c, d, start, end),
        takes::<Plain<P>>(c, d, start, end),
{
    let r = rows(d, start as int, end as int);
    let s = Counted::<Plain<P>>::state(c, d);
    law_counted_run::<Plain<P>>(s, r);
    lemma_run_fits::<Counted<Plain<P>>>(s, r);
}

proof fn lemma_offsets_hold(t: Table, d: Seq<u8>, r: Seq<Record>)
    requires
        shelved(t, d, by_name_hash()),
        offsets_spare(t, d, r.len() as int),
    ensures
        offsets_fit(run_all::<Full>(offsets_of(t, d), r)),
{
    lemma_wf(t, d);
    law_full_run(offsets_of(t, d), r);
    lemma_absorb_bounds(t.tally(d), r, u32::MAX - r.len());
}

/// The rows of a stream are some of all rows.
proof fn lemma_stream_few(
    d: Seq<u8>,
    s: Seq<(usize, usize)>,
    start: int,
    end: int,
    lim: int,
    k: int,
)
    requires
        0 <= start <= end <= lim <= d.len() <= usize::MAX,
        rows_ok(d, start, end, lim),
        0 <= k < s.len(),
        forall|j: int|
            0 <= j < s.len() ==> (#[trigger] s[j]).0 == crate::chunk::head(
                d,
                start,
                end,
                s.len() as int,
                j,
            ) && s[j].1 == crate::chunk::tail(d, start, end, s.len() as int, j),
    ensures
        stream_rows(d, start, end, s.len() as int, k).len() <= rows(d, start, end).len(),
{
    lemma_split_pending(d, s, start, end, lim, k);
    lemma_split_pending(d, s, start, end, lim, 0);
    crate::chunk::law_streams_tile(d, start, end, s.len() as int, k);
    crate::chunk::law_streams_tile(d, start, end, s.len() as int, 0);
    crate::rows::lemma_rows_split(d, start, s[k].0 as int, end, lim);
}

proof fn lemma_split_room(
    c: Counter<Vec<Table>>,
    d: Seq<u8>,
    start: usize,
    end: usize,
    n: usize,
)
    requires
        n > 0,
        c.inner@.len() == n,
        rows_within(d, start, end),
        c.n + rows(d, start as int, end as int).len() <= u64::MAX,
        forall|k: int|
            0 <= k < n ==> shelved(#[trigger] c.inner@[k], d, by_name_hash()) && offsets_spare(
                c.inner@[k],
                d,
                rows(d, start as int, end as int).len() as int,
            ),
    ensures
        split_holds(c, d, start, end, n),
{
    let lim = choose|lim: int|
        end <= lim <= d.len() && #[trigger] rows_ok(d, start as int, end as int, lim);
    let a = start as int;
    let b = end as int;
    let s = Seq::new(
        n as nat,
        |j: int|
            (
                crate::chunk::head(d, a, b, n as int, j) as usize,
                crate::chunk::tail(d, a, b, n as int, j) as usize,
            ),
    );
    assert forall|k: int| 0 <= k < n implies shelved(#[trigger] c.inner@[k], d, by_name_hash())
        && offsets_fit(
        run_all::<Full>(offsets_of(c.inner@[k], d), stream_rows(d, a, b, n as int, k)),
    ) by {
        let part = stream_rows(d, a, b, n as int, k);
        assert forall|j: int| 0 <= j < s.len() implies (#[trigger] s[j]).0 == crate::chunk::head(
            d,
            a,
            b,
            s.len() as int,
            j,
        ) && s[j].1 == crate::chunk::tail(d, a, b, s.len() as int, j) by {
            crate::chunk::law_streams_tile(d, a, b, n as int, j);
        }
        lemma_stream_few(d, s, a, b, lim, k);
        assert(offsets_spare(c.inner@[k], d, rows(d, a, b).len() as int));
        lemma_offsets_hold(c.inner@[k], d, part);
    }
}

proof fn lemma_shelves_take(c: Counter<Table>, d: Seq<u8>, start: usize, end: usize)
    requires
        racked(c.inner, d),
        rows_within(d, start, end),
        shelves_spare(c, d, rows(d, start as int, end as int).len() as int),
    ensures
        can_run(Mode::NoCompare, State::Offsets(c), d, start, end),
{
    let lim = choose|lim: int|
        end <= lim <= d.len() && #[trigger] rows_ok(d, start as int, end as int, lim);
    let r = rows(d, start as int, end as int);
    lemma_wf(c.inner, d);
    lemma_rows_fair(d, start as int, end as int, lim);
    let s = Count { acc: c.acc, n: c.n as nat, inner: shelves_of(c.inner, d) };
    lemma_shelves_run(s, r, u32::MAX - r.len());
}

proof fn lemma_unkeyed_take(c: Counter<InlineTable>, d: Seq<u8>, start: usize, end: usize)
    requires
        unkeyed_ok(c.inner),
        rows_inside(d, start, end),
        unkeyed_spare(c, rows(d, start as int, end as int).len() as int),
    ensures
        takes::<PairNokey>(c, d, start, end),
{
    let r = rows(d, start as int, end as int);
    lemma_shape(c.inner);
    lemma_rows_fair(d, start as int, end as int, end as int);
    let s = Count { acc: c.acc, n: c.n as nat, inner: unkeyed_of(c.inner) };
    lemma_unkeyed_run(s, r, u32::MAX - r.len());
}

proof fn lemma_met_take(c: Counter<InlineTable>, d: Seq<u8>, start: usize, end: usize)
    requires
        stocked(c.inner, by_raw_hash()),
        all_covered(rows(d, start as int, end as int), Names::Keyed),
        met_spare(c, rows(d, start as int, end as int).len() as int),
    ensures
        takes::<PairNostats>(c, d, start, end),
{
    let r = rows(d, start as int, end as int);
    lemma_shape(c.inner);
    lemma_met_run(Count { acc: c.acc, n: c.n as nat, inner: c.inner@ }, r);
}

/// Rows that can be read and that there is room for can be run.
proof fn lemma_can_run(mode: Mode, st: State, d: Seq<u8>, start: usize, end: usize)
    requires
        mode.known(),
        !mode.rowless(),
        ready(mode, st, d),
        legible(mode, d, start, end),
        all_covered(rows(d, start as int, end as int), mode.names()),
        spare(mode, st, d, rows(d, start as int, end as int).len() as int),
    ensures
        can_run(mode, st, d, start, end),
{
    let r = rows(d, start as int, end as int);
    match st {
        State::Plain(c) => {
            lemma_plain_holds::<ParseOnly>(c, d, start, end);
            lemma_plain_holds::<HashOnly>(c, d, start, end);
            lemma_plain_holds::<FhashOnly>(c, d, start, end);
            lemma_plain_holds::<RowFlat>(c, d, start, end);
            lemma_plain_holds::<RowLen>(c, d, start, end);
            lemma_plain_holds::<PairRows>(c, d, start, end);
        },
        State::Offsets(c) => {
            if mode is NoCompare {
                lemma_shelves_take(c, d, start, end);
            } else {
                lemma_offsets_hold(c.inner, d, r);
                law_counted_run::<Full>(Counted::<Full>::state(c, d), r);
            }
        },
        State::Inline(c) => match mode {
            Mode::DlNoKey => lemma_unkeyed_take(c, d, start, end),
            Mode::DlNoStats => lemma_met_take(c, d, start, end),
            Mode::Itable(_) => lemma_inline_holds::<FullInline>(
                c,
                d,
                start,
                end,
            ),
            Mode::Flat(_) => lemma_inline_holds::<FullFlat>(c, d, start, end),
            _ => {
                lemma_inline_holds::<FullRaw>(c, d, start, end);
                lemma_inline_holds::<FullKeyed>(c, d, start, end);
                lemma_inline_holds::<FullKeyedWin>(c, d, start, end);
                lemma_inline_holds::<RowTable>(c, d, start, end);
                lemma_inline_holds::<PairTable>(c, d, start, end);
            },
        },
        State::Split(c) => {
            let n = mode->Split_0;
            lemma_split_room(c, d, start, end, n);
        },
    }
}

/// The most that any listed slot has been counted, if every sum is one that its count allows.
fn most_lean(v: &Vec<(&[u8], Stats)>, cells: Ghost<Cells>) -> (r: Option<u32>)
    requires
        lists(v@, cells@),
    ensures
        match r {
            Some(most) => {
                &&& lean(cells@, most as int)
                &&& most == 0 || !lean(cells@, most - 1)
            },
            None => forall|c: int| !lean(cells@, c),
        },
{
    let ghost n = cells@.len() as int;
    let ghost list = compact(cells@, n);
    proof {
        lemma_compact_slots(cells@, n);
    }
    let mut most: u32 = 0;
    for i in 0..v.len()
        invariant
            lists(v@, cells@),
            n == cells@.len(),
            list == compact(cells@, n),
            forall|j: int|
                0 <= j < list.len() ==> exists|i: int|
                    0 <= i < n && #[trigger] cells@[i] == Some(#[trigger] list[j]),
            forall|j: int| 0 <= j < i ==> lean_cell(#[trigger] list[j], most as int),
            most == 0 || !lean(cells@, most - 1),
    {
        assert(v@[i as int].1@ == list[i as int].stats);
        let ghost at = choose|k: int|
            0 <= k < n && #[trigger] cells@[k] == Some(#[trigger] list[i as int]);
        assert(cells@[at] == Some(list[i as int]));
        let most_sum: i64 = 999 * (v[i].1.count as i64);
        if v[i].1.sum > most_sum || v[i].1.sum < -most_sum {
            assert forall|c: int| !lean(cells@, c) by {
                if lean(cells@, c) {
                    assert(lean_cell(cells@[at]->0, c));
                }
            }
            return None;
        }
        if v[i].1.count > most {
            most = v[i].1.count;
            assert(!lean(cells@, most - 1)) by {
                if lean(cells@, most - 1) {
                    assert(lean_cell(cells@[at]->0, most - 1));
                }
            }
        }
    }
    assert forall|i: int| 0 <= i < cells@.len() && (#[trigger] cells@[i]) is Some implies lean_cell(
        cells@[i]->0,
        most as int,
    ) by {
        assert(list.contains(cells@[i]->0));
        let j = choose|j: int| 0 <= j < list.len() && list[j] == cells@[i]->0;
        assert(lean_cell(list[j], most as int));
    }
    Some(most)
}

fn least(a: u64, b: u64) -> (r: u64)
    ensures
        r == if a < b {
            a
        } else {
            b
        },
{
    if a < b {
        a
    } else {
        b
    }
}

/// As many rows as there is room for, up to a batch.
fn room_inline(c: &Counter<InlineTable>) -> (n: u64)
    requires
        c.inner.shape_ok(),
        c.inner.arena().len() == bytes_in(c.inner@.dom()),
    ensures
        n <= BATCH,
        n > 0 ==> inline_spare(*c, n as int),
{
    proof {
        lemma_shape(c.inner);
    }
    let most = most_in_table(&c.inner);
    let n = spare_rows(c.inner.len(), c.inner.arena_len() as u64, most as u64);
    least(n as u64, u64::MAX - c.n)
}

/// As many rows as an offset-keyed table has room for, up to a batch.
fn room_offsets(t: &Table, data: &[u8]) -> (n: u64)
    requires
        t.wf(data@),
    ensures
        n <= BATCH,
        n > 0 ==> offsets_spare(*t, data@, n as int),
{
    proof {
        lemma_wf(*t, data@);
    }
    let most = most_in_offsets(t, data);
    let slots = (t.max_len() - t.len()) as u64;
    least(least(slots, (u32::MAX - most) as u64), BATCH as u64)
}

fn room_shelves(c: &Counter<Table>, data: &[u8]) -> (n: u64)
    requires
        c.inner.wf(data@),
    ensures
        n <= BATCH,
        n > 0 ==> shelves_spare(*c, data@, n as int),
{
    proof {
        lemma_wf(c.inner, data@);
    }
    match most_lean(&c.inner.iter(data), Ghost(c.inner.cells(data@))) {
        Some(most) => {
            let slots = (c.inner.max_len() - c.inner.len()) as u64;
            least(
                least(slots, (u32::MAX - most) as u64),
                least(u64::MAX - c.n, BATCH as u64),
            )
        },
        None => 0,
    }
}

fn room_unkeyed(c: &Counter<InlineTable>) -> (n: u64)
    requires
        c.inner.shape_ok(),
    ensures
        n <= BATCH,
        n > 0 ==> unkeyed_spare(*c, n as int),
{
    proof {
        lemma_shape(c.inner);
    }
    let len = c.inner.len();
    let arena = c.inner.arena_len() as u64;
    if len >= MAX_ENTRIES || arena > u32::MAX as u64 {
        return 0;
    }
    match most_lean(&c.inner.iter(), Ghost(c.inner.cells())) {
        Some(most) => {
            let names = least((MAX_ENTRIES - len) as u64, (u32::MAX as u64 - arena) / 100);
            least(
                least(names, (u32::MAX - most) as u64),
                least(u64::MAX - c.n, BATCH as u64),
            )
        },
        None => 0,
    }
}

fn room_met(c: &Counter<InlineTable>) -> (n: u64)
    requires
        c.inner.shape_ok(),
        c.inner.arena().len() == bytes_in(c.inner@.dom()),
    ensures
        n <= BATCH,
        n > 0 ==> met_spare(*c, n as int),
{
    proof {
        lemma_shape(c.inner);
    }
    let n = spare_rows(c.inner.len(), c.inner.arena_len() as u64, 0);
    least(n as u64, u64::MAX - c.n)
}

/// As many rows as the mode's scratch has room for, up to a batch.
fn room(mode: Mode, st: &State, data: &[u8]) -> (n: u64)
    requires
        ready(mode, *st, data@),
    ensures
        n <= BATCH,
        n > 0 ==> spare(mode, *st, data@, n as int),
{
    match st {
        State::Plain(c) => least(u64::MAX - c.n, BATCH as u64),
        State::Offsets(c) => match mode {
            Mode::NoCompare => room_shelves(c, data),
            _ => least(room_offsets(&c.inner, data), u64::MAX - c.n),
        },
        State::Inline(c) => match mode {
            Mode::DlNoKey => room_unkeyed(c),
            Mode::DlNoStats => room_met(c),
            _ => room_inline(c),
        },
        State::Split(c) => {
            let mut n = least(u64::MAX - c.n, BATCH as u64);
            for k in 0..c.inner.len()
                invariant
                    forall|j: int|
                        0 <= j < c.inner@.len() ==> shelved(
                            #[trigger] c.inner@[j],
                            data@,
                            by_name_hash(),
                        ),
                    n <= BATCH,
                    c.n + n <= u64::MAX,
                    n > 0 ==> forall|j: int|
                        0 <= j < k ==> offsets_spare(#[trigger] c.inner@[j], data@, n as int),
            {
                assert(shelved(c.inner@[k as int], data@, by_name_hash()));
                n = least(n, room_offsets(&c.inner[k], data));
            }
            n
        },
    }
}

/// The context has been fed `r`, each row counted and its yield folded into the sink.
pub open spec fn took_rows<E: Sunk>(
    before: Counter<E::Ctx>,
    after: Counter<E::Ctx>,
    d: Seq<u8>,
    r: Seq<Record>,
) -> bool {
    &&& Counted::<E>::inv(after, d)
    &&& Counted::<E>::state(after, d) == run_all::<Counted<E>>(Counted::<E>::state(before, d), r)
}

/// Streams with a table each have been fed `r` between them.
pub open spec fn split_took_rows(
    before: Counter<Vec<Table>>,
    after: Counter<Vec<Table>>,
    d: Seq<u8>,
    r: Seq<Record>,
) -> bool {
    &&& after.acc == sinks::<Full>(before.acc, r)
    &&& after.n == before.n + r.len()
    &&& after.inner@.len() == before.inner@.len()
    &&& forall|k: int|
        0 <= k < after.inner@.len() ==> shelved(#[trigger] after.inner@[k], d, by_name_hash())
    &&& joined_all(tallies(after.inner@, d)) == absorb_all(
        joined_all(tallies(before.inner@, d)),
        r,
    )
}

/// What each of the tables has accumulated.
pub open spec fn tallies(tables: Seq<Table>, d: Seq<u8>) -> Seq<Tally> {
    Seq::new(tables.len(), |k: int| tables[k].tally(d))
}

/// The rows of the first `k` of `n` streams, stream after stream.
spec fn streams_to(d: Seq<u8>, start: int, end: int, n: int, k: int) -> Seq<Record>
    decreases k,
{
    if k <= 0 {
        seq![]
    } else {
        streams_to(d, start, end, n, k - 1) + stream_rows(d, start, end, n, k - 1)
    }
}

/// The streams hold the range's rows between them.
proof fn lemma_streams_to(d: Seq<u8>, start: int, end: int, lim: int, n: int, k: int)
    requires
        0 <= start <= end <= lim <= d.len(),
        rows_ok(d, start, end, lim),
        0 < k <= n,
    ensures
        streams_to(d, start, end, n, k) == rows(d, start, tail(d, start, end, n, k - 1)),
    decreases k,
{
    law_streams_tile(d, start, end, n, k - 1);
    let a = head(d, start, end, n, k - 1);
    let b = tail(d, start, end, n, k - 1);
    if k < n {
        law_streams_tile(d, start, end, n, k);
    }
    assert(b == start || b == end || d[b - 1] == NEWLINE);
    lemma_rows_split(d, start, b, end, lim);
    lemma_rows_split(d, start, a, b, lim);
    if k == 1 {
        assert(streams_to(d, start, end, n, 0) =~= seq![]);
        assert(streams_to(d, start, end, n, 1) =~= rows(d, start, b));
    } else {
        lemma_streams_to(d, start, end, lim, n, k - 1);
        law_streams_tile(d, start, end, n, k - 2);
    }
}

/// Tables that take a stream each take all the rows between them.
proof fn lemma_split_tallies(
    before: Seq<Tally>,
    after: Seq<Tally>,
    d: Seq<u8>,
    start: int,
    end: int,
    n: int,
    k: int,
)
    requires
        0 <= k <= n,
        before.len() == n,
        after.len() == n,
        forall|j: int|
            0 <= j < n ==> #[trigger] after[j] == absorb_all(
                before[j],
                stream_rows(d, start, end, n, j),
            ),
    ensures
        joined_all(after.take(k)) == absorb_all(
            joined_all(before.take(k)),
            streams_to(d, start, end, n, k),
        ),
    decreases k,
{
    if k > 0 {
        lemma_split_tallies(before, after, d, start, end, n, k - 1);
        assert(after.take(k).drop_last() =~= after.take(k - 1));
        assert(before.take(k).drop_last() =~= before.take(k - 1));
        assert(after[k - 1] == absorb_all(before[k - 1], stream_rows(d, start, end, n, k - 1)));
        law_joined_parts(
            joined_all(before.take(k - 1)),
            before[k - 1],
            streams_to(d, start, end, n, k - 1),
            stream_rows(d, start, end, n, k - 1),
        );
    }
}

/// What running streams with a table each does to the tables' tallies.
proof fn lemma_split_took(
    before: Counter<Vec<Table>>,
    after: Counter<Vec<Table>>,
    d: Seq<u8>,
    start: usize,
    end: usize,
    n: usize,
)
    requires
        n > 0,
        before.inner@.len() == n,
        rows_within(d, start, end),
        split_took(before, after, d, start, end, n),
    ensures
        split_took_rows(before, after, d, rows(d, start as int, end as int)),
{
    let lim = choose|lim: int|
        end <= lim <= d.len() && #[trigger] rows_ok(d, start as int, end as int, lim);
    let x = tallies(before.inner@, d);
    let y = tallies(after.inner@, d);
    assert forall|j: int| 0 <= j < n implies #[trigger] y[j] == absorb_all(
        x[j],
        stream_rows(d, start as int, end as int, n as int, j),
    ) by {
        assert(shelved(after.inner@[j], d, by_name_hash()));
        law_full_run(
            offsets_of(before.inner@[j], d),
            stream_rows(d, start as int, end as int, n as int, j),
        );
    }
    lemma_split_tallies(x, y, d, start as int, end as int, n as int, n as int);
    lemma_streams_to(d, start as int, end as int, lim, n as int, n as int);
    law_streams_tile(d, start as int, end as int, n as int, 0);
    assert(x.take(n as int) =~= x);
    assert(y.take(n as int) =~= y);
}

/// One more row in one of the tables is one more row between them.
proof fn lemma_one_more(parts: Seq<Tally>, k: int, r: Record)
    requires
        0 <= k < parts.len(),
    ensures
        joined_all(parts.update(k, absorb(parts[k], r))) == absorb(joined_all(parts), r),
    decreases parts.len(),
{
    let after = parts.update(k, absorb(parts[k], r));
    let init = parts.drop_last();
    let one = seq![r];
    let none = Seq::<Record>::empty();
    let m = joined_all(init);
    assert(one.drop_first() =~= none);
    assert(one + none =~= one);
    assert(none + one =~= one);
    if k == parts.len() - 1 {
        assert(after.drop_last() =~= init);
        law_joined_parts(m, parts.last(), none, one);
        assert(absorb_all(absorb(parts.last(), r), none) == absorb(parts.last(), r));
    } else {
        lemma_one_more(init, k, r);
        assert(after.drop_last() =~= init.update(k, absorb(init[k], r)));
        law_joined_parts(m, parts.last(), one, none);
        assert(absorb_all(absorb(m, r), none) == absorb(m, r));
    }
    assert(absorb_all(absorb(joined_all(parts), r), none) == absorb(joined_all(parts), r));
}

/// What feeding `r` in a mode does to the scratch.
pub open spec fn fed_rows(
    mode: Mode,
    before: State,
    after: State,
    d: Seq<u8>,
    r: Seq<Record>,
) -> bool {
    match (mode, before, after) {
        (Mode::Parse(_), State::Plain(b), State::Plain(a)) => took_rows::<Plain<ParseOnly>>(b, a, d, r),
        (Mode::Hash, State::Plain(b), State::Plain(a)) => took_rows::<Plain<HashOnly>>(b, a, d, r),
        (Mode::Fhash(_), State::Plain(b), State::Plain(a)) => took_rows::<Plain<FhashOnly>>(b, a, d, r),
        (Mode::NlRows, State::Plain(b), State::Plain(a)) => took_rows::<Plain<RowFlat>>(b, a, d, r),
        (Mode::NlParse, State::Plain(b), State::Plain(a)) => took_rows::<Plain<RowLen>>(b, a, d, r),
        (Mode::DlRows, State::Plain(b), State::Plain(a)) => took_rows::<Plain<PairRows>>(b, a, d, r),
        (Mode::Table(_), State::Offsets(b), State::Offsets(a)) => took_rows::<Full>(b, a, d, r),
        (Mode::NoCompare, State::Offsets(b), State::Offsets(a)) => took_rows::<Nocmp>(b, a, d, r),
        (Mode::Itable(_), State::Inline(b), State::Inline(a)) => took_rows::<Inline<FullInline>>(b, a, d, r),
        (Mode::Flat(_), State::Inline(b), State::Inline(a)) => took_rows::<Inline<FullFlat>>(b, a, d, r),
        (Mode::Raw(_), State::Inline(b), State::Inline(a)) => took_rows::<Inline<FullRaw>>(b, a, d, r),
        (Mode::Keyed(_), State::Inline(b), State::Inline(a)) => took_rows::<Inline<FullKeyed>>(b, a, d, r),
        (Mode::Win(_), State::Inline(b), State::Inline(a)) => took_rows::<Inline<FullKeyedWin>>(b, a, d, r),
        (Mode::Hdr(_), State::Inline(b), State::Inline(a)) => took_rows::<Inline<FullKeyed>>(b, a, d, r),
        (Mode::Hot(_), State::Inline(b), State::Inline(a)) => took_rows::<Inline<FullKeyed>>(b, a, d, r),
        (Mode::NlTable, State::Inline(b), State::Inline(a)) => took_rows::<Inline<RowTable>>(b, a, d, r),
        (Mode::DlTable, State::Inline(b), State::Inline(a)) => took_rows::<Inline<PairTable>>(b, a, d, r),
        (Mode::DlNoKey, State::Inline(b), State::Inline(a)) => took_rows::<PairNokey>(b, a, d, r),
        (Mode::DlNoStats, State::Inline(b), State::Inline(a)) => took_rows::<PairNostats>(b, a, d, r),
        (Mode::Split(n), State::Split(b), State::Split(a)) => split_took_rows(b, a, d, r),
        _ => false,
    }
}

/// A run over a range feeds the range's rows.
proof fn lemma_ran(
    mode: Mode,
    before: State,
    after: State,
    d: Seq<u8>,
    start: usize,
    end: usize,
)
    requires
        !mode.rowless(),
        ready(mode, before, d),
        legible(mode, d, start, end),
        mode.known(),
        ran(mode, before, after, d, start, end),
    ensures
        fed_rows(mode, before, after, d, rows(d, start as int, end as int)),
        ready(mode, after, d),
{
    if let (Mode::Split(n), State::Split(b), State::Split(a)) = (mode, before, after) {
        lemma_split_took(b, a, d, start, end, n);
    }
}

proof fn lemma_took_concat<E: Sunk>(
    before: Counter<E::Ctx>,
    mid: Counter<E::Ctx>,
    after: Counter<E::Ctx>,
    d: Seq<u8>,
    x: Seq<Record>,
    y: Seq<Record>,
)
    requires
        took_rows::<E>(before, mid, d, x),
        took_rows::<E>(mid, after, d, y),
    ensures
        took_rows::<E>(before, after, d, x + y),
{
    lemma_run_concat::<Counted<E>>(Counted::<E>::state(before, d), x, y);
}

/// Feeding twice is feeding both.
proof fn lemma_fed_concat(
    mode: Mode,
    before: State,
    mid: State,
    after: State,
    d: Seq<u8>,
    x: Seq<Record>,
    y: Seq<Record>,
)
    requires
        fed_rows(mode, before, mid, d, x),
        fed_rows(mode, mid, after, d, y),
    ensures
        fed_rows(mode, before, after, d, x + y),
{
    match (mode, before, mid, after) {
        (Mode::Parse(_), State::Plain(b), State::Plain(c), State::Plain(a)) => lemma_took_concat::<Plain<ParseOnly>>(
            b,
            c,
            a,
            d,
            x,
            y,
        ),
        (Mode::Hash, State::Plain(b), State::Plain(c), State::Plain(a)) => lemma_took_concat::<Plain<HashOnly>>(
            b,
            c,
            a,
            d,
            x,
            y,
        ),
        (Mode::Fhash(_), State::Plain(b), State::Plain(c), State::Plain(a)) => lemma_took_concat::<Plain<FhashOnly>>(
            b,
            c,
            a,
            d,
            x,
            y,
        ),
        (Mode::NlRows, State::Plain(b), State::Plain(c), State::Plain(a)) => lemma_took_concat::<Plain<RowFlat>>(
            b,
            c,
            a,
            d,
            x,
            y,
        ),
        (Mode::NlParse, State::Plain(b), State::Plain(c), State::Plain(a)) => lemma_took_concat::<Plain<RowLen>>(
            b,
            c,
            a,
            d,
            x,
            y,
        ),
        (Mode::DlRows, State::Plain(b), State::Plain(c), State::Plain(a)) => lemma_took_concat::<Plain<PairRows>>(
            b,
            c,
            a,
            d,
            x,
            y,
        ),
        (Mode::Table(_), State::Offsets(b), State::Offsets(c), State::Offsets(a)) => lemma_took_concat::<Full>(
            b,
            c,
            a,
            d,
            x,
            y,
        ),
        (Mode::NoCompare, State::Offsets(b), State::Offsets(c), State::Offsets(a)) => lemma_took_concat::<Nocmp>(
            b,
            c,
            a,
            d,
            x,
            y,
        ),
        (Mode::Itable(_), State::Inline(b), State::Inline(c), State::Inline(a)) => lemma_took_concat::<Inline<FullInline>>(
            b,
            c,
            a,
            d,
            x,
            y,
        ),
        (Mode::Flat(_), State::Inline(b), State::Inline(c), State::Inline(a)) => lemma_took_concat::<Inline<FullFlat>>(
            b,
            c,
            a,
            d,
            x,
            y,
        ),
        (Mode::Raw(_), State::Inline(b), State::Inline(c), State::Inline(a)) => lemma_took_concat::<Inline<FullRaw>>(
            b,
            c,
            a,
            d,
            x,
            y,
        ),
        (Mode::Keyed(_), State::Inline(b), State::Inline(c), State::Inline(a)) => lemma_took_concat::<Inline<FullKeyed>>(
            b,
            c,
            a,
            d,
            x,
            y,
        ),
        (Mode::Win(_), State::Inline(b), State::Inline(c), State::Inline(a)) => lemma_took_concat::<Inline<FullKeyedWin>>(
            b,
            c,
            a,
            d,
            x,
            y,
        ),
        (Mode::Hdr(_), State::Inline(b), State::Inline(c), State::Inline(a)) => lemma_took_concat::<Inline<FullKeyed>>(
            b,
            c,
            a,
            d,
            x,
            y,
        ),
        (Mode::Hot(_), State::Inline(b), State::Inline(c), State::Inline(a)) => lemma_took_concat::<Inline<FullKeyed>>(
            b,
            c,
            a,
            d,
            x,
            y,
        ),
        (Mode::NlTable, State::Inline(b), State::Inline(c), State::Inline(a)) => lemma_took_concat::<Inline<RowTable>>(
            b,
            c,
            a,
            d,
            x,
            y,
        ),
        (Mode::DlTable, State::Inline(b), State::Inline(c), State::Inline(a)) => lemma_took_concat::<Inline<PairTable>>(
            b,
            c,
            a,
            d,
            x,
            y,
        ),
        (Mode::DlNoKey, State::Inline(b), State::Inline(c), State::Inline(a)) => lemma_took_concat::<PairNokey>(
            b,
            c,
            a,
            d,
            x,
            y,
        ),
        (Mode::DlNoStats, State::Inline(b), State::Inline(c), State::Inline(a)) => lemma_took_concat::<PairNostats>(
            b,
            c,
            a,
            d,
            x,
            y,
        ),
        (Mode::Split(_), State::Split(b), State::Split(c), State::Split(a)) => {
            lemma_sinks_concat::<Full>(b.acc, x, y);
            lemma_absorb_concat(joined_all(tallies(b.inner@, d)), x, y);
        },
        _ => {},
    }
}

/// Feeding nothing.
proof fn lemma_fed_none(mode: Mode, st: State, d: Seq<u8>)
    requires
        !mode.rowless(),
        ready(mode, st, d),
    ensures
        fed_rows(mode, st, st, d, Seq::<Record>::empty()),
{
}

/// Rows before a newline end by it.
proof fn lemma_rows_end(d: Seq<u8>, pos: int, stop: int, lim: int)
    requires
        rows_ok(d, pos, stop, lim),
        0 <= pos <= stop <= lim <= d.len(),
        stop == pos || d[stop - 1] == NEWLINE,
    ensures
        rows_ok(d, pos, stop, stop),
    decreases stop - pos,
{
    if pos < stop {
        let next = row_next(d, pos);
        lemma_row_shape(d, pos, lim);
        assert(row_stop(d, pos) < stop) by {
            if row_stop(d, pos) >= stop {
                assert(d[stop - 1] != NEWLINE);
            }
        }
        lemma_rows_end(d, next, stop, lim);
    }
}

/// What becomes of the rows of `[start, end)` in a mode, in an input that ends at `lim`.
pub open spec fn handled(
    mode: Mode,
    before: State,
    after: State,
    d: Seq<u8>,
    start: int,
    end: int,
    lim: int,
    r: Outcome,
) -> bool {
    let stop = if mode.bounded() {
        end
    } else {
        lim
    };
    let all = rows(d, start, end);
    &&& r == Outcome::Malformed <==> !rows_as(d, start, end, stop, mode.names())
    &&& r == Outcome::Malformed ==> after == before
    &&& r == Outcome::Fed ==> fed_rows(mode, before, after, d, all)
    &&& r == Outcome::Full ==> exists|k: int|
        0 <= k < all.len() && fed_rows(mode, before, after, d, #[trigger] all.take(k))
            && !accepts_row(mode, after, d, all[k])
}

/// A mode's scratch has room for one more row. Where there are several tables, one of them has.
pub open spec fn accepts_row(mode: Mode, st: State, d: Seq<u8>, r: Record) -> bool {
    match st {
        State::Plain(c) => c.n < u64::MAX,
        State::Offsets(c) => c.n < u64::MAX && if mode is NoCompare {
            shelves_accept(shelves_of(c.inner, d), r)
        } else {
            offsets_room(c.inner, d, r)
        },
        State::Inline(c) => c.n < u64::MAX && if mode is DlNoKey {
            unkeyed_accepts(unkeyed_of(c.inner), r)
        } else if mode is DlNoStats {
            met_room(c.inner@, r)
        } else {
            has_room(c.inner@, r)
        },
        State::Split(c) => c.n < u64::MAX && exists|k: int|
            0 <= k < c.inner@.len() && offsets_room(#[trigger] c.inner@[k], d, r),
    }
}

/// One more measurement fits into what a slot has accumulated.
fn stats_admit(s: &Stats, value: i16) -> (b: bool)
    ensures
        b == (s@.count < u32::MAX && i64::MIN <= s@.sum + value <= i64::MAX),
{
    s.count < u32::MAX && s.sum.checked_add(value as i64).is_some()
}

/// The first of `tables` that has room for the row at `pos`, or their number where none has.
fn roomy_table(tables: &Vec<Table>, data: &[u8], pos: usize) -> (k: usize)
    requires
        readable(data@, pos as int),
        forall|j: int|
            0 <= j < tables@.len() ==> shelved(#[trigger] tables@[j], data@, by_name_hash()),
    ensures
        k <= tables@.len(),
        k < tables@.len() ==> offsets_room(
            tables@[k as int],
            data@,
            record_at(data@, pos as int),
        ),
        k == tables@.len() ==> forall|j: int|
            0 <= j < tables@.len() ==> !offsets_room(
                #[trigger] tables@[j],
                data@,
                record_at(data@, pos as int),
            ),
{
    let ghost r = record_at(data@, pos as int);
    let (semi, hash) = find_semi_and_hash_scalar(data, pos);
    proof {
        lemma_readable(data@, pos as int);
    }
    for k in 0..tables.len()
        invariant
            readable(data@, pos as int),
            r == record_at(data@, pos as int),
            semi == semi_at(data@, pos as int),
            pos < semi <= pos + 100,
            semi < data@.len(),
            data@.subrange(pos as int, pos + (semi - pos)) == r.name,
            hash == name_hash(r.name),
            forall|j: int|
                0 <= j < tables@.len() ==> shelved(#[trigger] tables@[j], data@, by_name_hash()),
            forall|j: int|
                0 <= j < k ==> !offsets_room(#[trigger] tables@[j], data@, r),
    {
        assert(shelved(tables@[k as int], data@, by_name_hash()));
        assert(tables@[k as int].agrees(data@, r.name, (by_name_hash())(r.name)));
        if offsets_admit(&tables[k], data, pos, semi - pos, hash, Ghost(r)) {
            return k;
        }
    }
    tables.len()
}

/// Whether the mode's scratch has room for the row at `pos`.
fn row_fits(mode: Mode, st: &State, data: &[u8], pos: usize) -> (b: bool)
    requires
        ready(mode, *st, data@),
        readable(data@, pos as int),
        mode.names().cover(name_at(data@, pos as int)),
    ensures
        b == accepts_row(mode, *st, data@, record_at(data@, pos as int)),
{
    let ghost d = data@;
    let ghost r = record_at(d, pos as int);
    let ghost name = name_at(d, pos as int);
    assert(data.len() == d.len());
    proof {
        lemma_readable(d, pos as int);
    }
    let (semi, hash) = find_semi_and_hash_scalar(data, pos);
    let len = semi - pos;
    match st {
        State::Plain(c) => c.n < u64::MAX,
        State::Offsets(c) => {
            if c.n == u64::MAX {
                return false;
            }
            proof {
                lemma_wf(c.inner, d);
            }
            match mode {
                Mode::NoCompare => match c.inner.length_match(data, len, hash) {
                    Some(s) => stats_admit(&s, parse_temp(data, semi + 1).0),
                    None => c.inner.len() < c.inner.max_len(),
                },
                _ => {
                    assert(c.inner.agrees(d, name, (by_name_hash())(name)));
                    offsets_admit(&c.inner, data, pos, len, hash, Ghost(r))
                },
            }
        },
        State::Inline(c) => {
            if c.n == u64::MAX {
                return false;
            }
            proof {
                lemma_shape(c.inner);
            }
            match mode {
                Mode::DlNoKey => {
                    let raw = hash_len_raw(data, pos, len);
                    match c.inner.length_match(len, raw) {
                        Some(s) => stats_admit(&s, parse_temp(data, semi + 1).0),
                        None => c.inner.arena_len() as u64 <= u32::MAX as u64 && c.inner.len()
                            < MAX_ENTRIES,
                    }
                },
                Mode::DlNoStats => match count_in_table(
                    &c.inner,
                    slice_subrange(data, pos, semi),
                ) {
                    Some(_) => true,
                    None => c.inner.arena_len() as u64 <= u32::MAX as u64 && c.inner.len()
                        < MAX_ENTRIES,
                },
                _ => table_admits(&c.inner, slice_subrange(data, pos, semi), Ghost(r)),
            }
        },
        State::Split(c) => {
            let k = roomy_table(&c.inner, data, pos);
            c.n < u64::MAX && k < c.inner.len()
        },
    }
}

/// The row at `pos`, fed by itself.
proof fn lemma_alone<E: Engine>(s: E::S, r: Record)
    ensures
        run_all::<E>(s, seq![r]) == E::next(s, r),
        accepts_all::<E>(s, seq![r]) == E::accepts(s, r),
{
    assert(seq![r].drop_first() =~= seq![]);
    assert(run_all::<E>(E::next(s, r), seq![]) == E::next(s, r));
    assert(accepts_all::<E>(E::next(s, r), seq![]));
}

proof fn lemma_unkeyed_alone(c: Counter<Table>, d: Seq<u8>, r: Record)
    ensures
        accepts_all::<Counted<Nocmp>>(Counted::<Nocmp>::state(c, d), seq![r]) == (c.n < u64::MAX
            && shelves_accept(shelves_of(c.inner, d), r)),
{
    lemma_alone::<Counted<Nocmp>>(Counted::<Nocmp>::state(c, d), r);
}

/// One row that there is room for can be run, where runs go by room for rows in turn.
proof fn lemma_can_run_row(mode: Mode, st: State, d: Seq<u8>, pos: usize, stop: usize)
    requires
        mode.known(),
        !mode.rowless(),
        ready(mode, st, d),
        legible(mode, d, pos, stop),
        rows(d, pos as int, stop as int) == seq![record_at(d, pos as int)],
        accepts_row(mode, st, d, record_at(d, pos as int)),
        mode.bounded() || st is Plain || st is Offsets,
    ensures
        can_run(mode, st, d, pos, stop),
{
    let r = record_at(d, pos as int);
    match st {
        State::Plain(c) => {
            lemma_plain_holds::<ParseOnly>(c, d, pos, stop);
            lemma_plain_holds::<HashOnly>(c, d, pos, stop);
            lemma_plain_holds::<FhashOnly>(c, d, pos, stop);
            lemma_plain_holds::<RowFlat>(c, d, pos, stop);
            lemma_plain_holds::<RowLen>(c, d, pos, stop);
            lemma_plain_holds::<PairRows>(c, d, pos, stop);
        },
        State::Offsets(c) => {
            if mode is NoCompare {
                lemma_unkeyed_alone(c, d, r);
            } else {
                lemma_alone::<Counted<Full>>(Counted::<Full>::state(c, d), r);
                lemma_room_is_fit(c.inner, d, r);
            }
        },
        State::Inline(c) => {
            lemma_alone::<Counted<PairNokey>>(Counted::<PairNokey>::state(c, d), r);
            lemma_alone::<Counted<PairNostats>>(Counted::<PairNostats>::state(c, d), r);
            lemma_alone::<Counted<Inline<RowTable>>>(Counted::<Inline<RowTable>>::state(c, d), r);
            lemma_alone::<Counted<Inline<PairTable>>>(
                Counted::<Inline<PairTable>>::state(c, d),
                r,
            );
        },
        State::Split(_) => {},
    }
}

/// Feeds one row to an engine.
fn row_alone<E: TakeStep>(c: &mut Counter<E::Ctx>, data: &[u8], pos: usize, stop: usize)
    requires
        Counted::<E>::inv(*old(c), data@),
        Counted::<E>::accepts(
            Counted::<E>::state(*old(c), data@),
            record_at(data@, pos as int),
        ),
        0 <= E::reach() <= TAIL_GUARD,
        rows_within(data@, pos, stop),
        rows(data@, pos as int, stop as int) == seq![record_at(data@, pos as int)],
    ensures
        took_rows::<E>(*old(c), *final(c), data@, seq![record_at(data@, pos as int)]),
{
    proof {
        lemma_alone::<Counted<E>>(
            Counted::<E>::state(*c, data@),
            record_at(data@, pos as int),
        );
    }
    serial::<Counted<E>>(c, data, pos, stop);
}

/// Feeds one row to the first of the tables that has room for it.
fn row_split(c: &mut Counter<Vec<Table>>, data: &[u8], pos: usize)
    requires
        readable(data@, pos as int),
        old(c).n < u64::MAX,
        forall|j: int|
            0 <= j < old(c).inner@.len() ==> shelved(
                #[trigger] old(c).inner@[j],
                data@,
                by_name_hash(),
            ),
        exists|k: int|
            0 <= k < old(c).inner@.len() && offsets_room(
                #[trigger] old(c).inner@[k],
                data@,
                record_at(data@, pos as int),
            ),
    ensures
        split_took_rows(*old(c), *final(c), data@, seq![record_at(data@, pos as int)]),
{
    let ghost d = data@;
    let ghost r = record_at(d, pos as int);
    let k = roomy_table(&c.inner, data, pos);
    let ghost before = c.inner@;
    proof {
        assert(shelved(before[k as int], d, by_name_hash()));
        lemma_room_is_fit(before[k as int], d, r);
    }
    let (h, _) = full(data, &mut c.inner[k], pos);
    c.acc = c.acc ^ h;
    c.n = c.n + 1;
    proof {
        let after = c.inner@;
        assert(after =~= before.update(k as int, after[k as int]));
        assert(tallies(after, d) =~= tallies(before, d).update(
            k as int,
            absorb(tallies(before, d)[k as int], r),
        ));
        lemma_one_more(tallies(before, d), k as int, r);
        let one = seq![r];
        assert(one.drop_first() =~= seq![]);
        let m = joined_all(tallies(before, d));
        assert(absorb_all(absorb(m, r), one.drop_first()) == absorb(m, r));
        assert(absorb_all(m, one) == absorb(m, r));
        assert(sinks::<Full>(old(c).acc ^ Full::sink(r), one.drop_first()) == old(c).acc
            ^ Full::sink(r));
        assert(sinks::<Full>(old(c).acc, one) == old(c).acc ^ Full::sink(r));
        assert forall|j: int| 0 <= j < after.len() implies shelved(
            #[trigger] after[j],
            d,
            by_name_hash(),
        ) by {
            assert(shelved(before[j], d, by_name_hash()));
        }
    }
}

/// Whether the mode's driver goes by room for rows in turn, or needs none.
fn goes_in_turn(mode: Mode, st: &State) -> (b: bool)
    ensures
        b == (mode.bounded() || *st is Plain || *st is Offsets),
{
    match st {
        State::Plain(_) => true,
        State::Offsets(_) => true,
        _ => mode.is_bounded(),
    }
}

/// Runs a mode over the row at `pos`.
fn run_row(mode: Mode, data: &[u8], pos: usize, stop: usize, st: &mut State)
    requires
        mode.known(),
        !mode.rowless(),
        ready(mode, *old(st), data@),
        pos < stop,
        legible(mode, data@, pos, stop),
        rows(data@, pos as int, stop as int) == seq![record_at(data@, pos as int)],
        accepts_row(mode, *old(st), data@, record_at(data@, pos as int)),
        readable(data@, pos as int),
    ensures
        ready(mode, *final(st), data@),
        fed_rows(mode, *old(st), *final(st), data@, seq![record_at(data@, pos as int)]),
{
    if goes_in_turn(mode, st) {
        let ghost before = *st;
        proof {
            lemma_can_run_row(mode, before, data@, pos, stop);
        }
        run_chunk(mode, data, pos, stop, st);
        proof {
            lemma_ran(mode, before, *st, data@, pos, stop);
        }
        return ;
    }
    match st {
        State::Inline(c) => match mode {
            Mode::Itable(_) => row_alone::<Inline<FullInline>>(c, data, pos, stop),
            Mode::Flat(_) => row_alone::<Inline<FullFlat>>(c, data, pos, stop),
            Mode::Raw(_) => row_alone::<Inline<FullRaw>>(c, data, pos, stop),
            Mode::Win(_) => row_alone::<Inline<FullKeyedWin>>(c, data, pos, stop),
            _ => row_alone::<Inline<FullKeyed>>(c, data, pos, stop),
        },
        State::Split(c) => row_split(c, data, pos),
        _ => (),
    }
}

impl Mode {
    /// Whether the mode drains no rows.
    pub fn is_rowless(self) -> (b: bool)
        ensures
            b == self.rowless(),
    {
        match self {
            Mode::Touch | Mode::Mask | Mode::MaskSemi | Mode::MaskNl => true,
            _ => false,
        }
    }

    /// Which names the mode can take.
    pub fn reads(self) -> (names: Names)
        ensures
            names == self.names(),
    {
        match self {
            Mode::Itable(_)
            | Mode::Flat(_)
            | Mode::Raw(_)
            | Mode::Keyed(_)
            | Mode::Win(_)
            | Mode::Hdr(_)
            | Mode::Hot(_)
            | Mode::NlTable
            | Mode::DlTable
            | Mode::DlNoStats => Names::Keyed,
            _ => Names::Station,
        }
    }

    /// Whether the mode's last row must end by the range's end.
    pub fn is_bounded(self) -> (b: bool)
        ensures
            b == self.bounded(),
    {
        match self {
            Mode::NlParse
            | Mode::NlTable
            | Mode::DlRows
            | Mode::DlTable
            | Mode::DlNoKey
            | Mode::DlNoStats => true,
            _ => false,
        }
    }
}

/// Runs a mode over the rows of `[start, end)`, in an input that ends at `lim`.
pub fn take(mode: Mode, data: &[u8], start: usize, end: usize, lim: usize, st: &mut State) -> (r:
    Outcome)
    requires
        mode.known(),
        ready(mode, *old(st), data@),
        start <= end <= lim <= data@.len() < usize::MAX,
        end + TAIL_GUARD <= data@.len(),
    ensures
        ready(mode, *final(st), data@),
        mode.rowless() ==> r == Outcome::Fed && ran(
            mode,
            *old(st),
            *final(st),
            data@,
            start,
            end,
        ),
        !mode.rowless() ==> handled(
            mode,
            *old(st),
            *final(st),
            data@,
            start as int,
            end as int,
            lim as int,
            r,
        ),
{
    let ghost d = data@;
    if mode.is_rowless() {
        run_chunk(mode, data, start, end, st);
        return Outcome::Fed;
    }
    let last: usize = if mode.is_bounded() {
        end
    } else {
        lim
    };
    let names = mode.reads();
    if !check_rows(data, start, end, last, names) {
        return Outcome::Malformed;
    }
    let ghost all = rows(d, start as int, end as int);
    let ghost mut done: int = 0;
    let mut pos = start;
    let mut sparse = false;
    proof {
        lemma_fed_none(mode, *st, d);
        assert(all.take(0) =~= seq![]);
        assert(all.skip(0) =~= all);
    }
    while pos < end
        invariant
            d == data@,
            mode.known(),
            !mode.rowless(),
            ready(mode, *st, d),
            all == rows(d, start as int, end as int),
            names == mode.names(),
            rows_as(d, start as int, end as int, last as int, names),
            start <= pos <= end <= last <= d.len() < usize::MAX,
            mode.bounded() ==> last == end,
            !mode.bounded() ==> last == lim,
            end + TAIL_GUARD <= d.len(),
            rows_as(d, pos as int, end as int, last as int, names),
            0 <= done <= all.len(),
            rows(d, pos as int, end as int) == all.skip(done),
            fed_rows(mode, *old(st), *st, d, all.take(done)),
        decreases end - pos,
    {
        let mut n: u64 = 0;
        if !sparse {
            n = room(mode, st, data);
            sparse = n < SPARSE as u64;
        }
        let ghost before = *st;
        let stop: usize;
        if sparse {
            proof {
                lemma_first_line(d, pos as int, end as int, last as int, names);
                lemma_line_shape(d, pos as int, last as int, names);
                lemma_one_row(d, pos as int, end as int, last as int, names);
                assert(all.skip(done)[0] == all[done]);
            }
            if !row_fits(mode, st, data, pos) {
                assert(all.take(done) == all.take(done));
                return Outcome::Full;
            }
            stop = match check_row(data, pos, last, names) {
                Some(next) if next < end => next,
                _ => end,
            };
            proof {
                lemma_rows_any(
                    d,
                    pos as int,
                    stop as int,
                    last as int,
                    names,
                    Names::Station,
                );
                if mode.bounded() && stop < end {
                    lemma_rows_end(d, pos as int, stop as int, last as int);
                }
            }
            run_row(mode, data, pos, stop, st);
        } else {
            stop = batch_end(data, pos, end, last, n as usize, names);
            proof {
                lemma_rows_any(
                    d,
                    pos as int,
                    stop as int,
                    last as int,
                    names,
                    Names::Station,
                );
                if mode.bounded() && stop < end {
                    lemma_rows_end(d, pos as int, stop as int, last as int);
                }
                lemma_rows_named(d, pos as int, stop as int, last as int, names);
                let len = rows(d, pos as int, stop as int).len() as int;
                lemma_spare_less(mode, *st, d, n as int, len);
                lemma_can_run(mode, *st, d, pos, stop);
            }
            run_chunk(mode, data, pos, stop, st);
            proof {
                lemma_ran(mode, before, *st, d, pos, stop);
            }
        }
        proof {
            let part = rows(d, pos as int, stop as int);
            lemma_fed_concat(mode, *old(st), before, *st, d, all.take(done), part);
            lemma_parted(all, done, part, rows(d, stop as int, end as int));
            done = done + part.len();
        }
        pos = stop;
    }
    proof {
        assert(rows(d, pos as int, end as int) =~= seq![]);
        assert(all.skip(done).len() == 0);
        assert(all.take(done) =~= all);
    }
    Outcome::Fed
}

/// Where there is room for rows, there is room for fewer.
proof fn lemma_spare_less(mode: Mode, st: State, d: Seq<u8>, n: int, k: int)
    requires
        spare(mode, st, d, n),
        0 <= k <= n,
    ensures
        spare(mode, st, d, k),
{
    if let State::Split(c) = st {
        assert forall|j: int| 0 <= j < c.inner@.len() implies offsets_spare(
            #[trigger] c.inner@[j],
            d,
            k,
        ) by {
            assert(offsets_spare(c.inner@[j], d, n));
        }
    }
}

/// How far a mode goes into a chunk of an input that ends with the data: the wide paths would
/// read off the end of it, so the last bytes are skipped.
pub open spec fn wide_stop(len: int, start: int, chunk_end: int) -> int {
    let limit = if len >= TAIL_GUARD {
        len - TAIL_GUARD
    } else {
        0
    };
    let capped = if chunk_end < limit {
        chunk_end
    } else {
        limit
    };
    if capped > start {
        capped
    } else {
        start
    }
}

/// [`wide_stop`], and for a mode whose last row must end by it, back to the start of a line: a row
/// that the stop cuts is left out there, since its end is in no bitmap.
pub fn find_stop(mode: Mode, data: &[u8], start: usize, chunk_end: usize) -> (stop: usize)
    requires
        start <= chunk_end <= data@.len(),
    ensures
        start <= stop <= chunk_end,
        stop <= wide_stop(data@.len() as int, start as int, chunk_end as int),
        !mode.bounded() ==> stop == wide_stop(
            data@.len() as int,
            start as int,
            chunk_end as int,
        ),
        mode.bounded() ==> stop == start || data@[stop - 1] == NEWLINE,
        mode.bounded() ==> forall|i: int|
            stop <= i < wide_stop(data@.len() as int, start as int, chunk_end as int)
                ==> #[trigger] data@[i] != NEWLINE,
{
    let len = data.len();
    let limit: usize = if len >= TAIL_GUARD {
        len - TAIL_GUARD
    } else {
        0
    };
    let mut stop: usize = if chunk_end < limit {
        chunk_end
    } else {
        limit
    };
    if stop < start {
        stop = start;
    }
    if mode.is_bounded() {
        while stop > start && data[stop - 1] != NEWLINE
            invariant
                start <= stop <= chunk_end <= data@.len(),
                stop <= wide_stop(data@.len() as int, start as int, chunk_end as int),
                forall|i: int|
                    stop <= i < wide_stop(data@.len() as int, start as int, chunk_end as int)
                        ==> #[trigger] data@[i] != NEWLINE,
            decreases stop,
        {
            stop = stop - 1;
        }
    }
    stop
}

/// How far a mode goes: as far into the chunk as leaves the guard's 123 bytes after it, and not at
/// all where its start leaves fewer.
pub proof fn law_modes_go_as_far_as_the_guard_lets_them(
    len: int,
    start: int,
    chunk_end: int,
    q: int,
)
    requires
        0 <= start <= chunk_end <= len,
        start <= q <= chunk_end,
    ensures
        start <= wide_stop(len, start, chunk_end) <= chunk_end,
        q <= wide_stop(len, start, chunk_end) <==> q == start || q + 123 <= len,
{
}

/// **What a run of rows does in each mode.** Every row is counted, and what it yields is folded into
/// the sink: its value where nothing is hashed, the hash of its name and its value where no table is
/// kept, and the hash of its name where one is. Modes that leave the avalanche out go by the hash
/// without it.
pub proof fn law_modes_count_and_fold(
    mode: Mode,
    before: State,
    after: State,
    d: Seq<u8>,
    r: Seq<Record>,
)
    requires
        fed_rows(mode, before, after, d, r),
    ensures
        after.spec_rows() == before.spec_rows() + r.len(),
        after.spec_acc() == match mode {
            Mode::Parse(_) => sinks::<Plain<ParseOnly>>(before.spec_acc(), r),
            Mode::Hash | Mode::Fhash(_) => sinks::<Plain<HashOnly>>(before.spec_acc(), r),
            Mode::NlRows | Mode::NlParse | Mode::DlRows => sinks::<Plain<RowFlat>>(
                before.spec_acc(),
                r,
            ),
            Mode::Table(_)
            | Mode::NoCompare
            | Mode::Split(_)
            | Mode::Itable(_)
            | Mode::Flat(_) => sinks::<Inline<FullInline>>(before.spec_acc(), r),
            _ => sinks::<Inline<FullRaw>>(before.spec_acc(), r),
        },
{
    law_modes_share_sinks(before.spec_acc(), r);
    match (mode, before) {
        (Mode::Parse(_), State::Plain(b)) => law_counted_run::<Plain<ParseOnly>>(
            Counted::<Plain<ParseOnly>>::state(b, d),
            r,
        ),
        (Mode::Hash, State::Plain(b)) => law_counted_run::<Plain<HashOnly>>(
            Counted::<Plain<HashOnly>>::state(b, d),
            r,
        ),
        (Mode::Fhash(_), State::Plain(b)) => law_counted_run::<Plain<FhashOnly>>(
            Counted::<Plain<FhashOnly>>::state(b, d),
            r,
        ),
        (Mode::NlRows, State::Plain(b)) => law_counted_run::<Plain<RowFlat>>(
            Counted::<Plain<RowFlat>>::state(b, d),
            r,
        ),
        (Mode::NlParse, State::Plain(b)) => law_counted_run::<Plain<RowLen>>(
            Counted::<Plain<RowLen>>::state(b, d),
            r,
        ),
        (Mode::DlRows, State::Plain(b)) => law_counted_run::<Plain<PairRows>>(
            Counted::<Plain<PairRows>>::state(b, d),
            r,
        ),
        (Mode::Table(_), State::Offsets(b)) => law_counted_run::<Full>(
            Counted::<Full>::state(b, d),
            r,
        ),
        (Mode::NoCompare, State::Offsets(b)) => {
            law_counted_run::<Nocmp>(Counted::<Nocmp>::state(b, d), r);
            law_same_sink::<Nocmp, Inline<FullInline>>(b.acc, r);
        },
        (Mode::Itable(_), State::Inline(b)) => law_counted_run::<Inline<FullInline>>(
            Counted::<Inline<FullInline>>::state(b, d),
            r,
        ),
        (Mode::Flat(_), State::Inline(b)) => law_counted_run::<Inline<FullFlat>>(
            Counted::<Inline<FullFlat>>::state(b, d),
            r,
        ),
        (Mode::Raw(_), State::Inline(b)) => law_counted_run::<Inline<FullRaw>>(
            Counted::<Inline<FullRaw>>::state(b, d),
            r,
        ),
        (Mode::Keyed(_), State::Inline(b)) => law_counted_run::<Inline<FullKeyed>>(
            Counted::<Inline<FullKeyed>>::state(b, d),
            r,
        ),
        (Mode::Win(_), State::Inline(b)) => law_counted_run::<Inline<FullKeyedWin>>(
            Counted::<Inline<FullKeyedWin>>::state(b, d),
            r,
        ),
        (Mode::Hdr(_), State::Inline(b)) => law_counted_run::<Inline<FullKeyed>>(
            Counted::<Inline<FullKeyed>>::state(b, d),
            r,
        ),
        (Mode::Hot(_), State::Inline(b)) => law_counted_run::<Inline<FullKeyed>>(
            Counted::<Inline<FullKeyed>>::state(b, d),
            r,
        ),
        (Mode::NlTable, State::Inline(b)) => law_counted_run::<Inline<RowTable>>(
            Counted::<Inline<RowTable>>::state(b, d),
            r,
        ),
        (Mode::DlTable, State::Inline(b)) => law_counted_run::<Inline<PairTable>>(
            Counted::<Inline<PairTable>>::state(b, d),
            r,
        ),
        (Mode::DlNoKey, State::Inline(b)) => law_counted_run::<PairNokey>(
            Counted::<PairNokey>::state(b, d),
            r,
        ),
        (Mode::DlNoStats, State::Inline(b)) => law_counted_run::<PairNostats>(
            Counted::<PairNostats>::state(b, d),
            r,
        ),
        _ => {},
    }
}

/// The modes that keep proper tables tally the rows.
pub proof fn law_modes_tally(mode: Mode, before: State, after: State, d: Seq<u8>, r: Seq<Record>)
    requires
        fed_rows(mode, before, after, d, r),
        !(mode is NoCompare),
        !(mode is DlNoKey),
        !(mode is DlNoStats),
    ensures
        match (before, after) {
            (State::Offsets(b), State::Offsets(a)) => a.inner.tally(d) == absorb_all(
                b.inner.tally(d),
                r,
            ),
            (State::Inline(b), State::Inline(a)) => a.inner@ == absorb_all(b.inner@, r),
            (State::Split(b), State::Split(a)) => joined_all(tallies(a.inner@, d)) == absorb_all(
                joined_all(tallies(b.inner@, d)),
                r,
            ),
            _ => true,
        },
{
    match (mode, before) {
        (Mode::Table(_), State::Offsets(b)) => {
            law_counted_run::<Full>(Counted::<Full>::state(b, d), r);
            law_full_run(offsets_of(b.inner, d), r);
        },
        (Mode::Itable(_), State::Inline(b)) => lemma_tallied::<FullInline>(b, d, r),
        (Mode::Flat(_), State::Inline(b)) => lemma_tallied::<FullFlat>(b, d, r),
        (Mode::Raw(_), State::Inline(b)) => lemma_tallied::<FullRaw>(b, d, r),
        (Mode::Keyed(_), State::Inline(b)) => lemma_tallied::<FullKeyed>(b, d, r),
        (Mode::Win(_), State::Inline(b)) => lemma_tallied::<FullKeyedWin>(b, d, r),
        (Mode::Hdr(_), State::Inline(b)) => lemma_tallied::<FullKeyed>(b, d, r),
        (Mode::Hot(_), State::Inline(b)) => lemma_tallied::<FullKeyed>(b, d, r),
        (Mode::NlTable, State::Inline(b)) => lemma_tallied::<RowTable>(b, d, r),
        (Mode::DlTable, State::Inline(b)) => lemma_tallied::<PairTable>(b, d, r),
        _ => {},
    }
}

proof fn lemma_tallied<P: InlineSink>(b: Counter<InlineTable>, d: Seq<u8>, r: Seq<Record>)
    ensures
        run_all::<Counted<Inline<P>>>(Counted::<Inline<P>>::state(b, d), r).inner == absorb_all(
            b.inner@,
            r,
        ),
{
    law_counted_run::<Inline<P>>(Counted::<Inline<P>>::state(b, d), r);
    law_inline_run::<P>(b.inner@, r);
}

/// Every mode reads every station, and those that keep no keys also names with a NUL.
pub proof fn law_modes_read_stations(mode: Mode, name: Seq<u8>)
    requires
        1 <= name.len() <= 100,
        forall|i: int| 0 <= i < name.len() ==> #[trigger] name[i] != 0x0A && name[i] != 0x3B,
    ensures
        (forall|i: int| 0 <= i < name.len() ==> #[trigger] name[i] != 0) ==> mode.names().cover(
            name,
        ),
        match mode {
            Mode::Parse(_)
            | Mode::Hash
            | Mode::Fhash(_)
            | Mode::Table(_)
            | Mode::NoCompare
            | Mode::Split(_)
            | Mode::NlRows
            | Mode::NlParse
            | Mode::DlRows => mode.names().cover(name),
            _ => true,
        },
{
    crate::format::law_names_by_their_bytes(name);
}

} // verus!
