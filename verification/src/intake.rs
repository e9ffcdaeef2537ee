//! Taking in a chunk that nobody has vouched for.
//!
//! The row loops trust their input and their tables' room. Here both are tested first: bytes
//! that are not rows are turned away before anything is written, and rows go in batches that
//! the table is known to have room for. Where little room is left, each row is tested by itself,
//! so that a table at its limit still takes what it has room for.

use crate::bytes::bytes_eq;
use crate::bytes::find_byte;
use crate::bytes::NEWLINE;
use crate::bytes::SEMICOLON;
use crate::chunk::bounds;
use crate::chunk::chunk_bounds;
use crate::chunk::local;
use crate::chunk::local_bounds;
use crate::engine::lemma_first_line;
use crate::engine::lemma_run_fits;
use crate::engine::serial;
use crate::engine::streamed;
use crate::feed::fits;
use crate::feed::has_room;
use crate::feed::lemma_fits_before;
use crate::feed::lemma_fits_less;
use crate::feed::lemma_run_is_absorb;
use crate::feed::name_room;
use crate::feed::offsets_fit;
use crate::feed::offsets_room;
use crate::feed::stocked;
use crate::feed::Offsets;
use crate::feed::StationStep;
use crate::feed::Stations;
use crate::feed::TAIL_GUARD;
use crate::inline_table::lemma_plain;
use crate::inline_table::lemma_shape;
use crate::inline_table::InlineTable;
use crate::inline_table::MAX_ENTRIES;
use crate::keys::nul_free;
use crate::merge::in_order;
use crate::merge::lemma_listed;
use crate::merge::listed;
use crate::merge::lists;
use crate::merge::Merged;
use crate::output::Stats;
use crate::probing::compact;
use crate::probing::distinct;
use crate::probing::held;
use crate::probing::lemma_compact;
use crate::probing::lemma_compact_covers;
use crate::probing::Cells;
use crate::rows::absorb;
use crate::rows::absorb_all;
use crate::rows::all_covered;
use crate::rows::bytes_in;
use crate::rows::check_row;
use crate::rows::check_rows;
use crate::rows::counted_to;
use crate::rows::lemma_absorb_bounds;
use crate::rows::lemma_absorb_concat;
use crate::rows::lemma_absorb_grows;
use crate::rows::lemma_absorb_plain;
use crate::rows::lemma_bytes_subset;
use crate::rows::lemma_line_shape;
use crate::rows::lemma_lines_split;
use crate::rows::lemma_one_row;
use crate::rows::lemma_parted;
use crate::rows::lemma_rows_any;
use crate::rows::lemma_rows_named;
use crate::rows::record_at;
use crate::rows::remaining;
use crate::rows::row_as;
use crate::rows::rows;
use crate::rows::rows_as;
use crate::rows::within;
use crate::rows::MAX_NAME_LEN;
use crate::rows::Names;
use crate::rows::Record;
use crate::rows::Tally;
use crate::swar::name_at;
use crate::swar::semi_at;
use crate::table::lemma_wf;
use crate::table::Table;
use crate::workers::Buffered;
use vstd::prelude::*;
use vstd::slice::slice_subrange;

verus! {

/// The most rows taken in between two tests of the room that is left.
pub const BATCH: usize = 0x10_0000;

/// Where room is left for fewer rows than this, each row is tested by itself.
pub const SPARSE: usize = 64;

/// What became of a chunk.
#[derive(Clone, Copy, PartialEq, Eq, Structural, Debug)]
pub enum Outcome {
    /// Its rows have been taken in.
    Fed,
    /// It holds something that is not a row. Nothing has been taken in.
    Malformed,
    /// There was no room for one of its rows. Those before it have been taken in.
    Full,
}

/// `c` is the most that any station of `m` has been counted, or 0 where there is none.
pub open spec fn is_most(m: Tally, c: int) -> bool {
    &&& counted_to(m, c)
    &&& c == 0 || exists|name: Seq<u8>| #[trigger] m.contains_key(name) && m[name].count == c
}

/// A way of taking in the rows of a range.
pub trait Intake {
    /// What rows are taken into.
    type Ctx;

    /// The context is sound, over the input `d`.
    spec fn ok(ctx: Self::Ctx, d: Seq<u8>) -> bool;

    /// What the context has accumulated.
    spec fn tally(ctx: Self::Ctx, d: Seq<u8>) -> Tally;

    /// Which names can be taken in.
    spec fn names() -> Names;

    /// There is room for one more row.
    spec fn accepts(ctx: Self::Ctx, d: Seq<u8>, r: Record) -> bool;

    /// What the context's room goes by that taking in rows does not change.
    spec fn size(ctx: Self::Ctx) -> nat;

    /// A context of `size` has room for the rows that `m` tallies, in whatever order they come.
    spec fn fits(size: nat, m: Tally) -> bool;

    /// How many bytes past the end of the range must be readable.
    spec fn slack() -> int;

    /// The input must end where the data do.
    spec fn whole() -> bool;

    /// What is no more than what fits, fits.
    proof fn fits_less(size: nat, a: Tally, b: Tally)
        requires
            within(a, b),
            Self::fits(size, b),
        ensures
            Self::fits(size, a),
    ;

    /// There is room for a row of the input where what the context holds fits with it.
    proof fn has_its_room(ctx: Self::Ctx, d: Seq<u8>, r: Record)
        requires
            Self::ok(ctx, d),
            0 <= r.off < d.len(),
            r == record_at(d, r.off),
            Self::fits(Self::size(ctx), absorb(Self::tally(ctx, d), r)),
        ensures
            Self::accepts(ctx, d, r),
    ;

    /// [`names`](Intake::names), to test rows by.
    fn reads() -> (names: Names)
        ensures
            names == Self::names(),
    ;

    /// As many rows as there surely is room for.
    fn spare(ctx: &Self::Ctx, data: &[u8]) -> (n: usize)
        requires
            Self::ok(*ctx, data@),
        ensures
            forall|r: Seq<Record>|
                0 < r.len() <= n && all_covered(r, Self::names()) ==> Self::fits(
                    Self::size(*ctx),
                    #[trigger] absorb_all(Self::tally(*ctx, data@), r),
                ),
    ;

    /// Whether there is room for the row at `pos`.
    fn admits(ctx: &Self::Ctx, data: &[u8], pos: usize, semi: usize) -> (b: bool)
        requires
            Self::ok(*ctx, data@),
            pos <= semi < data@.len(),
            semi == semi_at(data@, pos as int),
            Self::names().cover(name_at(data@, pos as int)),
        ensures
            b == Self::accepts(*ctx, data@, record_at(data@, pos as int)),
    ;

    /// Takes in the row at `pos`, in an input that ends at `lim`.
    fn row(ctx: &mut Self::Ctx, data: &[u8], pos: usize, lim: usize)
        requires
            Self::ok(*old(ctx), data@),
            pos < lim <= data@.len() < usize::MAX,
            pos + Self::slack() <= data@.len(),
            Self::whole() ==> lim == data@.len(),
            row_as(data@, pos as int, lim as int, Self::names()),
            Self::accepts(*old(ctx), data@, record_at(data@, pos as int)),
        ensures
            Self::ok(*final(ctx), data@),
            Self::size(*final(ctx)) == Self::size(*old(ctx)),
            Self::tally(*final(ctx), data@) == absorb(
                Self::tally(*old(ctx), data@),
                record_at(data@, pos as int),
            ),
    ;

    /// Takes in the rows of `[start, end)`, in an input that ends at `lim`.
    fn drain(ctx: &mut Self::Ctx, data: &[u8], start: usize, end: usize, lim: usize)
        requires
            Self::ok(*old(ctx), data@),
            start < end <= lim <= data@.len() < usize::MAX,
            end + Self::slack() <= data@.len(),
            end == lim || data@[end - 1] == NEWLINE,
            Self::whole() ==> lim == data@.len(),
            rows_as(data@, start as int, end as int, lim as int, Self::names()),
            Self::fits(
                Self::size(*old(ctx)),
                absorb_all(
                    Self::tally(*old(ctx), data@),
                    rows(data@, start as int, end as int),
                ),
            ),
        ensures
            Self::ok(*final(ctx), data@),
            Self::size(*final(ctx)) == Self::size(*old(ctx)),
            Self::tally(*final(ctx), data@) == absorb_all(
                Self::tally(*old(ctx), data@),
                rows(data@, start as int, end as int),
            ),
    ;
}

/// Where a batch that starts at `pos` ends: after `max` rows, or at the range's end.
pub fn batch_end(
    data: &[u8],
    pos: usize,
    end: usize,
    lim: usize,
    max: usize,
    names: Names,
) -> (r: usize)
    requires
        pos < end <= lim <= data@.len() < usize::MAX,
        max > 0,
        rows_as(data@, pos as int, end as int, lim as int, names),
    ensures
        pos < r <= end,
        r == end || data@[r - 1] == NEWLINE,
        rows(data@, pos as int, r as int).len() <= max,
        r < end ==> rows(data@, pos as int, r as int).len() == max,
        rows(data@, pos as int, end as int) == rows(data@, pos as int, r as int) + rows(
            data@,
            r as int,
            end as int,
        ),
        rows_as(data@, pos as int, r as int, lim as int, names),
        rows_as(data@, r as int, end as int, lim as int, names),
{
    let ghost d = data@;
    let mut at = pos;
    let mut n: usize = 0;
    while at < end && n < max
        invariant
            d == data@,
            pos <= at,
            at == pos ==> n == 0,
            end <= lim <= d.len() < usize::MAX,
            rows_as(d, pos as int, end as int, lim as int, names),
            rows_as(d, at as int, end as int, lim as int, names),
            at <= end ==> at == pos || at == end || d[at - 1] == NEWLINE,
            n <= max,
            max > 0,
            rows(d, pos as int, end as int).len() == n + rows(d, at as int, end as int).len(),
        decreases remaining(at as int, end as int),
    {
        proof {
            lemma_first_line(d, at as int, end as int, lim as int, names);
            lemma_line_shape(d, at as int, lim as int, names);
        }
        match check_row(data, at, lim, names) {
            Some(next) => {
                at = next;
                n = n + 1;
            },
            None => {
                assert(false);
            },
        }
    }
    let stop: usize = if at < end {
        at
    } else {
        end
    };
    proof {
        lemma_lines_split(d, pos as int, stop as int, end as int, lim as int, names);
        if at >= end {
            assert(rows(d, at as int, end as int) =~= seq![]);
        }
        assert(rows(d, end as int, end as int) =~= seq![]);
    }
    stop
}

/// The context holds the rows of `r` before one that there is no room for, on top of `before`.
pub open spec fn stopped<I: Intake>(
    before: I::Ctx,
    after: I::Ctx,
    d: Seq<u8>,
    r: Seq<Record>,
) -> bool {
    exists|k: int|
        0 <= k < r.len() && I::tally(after, d) == absorb_all(
            I::tally(before, d),
            #[trigger] r.take(k),
        ) && !I::accepts(after, d, r[k])
}

/// What becomes of the rows of `[start, end)`, in an input that ends at `lim`.
pub open spec fn taken<I: Intake>(
    before: I::Ctx,
    after: I::Ctx,
    d: Seq<u8>,
    start: int,
    end: int,
    lim: int,
    r: Outcome,
) -> bool {
    &&& I::size(after) == I::size(before)
    &&& r == Outcome::Malformed <==> !rows_as(d, start, end, lim, I::names())
    &&& r == Outcome::Malformed ==> after == before
    &&& r == Outcome::Fed ==> I::tally(after, d) == absorb_all(
        I::tally(before, d),
        rows(d, start, end),
    )
    &&& r == Outcome::Full ==> stopped::<I>(before, after, d, rows(d, start, end))
}

/// Takes in the rows of `[start, end)`, in an input that ends at `lim`.
pub fn take_range<I: Intake>(
    ctx: &mut I::Ctx,
    data: &[u8],
    start: usize,
    end: usize,
    lim: usize,
) -> (r: Outcome)
    requires
        I::ok(*old(ctx), data@),
        start <= end <= lim <= data@.len() < usize::MAX,
        end + I::slack() <= data@.len(),
        I::slack() >= 0,
        end == lim || end == start || data@[end - 1] == NEWLINE,
        I::whole() ==> lim == data@.len(),
    ensures
        I::ok(*final(ctx), data@),
        taken::<I>(
            *old(ctx),
            *final(ctx),
            data@,
            start as int,
            end as int,
            lim as int,
            r,
        ),
{
    let ghost d = data@;
    let ghost all = rows(d, start as int, end as int);
    let names = I::reads();
    if !check_rows(data, start, end, lim, names) {
        return Outcome::Malformed;
    }
    let mut pos = start;
    let mut sparse = false;
    let ghost mut done: int = 0;
    proof {
        assert(all.take(0) =~= seq![]);
        assert(all.skip(0) =~= all);
    }
    while pos < end
        invariant
            d == data@,
            names == I::names(),
            all == rows(d, start as int, end as int),
            rows_as(d, start as int, end as int, lim as int, names),
            start <= pos <= end <= lim <= d.len() < usize::MAX,
            end + I::slack() <= d.len(),
            end == lim || end == start || d[end - 1] == NEWLINE,
            I::whole() ==> lim == d.len(),
            I::ok(*ctx, d),
            I::size(*ctx) == I::size(*old(ctx)),
            rows_as(d, pos as int, end as int, lim as int, names),
            0 <= done <= all.len(),
            rows(d, pos as int, end as int) == all.skip(done),
            I::tally(*ctx, d) == absorb_all(I::tally(*old(ctx), d), all.take(done)),
        decreases end - pos,
    {
        let mut n: usize = 0;
        if !sparse {
            n = I::spare(ctx, data);
            sparse = n < SPARSE;
        }
        let stop: usize;
        if sparse {
            proof {
                lemma_first_line(d, pos as int, end as int, lim as int, names);
                lemma_line_shape(d, pos as int, lim as int, names);
                lemma_one_row(d, pos as int, end as int, lim as int, names);
                assert(all.skip(done)[0] == all[done]);
            }
            let semi = find_byte(data, SEMICOLON, pos);
            if !I::admits(ctx, data, pos, semi) {
                assert(all.take(done) == all.take(done));
                return Outcome::Full;
            }
            I::row(ctx, data, pos, lim);
            stop = match check_row(data, pos, lim, names) {
                Some(next) if next < end => next,
                _ => end,
            };
            proof {
                let one = seq![record_at(d, pos as int)];
                assert(one.drop_first() =~= seq![]);
                let m = absorb_all(I::tally(*old(ctx), d), all.take(done));
                assert(absorb_all(absorb(m, one[0]), one.drop_first()) == absorb(m, one[0]));
                assert(absorb_all(m, one) == absorb(m, one[0]));
            }
        } else {
            let max: usize = if n < BATCH {
                n
            } else {
                BATCH
            };
            stop = batch_end(data, pos, end, lim, max, names);
            proof {
                lemma_first_line(d, pos as int, stop as int, lim as int, names);
                lemma_rows_named(d, pos as int, stop as int, lim as int, names);
                assert(I::fits(
                    I::size(*ctx),
                    absorb_all(I::tally(*ctx, d), rows(d, pos as int, stop as int)),
                ));
            }
            I::drain(ctx, data, pos, stop, lim);
        }
        proof {
            let part = rows(d, pos as int, stop as int);
            lemma_absorb_concat(I::tally(*old(ctx), d), all.take(done), part);
            lemma_parted(all, done, part, rows(d, stop as int, end as int));
            done = done + part.len();
        }
        pos = stop;
    }
    proof {
        assert(rows(d, pos as int, end as int) =~= seq![]);
        assert(all.skip(done).len() == 0);
        assert(all.take(done) =~= all);
    }
    Outcome::Fed
}

/// Room never comes back: where there is none for one more name, or for one more measurement of a
/// station, there is none after more rows either.
pub proof fn law_room_shrinks(m: Tally, rows: Seq<Record>, r: Record)
    requires
        m.dom().finite(),
    ensures
        !name_room(m) ==> !name_room(absorb_all(m, rows)),
        m.contains_key(r.name) && !has_room(m, r) ==> !has_room(absorb_all(m, rows), r),
{
    let n = absorb_all(m, rows);
    lemma_absorb_grows(m, rows);
    lemma_absorb_finite(m, rows);
    vstd::set_lib::lemma_len_subset(m.dom(), n.dom());
    lemma_bytes_subset(m.dom(), n.dom());
}

proof fn lemma_absorb_finite(m: Tally, r: Seq<Record>)
    requires
        m.dom().finite(),
    ensures
        absorb_all(m, r).dom().finite(),
    decreases r.len(),
{
    if r.len() > 0 {
        assert(absorb(m, r[0]).dom() =~= m.dom().insert(r[0].name));
        lemma_absorb_finite(absorb(m, r[0]), r.drop_first());
    }
}

/// The most that any listed slot has been counted.
fn most_listed(v: &Vec<(&[u8], Stats)>, cells: Ghost<Cells>) -> (most: u32)
    requires
        distinct(cells@),
        v@.len() == compact(cells@, cells@.len() as int).len(),
        forall|i: int|
            #![trigger v@[i]]
            0 <= i < v@.len() ==> {
                let c = compact(cells@, cells@.len() as int)[i];
                v@[i].0@ == c.name && v@[i].1@ == c.stats
            },
    ensures
        is_most(held(cells@, cells@.len() as int), most as int),
{
    let ghost n = cells@.len() as int;
    let ghost list = compact(cells@, n);
    let ghost m = held(cells@, n);
    proof {
        lemma_compact(cells@, n);
    }
    let mut most: u32 = 0;
    for i in 0..v.len()
        invariant
            v@.len() == list.len(),
            forall|i: int|
                #![trigger v@[i]]
                0 <= i < v@.len() ==> v@[i].0@ == list[i].name && v@[i].1@ == list[i].stats,
            forall|i: int|
                0 <= i < list.len() ==> m.contains_key((#[trigger] list[i]).name)
                    && m[list[i].name] == list[i].stats,
            forall|j: int| 0 <= j < i ==> (#[trigger] list[j]).stats.count <= most,
            most == 0 || exists|name: Seq<u8>| #[trigger]
                m.contains_key(name) && m[name].count == most,
    {
        assert(v@[i as int].1@ == list[i as int].stats);
        if v[i].1.count > most {
            most = v[i].1.count;
            assert(m.contains_key(list[i as int].name));
        }
    }
    assert forall|name: Seq<u8>| #[trigger] m.contains_key(name) implies m[name].count
        <= most by {
        lemma_compact_covers(cells@, n, name);
    }
    most
}

/// The most that any station of an inline-key table has been counted.
pub fn most_in_table(t: &InlineTable) -> (most: u32)
    requires
        t.shape_ok(),
    ensures
        is_most(t@, most as int),
{
    proof {
        lemma_shape(*t);
    }
    most_listed(&t.iter(), Ghost(t.cells()))
}

/// The most that any station of an offset-keyed table has been counted.
pub fn most_in_offsets(t: &Table, data: &[u8]) -> (most: u32)
    requires
        t.wf(data@),
    ensures
        is_most(t.tally(data@), most as int),
{
    proof {
        lemma_wf(*t, data@);
    }
    most_listed(&t.iter(data), Ghost(t.cells(data@)))
}

/// The most that any station of a merged tally has been counted.
pub fn most_in_merged(t: &Merged) -> (most: u32)
    requires
        t.wf(),
    ensures
        is_most(t@, most as int),
{
    let e = t.entries();
    let ghost m = t@;
    proof {
        lemma_listed(e@, e@.len() as int);
    }
    let mut most: u32 = 0;
    for i in 0..e.len()
        invariant
            in_order(e@),
            m == listed(e@, e@.len() as int),
            forall|i: int|
                0 <= i < e@.len() ==> m.contains_key((#[trigger] e@[i]).0@) && m[e@[i].0@]
                    == e@[i].1@,
            forall|j: int| 0 <= j < i ==> (#[trigger] e@[j]).1@.count <= most,
            most == 0 || exists|name: Seq<u8>| #[trigger]
                m.contains_key(name) && m[name].count == most,
    {
        if e[i].1.count > most {
            most = e[i].1.count;
            assert(m.contains_key(e@[i as int].0@));
        }
    }
    assert forall|name: Seq<u8>| #[trigger] m.contains_key(name) implies m[name].count
        <= most by {
        let i = choose|i: int| 0 <= i < e@.len() && (#[trigger] e@[i]).0@ == name;
        assert(e@[i].1@.count <= most);
    }
    most
}

/// How often a listed slot has been counted, if one of that name is listed.
fn count_listed(v: &Vec<(&[u8], Stats)>, name: &[u8], cells: Ghost<Cells>) -> (r: Option<u32>)
    requires
        lists(v@, cells@),
    ensures
        ({
            let m = held(cells@, cells@.len() as int);
            match r {
                Some(count) => m.contains_key(name@) && m[name@].count == count,
                None => !m.contains_key(name@),
            }
        }),
{
    let ghost n = cells@.len() as int;
    let ghost list = compact(cells@, n);
    let ghost m = held(cells@, n);
    proof {
        lemma_compact(cells@, n);
    }
    for i in 0..v.len()
        invariant
            lists(v@, cells@),
            n == cells@.len(),
            list == compact(cells@, n),
            m == held(cells@, n),
            forall|i: int|
                0 <= i < list.len() ==> m.contains_key((#[trigger] list[i]).name)
                    && m[list[i].name] == list[i].stats,
            forall|j: int| 0 <= j < i ==> (#[trigger] list[j]).name != name@,
    {
        assert(v@[i as int].0@ == list[i as int].name);
        if bytes_eq(v[i].0, name) {
            assert(m.contains_key(list[i as int].name));
            return Some(v[i].1.count);
        }
    }
    proof {
        if m.contains_key(name@) {
            lemma_compact_covers(cells@, n, name@);
        }
    }
    None
}

/// How often a station of an inline-key table has been counted, if it holds one of that name.
///
/// Looks through the whole table. Only a table that is about to run out of room is asked.
pub fn count_in_table(t: &InlineTable, name: &[u8]) -> (r: Option<u32>)
    requires
        t.shape_ok(),
    ensures
        match r {
            Some(count) => t@.contains_key(name@) && t@[name@].count == count,
            None => !t@.contains_key(name@),
        },
{
    proof {
        lemma_shape(*t);
    }
    count_listed(&t.iter(), name, Ghost(t.cells()))
}

/// Whether an inline-key table has room for one more row of `name`.
pub fn table_admits(t: &InlineTable, name: &[u8], r: Ghost<Record>) -> (b: bool)
    requires
        t.shape_ok(),
        t.arena().len() == bytes_in(t@.dom()),
        r@.name == name@,
        nul_free(name@),
    ensures
        b == has_room(t@, r@),
{
    proof {
        lemma_shape(*t);
    }
    match count_in_table(t, name) {
        Some(count) => count < u32::MAX,
        None => t.arena_len() as u64 <= u32::MAX as u64 && t.len() < MAX_ENTRIES,
    }
}

/// As many rows of stations as an inline-key table surely has room for.
pub fn table_spare(t: &InlineTable) -> (n: usize)
    requires
        t.wf(),
        t.arena().len() == bytes_in(t@.dom()),
    ensures
        forall|r: Seq<Record>|
            0 < r.len() <= n && all_covered(r, Names::Keyed) ==> #[trigger] fits(
                absorb_all(t@, r),
            ),
{
    proof {
        lemma_shape(*t);
    }
    let most = most_in_table(t);
    let n = spare_rows(t.len(), t.arena_len() as u64, most as u64);
    assert forall|r: Seq<Record>|
        0 < r.len() <= n && all_covered(r, Names::Keyed) implies #[trigger] fits(
        absorb_all(t@, r),
    ) by {
        lemma_plain(*t);
        lemma_absorb_plain(t@, r);
        lemma_absorb_bounds(t@, r, most as int);
    }
    n
}

/// As many more rows as `len` stations leave room for, with `bytes` of names between them and none
/// counted more than `most` times.
pub fn spare_rows(len: usize, bytes: u64, most: u64) -> (n: usize)
    ensures
        n <= BATCH,
        n > 0 ==> {
            &&& len + n <= MAX_ENTRIES
            &&& bytes + MAX_NAME_LEN * n <= u32::MAX
            &&& most + n <= u32::MAX
        },
{
    if len >= MAX_ENTRIES || bytes > u32::MAX as u64 || most >= u32::MAX as u64 {
        return 0;
    }
    let names: usize = MAX_ENTRIES - len;
    let left: u64 = u32::MAX as u64 - bytes;
    let room: u64 = left / (MAX_NAME_LEN as u64);
    assert(MAX_NAME_LEN * room <= left) by (nonlinear_arith)
        requires
            room == left / (MAX_NAME_LEN as u64),
            MAX_NAME_LEN == 100,
    ;
    let counts: u64 = u32::MAX as u64 - most;
    let mut n: usize = BATCH;
    if names < n {
        n = names;
    }
    if room < n as u64 {
        n = room as usize;
    }
    if counts < n as u64 {
        n = counts as usize;
    }
    n
}

/// As many rows as an offset-keyed table surely has room for.
pub fn offsets_spare(t: &Table, data: &[u8]) -> (n: usize)
    requires
        t.wf(data@),
    ensures
        n <= BATCH,
        forall|r: Seq<Record>|
            r.len() <= n ==> #[trigger] offsets_fit(
                Offsets { capacity: t.capacity(), tally: absorb_all(t.tally(data@), r) },
            ),
{
    proof {
        lemma_wf(*t, data@);
    }
    let most = most_in_offsets(t, data);
    let slots = t.max_len() - t.len();
    let counts = u32::MAX - most;
    let mut n: usize = BATCH;
    if slots < n {
        n = slots;
    }
    if counts < BATCH as u32 && (counts as usize) < n {
        n = counts as usize;
    }
    assert forall|r: Seq<Record>| r.len() <= n implies #[trigger] offsets_fit(
        Offsets { capacity: t.capacity(), tally: absorb_all(t.tally(data@), r) },
    ) by {
        lemma_absorb_bounds(t.tally(data@), r, most as int);
    }
    n
}

/// Whether an offset-keyed table has room for one more row, of the name at `pos`.
pub fn offsets_admit(
    t: &Table,
    data: &[u8],
    pos: usize,
    len: usize,
    hash: u64,
    r: Ghost<Record>,
) -> (b: bool)
    requires
        t.wf(data@),
        0 < len <= u32::MAX,
        pos + len <= data@.len(),
        r@.name == data@.subrange(pos as int, pos + len),
        t.agrees(data@, r@.name, hash),
    ensures
        b == offsets_room(*t, data@, r@),
{
    proof {
        lemma_wf(*t, data@);
    }
    match t.count_of(data, pos, len, hash) {
        Some(count) => count < u32::MAX,
        None => t.len() < t.max_len(),
    }
}

/// `N` line streams of a version's row, into an inline-key table.
pub struct Streams<const N: usize, R> {
    pub row: R,
}

impl<const N: usize, R: StationStep> Intake for Streams<N, R> {
    type Ctx = InlineTable;

    open spec fn ok(ctx: InlineTable, d: Seq<u8>) -> bool {
        stocked(ctx, R::hash())
    }

    open spec fn tally(ctx: InlineTable, d: Seq<u8>) -> Tally {
        ctx@
    }

    open spec fn names() -> Names {
        Names::Keyed
    }

    open spec fn accepts(ctx: InlineTable, d: Seq<u8>, r: Record) -> bool {
        has_room(ctx@, r)
    }

    open spec fn size(ctx: InlineTable) -> nat {
        0
    }

    open spec fn fits(size: nat, m: Tally) -> bool {
        fits(m)
    }

    open spec fn slack() -> int {
        TAIL_GUARD as int
    }

    open spec fn whole() -> bool {
        false
    }

    proof fn fits_less(size: nat, a: Tally, b: Tally) {
        lemma_fits_less(a, b);
    }

    proof fn has_its_room(ctx: InlineTable, d: Seq<u8>, r: Record) {
        lemma_fits_before(ctx@, r);
    }

    fn reads() -> (names: Names) {
        Names::Keyed
    }

    fn spare(ctx: &InlineTable, data: &[u8]) -> (n: usize) {
        table_spare(ctx)
    }

    fn admits(ctx: &InlineTable, data: &[u8], pos: usize, semi: usize) -> (b: bool) {
        let ghost r = record_at(data@, pos as int);
        assert(data.len() == data@.len());
        table_admits(ctx, slice_subrange(data, pos, semi), Ghost(r))
    }

    fn row(ctx: &mut InlineTable, data: &[u8], pos: usize, lim: usize) {
        proof {
            R::bounded();
        }
        R::feed(ctx, data, pos);
    }

    fn drain(ctx: &mut InlineTable, data: &[u8], start: usize, end: usize, lim: usize) {
        let ghost r = rows(data@, start as int, end as int);
        proof {
            R::bounded();
            lemma_run_is_absorb::<R>(ctx@, r);
            lemma_run_fits::<Stations<R>>(ctx@, r);
            lemma_rows_any(
                data@,
                start as int,
                end as int,
                lim as int,
                Names::Keyed,
                Names::Station,
            );
        }
        if N > 1 {
            streamed::<N, Stations<R>>(ctx, data, start, end);
        } else {
            serial::<Stations<R>>(ctx, data, start, end);
        }
    }
}

impl<const N: usize, R: StationStep> Buffered for Streams<N, R> {
    proof fn owns(ctx: InlineTable, a: Seq<u8>, b: Seq<u8>) {
    }

    proof fn reads_stations() {
    }
}

/// Takes in chunk `i` of an input that is in place as a whole.
pub fn take_chunk<I: Intake>(
    ctx: &mut I::Ctx,
    data: &[u8],
    i: usize,
    chunk_size: usize,
) -> (r: Outcome)
    requires
        I::ok(*old(ctx), data@),
        data@.len() < usize::MAX,
        I::slack() == 0,
    ensures
        I::ok(*final(ctx), data@),
        match bounds(data@, i as int, chunk_size as int) {
            Some((start, end)) => taken::<I>(
                *old(ctx),
                *final(ctx),
                data@,
                start as int,
                end as int,
                data@.len() as int,
                r,
            ),
            None => r == Outcome::Fed && *final(ctx) == *old(ctx),
        },
{
    match chunk_bounds(data, i, chunk_size) {
        Some((start, end)) => take_range::<I>(ctx, data, start, end, data.len()),
        None => Outcome::Fed,
    }
}

/// Takes in the chunk at `base` of the input, of which `buf` holds `avail` bytes, with slack
/// after them.
pub fn take_view<I: Intake>(
    ctx: &mut I::Ctx,
    buf: &[u8],
    avail: usize,
    base: usize,
    chunk_size: usize,
) -> (r: Outcome)
    requires
        I::ok(*old(ctx), buf@),
        avail + I::slack() <= buf@.len() < usize::MAX,
        I::slack() >= 0,
        !I::whole(),
    ensures
        I::ok(*final(ctx), buf@),
        match local(buf@.subrange(0, avail as int), base as int, chunk_size as int) {
            Some((start, end)) => taken::<I>(
                *old(ctx),
                *final(ctx),
                buf@,
                start as int,
                end as int,
                avail as int,
                r,
            ),
            None => r == Outcome::Fed && *final(ctx) == *old(ctx),
        },
{
    assert(buf.len() == buf@.len());
    let view = slice_subrange(buf, 0, avail);
    match local_bounds(view, base, chunk_size) {
        Some((start, end)) => take_range::<I>(ctx, buf, start, end, avail),
        None => Outcome::Fed,
    }
}

} // verus!
