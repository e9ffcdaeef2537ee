//! A map per worker, and nothing clever: find the `;`, parse, look the name up.

use crate::bytes::find_byte;
use crate::bytes::SEMICOLON;
use crate::engine::lemma_run_fits;
use crate::engine::run_all;
use crate::engine::serial;
use crate::engine::whole_line;
use crate::engine::Commuting;
use crate::engine::Engine;
use crate::engine::Step;
use crate::feed::counts_fit;
use crate::intake::most_in_merged;
use crate::intake::BATCH;
use crate::intake::Intake;
use crate::merge::lemma_counts;
use crate::merge::Merged;
use crate::parse::parse_temp;
use crate::rows::absorb;
use crate::rows::absorb_all;
use crate::rows::all_covered;
use crate::rows::law_absorb_any_order;
use crate::rows::lemma_absorb_bounds;
use crate::rows::lemma_absorb_modest;
use crate::rows::lemma_line_shape;
use crate::rows::modest;
use crate::rows::record_at;
use crate::rows::row_next;
use crate::rows::row_stop;
use crate::rows::rows;
use crate::rows::rows_as;
use crate::rows::Names;
use crate::rows::Record;
use crate::rows::Tally;
use vstd::prelude::*;
use vstd::slice::slice_subrange;

verus! {

/// One row: its measurement goes to its station's entry, or starts one.
pub fn step(data: &[u8], map: &mut Merged, pos: usize) -> (next: usize)
    requires
        old(map).wf(),
        modest(old(map)@),
        whole_line(data@, pos as int, Names::Any),
        pos <= data@.len() < usize::MAX,
        counts_fit(absorb(old(map)@, record_at(data@, pos as int))),
    ensures
        final(map).wf(),
        modest(final(map)@),
        final(map)@ == absorb(old(map)@, record_at(data@, pos as int)),
        next == row_next(data@, pos as int),
{
    let ghost r = record_at(data@, pos as int);
    assert(data.len() == data@.len());
    proof {
        lemma_line_shape(data@, pos as int, row_stop(data@, pos as int), Names::Any);
        lemma_absorb_modest(map@, r);
        assert(absorb(map@, r).contains_key(r.name));
    }
    let semi = find_byte(data, SEMICOLON, pos);
    let (value, next) = parse_temp(data, semi + 1);
    map.push(slice_subrange(data, pos, semi), value);
    next
}

/// The version's row, for the drivers.
pub struct Row;

impl Engine for Row {
    type Ctx = Merged;

    type S = Tally;

    open spec fn inv(ctx: Merged, d: Seq<u8>) -> bool {
        ctx.wf() && modest(ctx@)
    }

    open spec fn state(ctx: Merged, d: Seq<u8>) -> Tally {
        ctx@
    }

    open spec fn next(s: Tally, r: Record) -> Tally {
        absorb(s, r)
    }

    open spec fn accepts(s: Tally, r: Record) -> bool {
        counts_fit(absorb(s, r))
    }

    open spec fn reach() -> int {
        0
    }
}

impl Step for Row {
    open spec fn names() -> Names {
        Names::Any
    }

    fn step(ctx: &mut Merged, data: &[u8], pos: usize) -> (next: usize) {
        step(data, ctx, pos)
    }
}

impl Commuting for Row {
    open spec fn fits(s: Tally) -> bool {
        counts_fit(s)
    }

    proof fn swap(s: Tally, a: Record, b: Record) {
        law_absorb_any_order(s, a, b);
    }

    proof fn room(s: Tally, r: Record) {
        assert forall|name: Seq<u8>| #[trigger] s.contains_key(name) implies s[name].count
            <= u32::MAX by {
            assert(absorb(s, r).contains_key(name));
        }
    }
}

proof fn lemma_run_is_tally(m: Tally, rows: Seq<Record>)
    ensures
        run_all::<Row>(m, rows) == absorb_all(m, rows),
    decreases rows.len(),
{
    if rows.len() > 0 {
        lemma_run_is_tally(absorb(m, rows[0]), rows.drop_first());
    }
}

/// The rows of one chunk.
pub fn drain(map: &mut Merged, data: &[u8], start: usize, end: usize)
    requires
        old(map).wf(),
        modest(old(map)@),
        start <= end <= data@.len() < usize::MAX,
        rows_as(data@, start as int, end as int, data@.len() as int, Names::Any),
        counts_fit(absorb_all(old(map)@, rows(data@, start as int, end as int))),
    ensures
        final(map).wf(),
        modest(final(map)@),
        final(map)@ == absorb_all(old(map)@, rows(data@, start as int, end as int)),
{
    let ghost r = rows(data@, start as int, end as int);
    proof {
        lemma_run_is_tally(map@, r);
        lemma_run_fits::<Row>(map@, r);
    }
    serial::<Row>(map, data, start, end)
}

/// A chunk at a time, tested first.
pub struct Chunk;

impl Intake for Chunk {
    type Ctx = Merged;

    open spec fn ok(ctx: Merged, d: Seq<u8>) -> bool {
        ctx.wf() && modest(ctx@)
    }

    open spec fn tally(ctx: Merged, d: Seq<u8>) -> Tally {
        ctx@
    }

    open spec fn names() -> Names {
        Names::Any
    }

    open spec fn accepts(ctx: Merged, d: Seq<u8>, r: Record) -> bool {
        ctx@.contains_key(r.name) ==> ctx@[r.name].count < u32::MAX
    }

    open spec fn size(ctx: Merged) -> nat {
        0
    }

    open spec fn fits(size: nat, m: Tally) -> bool {
        counts_fit(m)
    }

    open spec fn slack() -> int {
        0
    }

    open spec fn whole() -> bool {
        true
    }

    proof fn fits_less(size: nat, a: Tally, b: Tally) {
        assert forall|name: Seq<u8>| #[trigger] a.contains_key(name) implies a[name].count
            <= u32::MAX by {
            assert(b.contains_key(name));
        }
    }

    proof fn has_its_room(ctx: Merged, d: Seq<u8>, r: Record) {
        assert(absorb(ctx@, r).contains_key(r.name));
    }

    fn reads() -> (names: Names) {
        Names::Any
    }

    fn spare(ctx: &Merged, data: &[u8]) -> (n: usize) {
        let most = most_in_merged(ctx);
        let counts = u32::MAX - most;
        let n: usize = if counts < BATCH as u32 {
            counts as usize
        } else {
            BATCH
        };
        let len = ctx.len();
        assert forall|r: Seq<Record>|
            0 < r.len() <= n && all_covered(r, Names::Any) implies counts_fit(
            #[trigger] absorb_all(ctx@, r),
        ) by {
            lemma_absorb_bounds(ctx@, r, most as int);
        }
        n
    }

    fn admits(ctx: &Merged, data: &[u8], pos: usize, semi: usize) -> (b: bool) {
        assert(data.len() == data@.len());
        match ctx.count_of(slice_subrange(data, pos, semi)) {
            Some(count) => count < u32::MAX,
            None => true,
        }
    }

    fn row(ctx: &mut Merged, data: &[u8], pos: usize, lim: usize) {
        proof {
            let r = record_at(data@, pos as int);
            lemma_counts(*ctx);
            assert forall|name: Seq<u8>| #[trigger] absorb(ctx@, r).contains_key(
                name,
            ) implies absorb(ctx@, r)[name].count <= u32::MAX by {
                if name != r.name {
                    assert(ctx@.contains_key(name));
                }
            }
        }
        step(data, ctx, pos);
    }

    fn drain(ctx: &mut Merged, data: &[u8], start: usize, end: usize, lim: usize) {
        self::drain(ctx, data, start, end);
    }
}

} // verus!
