//! Pipelined: three line streams walked at once, so that their dependency chains overlap.

use crate::chunk::at_line_start;
use crate::chunk::lemma_resume;
use crate::chunk::resume_at;
use crate::engine::streamed;
use crate::feed::fits;
use crate::feed::lemma_fits_less;
use crate::feed::lemma_run_is_absorb;
use crate::feed::Stations;
use crate::intake::Intake;
use crate::rows::absorb_all;
use crate::rows::lemma_rows_any;
use crate::rows::rows;
use crate::rows::rows_ok;
use crate::rows::Names;
use crate::rows::Record;
use crate::rows::Tally;
use crate::versions::v4::find_wide_end;
use crate::versions::v6::drain_tail;
use crate::versions::v6::lemma_parts_fit;
use crate::versions::v6::lemma_tables_room;
use crate::versions::v6::Row;
use crate::versions::v6::Tables;
use vstd::prelude::*;

verus! {

/// Line streams walked at once.
pub const STREAMS: usize = 3;

/// The rows of one chunk: in streams while the slack lasts, and from the first row after them a
/// byte at a time.
pub fn drain(tables: &mut Tables, data: &[u8], start: usize, end: usize)
    requires
        old(tables).ok(data@),
        start <= end <= data@.len() < usize::MAX,
        at_line_start(data@, end as int),
        rows_ok(data@, start as int, end as int, data@.len() as int),
        fits(absorb_all(old(tables).tally(data@), rows(data@, start as int, end as int))),
    ensures
        final(tables).ok(data@),
        final(tables).tally(data@) == absorb_all(
            old(tables).tally(data@),
            rows(data@, start as int, end as int),
        ),
{
    let ghost d = data@;
    let wide = find_wide_end(data, start, end);
    let rest = resume_at(data, start, wide);
    let ghost a = rows(d, start as int, wide as int);
    proof {
        lemma_resume(d, start as int, wide as int, end as int, Names::Station);
        lemma_parts_fit(tables.wide@, tables.tail.tally(d), d, start as int, end as int);
        lemma_run_is_absorb::<Row>(tables.wide@, a);
    }
    if start < wide {
        streamed::<STREAMS, Stations<Row>>(&mut tables.wide, data, start, wide);
    } else {
        assert(a =~= seq![]);
    }
    drain_tail(&mut tables.tail, data, rest, end);
}

/// A chunk at a time, tested first.
pub struct Chunk;

impl Intake for Chunk {
    type Ctx = Tables;

    open spec fn ok(ctx: Tables, d: Seq<u8>) -> bool {
        ctx.ok(d)
    }

    open spec fn tally(ctx: Tables, d: Seq<u8>) -> Tally {
        ctx.tally(d)
    }

    open spec fn names() -> Names {
        Names::Keyed
    }

    open spec fn accepts(ctx: Tables, d: Seq<u8>, r: Record) -> bool {
        ctx.accepts(d, r)
    }

    open spec fn size(ctx: Tables) -> nat {
        0
    }

    open spec fn fits(size: nat, m: Tally) -> bool {
        fits(m)
    }

    open spec fn slack() -> int {
        0
    }

    open spec fn whole() -> bool {
        true
    }

    proof fn fits_less(size: nat, a: Tally, b: Tally) {
        lemma_fits_less(a, b);
    }

    proof fn has_its_room(ctx: Tables, d: Seq<u8>, r: Record) {
        lemma_tables_room(ctx, d, r);
    }

    fn reads() -> (names: Names) {
        Names::Keyed
    }

    fn spare(ctx: &Tables, data: &[u8]) -> (n: usize) {
        ctx.spare(data)
    }

    fn admits(ctx: &Tables, data: &[u8], pos: usize, semi: usize) -> (b: bool) {
        ctx.admits(data, pos, semi)
    }

    fn row(ctx: &mut Tables, data: &[u8], pos: usize, lim: usize) {
        ctx.row(data, pos);
    }

    fn drain(ctx: &mut Tables, data: &[u8], start: usize, end: usize, lim: usize) {
        proof {
            lemma_rows_any(
                data@,
                start as int,
                end as int,
                lim as int,
                Names::Keyed,
                Names::Station,
            );
        }
        self::drain(ctx, data, start, end);
    }
}

} // verus!
