//! The inline-key table: the name lives in the entry.
//!
//! Rows that start within the guard's length of the end go to an offset-keyed table instead,
//! since the inline probe reads past the name.

use crate::chunk::at_line_start;
use crate::chunk::lemma_resume;
use crate::chunk::resume_at;
use crate::engine::lemma_run_fits;
use crate::engine::serial;
use crate::engine::whole_line;
use crate::feed::at_hand;
use crate::feed::by_name_hash;
use crate::feed::counts_fit;
use crate::feed::fits;
use crate::feed::has_room;
use crate::feed::lemma_fits_before;
use crate::feed::lemma_fits_less;
use crate::feed::lemma_readable;
use crate::feed::lemma_room_is_fit;
use crate::feed::lemma_run_is_absorb;
use crate::feed::lemma_run_is_offsets;
use crate::feed::offsets_fit;
use crate::feed::offsets_of;
use crate::feed::offsets_room;
use crate::feed::put;
use crate::feed::shelved;
use crate::feed::stocked;
use crate::feed::LOOP_GUARD;
use crate::feed::Offsets;
use crate::feed::Shelf;
use crate::feed::StationStep;
use crate::feed::Stations;
use crate::inline_table::lemma_plain;
use crate::inline_table::lemma_shape;
use crate::inline_table::InlineTable;
use crate::intake::most_in_offsets;
use crate::intake::most_in_table;
use crate::intake::offsets_admit;
use crate::intake::spare_rows;
use crate::intake::table_admits;
use crate::intake::Intake;
use crate::keys::nul_free;
use crate::output::Summary;
use crate::parse::parse_temp_branchless;
use crate::rows::absorb;
use crate::rows::absorb_all;
use crate::rows::all_covered;
use crate::rows::joined;
use crate::rows::law_joined_parts;
use crate::rows::lemma_absorb_bounds;
use crate::rows::lemma_absorb_plain;
use crate::rows::lemma_absorbed_names;
use crate::rows::lemma_bytes_bound;
use crate::rows::lemma_bytes_subset;
use crate::rows::lemma_bytes_union;
use crate::rows::lemma_rows_any;
use crate::rows::lemma_rows_start;
use crate::rows::plain_names;
use crate::rows::record_at;
use crate::rows::row_next;
use crate::rows::rows;
use crate::rows::rows_ok;
use crate::rows::within;
use crate::rows::Names;
use crate::rows::Record;
use crate::rows::Tally;
use crate::swar::find_semi_and_hash;
use crate::swar::find_semi_and_hash_scalar;
use crate::swar::name_at;
use crate::swar::semi_at;
use crate::table::lemma_wf;
use crate::table::Table;
use crate::versions::v4::find_wide_end;
use crate::versions::v4::step_tail;
use crate::versions::v4::wide_end;
use crate::versions::v4::wide_limit;
use crate::versions::v4::TailRow;
use vstd::arithmetic::power2::pow2;
use vstd::prelude::*;
use vstd::slice::slice_subrange;

verus! {

/// Slots of the main table, as a power of two.
pub const TABLE_BITS: u32 = 16;

/// Slots of the table for the last rows of the file, as a power of two.
pub const TAIL_BITS: u32 = 8;

/// One worker's tables.
pub struct Tables {
    pub wide: InlineTable,
    pub tail: Table,
}

/// Each of `m`'s names is one that a row starting in the last bytes of the input has.
pub open spec fn from_the_tail(m: Tally, d: Seq<u8>) -> bool {
    forall|name: Seq<u8>| #[trigger]
        m.contains_key(name) ==> exists|p: int|
            wide_limit(d.len() as int) <= p < d.len() && #[trigger] name_at(d, p) == name
}

impl Tables {
    /// Both tables are sound over the input `d`, and the second holds only names from its end.
    pub open spec fn ok(&self, d: Seq<u8>) -> bool {
        &&& stocked(self.wide, by_name_hash())
        &&& shelved(self.tail, d, by_name_hash())
        &&& self.tail.capacity() == pow2(TAIL_BITS as nat)
        &&& from_the_tail(self.tail.tally(d), d)
        &&& plain_names(self.tail.tally(d))
    }

    /// What the tables have accumulated between them.
    pub open spec fn tally(&self, d: Seq<u8>) -> Tally {
        joined(self.wide@, self.tail.tally(d))
    }

    /// The table that a row goes to has room for it.
    pub open spec fn accepts(&self, d: Seq<u8>, r: Record) -> bool {
        if r.off < wide_limit(d.len() as int) {
            has_room(self.wide@, r)
        } else {
            offsets_room(self.tail, d, r)
        }
    }

    /// As many rows as there surely is room for.
    pub fn spare(&self, data: &[u8]) -> (n: usize)
        requires
            self.ok(data@),
        ensures
            forall|r: Seq<Record>|
                0 < r.len() <= n && all_covered(r, Names::Keyed) ==> #[trigger] fits(
                    absorb_all(self.tally(data@), r),
                ),
    {
        let ghost m = self.wide@;
        let ghost n = self.tail.tally(data@);
        let ghost both = self.tally(data@);
        proof {
            lemma_shape(self.wide);
            lemma_wf(self.tail, data@);
            lemma_bits();
            assert(both.dom() =~= m.dom().union(n.dom()));
            vstd::set_lib::lemma_len_union(m.dom(), n.dom());
            lemma_bytes_union(m.dom(), n.dom());
            assert forall|name: Seq<u8>| #[trigger] n.dom().contains(name) implies name.len()
                <= LOOP_GUARD by {
                assert(n.contains_key(name));
                let p = choose|p: int|
                    wide_limit(data@.len() as int) <= p < data@.len() && #[trigger] name_at(
                        data@,
                        p,
                    ) == name;
                crate::bytes::lemma_first_at(data@, crate::bytes::SEMICOLON, p);
            }
            lemma_bytes_bound(n.dom(), LOOP_GUARD as nat);
        }
        let len = self.wide.len() + self.tail.len();
        let a = most_in_table(&self.wide);
        let b = most_in_offsets(&self.tail, data);
        assert forall|name: Seq<u8>| #[trigger] both.contains_key(name) implies both[name].count
            <= a + b by {
            assert(m.contains_key(name) || n.contains_key(name));
        }
        let bytes = self.wide.arena_len() as u64;
        if bytes > u32::MAX as u64 {
            return 0;
        }
        let bytes = bytes + (LOOP_GUARD * self.tail.len()) as u64;
        let k = spare_rows(len, bytes, a as u64 + b as u64);
        assert forall|r: Seq<Record>|
            0 < r.len() <= k && all_covered(r, Names::Keyed) implies #[trigger] fits(
            absorb_all(both, r),
        ) by {
            lemma_plain(self.wide);
            lemma_absorb_plain(both, r);
            lemma_absorb_bounds(both, r, a + b);
        }
        k
    }

    /// Whether there is room for the row at `pos`.
    pub fn admits(&self, data: &[u8], pos: usize, semi: usize) -> (b: bool)
        requires
            self.ok(data@),
            pos <= semi < data@.len(),
            semi == semi_at(data@, pos as int),
            Names::Keyed.cover(name_at(data@, pos as int)),
        ensures
            b == self.accepts(data@, record_at(data@, pos as int)),
    {
        let ghost r = record_at(data@, pos as int);
        let ghost name = name_at(data@, pos as int);
        assert(data.len() == data@.len());
        if goes_wide(data, pos) {
            table_admits(&self.wide, slice_subrange(data, pos, semi), Ghost(r))
        } else {
            assert(data@.subrange(pos as int, pos + (semi - pos)) =~= name);
            assert(self.tail.agrees(data@, name, (by_name_hash())(name)));
            let hash = find_semi_and_hash_scalar(data, pos).1;
            offsets_admit(&self.tail, data, pos, semi - pos, hash, Ghost(r))
        }
    }

    /// Takes in the row at `pos`.
    pub fn row(&mut self, data: &[u8], pos: usize)
        requires
            old(self).ok(data@),
            pos < data@.len() < usize::MAX,
            whole_line(data@, pos as int, Names::Keyed),
            old(self).accepts(data@, record_at(data@, pos as int)),
        ensures
            final(self).ok(data@),
            final(self).tally(data@) == absorb(
                old(self).tally(data@),
                record_at(data@, pos as int),
            ),
    {
        let ghost d = data@;
        let ghost r = record_at(d, pos as int);
        let ghost m = self.wide@;
        let ghost n = self.tail.tally(d);
        let ghost one = seq![r];
        let ghost none = Seq::<Record>::empty();
        proof {
            assert(one.drop_first() =~= none);
            assert(absorb_all(absorb(m, r), none) == absorb(m, r));
            assert(absorb_all(absorb(n, r), none) == absorb(n, r));
            assert(absorb_all(absorb(joined(m, n), r), none) == absorb(joined(m, n), r));
            assert(one + none =~= one);
            assert(none + one =~= one);
            law_joined_parts(m, n, one, none);
            law_joined_parts(m, n, none, one);
        }
        if goes_wide(data, pos) {
            step(data, &mut self.wide, pos);
        } else {
            proof {
                lemma_wf(self.tail, d);
                lemma_room_is_fit(self.tail, d, r);
            }
            step_tail(data, &mut self.tail, pos);
            assert forall|name: Seq<u8>| #[trigger] absorb(n, r).contains_key(
                name,
            ) implies exists|p: int|
                wide_limit(d.len() as int) <= p < d.len() && #[trigger] name_at(d, p) == name by {
                if name == r.name {
                    assert(name_at(d, pos as int) == name);
                } else {
                    assert(n.contains_key(name));
                }
            }
        }
    }

    pub fn new() -> (t: Self)
        ensures
            forall|d: Seq<u8>| #[trigger]
                t.ok(d) && t.tally(d) == Map::<Seq<u8>, Summary>::empty(),
    {
        proof {
            lemma_bits();
        }
        let t = Tables { wide: InlineTable::new(TABLE_BITS), tail: Table::new(TAIL_BITS) };
        assert forall|d: Seq<u8>| #[trigger]
            t.ok(d) && t.tally(d) == Map::<Seq<u8>, Summary>::empty() by {
            assert(t.tail.wf(d));
            assert(t.tally(d) =~= Map::<Seq<u8>, Summary>::empty());
        }
        t
    }
}

/// Whether the row at `pos` can be read wide.
pub fn goes_wide(data: &[u8], pos: usize) -> (b: bool)
    ensures
        b == (pos < wide_limit(data@.len() as int)),
{
    data.len() >= LOOP_GUARD && pos < data.len() - LOOP_GUARD
}

proof fn lemma_bits()
    ensures
        TABLE_BITS < usize::BITS,
        TAIL_BITS < usize::BITS,
        pow2(TAIL_BITS as nat) == 256,
{
    vstd::arithmetic::power2::lemma2_to64();
}

/// One row: the fused scan, the branchless parse, and the inline-key upsert.
#[inline(always)]
pub fn step(data: &[u8], table: &mut InlineTable, pos: usize) -> (next: usize)
    requires
        stocked(*old(table), by_name_hash()),
        at_hand(*old(table), data@, pos as int, LOOP_GUARD as int),
    ensures
        stocked(*final(table), by_name_hash()),
        final(table)@ == absorb(old(table)@, record_at(data@, pos as int)),
        next == row_next(data@, pos as int),
{
    proof {
        lemma_readable(data@, pos as int);
    }
    let (semi, hash) = find_semi_and_hash(data, pos);
    let (value, next) = parse_temp_branchless(data, semi + 1);
    put(table, data, pos, semi, hash, value, Ghost(by_name_hash()));
    next
}

/// The version's row, for the drivers.
pub struct Row;

impl StationStep for Row {
    open spec fn hash() -> spec_fn(Seq<u8>) -> u64 {
        by_name_hash()
    }

    open spec fn reach() -> int {
        LOOP_GUARD as int
    }

    proof fn bounded() {
    }

    #[inline(always)]
    fn feed(table: &mut InlineTable, data: &[u8], pos: usize) -> (next: usize) {
        step(data, table, pos)
    }
}

/// The rows of one chunk: the inline-key table while the slack lasts, and the rest, a byte at a
/// time, into the other.
pub fn drain(tables: &mut Tables, data: &[u8], start: usize, end: usize)
    requires
        old(tables).ok(data@),
        start <= end <= data@.len() < usize::MAX,
        at_line_start(data@, end as int),
        rows_ok(data@, start as int, end as int, data@.len() as int),
        fits(absorb_all(old(tables).tally(data@), rows(data@, start as int, end as int))),
    ensures
        final(tables).ok(data@),
        final(tables).tally(data@) == absorb_all(
            old(tables).tally(data@),
            rows(data@, start as int, end as int),
        ),
{
    let ghost d = data@;
    let wide = find_wide_end(data, start, end);
    let rest = resume_at(data, start, wide);
    let ghost a = rows(d, start as int, wide as int);
    let ghost b = rows(d, rest as int, end as int);
    proof {
        lemma_resume(d, start as int, wide as int, end as int, Names::Station);
        lemma_parts_fit(tables.wide@, tables.tail.tally(d), d, start as int, end as int);
        lemma_run_is_absorb::<Row>(tables.wide@, a);
        lemma_run_fits::<Stations<Row>>(tables.wide@, a);
    }
    if start < wide {
        serial::<Stations<Row>>(&mut tables.wide, data, start, wide);
    } else {
        assert(a =~= seq![]);
    }
    drain_tail(&mut tables.tail, data, rest, end);
}

/// The last rows of the file, a byte at a time.
pub fn drain_tail(tail: &mut Table, data: &[u8], start: usize, end: usize)
    requires
        shelved(*old(tail), data@, by_name_hash()),
        start <= end <= data@.len() < usize::MAX,
        rows_ok(data@, start as int, end as int, data@.len() as int),
        offsets_fit(
            Offsets {
                capacity: old(tail).capacity(),
                tally: absorb_all(old(tail).tally(data@), rows(data@, start as int, end as int)),
            },
        ),
    ensures
        shelved(*final(tail), data@, by_name_hash()),
        final(tail).capacity() == old(tail).capacity(),
        final(tail).tally(data@) == absorb_all(
            old(tail).tally(data@),
            rows(data@, start as int, end as int),
        ),
{
    let ghost s = offsets_of(*tail, data@);
    let ghost r = rows(data@, start as int, end as int);
    proof {
        lemma_rows_any(
            data@,
            start as int,
            end as int,
            data@.len() as int,
            Names::Station,
            Names::Held,
        );
        lemma_run_is_offsets::<TailRow>(s, r);
        lemma_run_fits::<Shelf<TailRow>>(s, r);
    }
    serial::<Shelf<TailRow>>(tail, data, start, end);
}

/// What fits both tables together fits each, and the last rows never fill the second.
pub proof fn lemma_parts_fit(m: Tally, n: Tally, d: Seq<u8>, start: int, end: int)
    requires
        0 <= start <= end <= d.len(),
        rows_ok(d, start, end, d.len() as int),
        at_line_start(d, end),
        from_the_tail(n, d),
        fits(absorb_all(joined(m, n), rows(d, start, end))),
    ensures
        ({
            let wide = wide_end(d.len() as int, start, end);
            let rest = if start == wide {
                start
            } else {
                crate::chunk::line_start_after(d, wide - 1)
            };
            let a = rows(d, start, wide);
            let b = rows(d, rest, end);
            &&& fits(absorb_all(m, a))
            &&& offsets_fit(
                Offsets { capacity: pow2(TAIL_BITS as nat), tally: absorb_all(n, b) },
            )
            &&& from_the_tail(absorb_all(n, b), d)
            &&& plain_names(absorb_all(n, b))
            &&& joined(absorb_all(m, a), absorb_all(n, b)) == absorb_all(
                joined(m, n),
                rows(d, start, end),
            )
        }),
{
    let wide = wide_end(d.len() as int, start, end);
    let rest = if start == wide {
        start
    } else {
        crate::chunk::line_start_after(d, wide - 1)
    };
    let a = rows(d, start, wide);
    let b = rows(d, rest, end);
    lemma_resume(d, start, wide, end, Names::Station);
    law_joined_parts(m, n, a, b);
    let x = absorb_all(m, a);
    let y = absorb_all(n, b);
    let both = joined(x, y);
    assert(x.dom().subset_of(both.dom()));
    assert(y.dom().subset_of(both.dom()));
    vstd::set_lib::lemma_len_subset(x.dom(), both.dom());
    lemma_bytes_subset(x.dom(), both.dom());
    vstd::set_lib::lemma_len_subset(y.dom(), both.dom());
    assert(plain_names(x) && plain_names(y)) by {
        assert forall|name: Seq<u8>| #[trigger] x.contains_key(name) implies nul_free(name) by {
            assert(both.contains_key(name));
        }
        assert forall|name: Seq<u8>| #[trigger] y.contains_key(name) implies nul_free(name) by {
            assert(both.contains_key(name));
        }
    }
    assert(counts_fit(x)) by {
        assert forall|name: Seq<u8>| #[trigger] x.contains_key(name) implies x[name].count
            <= u32::MAX by {
            assert(both.contains_key(name));
        }
    }
    assert(counts_fit(y)) by {
        assert forall|name: Seq<u8>| #[trigger] y.contains_key(name) implies y[name].count
            <= u32::MAX by {
            assert(both.contains_key(name));
        }
    }
    assert(from_the_tail(y, d)) by {
        assert forall|name: Seq<u8>| #[trigger] y.contains_key(name) implies exists|p: int|
            wide_limit(d.len() as int) <= p < d.len() && #[trigger] name_at(d, p) == name by {
            lemma_absorbed_names(n, b, name);
            if !n.contains_key(name) {
                let i = choose|i: int| 0 <= i < b.len() && (#[trigger] b[i]).name == name;
                lemma_rows_start(d, rest, end, i);
                assert(name_at(d, b[i].off) == name);
            }
        }
    }
    lemma_few_names(y.dom(), d, wide_limit(d.len() as int), d.len() as int);
    lemma_bits();
}

/// Where what the tables hold fits with one more row, the table that the row goes to has room.
pub proof fn lemma_tables_room(t: Tables, d: Seq<u8>, r: Record)
    requires
        t.ok(d),
        0 <= r.off < d.len(),
        r == record_at(d, r.off),
        fits(absorb(t.tally(d), r)),
    ensures
        t.accepts(d, r),
{
    let m = t.wide@;
    let n = t.tail.tally(d);
    let all = absorb(t.tally(d), r);
    assert(all.contains_key(r.name));
    if r.off < wide_limit(d.len() as int) {
        assert(within(absorb(m, r), all));
        lemma_fits_less(absorb(m, r), all);
        lemma_fits_before(m, r);
    } else {
        assert(n.contains_key(r.name) ==> t.tally(d).contains_key(r.name));
        let names = n.dom().insert(r.name);
        assert forall|name: Seq<u8>| #[trigger] names.contains(name) implies exists|p: int|
            wide_limit(d.len() as int) <= p < d.len() && #[trigger] name_at(d, p) == name by {
            if name == r.name {
                assert(name_at(d, r.off) == name);
            } else {
                assert(n.contains_key(name));
            }
        }
        lemma_few_names(names, d, wide_limit(d.len() as int), d.len() as int);
        lemma_wf(t.tail, d);
        lemma_bits();
    }
}

/// There are no more names than places where they can start.
proof fn lemma_few_names(names: Set<Seq<u8>>, d: Seq<u8>, lo: int, hi: int)
    requires
        lo <= hi,
        forall|name: Seq<u8>| #[trigger]
            names.contains(name) ==> exists|p: int| lo <= p < hi && #[trigger] name_at(d, p) == name,
    ensures
        names.finite(),
        names.len() <= hi - lo,
    decreases hi - lo,
{
    if lo == hi {
        assert(names =~= Set::empty());
    } else {
        let x = name_at(d, hi - 1);
        let rest = names.remove(x);
        assert forall|name: Seq<u8>| #[trigger] rest.contains(name) implies exists|p: int|
            lo <= p < hi - 1 && #[trigger] name_at(d, p) == name by {
            assert(names.contains(name));
            let p = choose|p: int| lo <= p < hi && #[trigger] name_at(d, p) == name;
            assert(name_at(d, p) == name);
        }
        lemma_few_names(rest, d, lo, hi - 1);
        if names.contains(x) {
            assert(names =~= rest.insert(x));
        } else {
            assert(names =~= rest);
        }
    }
}

/// A chunk at a time, tested first.
pub struct Chunk;

impl Intake for Chunk {
    type Ctx = Tables;

    open spec fn ok(ctx: Tables, d: Seq<u8>) -> bool {
        ctx.ok(d)
    }

    open spec fn tally(ctx: Tables, d: Seq<u8>) -> Tally {
        ctx.tally(d)
    }

    open spec fn names() -> Names {
        Names::Keyed
    }

    open spec fn accepts(ctx: Tables, d: Seq<u8>, r: Record) -> bool {
        ctx.accepts(d, r)
    }

    open spec fn size(ctx: Tables) -> nat {
        0
    }

    open spec fn fits(size: nat, m: Tally) -> bool {
        fits(m)
    }

    open spec fn slack() -> int {
        0
    }

    open spec fn whole() -> bool {
        true
    }

    proof fn fits_less(size: nat, a: Tally, b: Tally) {
        lemma_fits_less(a, b);
    }

    proof fn has_its_room(ctx: Tables, d: Seq<u8>, r: Record) {
        lemma_tables_room(ctx, d, r);
    }

    fn reads() -> (names: Names) {
        Names::Keyed
    }

    fn spare(ctx: &Tables, data: &[u8]) -> (n: usize) {
        ctx.spare(data)
    }

    fn admits(ctx: &Tables, data: &[u8], pos: usize, semi: usize) -> (b: bool) {
        ctx.admits(data, pos, semi)
    }

    fn row(ctx: &mut Tables, data: &[u8], pos: usize, lim: usize) {
        ctx.row(data, pos);
    }

    fn drain(ctx: &mut Tables, data: &[u8], start: usize, end: usize, lim: usize) {
        proof {
            lemma_rows_any(
                data@,
                start as int,
                end as int,
                lim as int,
                Names::Keyed,
                Names::Station,
            );
        }
        self::drain(ctx, data, start, end);
    }
}

} // verus!
