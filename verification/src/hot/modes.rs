//! The modes by name, the scratch each needs, and the dispatch.

use crate::engine::accepts_all;
use crate::engine::holds_rows;
use crate::engine::lemma_run_fits;
use crate::engine::run_all;
use crate::engine::serial;
use crate::engine::streamed;
use crate::engine::Commuting;
use crate::engine::Engine;
use crate::feed::by_name_hash;
use crate::feed::by_raw_hash;
use crate::feed::offsets_fit;
use crate::feed::offsets_of;
use crate::feed::shelved;
use crate::feed::stocked;
use crate::feed::TAIL_GUARD;
use crate::hot::borrowed::streamed_hot;
use crate::hot::count::law_counted_run;
use crate::hot::count::law_same_sink;
use crate::hot::count::lemma_xor_swap;
use crate::hot::count::sinks;
use crate::hot::count::Counted;
use crate::hot::count::Counter;
use crate::hot::count::Sunk;
use crate::hot::count::TakeStep;
use crate::hot::drain::drain_delims;
use crate::hot::drain::drain_newlines;
use crate::hot::rows::law_inline_run;
use crate::hot::rows::racked;
use crate::hot::rows::FhashOnly;
use crate::hot::rows::Full;
use crate::hot::rows::FullFlat;
use crate::hot::rows::FullInline;
use crate::hot::rows::FullKeyed;
use crate::hot::rows::FullKeyedWin;
use crate::hot::rows::FullRaw;
use crate::hot::rows::HashOnly;
use crate::hot::rows::Inline;
use crate::hot::rows::InlineSink;
use crate::hot::rows::Nocmp;
use crate::hot::rows::PairNokey;
use crate::hot::rows::PairNostats;
use crate::hot::rows::PairRows;
use crate::hot::rows::PairTable;
use crate::hot::rows::ParseOnly;
use crate::hot::rows::Plain;
use crate::hot::rows::RowFlat;
use crate::hot::rows::RowLen;
use crate::hot::rows::RowTable;
use crate::hot::split::stream_rows;
use crate::hot::split::streamed_split;
use crate::hot::sweep::blocks_folded;
use crate::hot::sweep::mask;
use crate::hot::sweep::touch;
use crate::hot::sweep::words_folded;
use crate::hot::sweep::BlockSink;
use crate::hot::sweep::Delims;
use crate::hot::sweep::Newlines;
use crate::hot::sweep::Semis;
use crate::inline_table::InlineTable;
use crate::rows::rows;
use crate::rows::rows_ok;
use crate::rows::Record;
use crate::table::Table;
use vstd::arithmetic::power2::pow2;
use vstd::prelude::*;

verus! {

/// What is done with the rows of a chunk. A number is how many line streams are walked at once,
/// with 0 for the serial chain.
#[derive(Clone, Copy)]
pub enum Mode {
    /// XOR-reduce the bytes.
    Touch,
    /// Locate `;` with SWAR and parse, no branches.
    Parse(usize),
    /// Fold the name into a hash as well, in a fused scan.
    Hash,
    /// Upsert into the offset-keyed table as well.
    Table(usize),
    /// Upsert into the inline-key table instead.
    Itable(usize),
    /// [`Hash`](Mode::Hash) with the fixed 16-byte scan.
    Fhash(usize),
    /// [`Itable`](Mode::Itable) with the fixed 16-byte scan.
    Flat(usize),
    /// [`Flat`](Mode::Flat) without the hash's final avalanche.
    Raw(usize),
    /// [`Raw`](Mode::Raw) with the probe key taken from the scan.
    Keyed(usize),
    /// [`Table`](Mode::Table) with the key comparison removed.
    NoCompare,
    /// Delimiter bitmaps only.
    Mask,
    /// The `;` bitmap only.
    MaskSemi,
    /// The newline bitmap only.
    MaskNl,
    /// Rows driven by the newline bitmap: scan, hash and parse.
    NlRows,
    /// [`NlRows`](Mode::NlRows) that spends the row's end on the parse.
    NlParse,
    /// [`NlParse`](Mode::NlParse) with the upsert.
    NlTable,
    /// Rows driven by both bitmaps: hash and parse, no scan.
    DlRows,
    /// [`DlRows`](Mode::DlRows) with the upsert.
    DlTable,
    /// [`DlTable`](Mode::DlTable) with the key dropped.
    DlNoKey,
    /// [`DlTable`](Mode::DlTable) with the accumulate dropped.
    DlNoStats,
    /// [`Keyed`](Mode::Keyed) with its loads fetched as fixed windows.
    Win(usize),
    /// [`Keyed`](Mode::Keyed) against borrowed slots.
    Hdr(usize),
    /// Both [`Win`](Mode::Win) and [`Hdr`](Mode::Hdr).
    Hot(usize),
    /// [`Table`](Mode::Table) with a table to each stream.
    Split(usize),
}

/// The mode that goes by `name`.
pub open spec fn mode_named(name: Seq<char>) -> Option<Mode> {
    if name == "touch"@ {
        Some(Mode::Touch)
    } else if name == "parse"@ {
        Some(Mode::Parse(0))
    } else if name == "parse2"@ {
        Some(Mode::Parse(2))
    } else if name == "parse3"@ {
        Some(Mode::Parse(3))
    } else if name == "parse4"@ {
        Some(Mode::Parse(4))
    } else if name == "parse8"@ {
        Some(Mode::Parse(8))
    } else if name == "hash"@ {
        Some(Mode::Hash)
    } else if name == "table"@ {
        Some(Mode::Table(0))
    } else if name == "table2"@ {
        Some(Mode::Table(2))
    } else if name == "table3"@ {
        Some(Mode::Table(3))
    } else if name == "table4"@ {
        Some(Mode::Table(4))
    } else if name == "table8"@ {
        Some(Mode::Table(8))
    } else if name == "itable"@ {
        Some(Mode::Itable(0))
    } else if name == "itable2"@ {
        Some(Mode::Itable(2))
    } else if name == "itable3"@ {
        Some(Mode::Itable(3))
    } else if name == "itable4"@ {
        Some(Mode::Itable(4))
    } else if name == "itable8"@ {
        Some(Mode::Itable(8))
    } else if name == "fhash"@ {
        Some(Mode::Fhash(0))
    } else if name == "fhash2"@ {
        Some(Mode::Fhash(2))
    } else if name == "fhash4"@ {
        Some(Mode::Fhash(4))
    } else if name == "flat"@ {
        Some(Mode::Flat(0))
    } else if name == "flat2"@ {
        Some(Mode::Flat(2))
    } else if name == "flat3"@ {
        Some(Mode::Flat(3))
    } else if name == "flat4"@ {
        Some(Mode::Flat(4))
    } else if name == "raw"@ {
        Some(Mode::Raw(0))
    } else if name == "raw2"@ {
        Some(Mode::Raw(2))
    } else if name == "raw3"@ {
        Some(Mode::Raw(3))
    } else if name == "raw4"@ {
        Some(Mode::Raw(4))
    } else if name == "keyed"@ {
        Some(Mode::Keyed(0))
    } else if name == "keyed2"@ {
        Some(Mode::Keyed(2))
    } else if name == "keyed3"@ {
        Some(Mode::Keyed(3))
    } else if name == "keyed4"@ {
        Some(Mode::Keyed(4))
    } else if name == "keyed5"@ {
        Some(Mode::Keyed(5))
    } else if name == "keyed6"@ {
        Some(Mode::Keyed(6))
    } else if name == "keyed8"@ {
        Some(Mode::Keyed(8))
    } else if name == "nocmp"@ {
        Some(Mode::NoCompare)
    } else if name == "mask"@ {
        Some(Mode::Mask)
    } else if name == "mask_semi"@ {
        Some(Mode::MaskSemi)
    } else if name == "mask_nl"@ {
        Some(Mode::MaskNl)
    } else if name == "nlrows"@ {
        Some(Mode::NlRows)
    } else if name == "nlparse"@ {
        Some(Mode::NlParse)
    } else if name == "nltable"@ {
        Some(Mode::NlTable)
    } else if name == "dlrows"@ {
        Some(Mode::DlRows)
    } else if name == "dltable"@ {
        Some(Mode::DlTable)
    } else if name == "dlnokey"@ {
        Some(Mode::DlNoKey)
    } else if name == "dlnostats"@ {
        Some(Mode::DlNoStats)
    } else if name == "win2"@ {
        Some(Mode::Win(2))
    } else if name == "win3"@ {
        Some(Mode::Win(3))
    } else if name == "hdr2"@ {
        Some(Mode::Hdr(2))
    } else if name == "hdr3"@ {
        Some(Mode::Hdr(3))
    } else if name == "hot1"@ {
        Some(Mode::Hot(1))
    } else if name == "hot2"@ {
        Some(Mode::Hot(2))
    } else if name == "hot3"@ {
        Some(Mode::Hot(3))
    } else if name == "hot4"@ {
        Some(Mode::Hot(4))
    } else if name == "split2"@ {
        Some(Mode::Split(2))
    } else if name == "split4"@ {
        Some(Mode::Split(4))
    } else if name == "split8"@ {
        Some(Mode::Split(8))
    } else {
        None
    }
}

/// Whether a name is `text`.
fn is(name: &str, text: &str) -> (r: bool)
    ensures
        r == (name@ == text@),
{
    name.to_owned() == text.to_owned()
}

impl Mode {
    /// There is such a mode.
    pub open spec fn known(self) -> bool {
        match self {
            Mode::Parse(n) => n == 0 || n == 2 || n == 3 || n == 4 || n == 8,
            Mode::Table(n) => n == 0 || n == 2 || n == 3 || n == 4 || n == 8,
            Mode::Itable(n) => n == 0 || n == 2 || n == 3 || n == 4 || n == 8,
            Mode::Fhash(n) => n == 0 || n == 2 || n == 4,
            Mode::Flat(n) => n == 0 || n == 2 || n == 3 || n == 4,
            Mode::Raw(n) => n == 0 || n == 2 || n == 3 || n == 4,
            Mode::Keyed(n) => n == 0 || n == 2 || n == 3 || n == 4 || n == 5 || n == 6 || n == 8,
            Mode::Win(n) => n == 2 || n == 3,
            Mode::Hdr(n) => n == 2 || n == 3,
            Mode::Hot(n) => n == 1 || n == 2 || n == 3 || n == 4,
            Mode::Split(n) => n == 2 || n == 4 || n == 8,
            _ => true,
        }
    }

    /// The mode that goes by `name`, if there is one.
    pub fn parse(name: &str) -> (r: Option<Mode>)
        ensures
            r == mode_named(name@),
            r matches Some(m) ==> m.known(),
    {
        if is(name, "touch") {
            return Some(Mode::Touch);
        }
        if is(name, "parse") {
            return Some(Mode::Parse(0));
        }
        if is(name, "parse2") {
            return Some(Mode::Parse(2));
        }
        if is(name, "parse3") {
            return Some(Mode::Parse(3));
        }
        if is(name, "parse4") {
            return Some(Mode::Parse(4));
        }
        if is(name, "parse8") {
            return Some(Mode::Parse(8));
        }
        if is(name, "hash") {
            return Some(Mode::Hash);
        }
        if is(name, "table") {
            return Some(Mode::Table(0));
        }
        if is(name, "table2") {
            return Some(Mode::Table(2));
        }
        if is(name, "table3") {
            return Some(Mode::Table(3));
        }
        if is(name, "table4") {
            return Some(Mode::Table(4));
        }
        if is(name, "table8") {
            return Some(Mode::Table(8));
        }
        if is(name, "itable") {
            return Some(Mode::Itable(0));
        }
        if is(name, "itable2") {
            return Some(Mode::Itable(2));
        }
        if is(name, "itable3") {
            return Some(Mode::Itable(3));
        }
        if is(name, "itable4") {
            return Some(Mode::Itable(4));
        }
        if is(name, "itable8") {
            return Some(Mode::Itable(8));
        }
        if is(name, "fhash") {
            return Some(Mode::Fhash(0));
        }
        if is(name, "fhash2") {
            return Some(Mode::Fhash(2));
        }
        if is(name, "fhash4") {
            return Some(Mode::Fhash(4));
        }
        if is(name, "flat") {
            return Some(Mode::Flat(0));
        }
        if is(name, "flat2") {
            return Some(Mode::Flat(2));
        }
        if is(name, "flat3") {
            return Some(Mode::Flat(3));
        }
        if is(name, "flat4") {
            return Some(Mode::Flat(4));
        }
        if is(name, "raw") {
            return Some(Mode::Raw(0));
        }
        if is(name, "raw2") {
            return Some(Mode::Raw(2));
        }
        if is(name, "raw3") {
            return Some(Mode::Raw(3));
        }
        if is(name, "raw4") {
            return Some(Mode::Raw(4));
        }
        if is(name, "keyed") {
            return Some(Mode::Keyed(0));
        }
        if is(name, "keyed2") {
            return Some(Mode::Keyed(2));
        }
        if is(name, "keyed3") {
            return Some(Mode::Keyed(3));
        }
        if is(name, "keyed4") {
            return Some(Mode::Keyed(4));
        }
        if is(name, "keyed5") {
            return Some(Mode::Keyed(5));
        }
        if is(name, "keyed6") {
            return Some(Mode::Keyed(6));
        }
        if is(name, "keyed8") {
            return Some(Mode::Keyed(8));
        }
        if is(name, "nocmp") {
            return Some(Mode::NoCompare);
        }
        if is(name, "mask") {
            return Some(Mode::Mask);
        }
        if is(name, "mask_semi") {
            return Some(Mode::MaskSemi);
        }
        if is(name, "mask_nl") {
            return Some(Mode::MaskNl);
        }
        if is(name, "nlrows") {
            return Some(Mode::NlRows);
        }
        if is(name, "nlparse") {
            return Some(Mode::NlParse);
        }
        if is(name, "nltable") {
            return Some(Mode::NlTable);
        }
        if is(name, "dlrows") {
            return Some(Mode::DlRows);
        }
        if is(name, "dltable") {
            return Some(Mode::DlTable);
        }
        if is(name, "dlnokey") {
            return Some(Mode::DlNoKey);
        }
        if is(name, "dlnostats") {
            return Some(Mode::DlNoStats);
        }
        if is(name, "win2") {
            return Some(Mode::Win(2));
        }
        if is(name, "win3") {
            return Some(Mode::Win(3));
        }
        if is(name, "hdr2") {
            return Some(Mode::Hdr(2));
        }
        if is(name, "hdr3") {
            return Some(Mode::Hdr(3));
        }
        if is(name, "hot1") {
            return Some(Mode::Hot(1));
        }
        if is(name, "hot2") {
            return Some(Mode::Hot(2));
        }
        if is(name, "hot3") {
            return Some(Mode::Hot(3));
        }
        if is(name, "hot4") {
            return Some(Mode::Hot(4));
        }
        if is(name, "split2") {
            return Some(Mode::Split(2));
        }
        if is(name, "split4") {
            return Some(Mode::Split(4));
        }
        if is(name, "split8") {
            return Some(Mode::Split(8));
        }
        None
    }

    /// The mode keys its table by offset into the input. Over a buffer that is recycled every
    /// chunk the keys of the previous chunk would become garbage, so such a mode needs the whole
    /// input in place.
    pub open spec fn spec_offset_keyed(self) -> bool {
        self is Table || self is Split || self is NoCompare
    }

    pub fn offset_keyed(self) -> (r: bool)
        ensures
            r == self.spec_offset_keyed(),
    {
        match self {
            Mode::Table(_) | Mode::Split(_) | Mode::NoCompare => true,
            _ => false,
        }
    }

    /// The mode keeps no table.
    pub open spec fn plain(self) -> bool {
        match self {
            Mode::Touch
            | Mode::Parse(_)
            | Mode::Hash
            | Mode::Fhash(_)
            | Mode::Mask
            | Mode::MaskSemi
            | Mode::MaskNl
            | Mode::NlRows
            | Mode::NlParse
            | Mode::DlRows => true,
            _ => false,
        }
    }
}

/// Per-thread scratch: the sink, the row count, and only the table that the mode actually uses.
pub enum State {
    Plain(Counter<()>),
    Offsets(Counter<Table>),
    Inline(Counter<InlineTable>),
    Split(Counter<Vec<Table>>),
}

/// A new table over offsets: empty, whatever the input.
pub open spec fn blank_offsets(t: Table, bits: u32) -> bool {
    &&& t.capacity() == pow2(bits as nat)
    &&& forall|d: Seq<u8>| #[trigger] shelved(t, d, by_name_hash()) && racked(t, d) && t.tally(d).len() == 0
}

impl State {
    pub open spec fn spec_acc(self) -> u64 {
        match self {
            State::Plain(c) => c.acc,
            State::Offsets(c) => c.acc,
            State::Inline(c) => c.acc,
            State::Split(c) => c.acc,
        }
    }

    pub open spec fn spec_rows(self) -> u64 {
        match self {
            State::Plain(c) => c.n,
            State::Offsets(c) => c.n,
            State::Inline(c) => c.n,
            State::Split(c) => c.n,
        }
    }

    /// The scratch is the kind that the mode needs.
    pub open spec fn suits(self, mode: Mode) -> bool {
        match self {
            State::Plain(_) => mode.plain(),
            State::Offsets(_) => mode is Table || mode is NoCompare,
            State::Inline(_) => !mode.plain() && !mode.spec_offset_keyed(),
            State::Split(c) => mode matches Mode::Split(n) && c.inner@.len() == n,
        }
    }

    /// Nothing has been fed yet, and tables have `2^bits` slots.
    pub open spec fn blank(self, bits: u32) -> bool {
        &&& self.spec_acc() == 0
        &&& self.spec_rows() == 0
        &&& match self {
            State::Plain(_) => true,
            State::Offsets(c) => blank_offsets(c.inner, bits),
            State::Inline(c) => {
                &&& stocked(c.inner, by_name_hash())
                &&& stocked(c.inner, by_raw_hash())
                &&& c.inner@.len() == 0
                &&& c.inner.slots().len() == pow2(
                    if bits == 0 {
                        1
                    } else {
                        bits as nat
                    },
                )
            },
            State::Split(c) => forall|k: int|
                0 <= k < c.inner@.len() ==> #[trigger] blank_offsets(c.inner@[k], bits),
        }
    }

    pub fn new(mode: Mode, bits: u32) -> (st: State)
        requires
            bits < usize::BITS,
        ensures
            st.suits(mode),
            st.blank(bits),
    {
        match mode {
            Mode::Touch
            | Mode::Parse(_)
            | Mode::Hash
            | Mode::Fhash(_)
            | Mode::Mask
            | Mode::MaskSemi
            | Mode::MaskNl
            | Mode::NlRows
            | Mode::NlParse
            | Mode::DlRows => State::Plain(Counter::new(())),
            Mode::Table(_) | Mode::NoCompare => State::Offsets(Counter::new(new_offsets(bits))),
            Mode::Split(n) => {
                let mut tables: Vec<Table> = Vec::new();
                for k in 0..n
                    invariant
                        bits < usize::BITS,
                        tables@.len() == k,
                        forall|j: int|
                            0 <= j < k ==> #[trigger] blank_offsets(tables@[j], bits),
                {
                    tables.push(new_offsets(bits));
                }
                State::Split(Counter::new(tables))
            },
            _ => {
                let table = InlineTable::new(bits);
                proof {
                    assert forall|name: Seq<u8>| #[trigger]
                        table.agrees(name, (by_name_hash())(name)) by {}
                    assert forall|name: Seq<u8>| #[trigger]
                        table.agrees(name, (by_raw_hash())(name)) by {}
                }
                State::Inline(Counter::new(table))
            },
        }
    }

    /// The XOR of what every row has yielded.
    pub fn acc(&self) -> (acc: u64)
        ensures
            acc == self.spec_acc(),
    {
        match self {
            State::Plain(c) => c.acc,
            State::Offsets(c) => c.acc,
            State::Inline(c) => c.acc,
            State::Split(c) => c.acc,
        }
    }

    /// How many rows have been fed.
    pub fn rows(&self) -> (n: u64)
        ensures
            n == self.spec_rows(),
    {
        match self {
            State::Plain(c) => c.n,
            State::Offsets(c) => c.n,
            State::Inline(c) => c.n,
            State::Split(c) => c.n,
        }
    }

    /// How many entries the table holds. The tables of split streams are left out.
    pub fn entries(&self) -> (n: usize)
        ensures
            match self {
                State::Plain(_) => n == 0,
                State::Offsets(c) => forall|d: Seq<u8>| #[trigger]
                    c.inner.wf(d) ==> n == c.inner.tally(d).len(),
                State::Inline(c) => c.inner.shape_ok() ==> n == c.inner@.len(),
                State::Split(_) => n == 0,
            },
    {
        match self {
            State::Plain(_) => 0,
            State::Offsets(c) => c.inner.len(),
            State::Inline(c) => c.inner.len(),
            State::Split(_) => 0,
        }
    }
}

fn new_offsets(bits: u32) -> (t: Table)
    requires
        bits < usize::BITS,
    ensures
        blank_offsets(t, bits),
{
    let t = Table::new(bits);
    assert forall|d: Seq<u8>| #[trigger] shelved(t, d, by_name_hash()) && racked(t, d) && t.tally(d).len() == 0 by {
        assert(t.wf(d));
        assert forall|name: Seq<u8>| #[trigger] t.agrees(d, name, (by_name_hash())(name)) by {}
    }
    t
}

/// Rows of `[start, end)` that can be read, with what the wide paths touch past them.
pub open spec fn rows_within(d: Seq<u8>, start: usize, end: usize) -> bool {
    &&& start <= end
    &&& end + TAIL_GUARD <= d.len() < usize::MAX
    &&& holds_rows(d, start as int, end as int)
}

/// [`rows_within`] for the drivers that go by row ends from a bitmap: the last row ends by `end`.
pub open spec fn rows_inside(d: Seq<u8>, start: usize, end: usize) -> bool {
    rows_within(d, start, end) && rows_ok(d, start as int, end as int, end as int)
}

/// Blocks of `[start, end)` that can be read.
pub open spec fn blocks_within(d: Seq<u8>, start: usize, end: usize) -> bool {
    start <= end && end + TAIL_GUARD <= d.len() < usize::MAX
}

/// The context is sound, and has room for each of the rows in turn.
pub open spec fn takes<E: Sunk>(c: Counter<E::Ctx>, d: Seq<u8>, start: usize, end: usize) -> bool {
    &&& Counted::<E>::inv(c, d)
    &&& accepts_all::<Counted<E>>(
        Counted::<E>::state(c, d),
        rows(d, start as int, end as int),
    )
}

/// The context is sound, and has room for what the rows make of it in any order.
pub open spec fn holds<E: Sunk + Commuting>(
    c: Counter<E::Ctx>,
    d: Seq<u8>,
    start: usize,
    end: usize,
) -> bool {
    &&& Counted::<E>::inv(c, d)
    &&& Counted::<E>::fits(
        run_all::<Counted<E>>(
            Counted::<E>::state(c, d),
            rows(d, start as int, end as int),
        ),
    )
}

/// The context has been fed the rows, each counted and its yield folded into the sink.
pub open spec fn took<E: Sunk>(
    before: Counter<E::Ctx>,
    after: Counter<E::Ctx>,
    d: Seq<u8>,
    start: usize,
    end: usize,
) -> bool {
    &&& Counted::<E>::inv(after, d)
    &&& Counted::<E>::state(after, d) == run_all::<Counted<E>>(
        Counted::<E>::state(before, d),
        rows(d, start as int, end as int),
    )
}

/// There is room for the rows of each stream in the stream's own table.
pub open spec fn split_holds(
    c: Counter<Vec<Table>>,
    d: Seq<u8>,
    start: usize,
    end: usize,
    n: usize,
) -> bool {
    &&& c.inner@.len() == n
    &&& c.n + rows(d, start as int, end as int).len() <= u64::MAX
    &&& forall|k: int|
        0 <= k < n ==> shelved(#[trigger] c.inner@[k], d, by_name_hash()) && offsets_fit(
            run_all::<Full>(
                offsets_of(c.inner@[k], d),
                stream_rows(d, start as int, end as int, n as int, k),
            ),
        )
}

/// The rows of each stream have gone into its own table.
pub open spec fn split_took(
    before: Counter<Vec<Table>>,
    after: Counter<Vec<Table>>,
    d: Seq<u8>,
    start: usize,
    end: usize,
    n: usize,
) -> bool {
    &&& after.acc == sinks::<Full>(before.acc, rows(d, start as int, end as int))
    &&& after.n == before.n + rows(d, start as int, end as int).len()
    &&& after.inner@.len() == n
    &&& forall|k: int|
        0 <= k < n ==> shelved(#[trigger] after.inner@[k], d, by_name_hash()) && offsets_of(
            after.inner@[k],
            d,
        ) == run_all::<Full>(
            offsets_of(before.inner@[k], d),
            stream_rows(d, start as int, end as int, n as int, k),
        )
}

/// The sink has the words of the range folded in, and no row has been counted.
pub open spec fn touched(
    before: Counter<()>,
    after: Counter<()>,
    d: Seq<u8>,
    start: usize,
    end: usize,
) -> bool {
    after.acc == words_folded(before.acc, d, start as int, end as int) && after.n == before.n
}

/// The sink has what the blocks of the range yield folded in, and no row has been counted.
pub open spec fn masked<B: BlockSink>(
    before: Counter<()>,
    after: Counter<()>,
    d: Seq<u8>,
    start: usize,
    end: usize,
) -> bool {
    after.acc == blocks_folded::<B>(before.acc, d, start as int, end as int) && after.n
        == before.n
}

/// A chunk can be run in a mode: its rows can be read, and there is room for them.
pub open spec fn can_run(
    mode: Mode,
    st: State,
    d: Seq<u8>,
    start: usize,
    end: usize,
) -> bool {
    match (mode, st) {
        (Mode::Touch, State::Plain(c)) => blocks_within(d, start, end),
        (Mode::Mask, State::Plain(c)) => blocks_within(d, start, end),
        (Mode::MaskSemi, State::Plain(c)) => blocks_within(d, start, end),
        (Mode::MaskNl, State::Plain(c)) => blocks_within(d, start, end),
        (Mode::Parse(_), State::Plain(c)) => rows_within(d, start, end) && holds::<
            Plain<ParseOnly>,
        >(c, d, start, end),
        (Mode::Hash, State::Plain(c)) => rows_within(d, start, end) && holds::<
            Plain<HashOnly>,
        >(c, d, start, end),
        (Mode::Fhash(_), State::Plain(c)) => rows_within(d, start, end) && holds::<
            Plain<FhashOnly>,
        >(c, d, start, end),
        (Mode::NlRows, State::Plain(c)) => rows_within(d, start, end) && takes::<
            Plain<RowFlat>,
        >(c, d, start, end),
        (Mode::NlParse, State::Plain(c)) => rows_inside(d, start, end) && takes::<
            Plain<RowLen>,
        >(c, d, start, end),
        (Mode::DlRows, State::Plain(c)) => rows_inside(d, start, end) && takes::<
            Plain<PairRows>,
        >(c, d, start, end),
        (Mode::Table(_), State::Offsets(c)) => rows_within(d, start, end) && holds::<Full>(
            c,
            d,
            start,
            end,
        ),
        (Mode::NoCompare, State::Offsets(c)) => rows_within(d, start, end) && takes::<Nocmp>(
            c,
            d,
            start,
            end,
        ),
        (Mode::Itable(_), State::Inline(c)) => rows_within(d, start, end) && holds::<
            Inline<FullInline>,
        >(c, d, start, end),
        (Mode::Flat(_), State::Inline(c)) => rows_within(d, start, end) && holds::<
            Inline<FullFlat>,
        >(c, d, start, end),
        (Mode::Raw(_), State::Inline(c)) => rows_within(d, start, end) && holds::<
            Inline<FullRaw>,
        >(c, d, start, end),
        (Mode::Keyed(_), State::Inline(c)) => rows_within(d, start, end) && holds::<
            Inline<FullKeyed>,
        >(c, d, start, end),
        (Mode::Win(_), State::Inline(c)) => rows_within(d, start, end) && holds::<
            Inline<FullKeyedWin>,
        >(c, d, start, end),
        (Mode::Hdr(_), State::Inline(c)) => rows_within(d, start, end) && holds::<
            Inline<FullKeyed>,
        >(c, d, start, end),
        (Mode::Hot(_), State::Inline(c)) => rows_within(d, start, end) && holds::<
            Inline<FullKeyed>,
        >(c, d, start, end),
        (Mode::NlTable, State::Inline(c)) => rows_inside(d, start, end) && takes::<
            Inline<RowTable>,
        >(c, d, start, end),
        (Mode::DlTable, State::Inline(c)) => rows_inside(d, start, end) && takes::<
            Inline<PairTable>,
        >(c, d, start, end),
        (Mode::DlNoKey, State::Inline(c)) => rows_inside(d, start, end) && takes::<PairNokey>(
            c,
            d,
            start,
            end,
        ),
        (Mode::DlNoStats, State::Inline(c)) => rows_inside(d, start, end) && takes::<
            PairNostats,
        >(c, d, start, end),
        (Mode::Split(n), State::Split(c)) => rows_within(d, start, end) && split_holds(
            c,
            d,
            start,
            end,
            n,
        ),
        _ => false,
    }
}

/// What running a chunk in a mode does to the scratch.
pub open spec fn ran(
    mode: Mode,
    before: State,
    after: State,
    d: Seq<u8>,
    start: usize,
    end: usize,
) -> bool {
    match (mode, before, after) {
        (Mode::Touch, State::Plain(b), State::Plain(a)) => touched(b, a, d, start, end),
        (Mode::Mask, State::Plain(b), State::Plain(a)) => masked::<Delims>(b, a, d, start, end),
        (Mode::MaskSemi, State::Plain(b), State::Plain(a)) => masked::<Semis>(
            b,
            a,
            d,
            start,
            end,
        ),
        (Mode::MaskNl, State::Plain(b), State::Plain(a)) => masked::<Newlines>(
            b,
            a,
            d,
            start,
            end,
        ),
        (Mode::Parse(_), State::Plain(b), State::Plain(a)) => took::<Plain<ParseOnly>>(
            b,
            a,
            d,
            start,
            end,
        ),
        (Mode::Hash, State::Plain(b), State::Plain(a)) => took::<Plain<HashOnly>>(
            b,
            a,
            d,
            start,
            end,
        ),
        (Mode::Fhash(_), State::Plain(b), State::Plain(a)) => took::<Plain<FhashOnly>>(
            b,
            a,
            d,
            start,
            end,
        ),
        (Mode::NlRows, State::Plain(b), State::Plain(a)) => took::<Plain<RowFlat>>(
            b,
            a,
            d,
            start,
            end,
        ),
        (Mode::NlParse, State::Plain(b), State::Plain(a)) => took::<Plain<RowLen>>(
            b,
            a,
            d,
            start,
            end,
        ),
        (Mode::DlRows, State::Plain(b), State::Plain(a)) => took::<Plain<PairRows>>(
            b,
            a,
            d,
            start,
            end,
        ),
        (Mode::Table(_), State::Offsets(b), State::Offsets(a)) => took::<Full>(
            b,
            a,
            d,
            start,
            end,
        ),
        (Mode::NoCompare, State::Offsets(b), State::Offsets(a)) => took::<Nocmp>(
            b,
            a,
            d,
            start,
            end,
        ),
        (Mode::Itable(_), State::Inline(b), State::Inline(a)) => took::<Inline<FullInline>>(
            b,
            a,
            d,
            start,
            end,
        ),
        (Mode::Flat(_), State::Inline(b), State::Inline(a)) => took::<Inline<FullFlat>>(
            b,
            a,
            d,
            start,
            end,
        ),
        (Mode::Raw(_), State::Inline(b), State::Inline(a)) => took::<Inline<FullRaw>>(
            b,
            a,
            d,
            start,
            end,
        ),
        (Mode::Keyed(_), State::Inline(b), State::Inline(a)) => took::<Inline<FullKeyed>>(
            b,
            a,
            d,
            start,
            end,
        ),
        (Mode::Win(_), State::Inline(b), State::Inline(a)) => took::<Inline<FullKeyedWin>>(
            b,
            a,
            d,
            start,
            end,
        ),
        (Mode::Hdr(_), State::Inline(b), State::Inline(a)) => took::<Inline<FullKeyed>>(
            b,
            a,
            d,
            start,
            end,
        ),
        (Mode::Hot(_), State::Inline(b), State::Inline(a)) => took::<Inline<FullKeyed>>(
            b,
            a,
            d,
            start,
            end,
        ),
        (Mode::NlTable, State::Inline(b), State::Inline(a)) => took::<Inline<RowTable>>(
            b,
            a,
            d,
            start,
            end,
        ),
        (Mode::DlTable, State::Inline(b), State::Inline(a)) => took::<Inline<PairTable>>(
            b,
            a,
            d,
            start,
            end,
        ),
        (Mode::DlNoKey, State::Inline(b), State::Inline(a)) => took::<PairNokey>(
            b,
            a,
            d,
            start,
            end,
        ),
        (Mode::DlNoStats, State::Inline(b), State::Inline(a)) => took::<PairNostats>(
            b,
            a,
            d,
            start,
            end,
        ),
        (Mode::Split(n), State::Split(b), State::Split(a)) => split_took(b, a, d, start, end, n),
        _ => false,
    }
}

/// Runs a mode's row over as many streams as the mode says, with 0 for the serial chain.
#[inline(always)]
fn walk<E: TakeStep + Commuting>(
    streams: usize,
    c: &mut Counter<E::Ctx>,
    data: &[u8],
    start: usize,
    end: usize,
)
    requires
        streams == 0 || 2 <= streams <= 6 || streams == 8,
        rows_within(data@, start, end),
        0 <= E::reach() <= TAIL_GUARD,
        holds::<E>(*old(c), data@, start, end),
    ensures
        took::<E>(*old(c), *final(c), data@, start, end),
{
    if streams == 0 {
        proof {
            lemma_run_fits::<Counted<E>>(
                Counted::<E>::state(*c, data@),
                rows(data@, start as int, end as int),
            );
        }
        serial::<Counted<E>>(c, data, start, end);
    } else if streams == 2 {
        streamed::<2, Counted<E>>(c, data, start, end);
    } else if streams == 3 {
        streamed::<3, Counted<E>>(c, data, start, end);
    } else if streams == 4 {
        streamed::<4, Counted<E>>(c, data, start, end);
    } else if streams == 5 {
        streamed::<5, Counted<E>>(c, data, start, end);
    } else if streams == 6 {
        streamed::<6, Counted<E>>(c, data, start, end);
    } else {
        streamed::<8, Counted<E>>(c, data, start, end);
    }
}

/// The rows of one chunk, in a mode over the offset-keyed table without key comparison.
fn walk_unkeyed(c: &mut Counter<Table>, data: &[u8], start: usize, end: usize)
    requires
        rows_within(data@, start, end),
        takes::<Nocmp>(*old(c), data@, start, end),
    ensures
        took::<Nocmp>(*old(c), *final(c), data@, start, end),
{
    serial::<Counted<Nocmp>>(c, data, start, end);
}

/// Runs one line-aligned range. `data` must have [`TAIL_GUARD`] readable bytes past `end`.
pub fn run_chunk(mode: Mode, data: &[u8], start: usize, end: usize, st: &mut State)
    requires
        mode.known(),
        can_run(mode, *old(st), data@, start, end),
    ensures
        ran(mode, *old(st), *final(st), data@, start, end),
{
    match st {
        State::Plain(c) => match mode {
            Mode::Touch => touch(data, start, end, &mut c.acc),
            // Delimiter bitmaps only, no rows drained. Everything a block-at-a-time design would
            // do is additive on top of this.
            Mode::Mask => mask::<Delims>(data, start, end, &mut c.acc),
            Mode::MaskSemi => mask::<Semis>(data, start, end, &mut c.acc),
            Mode::MaskNl => mask::<Newlines>(data, start, end, &mut c.acc),
            Mode::Parse(n) => walk::<Plain<ParseOnly>>(n, c, data, start, end),
            Mode::Hash => walk::<Plain<HashOnly>>(0, c, data, start, end),
            Mode::Fhash(n) => walk::<Plain<FhashOnly>>(n, c, data, start, end),
            // Rows driven by the newline bitmap.
            Mode::NlRows => drain_newlines::<Plain<RowFlat>>(c, data, start, end),
            Mode::NlParse => drain_newlines::<Plain<RowLen>>(c, data, start, end),
            // Both delimiters from the bitmap.
            Mode::DlRows => drain_delims::<Plain<PairRows>>(c, data, start, end),
            _ => (),
        },
        State::Offsets(c) => match mode {
            Mode::Table(n) => walk::<Full>(n, c, data, start, end),
            Mode::NoCompare => walk_unkeyed(c, data, start, end),
            _ => (),
        },
        State::Inline(c) => match mode {
            Mode::Itable(n) => walk::<Inline<FullInline>>(n, c, data, start, end),
            Mode::Flat(n) => walk::<Inline<FullFlat>>(n, c, data, start, end),
            Mode::Raw(n) => walk::<Inline<FullRaw>>(n, c, data, start, end),
            Mode::Keyed(n) => walk::<Inline<FullKeyed>>(n, c, data, start, end),
            // The two halves of the hoisted version, and both together.
            Mode::Win(n) => walk::<Inline<FullKeyedWin>>(n, c, data, start, end),
            Mode::Hdr(n) => run_borrowed::<false>(n, c, data, start, end),
            Mode::Hot(n) => run_borrowed::<true>(n, c, data, start, end),
            Mode::NlTable => drain_newlines::<Inline<RowTable>>(c, data, start, end),
            Mode::DlTable => drain_delims::<Inline<PairTable>>(c, data, start, end),
            // The upsert's two halves, priced against the whole on the same driver.
            Mode::DlNoKey => drain_delims::<PairNokey>(c, data, start, end),
            Mode::DlNoStats => drain_delims::<PairNostats>(c, data, start, end),
            _ => (),
        },
        State::Split(c) => match mode {
            Mode::Split(n) => run_split(n, c, data, start, end),
            _ => (),
        },
    }
}

/// The streams against borrowed slots.
fn run_borrowed<const WIN: bool>(
    streams: usize,
    c: &mut Counter<InlineTable>,
    data: &[u8],
    start: usize,
    end: usize,
)
    requires
        1 <= streams <= 4,
        rows_within(data@, start, end),
        holds::<Inline<FullKeyed>>(*old(c), data@, start, end),
    ensures
        took::<Inline<FullKeyed>>(*old(c), *final(c), data@, start, end),
{
    if streams == 1 {
        streamed_hot::<1, WIN>(data, start, end, &mut c.acc, &mut c.n, &mut c.inner);
    } else if streams == 2 {
        streamed_hot::<2, WIN>(data, start, end, &mut c.acc, &mut c.n, &mut c.inner);
    } else if streams == 3 {
        streamed_hot::<3, WIN>(data, start, end, &mut c.acc, &mut c.n, &mut c.inner);
    } else {
        streamed_hot::<4, WIN>(data, start, end, &mut c.acc, &mut c.n, &mut c.inner);
    }
}

/// The streams with a table each.
fn run_split(
    streams: usize,
    c: &mut Counter<Vec<Table>>,
    data: &[u8],
    start: usize,
    end: usize,
)
    requires
        streams == 2 || streams == 4 || streams == 8,
        rows_within(data@, start, end),
        split_holds(*old(c), data@, start, end, streams),
    ensures
        split_took(*old(c), *final(c), data@, start, end, streams),
{
    if streams == 2 {
        streamed_split::<2>(data, start, end, &mut c.acc, &mut c.n, c.inner.as_mut_slice());
    } else if streams == 4 {
        streamed_split::<4>(data, start, end, &mut c.acc, &mut c.n, c.inner.as_mut_slice());
    } else {
        streamed_split::<8>(data, start, end, &mut c.acc, &mut c.n, c.inner.as_mut_slice());
    }
}

/// What all threads together come to. The sink is independent of how chunks happened to be
/// handed out. The number of entries is not: a station counts once per thread that saw it.
pub struct Totals {
    pub sink: u64,
    pub rows: u64,
    pub distinct: usize,
}

impl Totals {
    pub fn new() -> (t: Totals)
        ensures
            t == (Totals { sink: 0, rows: 0, distinct: 0 }),
    {
        Totals { sink: 0, rows: 0, distinct: 0 }
    }

    /// Adds one thread's part.
    pub fn count(&mut self, acc: u64, rows: u64, entries: usize)
        requires
            old(self).rows + rows <= u64::MAX,
            old(self).distinct + entries <= usize::MAX,
        ensures
            final(self).sink == old(self).sink ^ acc,
            final(self).rows == old(self).rows + rows,
            final(self).distinct == old(self).distinct + entries,
    {
        self.sink = self.sink ^ acc;
        self.rows = self.rows + rows;
        self.distinct = self.distinct + entries;
    }
}

/// The order in which the threads' sinks are folded together does not matter.
pub proof fn law_sinks_fold_any_order(sink: u64, a: u64, b: u64)
    ensures
        sink ^ a ^ b == sink ^ b ^ a,
{
    lemma_xor_swap(sink, a, b);
}

/// Modes that agree on the rows and on the hash end with the same sink: the flat scan yields
/// what the loop scan does, and everything built on the raw hash yields the same however the
/// row's bytes, ends and slots are reached.
pub proof fn law_modes_share_sinks(acc: u64, rows: Seq<Record>)
    ensures
        sinks::<Plain<FhashOnly>>(acc, rows) == sinks::<Plain<HashOnly>>(acc, rows),
        sinks::<Inline<FullFlat>>(acc, rows) == sinks::<Inline<FullInline>>(acc, rows),
        sinks::<Full>(acc, rows) == sinks::<Inline<FullInline>>(acc, rows),
        sinks::<Inline<FullKeyed>>(acc, rows) == sinks::<Inline<FullRaw>>(acc, rows),
        sinks::<Inline<FullKeyedWin>>(acc, rows) == sinks::<Inline<FullKeyed>>(acc, rows),
        sinks::<Plain<RowLen>>(acc, rows) == sinks::<Plain<RowFlat>>(acc, rows),
        sinks::<Plain<PairRows>>(acc, rows) == sinks::<Plain<RowFlat>>(acc, rows),
        sinks::<Inline<RowTable>>(acc, rows) == sinks::<Inline<FullRaw>>(acc, rows),
        sinks::<Inline<PairTable>>(acc, rows) == sinks::<Inline<FullRaw>>(acc, rows),
        sinks::<PairNokey>(acc, rows) == sinks::<Inline<PairTable>>(acc, rows),
        sinks::<PairNostats>(acc, rows) == sinks::<Inline<PairTable>>(acc, rows),
{
    law_same_sink::<Plain<FhashOnly>, Plain<HashOnly>>(acc, rows);
    law_same_sink::<Inline<FullFlat>, Inline<FullInline>>(acc, rows);
    law_same_sink::<Full, Inline<FullInline>>(acc, rows);
    law_same_sink::<Inline<FullKeyed>, Inline<FullRaw>>(acc, rows);
    law_same_sink::<Inline<FullKeyedWin>, Inline<FullKeyed>>(acc, rows);
    law_same_sink::<Plain<RowLen>, Plain<RowFlat>>(acc, rows);
    law_same_sink::<Plain<PairRows>, Plain<RowFlat>>(acc, rows);
    law_same_sink::<Inline<RowTable>, Inline<FullRaw>>(acc, rows);
    law_same_sink::<Inline<PairTable>, Inline<FullRaw>>(acc, rows);
    law_same_sink::<PairNokey, Inline<PairTable>>(acc, rows);
    law_same_sink::<PairNostats, Inline<PairTable>>(acc, rows);
}

/// Modes that feed the inline-key table by the same hash leave the same sink, the same count and
/// the same tally, however the row's bytes, ends and slots are reached.
pub proof fn law_modes_share_tallies<P: InlineSink, Q: InlineSink>(
    a: Counter<InlineTable>,
    a_after: Counter<InlineTable>,
    b: Counter<InlineTable>,
    b_after: Counter<InlineTable>,
    d: Seq<u8>,
    start: usize,
    end: usize,
)
    requires
        P::by() == Q::by(),
        (a.acc, a.n, a.inner@) == (b.acc, b.n, b.inner@),
        took::<Inline<P>>(a, a_after, d, start, end),
        took::<Inline<Q>>(b, b_after, d, start, end),
    ensures
        (a_after.acc, a_after.n, a_after.inner@) == (b_after.acc, b_after.n, b_after.inner@),
{
    let r = rows(d, start as int, end as int);
    law_counted_run::<Inline<P>>(Counted::<Inline<P>>::state(a, d), r);
    law_counted_run::<Inline<Q>>(Counted::<Inline<Q>>::state(b, d), r);
    law_same_sink::<Inline<P>, Inline<Q>>(a.acc, r);
    law_inline_run::<P>(a.inner@, r);
    law_inline_run::<Q>(b.inner@, r);
}

/// No two names are one mode's, and a name that is none's is refused.
pub proof fn law_modes_have_one_name_each(a: Seq<char>, b: Seq<char>)
    requires
        mode_named(a) is Some,
        mode_named(a) == mode_named(b),
    ensures
        a == b,
        mode_named(a)->0.known(),
{
}

/// The modes that drain no rows fold the bytes of the range, or its bitmaps, into the sink, and count
/// nothing.
pub proof fn law_rowless_modes_fold_the_range(
    mode: Mode,
    b: Counter<()>,
    a: Counter<()>,
    d: Seq<u8>,
    start: usize,
    end: usize,
)
    requires
        ran(mode, State::Plain(b), State::Plain(a), d, start, end),
    ensures
        mode is Touch ==> a.n == b.n && a.acc == words_folded(b.acc, d, start as int, end as int),
        mode is Mask ==> a.n == b.n && a.acc == blocks_folded::<Delims>(
            b.acc,
            d,
            start as int,
            end as int,
        ),
        mode is MaskSemi ==> a.n == b.n && a.acc == blocks_folded::<Semis>(
            b.acc,
            d,
            start as int,
            end as int,
        ),
        mode is MaskNl ==> a.n == b.n && a.acc == blocks_folded::<Newlines>(
            b.acc,
            d,
            start as int,
            end as int,
        ),
{
}

} // verus!
