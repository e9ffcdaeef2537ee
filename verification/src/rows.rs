//! What an input means: the rows it holds, and what the stations' tally of them is.

use crate::MAX_LINE_LEN;
use crate::bytes::lemma_first_at;
use crate::bytes::DIGIT_0;
use crate::bytes::DIGIT_9;
use crate::bytes::DOT;
use crate::bytes::MINUS;
use crate::bytes::NEWLINE;
use crate::bytes::SEMICOLON;
use crate::keys::nul_free;
use crate::output::merged;
use crate::output::single;
use crate::output::summary;
use crate::output::Summary;
use crate::parse::digits_at;
use crate::parse::is_digit;
use crate::parse::temp_ok;
use crate::parse::temp_value;
use crate::parse::temp_width;
use crate::swar::name_at;
use crate::swar::semi_at;
use vstd::prelude::*;

verus! {

/// The longest a station name may be, in bytes.
pub const MAX_NAME_LEN: usize = 100;

/// One measurement: where its row starts, whose it is, and its value in tenths of a degree.
pub struct Record {
    pub off: int,
    pub name: Seq<u8>,
    pub value: int,
}

/// A station name: at least one byte and at most a hundred, none of them a newline. It holds no
/// `;` because the first one ends it.
pub open spec fn name_ok(name: Seq<u8>) -> bool {
    1 <= name.len() <= MAX_NAME_LEN && in_line(name)
}

/// A name as far as lines go: any bytes but a newline.
pub open spec fn in_line(name: Seq<u8>) -> bool {
    forall|i: int| 0 <= i < name.len() ==> #[trigger] name[i] != NEWLINE
}

/// Which names a reader of rows can take.
#[derive(Clone, Copy, PartialEq, Eq, Structural, Debug)]
pub enum Names {
    /// Whatever stands before a line's `;`.
    Any,
    /// At least one byte, and a length that 32 bits hold.
    Held,
    /// What a station may be called: see [`name_ok`].
    Station,
    /// What a station may be called where its name is a key that a NUL ends.
    Keyed,
}

impl Names {
    /// The name is one of those.
    pub open spec fn cover(self, name: Seq<u8>) -> bool {
        match self {
            Names::Any => in_line(name),
            Names::Held => 1 <= name.len() <= u32::MAX && in_line(name),
            Names::Station => name_ok(name),
            Names::Keyed => name_ok(name) && nul_free(name),
        }
    }

    /// Whether `data[start..end]` is one of those names.
    pub fn covers(self, data: &[u8], start: usize, end: usize) -> (b: bool)
        requires
            start <= end <= data@.len(),
        ensures
            b == self.cover(data@.subrange(start as int, end as int)),
    {
        let ghost name = data@.subrange(start as int, end as int);
        let len = end - start;
        let nul_ok = match self {
            Names::Any => true,
            Names::Held => {
                if len == 0 || len as u64 > u32::MAX as u64 {
                    return false;
                }
                true
            },
            _ => {
                if len == 0 || len > MAX_NAME_LEN {
                    return false;
                }
                match self {
                    Names::Keyed => false,
                    _ => true,
                }
            },
        };
        for i in start..end
            invariant
                start <= end <= data@.len(),
                len == end - start,
                name == data@.subrange(start as int, end as int),
                nul_ok == !(self is Keyed),
                self is Held ==> 1 <= len <= u32::MAX,
                self is Station || self is Keyed ==> 1 <= len <= MAX_NAME_LEN,
                forall|j: int|
                    0 <= j < i - start ==> #[trigger] name[j] != NEWLINE && (nul_ok || name[j]
                        != 0),
        {
            assert(name[i - start] == data@[i as int]);
            if data[i] == NEWLINE || (!nul_ok && data[i] == 0) {
                return false;
            }
        }
        true
    }
}

/// Where the row starting at `pos` ends: one past its value.
pub open spec fn row_stop(d: Seq<u8>, pos: int) -> int {
    semi_at(d, pos) + 1 + temp_width(d, semi_at(d, pos) + 1)
}

/// Where the row after the one starting at `pos` starts.
pub open spec fn row_next(d: Seq<u8>, pos: int) -> int {
    row_stop(d, pos) + 1
}

/// The row starting at `pos`.
pub open spec fn record_at(d: Seq<u8>, pos: int) -> Record {
    Record {
        off: pos,
        name: name_at(d, pos),
        value: temp_value(d, semi_at(d, pos) + 1),
    }
}

/// A whole row of a station starts at `pos` and ends with a newline, or with the input itself at
/// `lim`.
#[verifier::inline]
pub open spec fn row_ok(d: Seq<u8>, pos: int, lim: int) -> bool {
    row_as(d, pos, lim, Names::Station)
}

/// A whole row with one of `names` starts at `pos` and ends with a newline, or with the input
/// itself at `lim`.
pub open spec fn row_as(d: Seq<u8>, pos: int, lim: int, names: Names) -> bool {
    &&& 0 <= pos
    &&& semi_at(d, pos) < d.len()
    &&& names.cover(name_at(d, pos))
    &&& temp_ok(d, semi_at(d, pos) + 1)
    &&& row_stop(d, pos) <= lim
    &&& row_stop(d, pos) < lim ==> d[row_stop(d, pos)] == NEWLINE
}

/// How much of `[pos, end)` is left.
pub open spec fn remaining(pos: int, end: int) -> int {
    if pos < end {
        end - pos
    } else {
        0
    }
}

/// The rows that start in `[pos, end)`, in order. The last of them may reach past `end`.
pub open spec fn rows(d: Seq<u8>, pos: int, end: int) -> Seq<Record>
    decreases remaining(pos, end),
{
    if pos >= end || row_next(d, pos) <= pos {
        seq![]
    } else {
        seq![record_at(d, pos)] + rows(d, row_next(d, pos), end)
    }
}

/// There are no more rows than bytes.
pub proof fn lemma_rows_count(d: Seq<u8>, pos: int, end: int)
    ensures
        rows(d, pos, end).len() <= remaining(pos, end),
    decreases remaining(pos, end),
{
    if pos < end && row_next(d, pos) > pos {
        lemma_rows_count(d, row_next(d, pos), end);
    }
}

/// Every row that starts in `[pos, end)` is a whole row of a station, in an input that ends at
/// `lim`.
#[verifier::inline]
pub open spec fn rows_ok(d: Seq<u8>, pos: int, end: int, lim: int) -> bool {
    rows_as(d, pos, end, lim, Names::Station)
}

/// Every row that starts in `[pos, end)` is a whole row with one of `names`, in an input that ends
/// at `lim`.
pub open spec fn rows_as(d: Seq<u8>, pos: int, end: int, lim: int, names: Names) -> bool
    decreases remaining(pos, end),
{
    pos >= end || {
        &&& row_as(d, pos, lim, names)
        &&& row_next(d, pos) > pos
        &&& rows_as(d, row_next(d, pos), end, lim, names)
    }
}

/// Rows of one reader's names are rows for a reader of more.
pub proof fn lemma_rows_any(
    d: Seq<u8>,
    pos: int,
    end: int,
    lim: int,
    names: Names,
    others: Names,
)
    requires
        rows_as(d, pos, end, lim, names),
        forall|name: Seq<u8>| #[trigger] names.cover(name) ==> others.cover(name),
    ensures
        rows_as(d, pos, end, lim, others),
    decreases remaining(pos, end),
{
    if pos < end {
        assert(names.cover(name_at(d, pos)));
        lemma_rows_any(d, row_next(d, pos), end, lim, names, others);
    }
}

/// A row's extent: no newline before its stop, and a value of at most three digits.
pub proof fn lemma_line_shape(d: Seq<u8>, pos: int, lim: int, names: Names)
    requires
        row_as(d, pos, lim, names),
        pos <= d.len(),
    ensures
        pos <= semi_at(d, pos) < row_stop(d, pos) <= d.len(),
        semi_at(d, pos) - pos == name_at(d, pos).len(),
        d[semi_at(d, pos)] == SEMICOLON,
        forall|i: int| pos <= i < row_stop(d, pos) ==> #[trigger] d[i] != NEWLINE,
        pos + 4 <= row_stop(d, pos),
        row_stop(d, pos) - (semi_at(d, pos) + 1) <= 5,
        -999 <= record_at(d, pos).value <= 999,
{
    let semi = semi_at(d, pos);
    let name = name_at(d, pos);
    lemma_first_at(d, SEMICOLON, pos);
    let q = digits_at(d, semi + 1);
    assert forall|i: int| pos <= i < row_stop(d, pos) implies #[trigger] d[i] != NEWLINE by {
        if i < semi {
            assert(d[i] == name[i - pos]);
        }
    }
}

/// [`lemma_line_shape`] for a station's row, which has between six and [`MAX_LINE_LEN`] bytes
/// with its newline.
pub proof fn lemma_row_shape(d: Seq<u8>, pos: int, lim: int)
    requires
        row_ok(d, pos, lim),
        pos <= d.len(),
    ensures
        pos < semi_at(d, pos) < row_stop(d, pos) <= d.len(),
        semi_at(d, pos) - pos == name_at(d, pos).len(),
        d[semi_at(d, pos)] == SEMICOLON,
        forall|i: int| pos <= i < row_stop(d, pos) ==> #[trigger] d[i] != NEWLINE,
        pos + 5 <= row_stop(d, pos),
        row_next(d, pos) <= pos + MAX_LINE_LEN,
        row_stop(d, pos) - (semi_at(d, pos) + 1) <= 5,
        -999 <= record_at(d, pos).value <= 999,
{
    lemma_line_shape(d, pos, lim, Names::Station);
}

/// The start of a line is the start of a row: rows never straddle it.
pub proof fn lemma_lines_split(d: Seq<u8>, pos: int, at: int, end: int, lim: int, names: Names)
    requires
        rows_as(d, pos, end, lim, names),
        0 <= pos <= at <= end <= d.len(),
        at == pos || at == end || d[at - 1] == NEWLINE,
    ensures
        rows(d, pos, end) == rows(d, pos, at) + rows(d, at, end),
        rows_as(d, pos, at, lim, names),
        rows_as(d, at, end, lim, names),
    decreases end - pos,
{
    if pos == at {
        assert(rows(d, pos, at) =~= seq![]);
        assert(rows(d, pos, end) =~= rows(d, pos, at) + rows(d, at, end));
    } else if at == end {
        assert(rows(d, at, end) =~= seq![]);
        assert(rows(d, pos, end) =~= rows(d, pos, at) + rows(d, at, end));
    } else {
        let next = row_next(d, pos);
        lemma_line_shape(d, pos, lim, names);
        lemma_lines_split(d, next, at, end, lim, names);
        assert(rows(d, pos, end) =~= rows(d, pos, at) + rows(d, at, end));
    }
}

/// [`lemma_lines_split`] for rows of stations.
pub proof fn lemma_rows_split(d: Seq<u8>, pos: int, at: int, end: int, lim: int)
    requires
        rows_ok(d, pos, end, lim),
        0 <= pos <= at <= end <= d.len(),
        at == pos || at == end || d[at - 1] == NEWLINE,
    ensures
        rows(d, pos, end) == rows(d, pos, at) + rows(d, at, end),
        rows_ok(d, pos, at, lim),
        rows_ok(d, at, end, lim),
{
    lemma_lines_split(d, pos, at, end, lim, Names::Station);
}

/// Rows only look at the input up to its end: bytes past `lim` do not matter.
pub proof fn lemma_rows_same(
    a: Seq<u8>,
    b: Seq<u8>,
    pos: int,
    end: int,
    lim: int,
    names: Names,
)
    requires
        rows_as(a, pos, end, lim, names),
        0 <= pos <= end <= lim <= a.len(),
        lim <= b.len(),
        a.subrange(0, lim) == b.subrange(0, lim),
    ensures
        rows(a, pos, end) == rows(b, pos, end),
        rows_as(b, pos, end, lim, names),
    decreases end - pos,
{
    if pos < end {
        lemma_line_shape(a, pos, lim, names);
        let semi = semi_at(a, pos);
        assert forall|i: int|
            #![trigger a[i]]
            #![trigger b[i]]
            0 <= i < lim implies a[i] == b[i] by {
            assert(a.subrange(0, lim)[i] == a[i]);
            assert(b.subrange(0, lim)[i] == b[i]);
        }
        lemma_first_at(a, SEMICOLON, pos);
        crate::bytes::lemma_first_at_is(b, SEMICOLON, pos, semi);
        assert(name_at(a, pos) =~= name_at(b, pos));
        let next = row_next(a, pos);
        assert(row_next(b, pos) == next);
        assert(record_at(a, pos) == record_at(b, pos));
        if next < end {
            lemma_rows_same(a, b, next, end, lim, names);
        }
        assert(rows(a, next, end) =~= rows(b, next, end));
        assert(row_stop(a, pos) == row_stop(b, pos));
        assert(temp_ok(b, semi + 1));
        assert(row_as(b, pos, lim, names));
    }
}

/// A tally: per station, the summary of its measurements.
pub type Tally = Map<Seq<u8>, Summary>;

/// `m` with the measurements `s` of station `name` added.
pub open spec fn noted(m: Tally, name: Seq<u8>, s: Summary) -> Tally {
    if m.contains_key(name) {
        m.insert(name, merged(m[name], s))
    } else {
        m.insert(name, s)
    }
}

/// `m` with one more measurement.
pub open spec fn absorb(m: Tally, r: Record) -> Tally {
    noted(m, r.name, single(r.value))
}

/// `m` with `rows` added, first to last.
pub open spec fn absorb_all(m: Tally, rows: Seq<Record>) -> Tally
    decreases rows.len(),
{
    if rows.len() == 0 {
        m
    } else {
        absorb_all(absorb(m, rows[0]), rows.drop_first())
    }
}

/// The tally of `rows`.
pub open spec fn tally(rows: Seq<Record>) -> Tally {
    absorb_all(Map::empty(), rows)
}

/// Notes on stations commute.
pub proof fn lemma_noted_swap(m: Tally, a: Seq<u8>, s: Summary, b: Seq<u8>, t: Summary)
    ensures
        noted(noted(m, a, s), b, t) == noted(noted(m, b, t), a, s),
{
    if a != b {
        assert(noted(noted(m, a, s), b, t) =~= noted(noted(m, b, t), a, s));
    } else {
        let l = noted(noted(m, a, s), b, t);
        let r = noted(noted(m, b, t), a, s);
        assert(l[a] == r[a]);
        assert(l =~= r);
    }
}

/// The order of two measurements does not matter.
pub proof fn law_absorb_any_order(m: Tally, a: Record, b: Record)
    ensures
        absorb(absorb(m, a), b) == absorb(absorb(m, b), a),
{
    lemma_noted_swap(m, a.name, single(a.value), b.name, single(b.value));
}

/// A note made before absorbing rows might as well be made after.
pub proof fn lemma_noted_later(m: Tally, name: Seq<u8>, s: Summary, rows: Seq<Record>)
    ensures
        absorb_all(noted(m, name, s), rows) == noted(absorb_all(m, rows), name, s),
    decreases rows.len(),
{
    if rows.len() > 0 {
        lemma_noted_swap(m, name, s, rows[0].name, single(rows[0].value));
        lemma_noted_later(absorb(m, rows[0]), name, s, rows.drop_first());
    }
}

/// Absorbing a concatenation is absorbing its parts in turn.
pub proof fn lemma_absorb_concat(m: Tally, a: Seq<Record>, b: Seq<Record>)
    ensures
        absorb_all(m, a + b) == absorb_all(absorb_all(m, a), b),
    decreases a.len(),
{
    if a.len() == 0 {
        assert(a + b =~= b);
    } else {
        assert((a + b)[0] == a[0]);
        assert((a + b).drop_first() =~= a.drop_first() + b);
        lemma_absorb_concat(absorb(m, a[0]), a.drop_first(), b);
    }
}

/// The tally of a permutation of the rows is the same tally: what a run reports does not
/// depend on the order in which its rows were reached.
pub proof fn law_tally_any_order(m: Tally, a: Seq<Record>, b: Seq<Record>)
    requires
        a.to_multiset() == b.to_multiset(),
    ensures
        absorb_all(m, a) == absorb_all(m, b),
    decreases a.len(),
{
    a.to_multiset_ensures();
    b.to_multiset_ensures();
    if a.len() > 0 {
        let r = a[0];
        assert(a.contains(r));
        assert(a.to_multiset().count(r) > 0);
        assert(b.to_multiset().count(r) > 0);
        assert(b.contains(r));
        let k = choose|k: int| 0 <= k < b.len() && b[k] == r;
        let before = b.subrange(0, k);
        let after = b.subrange(k + 1, b.len() as int);
        let rest = before + after;
        assert(b =~= before + (seq![r] + after));
        assert(rest =~= b.remove(k));
        assert(a.drop_first() =~= a.remove(0));
        law_tally_any_order(absorb(m, r), a.drop_first(), rest);
        lemma_absorb_concat(m, before, seq![r] + after);
        lemma_absorb_concat(absorb(m, r), before, after);
        lemma_noted_later(m, r.name, single(r.value), before);
        assert((seq![r] + after).drop_first() =~= after);
        assert((seq![r] + after)[0] == r);
    }
}

/// Two tallies put together: per station, its measurements of both.
pub open spec fn joined(a: Tally, b: Tally) -> Tally {
    Map::new(
        |name: Seq<u8>| a.contains_key(name) || b.contains_key(name),
        |name: Seq<u8>|
            if a.contains_key(name) && b.contains_key(name) {
                merged(a[name], b[name])
            } else if a.contains_key(name) {
                a[name]
            } else {
                b[name]
            },
    )
}

/// Joining the tallies of two parts gives the tally of the whole: how the input is cut up among
/// workers does not show in the result.
pub proof fn law_joined_tallies(a: Seq<Record>, b: Seq<Record>)
    ensures
        joined(tally(a), tally(b)) == tally(a + b),
{
    lemma_absorb_concat(Map::empty(), a, b);
    lemma_absorb_joined(tally(a), Map::empty(), b);
    assert(joined(tally(a), Map::empty()) =~= tally(a));
}

proof fn lemma_absorb_joined(m: Tally, n: Tally, rows: Seq<Record>)
    ensures
        absorb_all(joined(m, n), rows) == joined(m, absorb_all(n, rows)),
    decreases rows.len(),
{
    if rows.len() > 0 {
        let r = rows[0];
        let l = absorb(joined(m, n), r);
        let k = joined(m, absorb(n, r));
        assert forall|name: Seq<u8>| l.contains_key(name) implies #[trigger] l[name]
            == k[name] by {}
        assert(l =~= k);
        lemma_absorb_joined(m, absorb(n, r), rows.drop_first());
    }
}

/// Tallies that absorb different rows, joined, are the join of what absorbed them all.
pub proof fn law_joined_parts(m: Tally, n: Tally, a: Seq<Record>, b: Seq<Record>)
    ensures
        absorb_all(joined(m, n), a + b) == joined(absorb_all(m, a), absorb_all(n, b)),
{
    lemma_absorb_concat(joined(m, n), a, b);
    law_joined_any_order(m, n);
    lemma_absorb_joined(n, m, a);
    law_joined_any_order(n, absorb_all(m, a));
    lemma_absorb_joined(absorb_all(m, a), n, b);
}

/// Joining does not depend on the order of the two.
pub proof fn law_joined_any_order(m: Tally, n: Tally)
    ensures
        joined(m, n) == joined(n, m),
{
    assert forall|name: Seq<u8>| #[trigger] joined(m, n).contains_key(name) implies joined(m, n)[name]
        == joined(n, m)[name] by {}
    assert(joined(m, n) =~= joined(n, m));
}

/// Every row of a range starts in it, and is the row that starts there.
pub proof fn lemma_rows_start(d: Seq<u8>, pos: int, end: int, i: int)
    requires
        0 <= i < rows(d, pos, end).len(),
    ensures
        pos <= rows(d, pos, end)[i].off < end,
        rows(d, pos, end)[i] == record_at(d, rows(d, pos, end)[i].off),
    decreases remaining(pos, end),
{
    if i > 0 {
        lemma_rows_start(d, row_next(d, pos), end, i - 1);
        assert(rows(d, pos, end)[i] == rows(d, row_next(d, pos), end)[i - 1]);
    }
}

/// What a tally holds after absorbing rows, it held before or they brought.
pub proof fn lemma_absorbed_names(m: Tally, rows: Seq<Record>, name: Seq<u8>)
    requires
        absorb_all(m, rows).contains_key(name),
    ensures
        m.contains_key(name) || exists|i: int| 0 <= i < rows.len() && (#[trigger] rows[i]).name
            == name,
    decreases rows.len(),
{
    if rows.len() > 0 {
        let rest = rows.drop_first();
        lemma_absorbed_names(absorb(m, rows[0]), rest, name);
        if !m.contains_key(name) {
            if absorb(m, rows[0]).contains_key(name) {
                assert(rows[0].name == name);
            } else {
                let i = choose|i: int| 0 <= i < rest.len() && (#[trigger] rest[i]).name == name;
                assert(rows[i + 1].name == name);
            }
        }
    }
}

/// `b` has every station of `a`, counted at least as often.
pub open spec fn within(a: Tally, b: Tally) -> bool {
    &&& a.dom().subset_of(b.dom())
    &&& forall|name: Seq<u8>| #[trigger] a.contains_key(name) ==> a[name].count <= b[name].count
}

/// Counts only grow: whatever a tally holds, it still holds after absorbing more rows.
pub proof fn lemma_absorb_grows(m: Tally, rows: Seq<Record>)
    ensures
        within(m, absorb_all(m, rows)),
    decreases rows.len(),
{
    if rows.len() > 0 {
        let n = absorb(m, rows[0]);
        lemma_absorb_grows(n, rows.drop_first());
        assert forall|name: Seq<u8>| #[trigger] m.contains_key(name) implies m[name].count
            <= absorb_all(m, rows)[name].count by {
            assert(n.contains_key(name));
        }
    }
}

/// What a tally of real measurements satisfies, and what lets its sums fit: at most three
/// digits per measurement.
pub open spec fn modest(m: Tally) -> bool {
    forall|name: Seq<u8>| #[trigger]
        m.contains_key(name) ==> {
            &&& m[name].count > 0
            &&& -999 * m[name].count <= m[name].sum <= 999 * m[name].count
        }
}

pub proof fn lemma_absorb_modest(m: Tally, r: Record)
    requires
        modest(m),
        -999 <= r.value <= 999,
    ensures
        modest(absorb(m, r)),
{
}

/// The measurements of station `name`, in order.
pub open spec fn values_named(rows: Seq<Record>, name: Seq<u8>) -> Seq<int>
    decreases rows.len(),
{
    if rows.len() == 0 {
        seq![]
    } else {
        let before = values_named(rows.drop_last(), name);
        if rows.last().name == name {
            before.push(rows.last().value)
        } else {
            before
        }
    }
}

/// A tally is what it is meant to be: the stations are those that have rows, each with the
/// summary of its measurements.
pub proof fn law_tally_summarises(rows: Seq<Record>, name: Seq<u8>)
    ensures
        tally(rows).contains_key(name) <==> values_named(rows, name).len() > 0,
        tally(rows).contains_key(name) ==> tally(rows)[name] == summary(
            values_named(rows, name),
        ),
        values_named(rows, name).len() > 0 <==> exists|i: int|
            0 <= i < rows.len() && (#[trigger] rows[i]).name == name,
    decreases rows.len(),
{
    if rows.len() > 0 {
        let init = rows.drop_last();
        let r = rows.last();
        law_tally_summarises(init, name);
        assert(rows =~= init + seq![r]);
        lemma_absorb_concat(Map::empty(), init, seq![r]);
        assert(seq![r].drop_first() =~= seq![]);
        assert(absorb_all(absorb(tally(init), r), seq![]) == absorb(tally(init), r));
        assert(tally(rows) == absorb(tally(init), r));
        let before = values_named(init, name);
        if r.name == name {
            assert(rows[rows.len() - 1].name == name);
            assert(before.push(r.value).drop_last() =~= before);
        }
        assert forall|i: int| 0 <= i < init.len() implies #[trigger] rows[i] == init[i] by {}
        if exists|i: int| 0 <= i < init.len() && (#[trigger] init[i]).name == name {
            let i = choose|i: int| 0 <= i < init.len() && (#[trigger] init[i]).name == name;
            assert(rows[i].name == name);
        }
    }
}

/// Sums fit at full scale: over rows of an input, a station counted in 32 bits has a sum that
/// fits in 64 with room for working out the mean.
pub proof fn law_full_scale_sums_fit(
    d: Seq<u8>,
    pos: int,
    end: int,
    lim: int,
    names: Names,
    name: Seq<u8>,
)
    requires
        rows_as(d, pos, end, lim, names),
        end <= lim <= d.len(),
        tally(rows(d, pos, end)).contains_key(name),
        tally(rows(d, pos, end))[name].count <= u32::MAX,
    ensures
        ({
            let s = tally(rows(d, pos, end))[name];
            &&& s.count > 0
            &&& -999 * s.count <= s.sum <= 999 * s.count
            &&& i64::MIN <= 2 * s.sum <= i64::MAX
            &&& i64::MIN <= 2 * s.sum + s.count <= i64::MAX
        }),
{
    lemma_tally_modest(d, pos, end, lim, names, Map::empty());
}

proof fn lemma_tally_modest(d: Seq<u8>, pos: int, end: int, lim: int, names: Names, m: Tally)
    requires
        rows_as(d, pos, end, lim, names),
        end <= lim <= d.len(),
        modest(m),
    ensures
        modest(absorb_all(m, rows(d, pos, end))),
    decreases remaining(pos, end),
{
    if pos < end {
        let r = record_at(d, pos);
        let rest = rows(d, row_next(d, pos), end);
        lemma_line_shape(d, pos, lim, names);
        lemma_absorb_modest(m, r);
        lemma_tally_modest(d, row_next(d, pos), end, lim, names, absorb(m, r));
        assert(rows(d, pos, end) =~= seq![r] + rest);
        assert(rows(d, pos, end).drop_first() =~= rest);
    }
}

/// How many bytes the names of a set have between them.
pub open spec fn bytes_in(names: Set<Seq<u8>>) -> nat
    decreases names.len(),
    when names.finite()
{
    if names.len() == 0 {
        0
    } else {
        names.choose().len() + bytes_in(names.remove(names.choose()))
    }
}

/// One more name adds its own bytes.
pub proof fn lemma_bytes_insert(names: Set<Seq<u8>>, x: Seq<u8>)
    requires
        names.finite(),
    ensures
        bytes_in(names.insert(x)) == bytes_in(names) + if names.contains(x) {
            0
        } else {
            x.len()
        },
    decreases names.len(),
{
    if names.contains(x) {
        assert(names.insert(x) =~= names);
    } else {
        let all = names.insert(x);
        let y = all.choose();
        assert(all.contains(y)) by {
            assert(all.contains(x));
        }
        if y == x {
            assert(all.remove(y) =~= names);
        } else {
            let rest = names.remove(y);
            assert(all.remove(y) =~= rest.insert(x));
            lemma_bytes_insert(rest, x);
            lemma_bytes_insert(rest, y);
            assert(rest.insert(y) =~= names);
        }
    }
}

/// More names have no fewer bytes.
pub proof fn lemma_bytes_subset(a: Set<Seq<u8>>, b: Set<Seq<u8>>)
    requires
        b.finite(),
        a.subset_of(b),
    ensures
        bytes_in(a) <= bytes_in(b),
    decreases b.len(),
{
    vstd::set_lib::lemma_set_subset_finite(b, a);
    if a.len() > 0 {
        let x = a.choose();
        assert(a.contains(x));
        lemma_bytes_subset(a.remove(x), b.remove(x));
        lemma_bytes_insert(b.remove(x), x);
        assert(b.remove(x).insert(x) =~= b);
    }
}

/// Two sets of names have at most the bytes of both.
pub proof fn lemma_bytes_union(a: Set<Seq<u8>>, b: Set<Seq<u8>>)
    requires
        a.finite(),
        b.finite(),
    ensures
        bytes_in(a.union(b)) <= bytes_in(a) + bytes_in(b),
    decreases b.len(),
{
    if b.len() == 0 {
        assert(a.union(b) =~= a);
    } else {
        let x = b.choose();
        assert(b.contains(x));
        let rest = b.remove(x);
        lemma_bytes_union(a, rest);
        assert(a.union(b) =~= a.union(rest).insert(x));
        lemma_bytes_insert(a.union(rest), x);
    }
}

/// Names of at most `most` bytes each.
pub proof fn lemma_bytes_bound(names: Set<Seq<u8>>, most: nat)
    requires
        names.finite(),
        forall|x: Seq<u8>| #[trigger] names.contains(x) ==> x.len() <= most,
    ensures
        bytes_in(names) <= most * names.len(),
    decreases names.len(),
{
    if names.len() > 0 {
        let x = names.choose();
        assert(names.contains(x));
        lemma_bytes_bound(names.remove(x), most);
        assert(most * names.len() == most * (names.len() - 1) + most) by (nonlinear_arith)
            requires
                names.len() > 0,
        ;
    }
}

/// No station of `m` has been counted more than `c` times.
pub open spec fn counted_to(m: Tally, c: int) -> bool {
    forall|name: Seq<u8>| #[trigger] m.contains_key(name) ==> m[name].count <= c
}

/// No name of `m` holds a NUL.
pub open spec fn plain_names(m: Tally) -> bool {
    forall|name: Seq<u8>| #[trigger] m.contains_key(name) ==> nul_free(name)
}

/// Rows without a NUL in their names add none.
pub proof fn lemma_absorb_plain(m: Tally, rows: Seq<Record>)
    requires
        plain_names(m),
        all_covered(rows, Names::Keyed),
    ensures
        plain_names(absorb_all(m, rows)),
        all_covered(rows, Names::Station),
    decreases rows.len(),
{
    assert forall|i: int| 0 <= i < rows.len() implies Names::Station.cover(
        (#[trigger] rows[i]).name,
    ) by {
        assert(Names::Keyed.cover(rows[i].name));
    }
    if rows.len() > 0 {
        let rest = rows.drop_first();
        assert(Names::Keyed.cover(rows[0].name));
        assert forall|i: int| 0 <= i < rest.len() implies Names::Keyed.cover(
            (#[trigger] rest[i]).name,
        ) by {
            assert(Names::Keyed.cover(rows[i + 1].name));
        }
        lemma_absorb_plain(absorb(m, rows[0]), rest);
    }
}

/// Rows add at most as many stations, at most a hundred bytes of name each, and to each station at
/// most as many measurements.
pub proof fn lemma_absorb_bounds(m: Tally, rows: Seq<Record>, c: int)
    requires
        m.dom().finite(),
        counted_to(m, c),
        c >= 0,
    ensures
        absorb_all(m, rows).dom().finite(),
        absorb_all(m, rows).len() <= m.len() + rows.len(),
        counted_to(absorb_all(m, rows), c + rows.len()),
        all_covered(rows, Names::Station) ==> bytes_in(absorb_all(m, rows).dom()) <= bytes_in(m.dom()) + MAX_NAME_LEN
            * rows.len(),
    decreases rows.len(),
{
    if rows.len() > 0 {
        let n = absorb(m, rows[0]);
        assert(n.dom() =~= m.dom().insert(rows[0].name));
        lemma_bytes_insert(m.dom(), rows[0].name);
        assert(all_covered(rows, Names::Station) ==> all_covered(
            rows.drop_first(),
            Names::Station,
        ) && name_ok(rows[0].name)) by {
            if all_covered(rows, Names::Station) {
                assert forall|i: int| 0 <= i < rows.drop_first().len() implies name_ok(
                    (#[trigger] rows.drop_first()[i]).name,
                ) by {
                    assert(Names::Station.cover(rows[i + 1].name));
                }
                assert(Names::Station.cover(rows[0].name));
            }
        }
        assert forall|name: Seq<u8>| #[trigger] n.contains_key(name) implies n[name].count <= c
            + 1 by {
            if name != rows[0].name {
                assert(m.contains_key(name));
            } else if m.contains_key(name) {
                assert(m[name].count <= c);
            }
        }
        lemma_absorb_bounds(n, rows.drop_first(), c + 1);
    }
}

/// Rows taken apart at two places.
pub proof fn lemma_parted(all: Seq<Record>, done: int, part: Seq<Record>, rest: Seq<Record>)
    requires
        0 <= done <= all.len(),
        all.skip(done) == part + rest,
    ensures
        all.take(done + part.len()) == all.take(done) + part,
        all.skip(done + part.len()) == rest,
        done + part.len() <= all.len(),
{
    assert(all.skip(done).len() == part.len() + rest.len());
    assert(all.take(done + part.len()) =~= all.take(done) + part) by {
        assert forall|i: int| done <= i < done + part.len() implies all[i] == part[i - done] by {
            assert(all.skip(done)[i - done] == all[i]);
        }
    }
    assert(all.skip(done + part.len()) =~= rest) by {
        assert forall|i: int| 0 <= i < rest.len() implies all[done + part.len() + i]
            == rest[i] by {
            assert(all.skip(done)[part.len() + i] == all[done + part.len() + i]);
        }
    }
}

/// A range cut off after its first row holds that row alone.
pub proof fn lemma_one_row(d: Seq<u8>, pos: int, end: int, lim: int, names: Names)
    requires
        rows_as(d, pos, end, lim, names),
        0 <= pos < end <= lim <= d.len(),
    ensures
        ({
            let stop = if row_next(d, pos) < end {
                row_next(d, pos)
            } else {
                end
            };
            &&& rows(d, pos, stop) == seq![record_at(d, pos)]
            &&& rows_as(d, pos, stop, lim, names)
            &&& rows_as(d, stop, end, lim, names)
            &&& rows(d, pos, end) == rows(d, pos, stop) + rows(d, stop, end)
            &&& stop == end || d[stop - 1] == NEWLINE
            &&& pos < stop <= end
        }),
{
    lemma_line_shape(d, pos, lim, names);
    let next = row_next(d, pos);
    let stop = if next < end {
        next
    } else {
        end
    };
    assert(rows(d, next, stop) =~= seq![]);
    assert(rows(d, pos, stop) =~= seq![record_at(d, pos)]);
    lemma_lines_split(d, pos, stop, end, lim, names);
}

/// Every row of a range has a name that its reader can take.
pub proof fn lemma_rows_named(d: Seq<u8>, pos: int, end: int, lim: int, names: Names)
    requires
        rows_as(d, pos, end, lim, names),
    ensures
        all_covered(rows(d, pos, end), names),
    decreases remaining(pos, end),
{
    if pos < end {
        let rest = rows(d, row_next(d, pos), end);
        lemma_rows_named(d, row_next(d, pos), end, lim, names);
        assert(rows(d, pos, end) =~= seq![record_at(d, pos)] + rest);
        assert forall|i: int| 0 <= i < rows(d, pos, end).len() implies names.cover(
            (#[trigger] rows(d, pos, end)[i]).name,
        ) by {
            if i > 0 {
                assert(rows(d, pos, end)[i] == rest[i - 1]);
            }
        }
    }
}

/// Every row's name is one of `names`.
pub open spec fn all_covered(rows: Seq<Record>, names: Names) -> bool {
    forall|i: int| 0 <= i < rows.len() ==> names.cover((#[trigger] rows[i]).name)
}

/// Whether a whole row with one of `names` starts at `pos`, in an input that ends at `lim`. If so,
/// also where the next one starts.
pub fn check_row(data: &[u8], pos: usize, lim: usize, names: Names) -> (r: Option<usize>)
    requires
        pos <= lim <= data@.len() < usize::MAX,
    ensures
        r is Some <==> row_as(data@, pos as int, lim as int, names),
        r matches Some(next) ==> next == row_next(data@, pos as int) && next > pos,
{
    let ghost d = data@;
    assert(data.len() == d.len());
    let mut semi: usize = pos;
    while semi < data.len() && data[semi] != SEMICOLON
        invariant
            d == data@,
            pos <= semi <= d.len(),
            forall|i: int| pos <= i < semi ==> d[i] != SEMICOLON,
        decreases d.len() - semi,
    {
        semi += 1;
    }
    proof {
        crate::bytes::lemma_first_at_is(d, SEMICOLON, pos as int, semi as int);
    }
    if semi == data.len() || !names.covers(data, pos, semi) {
        return None;
    }
    let p = semi + 1;
    let ghost at = p as int;
    assert(temp_ok(d, at) ==> at + 3 <= d.len());
    if data.len() - p < 3 {
        return None;
    }
    let q: usize = if data[p] == MINUS {
        p + 1
    } else {
        p
    };
    assert(q == digits_at(d, at));
    if !check_digit(data, q) {
        return None;
    }
    let stop: usize = if data[q + 1] == DOT {
        q + 3
    } else {
        if data.len() - q < 4 {
            return None;
        }
        if !check_digit(data, q + 1) || data[q + 2] != DOT {
            return None;
        }
        q + 4
    };
    assert(stop == row_stop(d, pos as int));
    if stop > lim || !check_digit(data, stop - 1) {
        return None;
    }
    if stop < lim && data[stop] != NEWLINE {
        return None;
    }
    Some(stop + 1)
}

fn check_digit(data: &[u8], at: usize) -> (r: bool)
    requires
        at < data@.len(),
    ensures
        r == is_digit(data@[at as int]),
{
    DIGIT_0 <= data[at] && data[at] <= DIGIT_9
}

/// Whether every row that starts in `[start, end)` is a whole row with one of `names`, in an input
/// that ends at `lim`.
///
/// The scans trust their input: on bytes that are not rows they would read nonsense. This is
/// the test to make before handing them any.
pub fn check_rows(data: &[u8], start: usize, end: usize, lim: usize, names: Names) -> (ok: bool)
    requires
        start <= end <= lim <= data@.len() < usize::MAX,
    ensures
        ok == rows_as(data@, start as int, end as int, lim as int, names),
{
    let mut pos = start;
    while pos < end
        invariant
            end <= lim <= data@.len() < usize::MAX,
            rows_as(data@, start as int, end as int, lim as int, names) == rows_as(
                data@,
                pos as int,
                end as int,
                lim as int,
                names,
            ),
        decreases remaining(pos as int, end as int),
    {
        match check_row(data, pos, lim, names) {
            Some(next) => {
                pos = next;
            },
            None => {
                return false;
            },
        }
    }
    true
}

} // verus!
