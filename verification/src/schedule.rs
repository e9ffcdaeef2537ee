//! What the workers come to between them.
//!
//! Chunks are handed out as workers ask for them, so which worker gets which is decided by
//! chance. None of it shows in the report.

use crate::MAX_LINE_LEN;
use crate::bytes::lemma_first_at;
use crate::bytes::lemma_first_at_is;
use crate::bytes::NEWLINE;
use crate::bytes::SEMICOLON;
use crate::chunk::bounds;
use crate::chunk::chunk_count;
use crate::chunk::chunk_rows;
use crate::chunk::edge;
use crate::chunk::law_chunks_hold_every_row;
use crate::chunk::law_chunks_tile;
use crate::chunk::law_local_bounds_agree;
use crate::chunk::lemma_chunk_count;
use crate::chunk::lemma_chunk_rows;
use crate::chunk::lemma_line_start_after;
use crate::chunk::line_start_after;
use crate::chunk::local;
use crate::engine::lemma_first_line;
use crate::feed::OVERLAP;
use crate::merge::law_report_is_unique;
use crate::merge::reports;
use crate::rows::absorb;
use crate::rows::absorb_all;
use crate::rows::joined;
use crate::rows::law_joined_tallies;
use crate::rows::law_tally_any_order;
use crate::rows::lemma_line_shape;
use crate::rows::lemma_rows_same;
use crate::rows::record_at;
use crate::rows::row_as;
use crate::rows::row_next;
use crate::rows::row_stop;
use crate::rows::rows;
use crate::rows::rows_as;
use crate::rows::tally;
use crate::rows::Names;
use crate::rows::Record;
use crate::rows::Tally;
use crate::swar::name_at;
use crate::swar::semi_at;
use vstd::prelude::*;

verus! {

/// The rows of chunk `k`.
pub open spec fn chunk_part(d: Seq<u8>, k: int, chunk_size: int) -> Seq<Record> {
    rows(d, edge(d, k, chunk_size), edge(d, k + 1, chunk_size))
}

/// The rows of the chunks that a worker was handed, in that order.
pub open spec fn dealt(d: Seq<u8>, chunk_size: int, hand: Seq<int>) -> Seq<Record>
    decreases hand.len(),
{
    if hand.len() == 0 {
        seq![]
    } else {
        chunk_part(d, hand[0], chunk_size) + dealt(d, chunk_size, hand.drop_first())
    }
}

/// The rows of two hands, one after the other.
pub proof fn lemma_dealt_concat(d: Seq<u8>, chunk_size: int, a: Seq<int>, b: Seq<int>)
    ensures
        dealt(d, chunk_size, a + b) == dealt(d, chunk_size, a) + dealt(d, chunk_size, b),
    decreases a.len(),
{
    if a.len() == 0 {
        assert(a + b =~= b);
        assert(dealt(d, chunk_size, a) + dealt(d, chunk_size, b) =~= dealt(d, chunk_size, b));
    } else {
        assert((a + b)[0] == a[0]);
        assert((a + b).drop_first() =~= a.drop_first() + b);
        lemma_dealt_concat(d, chunk_size, a.drop_first(), b);
        assert(dealt(d, chunk_size, a + b) =~= dealt(d, chunk_size, a) + dealt(d, chunk_size, b));
    }
}

/// The order of chunks does not change which rows there are.
proof fn lemma_dealt_any_order(d: Seq<u8>, chunk_size: int, a: Seq<int>, b: Seq<int>)
    requires
        a.to_multiset() == b.to_multiset(),
    ensures
        dealt(d, chunk_size, a).to_multiset() == dealt(d, chunk_size, b).to_multiset(),
    decreases a.len(),
{
    a.to_multiset_ensures();
    b.to_multiset_ensures();
    if a.len() > 0 {
        let k = a[0];
        assert(a.contains(k));
        assert(a.to_multiset().count(k) > 0);
        assert(b.to_multiset().count(k) > 0);
        assert(b.contains(k));
        let i = choose|i: int| 0 <= i < b.len() && b[i] == k;
        let front = b.subrange(0, i);
        let back = b.subrange(i + 1, b.len() as int);
        assert(front + back =~= b.remove(i));
        assert(a.drop_first() =~= a.remove(0));
        lemma_dealt_any_order(d, chunk_size, a.drop_first(), front + back);
        let part = chunk_part(d, k, chunk_size);
        let f = dealt(d, chunk_size, front);
        let g = dealt(d, chunk_size, back);
        let rest = dealt(d, chunk_size, a.drop_first());
        lemma_dealt_concat(d, chunk_size, front, back);
        assert(b =~= front + (seq![k] + back));
        lemma_dealt_concat(d, chunk_size, front, seq![k] + back);
        assert((seq![k] + back).drop_first() =~= back);
        assert(dealt(d, chunk_size, seq![k] + back) == part + g);
        vstd::seq_lib::lemma_multiset_commutative(part, rest);
        vstd::seq_lib::lemma_multiset_commutative(f, g);
        vstd::seq_lib::lemma_multiset_commutative(part, g);
        vstd::seq_lib::lemma_multiset_commutative(f, part + g);
        assert(dealt(d, chunk_size, a).to_multiset() =~= dealt(d, chunk_size, b).to_multiset());
    }
}

/// The tallies of all workers brought together.
pub open spec fn joined_all(parts: Seq<Tally>) -> Tally
    decreases parts.len(),
{
    if parts.len() == 0 {
        Map::empty()
    } else {
        joined(joined_all(parts.drop_last()), parts.last())
    }
}

/// What each worker has accumulated.
pub open spec fn worked(d: Seq<u8>, chunk_size: int, hands: Seq<Seq<int>>) -> Seq<Tally> {
    Seq::new(hands.len(), |t: int| tally(dealt(d, chunk_size, hands[t])))
}

proof fn lemma_worked(d: Seq<u8>, chunk_size: int, hands: Seq<Seq<int>>)
    ensures
        joined_all(worked(d, chunk_size, hands)) == tally(
            dealt(d, chunk_size, hands.flatten()),
        ),
    decreases hands.len(),
{
    let parts = worked(d, chunk_size, hands);
    if hands.len() == 0 {
        assert(hands.flatten() =~= seq![]);
        assert(dealt(d, chunk_size, hands.flatten()) =~= seq![]);
    } else {
        let init = hands.drop_last();
        lemma_worked(d, chunk_size, init);
        assert(parts.drop_last() =~= worked(d, chunk_size, init));
        assert(parts.last() == tally(dealt(d, chunk_size, hands.last())));
        law_joined_tallies(
            dealt(d, chunk_size, init.flatten()),
            dealt(d, chunk_size, hands.last()),
        );
        lemma_dealt_concat(d, chunk_size, init.flatten(), hands.last());
        hands.lemma_flatten_and_flatten_alt_are_equivalent();
        init.lemma_flatten_and_flatten_alt_are_equivalent();
        assert(hands.flatten() == init.flatten() + hands.last());
    }
}

/// Chunks `0..k`, in order.
pub open spec fn counting(k: int) -> Seq<int> {
    Seq::new(k as nat, |i: int| i)
}

proof fn lemma_dealt_in_order(d: Seq<u8>, chunk_size: int, k: int)
    requires
        0 <= k,
    ensures
        dealt(d, chunk_size, counting(k)) == chunk_rows(d, k, chunk_size),
    decreases k,
{
    if k == 0 {
        assert(dealt(d, chunk_size, counting(k)) =~= chunk_rows(d, k, chunk_size));
    } else {
        lemma_dealt_in_order(d, chunk_size, k - 1);
        assert(counting(k) =~= counting(k - 1) + seq![k - 1]);
        lemma_dealt_concat(d, chunk_size, counting(k - 1), seq![k - 1]);
        let last = seq![k - 1];
        assert(last.drop_first() =~= seq![]);
        assert(dealt(d, chunk_size, last.drop_first()) =~= seq![]);
        assert(dealt(d, chunk_size, last) =~= chunk_part(d, k - 1, chunk_size));
    }
}

/// However many workers there are and however the chunks are dealt out among them, as long as
/// each chunk goes to one worker once, what they come to between them is the tally of the
/// input's rows.
pub proof fn law_any_schedule_tallies_the_input(
    d: Seq<u8>,
    chunk_size: int,
    hands: Seq<Seq<int>>,
    names: Names,
)
    requires
        0 < chunk_size,
        d.len() <= usize::MAX,
        rows_as(d, 0, d.len() as int, d.len() as int, names),
        hands.flatten().to_multiset() == counting(
            chunk_count(d.len() as int, chunk_size),
        ).to_multiset(),
    ensures
        joined_all(worked(d, chunk_size, hands)) == tally(rows(d, 0, d.len() as int)),
{
    let n = chunk_count(d.len() as int, chunk_size);
    lemma_chunk_count(d.len() as int, chunk_size);
    lemma_worked(d, chunk_size, hands);
    lemma_dealt_any_order(d, chunk_size, hands.flatten(), counting(n));
    law_tally_any_order(
        Map::empty(),
        dealt(d, chunk_size, hands.flatten()),
        dealt(d, chunk_size, counting(n)),
    );
    lemma_dealt_in_order(d, chunk_size, n);
    law_chunks_hold_every_row(d, chunk_size, names);
}

/// The same rows at other places.
pub open spec fn same_rows(a: Seq<Record>, b: Seq<Record>) -> bool {
    &&& a.len() == b.len()
    &&& forall|i: int|
        #![trigger a[i]]
        #![trigger b[i]]
        0 <= i < a.len() ==> a[i].name == b[i].name && a[i].value == b[i].value
}

/// Where rows start does not show in their tally.
pub proof fn lemma_same_tally(m: Tally, a: Seq<Record>, b: Seq<Record>)
    requires
        same_rows(a, b),
    ensures
        absorb_all(m, a) == absorb_all(m, b),
    decreases a.len(),
{
    if a.len() > 0 {
        assert(a[0].name == b[0].name);
        assert(absorb(m, a[0]) == absorb(m, b[0]));
        lemma_same_tally(absorb(m, a[0]), a.drop_first(), b.drop_first());
    }
}

/// In an input made of rows the next line is never far.
proof fn lemma_line_reach(d: Seq<u8>, pos: int, from: int, names: Names)
    requires
        names is Station || names is Keyed,
        rows_as(d, pos, d.len() as int, d.len() as int, names),
        0 <= pos <= from < d.len(),
    ensures
        line_start_after(d, from) <= from + MAX_LINE_LEN,
    decreases from - pos,
{
    let next = row_next(d, pos);
    lemma_line_shape(d, pos, d.len() as int, names);
    if from >= next {
        lemma_line_reach(d, next, from, names);
    } else if row_stop(d, pos) < d.len() {
        lemma_first_at_is(d, NEWLINE, from, row_stop(d, pos));
    } else {
        lemma_line_start_after(d, from);
    }
}

/// A window of the input holds the rows that the input does there.
proof fn lemma_window_rows(
    d: Seq<u8>,
    base: int,
    avail: int,
    pos: int,
    end: int,
    names: Names,
)
    requires
        0 <= base,
        0 <= pos <= end <= avail,
        base + avail <= d.len(),
        rows_as(d, base + pos, base + end, d.len() as int, names),
        base + end == d.len() || pos == end || d[base + end - 1] == NEWLINE,
    ensures
        rows_as(d.subrange(base, base + avail), pos, end, avail, names),
        same_rows(
            rows(d.subrange(base, base + avail), pos, end),
            rows(d, base + pos, base + end),
        ),
    decreases end - pos,
{
    let view = d.subrange(base, base + avail);
    let p = base + pos;
    let lim = d.len() as int;
    let ghost all = rows(d, p, base + end);
    let ghost here = rows(view, pos, end);
    if pos < end {
        lemma_first_line(d, p, base + end, lim, names);
        lemma_line_shape(d, p, lim, names);
        let semi = semi_at(d, p);
        let next = row_next(d, p);
        // A row that starts before the last newline ends by it.
        assert(row_stop(d, p) < base + end || base + end == d.len()) by {
            if row_stop(d, p) >= base + end && base + end != d.len() {
                assert(d[base + end - 1] != NEWLINE);
            }
        }
        lemma_first_at(d, SEMICOLON, p);
        lemma_first_at_is(view, SEMICOLON, pos, semi - base);
        assert(name_at(view, pos) =~= name_at(d, p));
        assert(row_next(view, pos) == next - base);
        assert(record_at(view, pos).value == record_at(d, p).value);
        assert(row_as(view, pos, avail, names));
        if next - base <= end {
            lemma_window_rows(d, base, avail, next - base, end, names);
        } else {
            assert(rows(d, next, base + end) =~= seq![]);
            assert(rows(view, next - base, end) =~= seq![]);
        }
        assert(rows_as(view, next - base, end, avail, names));
        assert(here =~= seq![record_at(view, pos)] + rows(view, next - base, end));
        assert(all =~= seq![record_at(d, p)] + rows(d, next, base + end));
    }
}

/// A worker that reads a chunk into a buffer, with an overlap of one line, finds in it the rows
/// of that chunk: none that another worker finds, and none missing. What the buffer holds past
/// what was read does not show.
pub proof fn law_buffered_chunk_holds_its_rows(
    d: Seq<u8>,
    i: int,
    chunk_size: int,
    buf: Seq<u8>,
    avail: int,
    names: Names,
)
    requires
        names is Station || names is Keyed,
        0 < chunk_size,
        0 <= i < chunk_count(d.len() as int, chunk_size),
        d.len() <= usize::MAX,
        rows_as(d, 0, d.len() as int, d.len() as int, names),
        avail == if chunk_size + OVERLAP < d.len() - i * chunk_size {
            chunk_size + OVERLAP
        } else {
            d.len() - i * chunk_size
        },
        avail <= buf.len(),
        buf.subrange(0, avail) == d.subrange(i * chunk_size, i * chunk_size + avail),
    ensures
        match local(buf.subrange(0, avail), i * chunk_size, chunk_size) {
            Some((start, end)) => {
                &&& start < end <= avail
                &&& rows_as(buf, start as int, end as int, avail, names)
                &&& same_rows(rows(buf, start as int, end as int), chunk_part(d, i, chunk_size))
                &&& forall|m: Tally| #[trigger]
                    absorb_all(m, rows(buf, start as int, end as int)) == absorb_all(
                        m,
                        chunk_part(d, i, chunk_size),
                    )
            },
            None => chunk_part(d, i, chunk_size) == Seq::<Record>::empty(),
        },
{
    let len = d.len() as int;
    let base = i * chunk_size;
    let view = d.subrange(base, base + avail);
    lemma_chunk_count(len, chunk_size);
    lemma_line_start_after(view, 0);
    lemma_line_start_after(view, chunk_size);
    assert(0 <= base < len && (i + 1) * chunk_size == base + chunk_size) by (nonlinear_arith)
        requires
            base == i * chunk_size,
            0 <= i,
            0 < chunk_size,
            i <= chunk_count(len, chunk_size) - 1,
            len > 0 ==> (chunk_count(len, chunk_size) - 1) * chunk_size < len,
            len >= 0,
            chunk_count(len, chunk_size) <= len,
    ;
    if base + chunk_size < len {
        lemma_line_reach(d, 0, base + chunk_size, names);
    }
    law_local_bounds_agree(d, i, chunk_size, OVERLAP as int);
    law_chunks_tile(d, i, chunk_size);
    lemma_chunk_rows(d, i + 1, chunk_size, names);
    let a = edge(d, i, chunk_size);
    let b = edge(d, i + 1, chunk_size);
    let part = chunk_part(d, i, chunk_size);
    match bounds(d, i, chunk_size) {
        Some((start, end)) => {
            lemma_line_start_after(d, base + chunk_size);
            lemma_window_rows(d, base, avail, a - base, b - base, names);
            assert(view.subrange(0, avail) =~= view);
            lemma_rows_same(view, buf, a - base, b - base, avail, names);
            let found = rows(buf, a - base, b - base);
            assert forall|m: Tally| #[trigger] absorb_all(m, found) == absorb_all(m, part) by {
                lemma_same_tally(m, found, part);
            }
        },
        None => {
            assert(part =~= seq![]);
        },
    }
}

/// Every version reports the same thing: whatever the chunk size, the workers and the schedule,
/// two reports on the same input are the same bytes.
pub proof fn law_reports_agree(
    d: Seq<u8>,
    size_a: int,
    hands_a: Seq<Seq<int>>,
    text_a: Seq<u8>,
    size_b: int,
    hands_b: Seq<Seq<int>>,
    text_b: Seq<u8>,
    names: Names,
)
    requires
        d.len() <= usize::MAX,
        rows_as(d, 0, d.len() as int, d.len() as int, names),
        0 < size_a,
        0 < size_b,
        hands_a.flatten().to_multiset() == counting(
            chunk_count(d.len() as int, size_a),
        ).to_multiset(),
        hands_b.flatten().to_multiset() == counting(
            chunk_count(d.len() as int, size_b),
        ).to_multiset(),
        reports(text_a, joined_all(worked(d, size_a, hands_a))),
        reports(text_b, joined_all(worked(d, size_b, hands_b))),
    ensures
        text_a == text_b,
{
    law_any_schedule_tallies_the_input(d, size_a, hands_a, names);
    law_any_schedule_tallies_the_input(d, size_b, hands_b, names);
    law_report_is_unique(text_a, text_b, tally(rows(d, 0, d.len() as int)));
}

} // verus!
