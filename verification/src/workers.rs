//! Workers that share a cursor, and what they come to between them.
//!
//! A worker claims a chunk by taking the cursor's value and moving it on, so that every index goes
//! to one worker and each worker gets some, in whatever pattern the scheduler makes of it. Then it
//! takes the chunk in, and claims another.

use crate::chunk::bounds;
use crate::chunk::chunk_count;
use crate::chunk::law_chunks_tile;
use crate::chunk::lemma_chunk_rows;
use crate::chunk::local;
use crate::feed::fits;
use crate::feed::OVERLAP;
use crate::intake::stopped;
use crate::intake::taken;
use crate::intake::Intake;
use crate::intake::Outcome;
use crate::output::summary;
use crate::rows::absorb;
use crate::rows::absorb_all;
use crate::rows::joined;
use crate::rows::law_tally_summarises;
use crate::rows::lemma_absorb_concat;
use crate::rows::lemma_absorb_grows;
use crate::rows::lemma_rows_start;
use crate::rows::record_at;
use crate::rows::rows;
use crate::rows::rows_as;
use crate::rows::tally;
use crate::rows::values_named;
use crate::rows::within;
use crate::rows::Names;
use crate::rows::Record;
use crate::rows::Tally;
use crate::schedule::chunk_part;
use crate::schedule::counting;
use crate::schedule::dealt;
use crate::schedule::joined_all;
use crate::schedule::law_any_schedule_tallies_the_input;
use crate::schedule::law_buffered_chunk_holds_its_rows;
use crate::schedule::lemma_dealt_concat;
use crate::schedule::worked;
use vstd::prelude::*;

verus! {

/// The chunks that worker `w` claims, where chunk `i` goes to worker `who[i]`.
pub open spec fn claims(who: Seq<int>, w: int) -> Seq<int>
    decreases who.len(),
{
    if who.len() == 0 {
        seq![]
    } else {
        let before = claims(who.drop_last(), w);
        if who.last() == w {
            before.push(who.len() - 1)
        } else {
            before
        }
    }
}

/// What each of `n` workers claims.
pub open spec fn hands(who: Seq<int>, n: nat) -> Seq<Seq<int>> {
    Seq::new(n, |w: int| claims(who, w))
}

/// Adding to one of the hands adds to what they hold between them.
proof fn lemma_flatten_push(s: Seq<Seq<int>>, w: int, x: int)
    requires
        0 <= w < s.len(),
    ensures
        s.update(w, s[w].push(x)).flatten().to_multiset() == s.flatten().to_multiset().insert(x),
    decreases s.len(),
{
    let t = s.update(w, s[w].push(x));
    let init = s.drop_last();
    s.lemma_flatten_and_flatten_alt_are_equivalent();
    t.lemma_flatten_and_flatten_alt_are_equivalent();
    init.lemma_flatten_and_flatten_alt_are_equivalent();
    t.drop_last().lemma_flatten_and_flatten_alt_are_equivalent();
    assert(s.flatten() == init.flatten() + s.last());
    assert(t.flatten() == t.drop_last().flatten() + t.last());
    if w == s.len() - 1 {
        assert(t.drop_last() =~= init);
        assert(t.flatten() =~= s.flatten().push(x));
        s.flatten().to_multiset_ensures();
    } else {
        assert(t.drop_last() =~= init.update(w, init[w].push(x)));
        lemma_flatten_push(init, w, x);
        vstd::seq_lib::lemma_multiset_commutative(init.flatten(), s.last());
        vstd::seq_lib::lemma_multiset_commutative(t.drop_last().flatten(), s.last());
        assert(t.flatten().to_multiset() =~= s.flatten().to_multiset().insert(x));
    }
}

/// The cursor gives every chunk to one worker, once.
pub proof fn law_cursor_deals_each_chunk_once(who: Seq<int>, n: nat)
    requires
        forall|i: int| 0 <= i < who.len() ==> 0 <= #[trigger] who[i] < n,
    ensures
        hands(who, n).flatten().to_multiset() == counting(who.len() as int).to_multiset(),
    decreases who.len(),
{
    let all = hands(who, n);
    if who.len() == 0 {
        lemma_flatten_empty(all);
        assert(all.flatten() =~= counting(0));
    } else {
        let init = who.drop_last();
        let w = who.last();
        let last = who.len() - 1;
        assert(0 <= who[last] < n);
        assert forall|i: int| 0 <= i < init.len() implies 0 <= #[trigger] init[i] < n by {
            assert(0 <= who[i] < n);
        }
        law_cursor_deals_each_chunk_once(init, n);
        let before = hands(init, n);
        assert(all =~= before.update(w, before[w].push(last)));
        lemma_flatten_push(before, w, last);
        assert(counting(who.len() as int) =~= counting(last).push(last));
        counting(last).to_multiset_ensures();
    }
}

proof fn lemma_flatten_empty(s: Seq<Seq<int>>)
    requires
        forall|i: int| 0 <= i < s.len() ==> (#[trigger] s[i]).len() == 0,
    ensures
        s.flatten() == Seq::<int>::empty(),
    decreases s.len(),
{
    s.lemma_flatten_and_flatten_alt_are_equivalent();
    if s.len() > 0 {
        let init = s.drop_last();
        assert forall|i: int| 0 <= i < init.len() implies (#[trigger] init[i]).len() == 0 by {
            assert(s[i].len() == 0);
        }
        lemma_flatten_empty(init);
        init.lemma_flatten_and_flatten_alt_are_equivalent();
        assert(s.last().len() == 0);
        assert(s.flatten() =~= seq![]);
    }
}

/// What each of them has, they have between them.
proof fn lemma_part_within(parts: Seq<Tally>, w: int)
    requires
        0 <= w < parts.len(),
    ensures
        within(parts[w], joined_all(parts)),
    decreases parts.len(),
{
    let all = joined_all(parts);
    let init = joined_all(parts.drop_last());
    assert(all == joined(init, parts.last()));
    if w < parts.len() - 1 {
        lemma_part_within(parts.drop_last(), w);
        assert forall|name: Seq<u8>| #[trigger] parts[w].contains_key(name) implies all.contains_key(
            name,
        ) && parts[w][name].count <= all[name].count by {
            assert(init.contains_key(name));
        }
    }
}

/// A row on the way to what fits has room.
proof fn lemma_room_on_the_way<I: Intake>(
    ctx: I::Ctx,
    d: Seq<u8>,
    m: Tally,
    r: Seq<Record>,
    k: int,
)
    requires
        I::ok(ctx, d),
        I::fits(I::size(ctx), absorb_all(m, r)),
        0 <= k < r.len(),
        0 <= r[k].off < d.len(),
        r[k] == record_at(d, r[k].off),
        I::tally(ctx, d) == absorb_all(m, r.take(k)),
    ensures
        I::accepts(ctx, d, r[k]),
{
    let at = absorb_all(m, r.take(k));
    let rest = r.skip(k);
    assert(r =~= r.take(k) + rest);
    lemma_absorb_concat(m, r.take(k), rest);
    assert(rest[0] == r[k]);
    lemma_absorb_grows(absorb(at, r[k]), rest.drop_first());
    I::fits_less(I::size(ctx), absorb(at, r[k]), absorb_all(m, r));
    I::has_its_room(ctx, d, r[k]);
}

/// A way of taking in chunks that are read into a buffer, one after the other: what has been taken
/// in owes nothing to the buffer.
pub trait Buffered: Intake {
    /// What is held does not depend on what is in the buffer.
    proof fn owns(ctx: Self::Ctx, a: Seq<u8>, b: Seq<u8>)
        ensures
            Self::tally(ctx, a) == Self::tally(ctx, b),
            Self::ok(ctx, a) == Self::ok(ctx, b),
    ;

    /// Stations' names without a NUL are read.
    proof fn reads_stations()
        ensures
            Self::names() == Names::Keyed,
    ;
}

/// What taking in chunk `i` of the file `d` does, from a buffer into which it was read with what
/// [`read_span`](crate::reading::read_span) adds, as [`take_view`](crate::intake::take_view) has
/// it.
pub open spec fn took_buffered<I: Intake>(
    before: I::Ctx,
    after: I::Ctx,
    d: Seq<u8>,
    i: int,
    chunk_size: int,
    buf: Seq<u8>,
    out: Outcome,
) -> bool {
    let base = i * chunk_size;
    let avail = if chunk_size + OVERLAP < d.len() - base {
        chunk_size + OVERLAP
    } else {
        d.len() - base
    };
    &&& I::ok(after, buf)
    &&& avail <= buf.len()
    &&& buf.subrange(0, avail) == d.subrange(base, base + avail)
    &&& match local(buf.subrange(0, avail), base, chunk_size) {
        Some((start, end)) => taken::<I>(
            before,
            after,
            buf,
            start as int,
            end as int,
            avail,
            out,
        ),
        None => out == Outcome::Fed && after == before,
    }
}

/// What taking in chunk `i` of the file `d` does where the file is in place as a whole, as
/// [`take_chunk`](crate::intake::take_chunk) has it.
pub open spec fn took_in_place<I: Intake>(
    before: I::Ctx,
    after: I::Ctx,
    d: Seq<u8>,
    i: int,
    chunk_size: int,
    out: Outcome,
) -> bool {
    &&& I::ok(after, d)
    &&& match bounds(d, i, chunk_size) {
        Some((start, end)) => taken::<I>(
            before,
            after,
            d,
            start as int,
            end as int,
            d.len() as int,
            out,
        ),
        None => out == Outcome::Fed && after == before,
    }
}

/// A worker's time: its context before the first chunk and after each, and how each went. A
/// buffered worker also has what its buffer held each time.
pub struct Shift<C> {
    pub ctxs: Seq<C>,
    pub outs: Seq<Outcome>,
    pub bufs: Seq<Seq<u8>>,
}

/// A worker that reads chunks into a buffer started with nothing and took in `hand`, chunk after
/// chunk.
pub open spec fn buffered_shift<I: Intake>(
    s: Shift<I::Ctx>,
    d: Seq<u8>,
    chunk_size: int,
    hand: Seq<int>,
) -> bool {
    &&& s.ctxs.len() == hand.len() + 1
    &&& s.outs.len() == hand.len()
    &&& s.bufs.len() == hand.len()
    &&& I::tally(s.ctxs[0], d) == Map::<Seq<u8>, crate::output::Summary>::empty()
    &&& forall|j: int|
        #![trigger hand[j]]
        0 <= j < hand.len() ==> took_buffered::<I>(
            s.ctxs[j],
            s.ctxs[j + 1],
            d,
            hand[j],
            chunk_size,
            s.bufs[j],
            s.outs[j],
        )
}

/// A worker over a file that is in place started with nothing and took in `hand`, chunk after
/// chunk.
pub open spec fn mapped_shift<I: Intake>(
    s: Shift<I::Ctx>,
    d: Seq<u8>,
    chunk_size: int,
    hand: Seq<int>,
) -> bool {
    &&& s.ctxs.len() == hand.len() + 1
    &&& s.outs.len() == hand.len()
    &&& I::tally(s.ctxs[0], d) == Map::<Seq<u8>, crate::output::Summary>::empty()
    &&& forall|j: int|
        #![trigger hand[j]]
        0 <= j < hand.len() ==> took_in_place::<I>(
            s.ctxs[j],
            s.ctxs[j + 1],
            d,
            hand[j],
            chunk_size,
            s.outs[j],
        )
}

/// What the workers hold at the end, joined.
pub open spec fn brought<I: Intake>(shifts: Seq<Shift<I::Ctx>>, d: Seq<u8>) -> Tally {
    joined_all(Seq::new(shifts.len(), |w: int| I::tally(shifts[w].ctxs.last(), d)))
}

/// `m` holds `name` just where `r` has rows of it, with the summary of all its values.
pub open spec fn summarised(m: Tally, r: Seq<Record>, name: Seq<u8>) -> bool {
    &&& m.contains_key(name) <==> values_named(r, name).len() > 0
    &&& m.contains_key(name) ==> m[name] == summary(values_named(r, name))
}

/// The chunks that are claimed are chunks of the file.
proof fn lemma_claims_below(who: Seq<int>, w: int)
    ensures
        forall|j: int|
            0 <= j < claims(who, w).len() ==> 0 <= #[trigger] claims(who, w)[j] < who.len(),
    decreases who.len(),
{
    if who.len() > 0 {
        lemma_claims_below(who.drop_last(), w);
        let before = claims(who.drop_last(), w);
        assert forall|j: int| 0 <= j < claims(who, w).len() implies 0 <= #[trigger] claims(
            who,
            w,
        )[j] < who.len() by {
            if j < before.len() {
                assert(0 <= before[j] < who.drop_last().len());
            }
        }
    }
}

/// The rows of a hand, up to chunk `j` and with it.
proof fn lemma_dealt_next(d: Seq<u8>, chunk_size: int, hand: Seq<int>, j: int)
    requires
        0 <= j < hand.len(),
    ensures
        dealt(d, chunk_size, hand.take(j + 1)) == dealt(d, chunk_size, hand.take(j)) + chunk_part(
            d,
            hand[j],
            chunk_size,
        ),
        dealt(d, chunk_size, hand) == dealt(d, chunk_size, hand.take(j + 1)) + dealt(
            d,
            chunk_size,
            hand.skip(j + 1),
        ),
{
    let one = seq![hand[j]];
    assert(hand.take(j + 1) =~= hand.take(j) + one);
    lemma_dealt_concat(d, chunk_size, hand.take(j), one);
    assert(one.drop_first() =~= seq![]);
    assert(dealt(d, chunk_size, one.drop_first()) =~= seq![]);
    assert(dealt(d, chunk_size, one) =~= chunk_part(d, hand[j], chunk_size));
    assert(hand =~= hand.take(j + 1) + hand.skip(j + 1));
    lemma_dealt_concat(d, chunk_size, hand.take(j + 1), hand.skip(j + 1));
}

/// A buffered worker takes in the rows of its chunks.
proof fn lemma_buffered_shift<I: Buffered>(
    s: Shift<I::Ctx>,
    d: Seq<u8>,
    chunk_size: int,
    hand: Seq<int>,
    j: int,
)
    requires
        0 < chunk_size,
        d.len() <= usize::MAX,
        rows_as(d, 0, d.len() as int, d.len() as int, Names::Keyed),
        forall|k: int|
            0 <= k < hand.len() ==> 0 <= #[trigger] hand[k] < chunk_count(
                d.len() as int,
                chunk_size,
            ),
        buffered_shift::<I>(s, d, chunk_size, hand),
        I::fits(I::size(s.ctxs[0]), tally(dealt(d, chunk_size, hand))),
        0 <= j <= hand.len(),
    ensures
        I::size(s.ctxs[j]) == I::size(s.ctxs[0]),
        I::tally(s.ctxs[j], d) == tally(dealt(d, chunk_size, hand.take(j))),
        j > 0 ==> s.outs[j - 1] == Outcome::Fed,
    decreases j,
{
    if j == 0 {
        assert(hand.take(0) =~= seq![]);
    } else {
        let k = j - 1;
        let i = hand[k];
        let before = s.ctxs[k];
        let after = s.ctxs[j];
        let buf = s.bufs[k];
        let base = i * chunk_size;
        let avail = if chunk_size + OVERLAP < d.len() - base {
            chunk_size + OVERLAP
        } else {
            d.len() - base
        };
        lemma_buffered_shift::<I>(s, d, chunk_size, hand, k);
        lemma_dealt_next(d, chunk_size, hand, k);
        assert(took_buffered::<I>(before, after, d, i, chunk_size, buf, s.outs[k]));
        law_buffered_chunk_holds_its_rows(d, i, chunk_size, buf, avail, Names::Keyed);
        let part = chunk_part(d, i, chunk_size);
        let m = I::tally(before, d);
        let done = dealt(d, chunk_size, hand.take(k));
        lemma_absorb_concat(Map::empty(), done, part);
        lemma_absorb_concat(
            Map::empty(),
            dealt(d, chunk_size, hand.take(j)),
            dealt(d, chunk_size, hand.skip(j)),
        );
        lemma_absorb_grows(absorb_all(m, part), dealt(d, chunk_size, hand.skip(j)));
        I::fits_less(
            I::size(before),
            absorb_all(m, part),
            tally(dealt(d, chunk_size, hand)),
        );
        I::owns(before, buf, d);
        I::owns(after, buf, d);
        I::reads_stations();
        match local(buf.subrange(0, avail), base, chunk_size) {
            Some((start, end)) => {
                let found = rows(buf, start as int, end as int);
                assert(rows_as(buf, start as int, end as int, avail, Names::Keyed));
                assert(absorb_all(m, found) == absorb_all(m, part));
                if s.outs[k] == Outcome::Full {
                    assert(stopped::<I>(before, after, buf, found));
                    let n = choose|n: int|
                        0 <= n < found.len() && I::tally(after, buf) == absorb_all(
                            I::tally(before, buf),
                            #[trigger] found.take(n),
                        ) && !I::accepts(after, buf, found[n]);
                    lemma_rows_start(buf, start as int, end as int, n);
                    lemma_room_on_the_way::<I>(after, buf, m, found, n);
                    assert(false);
                }
            },
            None => {
                assert(absorb_all(m, part) == m);
            },
        }
    }
}

/// What fits what the file amounts to fits what any of the workers gets of it.
proof fn lemma_hand_fits<I: Intake>(
    d: Seq<u8>,
    chunk_size: int,
    who: Seq<int>,
    n: nat,
    w: int,
    size: nat,
)
    requires
        0 < chunk_size,
        d.len() <= usize::MAX,
        rows_as(d, 0, d.len() as int, d.len() as int, I::names()),
        who.len() == chunk_count(d.len() as int, chunk_size),
        forall|i: int| 0 <= i < who.len() ==> 0 <= #[trigger] who[i] < n,
        0 <= w < n,
        I::fits(size, tally(rows(d, 0, d.len() as int))),
    ensures
        I::fits(size, tally(dealt(d, chunk_size, claims(who, w)))),
{
    let all = hands(who, n);
    law_cursor_deals_each_chunk_once(who, n);
    law_any_schedule_tallies_the_input(d, chunk_size, all, I::names());
    let ideal = worked(d, chunk_size, all);
    lemma_part_within(ideal, w);
    assert(all[w] == claims(who, w));
    assert(ideal[w] == tally(dealt(d, chunk_size, claims(who, w))));
    I::fits_less(size, ideal[w], tally(rows(d, 0, d.len() as int)));
}

/// Workers that have taken in the rows of their chunks hold the tally of the file between them.
proof fn lemma_brought<I: Intake>(
    d: Seq<u8>,
    chunk_size: int,
    who: Seq<int>,
    shifts: Seq<Shift<I::Ctx>>,
)
    requires
        0 < chunk_size,
        d.len() <= usize::MAX,
        rows_as(d, 0, d.len() as int, d.len() as int, I::names()),
        who.len() == chunk_count(d.len() as int, chunk_size),
        forall|i: int| 0 <= i < who.len() ==> 0 <= #[trigger] who[i] < shifts.len(),
        forall|w: int|
            0 <= w < shifts.len() ==> I::tally((#[trigger] shifts[w]).ctxs.last(), d) == tally(
                dealt(d, chunk_size, claims(who, w)),
            ),
    ensures
        brought::<I>(shifts, d) == tally(rows(d, 0, d.len() as int)),
        forall|name: Seq<u8>| #[trigger]
            summarised(brought::<I>(shifts, d), rows(d, 0, d.len() as int), name),
{
    let n = shifts.len();
    let all = hands(who, n);
    law_cursor_deals_each_chunk_once(who, n);
    law_any_schedule_tallies_the_input(d, chunk_size, all, I::names());
    let ideal = worked(d, chunk_size, all);
    let parts = Seq::new(n, |w: int| I::tally(shifts[w].ctxs.last(), d));
    assert forall|w: int| 0 <= w < n implies parts[w] == ideal[w] by {
        assert(I::tally(shifts[w].ctxs.last(), d) == tally(dealt(d, chunk_size, claims(who, w))));
        assert(all[w] == claims(who, w));
    }
    assert(parts =~= ideal);
    assert forall|name: Seq<u8>| #[trigger]
        summarised(brought::<I>(shifts, d), rows(d, 0, d.len() as int), name) by {
        law_tally_summarises(rows(d, 0, d.len() as int), name);
    }
}

/// **No row is lost and none is counted twice.** Workers share a cursor: chunk `i` of the file goes
/// to worker `who[i]`. Each reads its chunks into a buffer and takes them in. However many workers
/// there are, whatever the chunk size and whoever gets which chunk: if each worker's table has room
/// for the file's stations, every chunk is taken in, and what the workers hold, joined, is the tally
/// of the file's rows: its names, each with the minimum, maximum, sum and count of all its values.
pub proof fn law_workers_tally_the_file<I: Buffered>(
    d: Seq<u8>,
    chunk_size: int,
    who: Seq<int>,
    shifts: Seq<Shift<I::Ctx>>,
)
    requires
        0 < chunk_size,
        d.len() <= usize::MAX,
        rows_as(d, 0, d.len() as int, d.len() as int, Names::Keyed),
        who.len() == chunk_count(d.len() as int, chunk_size),
        forall|i: int| 0 <= i < who.len() ==> 0 <= #[trigger] who[i] < shifts.len(),
        forall|w: int|
            0 <= w < shifts.len() ==> I::fits(
                I::size((#[trigger] shifts[w]).ctxs[0]),
                tally(rows(d, 0, d.len() as int)),
            ),
        forall|w: int|
            0 <= w < shifts.len() ==> buffered_shift::<I>(
                #[trigger] shifts[w],
                d,
                chunk_size,
                claims(who, w),
            ),
    ensures
        forall|w: int, j: int|
            0 <= w < shifts.len() && 0 <= j < shifts[w].outs.len() ==> #[trigger] shifts[w].outs[j]
                == Outcome::Fed,
        brought::<I>(shifts, d) == tally(rows(d, 0, d.len() as int)),
        forall|name: Seq<u8>| #[trigger]
            summarised(brought::<I>(shifts, d), rows(d, 0, d.len() as int), name),
{
    I::reads_stations();
    assert forall|w: int, j: int| 0 <= w < shifts.len() && 0 <= j < shifts[w].outs.len() implies
        #[trigger] shifts[w].outs[j] == Outcome::Fed by {
        let hand = claims(who, w);
        lemma_hand_fits::<I>(d, chunk_size, who, shifts.len(), w, I::size(shifts[w].ctxs[0]));
        lemma_claims_below(who, w);
        lemma_buffered_shift::<I>(shifts[w], d, chunk_size, hand, j + 1);
    }
    assert forall|w: int| 0 <= w < shifts.len() implies I::tally(
        (#[trigger] shifts[w]).ctxs.last(),
        d,
    ) == tally(dealt(d, chunk_size, claims(who, w))) by {
        let hand = claims(who, w);
        lemma_hand_fits::<I>(d, chunk_size, who, shifts.len(), w, I::size(shifts[w].ctxs[0]));
        lemma_claims_below(who, w);
        lemma_buffered_shift::<I>(shifts[w], d, chunk_size, hand, hand.len() as int);
        assert(hand.take(hand.len() as int) =~= hand);
    }
    lemma_brought::<I>(d, chunk_size, who, shifts);
}

/// A worker over a file that is in place takes in the rows of its chunks.
proof fn lemma_mapped_shift<I: Intake>(
    s: Shift<I::Ctx>,
    d: Seq<u8>,
    chunk_size: int,
    hand: Seq<int>,
    j: int,
)
    requires
        0 < chunk_size,
        d.len() <= usize::MAX,
        rows_as(d, 0, d.len() as int, d.len() as int, I::names()),
        forall|k: int|
            0 <= k < hand.len() ==> 0 <= #[trigger] hand[k] < chunk_count(
                d.len() as int,
                chunk_size,
            ),
        mapped_shift::<I>(s, d, chunk_size, hand),
        I::fits(I::size(s.ctxs[0]), tally(dealt(d, chunk_size, hand))),
        0 <= j <= hand.len(),
    ensures
        I::size(s.ctxs[j]) == I::size(s.ctxs[0]),
        I::tally(s.ctxs[j], d) == tally(dealt(d, chunk_size, hand.take(j))),
        j > 0 ==> s.outs[j - 1] == Outcome::Fed,
    decreases j,
{
    if j == 0 {
        assert(hand.take(0) =~= seq![]);
    } else {
        let k = j - 1;
        let i = hand[k];
        let before = s.ctxs[k];
        let after = s.ctxs[j];
        lemma_mapped_shift::<I>(s, d, chunk_size, hand, k);
        lemma_dealt_next(d, chunk_size, hand, k);
        assert(took_in_place::<I>(before, after, d, i, chunk_size, s.outs[k]));
        let part = chunk_part(d, i, chunk_size);
        let m = I::tally(before, d);
        lemma_absorb_concat(Map::empty(), dealt(d, chunk_size, hand.take(k)), part);
        lemma_absorb_concat(
            Map::empty(),
            dealt(d, chunk_size, hand.take(j)),
            dealt(d, chunk_size, hand.skip(j)),
        );
        lemma_absorb_grows(absorb_all(m, part), dealt(d, chunk_size, hand.skip(j)));
        I::fits_less(
            I::size(before),
            absorb_all(m, part),
            tally(dealt(d, chunk_size, hand)),
        );
        lemma_chunk_rows(d, i + 1, chunk_size, I::names());
        law_chunks_tile(d, i, chunk_size);
        match bounds(d, i, chunk_size) {
            Some((start, end)) => {
                if s.outs[k] == Outcome::Full {
                    assert(stopped::<I>(before, after, d, part));
                    let n = choose|n: int|
                        0 <= n < part.len() && I::tally(after, d) == absorb_all(
                            m,
                            #[trigger] part.take(n),
                        ) && !I::accepts(after, d, part[n]);
                    lemma_rows_start(d, start as int, end as int, n);
                    lemma_room_on_the_way::<I>(after, d, m, part, n);
                    assert(false);
                }
            },
            None => {
                assert(part =~= seq![]);
                assert(absorb_all(m, part) == m);
            },
        }
    }
}

/// [`law_workers_tally_the_file`] where the file is in place as a whole: if each worker's table has
/// room for what the file amounts to, every chunk is taken in, and what the workers hold, joined,
/// is the tally of the file's rows.
pub proof fn law_mapped_workers_tally_the_file<I: Intake>(
    d: Seq<u8>,
    chunk_size: int,
    who: Seq<int>,
    shifts: Seq<Shift<I::Ctx>>,
)
    requires
        0 < chunk_size,
        d.len() <= usize::MAX,
        rows_as(d, 0, d.len() as int, d.len() as int, I::names()),
        who.len() == chunk_count(d.len() as int, chunk_size),
        forall|i: int| 0 <= i < who.len() ==> 0 <= #[trigger] who[i] < shifts.len(),
        forall|w: int|
            0 <= w < shifts.len() ==> I::fits(
                I::size((#[trigger] shifts[w]).ctxs[0]),
                tally(rows(d, 0, d.len() as int)),
            ),
        forall|w: int|
            0 <= w < shifts.len() ==> mapped_shift::<I>(
                #[trigger] shifts[w],
                d,
                chunk_size,
                claims(who, w),
            ),
    ensures
        forall|w: int, j: int|
            0 <= w < shifts.len() && 0 <= j < shifts[w].outs.len() ==> #[trigger] shifts[w].outs[j]
                == Outcome::Fed,
        brought::<I>(shifts, d) == tally(rows(d, 0, d.len() as int)),
        forall|name: Seq<u8>| #[trigger]
            summarised(brought::<I>(shifts, d), rows(d, 0, d.len() as int), name),
{
    assert forall|w: int, j: int| 0 <= w < shifts.len() && 0 <= j < shifts[w].outs.len() implies
        #[trigger] shifts[w].outs[j] == Outcome::Fed by {
        let hand = claims(who, w);
        lemma_hand_fits::<I>(d, chunk_size, who, shifts.len(), w, I::size(shifts[w].ctxs[0]));
        lemma_claims_below(who, w);
        lemma_mapped_shift::<I>(shifts[w], d, chunk_size, hand, j + 1);
    }
    assert forall|w: int| 0 <= w < shifts.len() implies I::tally(
        (#[trigger] shifts[w]).ctxs.last(),
        d,
    ) == tally(dealt(d, chunk_size, claims(who, w))) by {
        let hand = claims(who, w);
        lemma_hand_fits::<I>(d, chunk_size, who, shifts.len(), w, I::size(shifts[w].ctxs[0]));
        lemma_claims_below(who, w);
        lemma_mapped_shift::<I>(shifts[w], d, chunk_size, hand, hand.len() as int);
        assert(hand.take(hand.len() as int) =~= hand);
    }
    lemma_brought::<I>(d, chunk_size, who, shifts);
}

} // verus!
