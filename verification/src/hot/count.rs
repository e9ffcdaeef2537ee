//! Counting rows and folding what each yields into a sink.

use crate::engine::run_all;
use crate::engine::whole_row;
use crate::engine::Commuting;
use crate::engine::Engine;
use crate::engine::Step;
use crate::rows::record_at;
use crate::rows::row_next;
use crate::rows::row_stop;
use crate::rows::Names;
use crate::rows::Record;
use crate::swar::semi_at;
use vstd::prelude::*;

verus! {

/// An engine that yields a word for every row.
pub trait Sunk: Engine {
    /// What a row yields.
    spec fn sink(r: Record) -> u64;
}

/// One row's work, for a driver that learns from it where the next one starts.
pub trait TakeStep: Sunk {
    /// Returns the value to fold into the sink and the start of the next row.
    fn take(ctx: &mut Self::Ctx, data: &[u8], pos: usize) -> (r: (u64, usize))
        requires
            Self::inv(*old(ctx), data@),
            whole_row(data@, pos as int),
            pos + Self::reach() <= data@.len() < usize::MAX,
            Self::accepts(Self::state(*old(ctx), data@), record_at(data@, pos as int)),
        ensures
            Self::inv(*final(ctx), data@),
            Self::state(*final(ctx), data@) == Self::next(
                Self::state(*old(ctx), data@),
                record_at(data@, pos as int),
            ),
            r.0 == Self::sink(record_at(data@, pos as int)),
            r.1 == row_next(data@, pos as int),
    ;
}

/// [`TakeStep`] for a driver that already knows where the row ends.
pub trait TakeRow: Sunk {
    /// The work goes by the end it is told, rather than find it again.
    spec fn by_end() -> bool;

    fn row(ctx: &mut Self::Ctx, data: &[u8], pos: usize, nl: usize) -> (v: u64)
        requires
            Self::inv(*old(ctx), data@),
            whole_row(data@, pos as int),
            Self::by_end() ==> nl == row_stop(data@, pos as int),
            pos + Self::reach() <= data@.len() < usize::MAX,
            Self::accepts(Self::state(*old(ctx), data@), record_at(data@, pos as int)),
        ensures
            Self::inv(*final(ctx), data@),
            Self::state(*final(ctx), data@) == Self::next(
                Self::state(*old(ctx), data@),
                record_at(data@, pos as int),
            ),
            v == Self::sink(record_at(data@, pos as int)),
    ;
}

/// [`TakeRow`] for a driver that also knows where the `;` is.
pub trait TakePair: Sunk {
    fn pair(ctx: &mut Self::Ctx, data: &[u8], pos: usize, semi: usize, nl: usize) -> (v: u64)
        requires
            Self::inv(*old(ctx), data@),
            whole_row(data@, pos as int),
            semi == semi_at(data@, pos as int),
            nl == row_stop(data@, pos as int),
            pos + Self::reach() <= data@.len() < usize::MAX,
            Self::accepts(Self::state(*old(ctx), data@), record_at(data@, pos as int)),
        ensures
            Self::inv(*final(ctx), data@),
            Self::state(*final(ctx), data@) == Self::next(
                Self::state(*old(ctx), data@),
                record_at(data@, pos as int),
            ),
            v == Self::sink(record_at(data@, pos as int)),
    ;
}

/// A context with the rows it has been fed counted and their yield folded together.
pub struct Counter<C> {
    pub acc: u64,
    pub n: u64,
    pub inner: C,
}

impl<C> Counter<C> {
    pub fn new(inner: C) -> (c: Self)
        ensures
            c.acc == 0,
            c.n == 0,
            c.inner == inner,
    {
        Counter { acc: 0, n: 0, inner }
    }
}

/// What a [`Counter`] amounts to.
pub struct Count<S> {
    pub acc: u64,
    pub n: nat,
    pub inner: S,
}

/// An engine with its rows counted.
pub struct Counted<E> {
    pub engine: E,
}

impl<E: Sunk> Engine for Counted<E> {
    type Ctx = Counter<E::Ctx>;

    type S = Count<E::S>;

    open spec fn inv(ctx: Counter<E::Ctx>, d: Seq<u8>) -> bool {
        E::inv(ctx.inner, d)
    }

    open spec fn state(ctx: Counter<E::Ctx>, d: Seq<u8>) -> Count<E::S> {
        Count { acc: ctx.acc, n: ctx.n as nat, inner: E::state(ctx.inner, d) }
    }

    open spec fn next(s: Count<E::S>, r: Record) -> Count<E::S> {
        Count { acc: s.acc ^ E::sink(r), n: s.n + 1, inner: E::next(s.inner, r) }
    }

    open spec fn accepts(s: Count<E::S>, r: Record) -> bool {
        s.n < u64::MAX && E::accepts(s.inner, r)
    }

    open spec fn reach() -> int {
        E::reach()
    }
}

impl<E: TakeStep> Step for Counted<E> {
    open spec fn names() -> Names {
        Names::Station
    }

    #[inline(always)]
    fn step(ctx: &mut Counter<E::Ctx>, data: &[u8], pos: usize) -> (next: usize) {
        let (v, next) = E::take(&mut ctx.inner, data, pos);
        ctx.acc = ctx.acc ^ v;
        ctx.n = ctx.n + 1;
        next
    }
}

impl<E: Sunk + Commuting> Commuting for Counted<E> {
    open spec fn fits(s: Count<E::S>) -> bool {
        s.n <= u64::MAX && E::fits(s.inner)
    }

    proof fn swap(s: Count<E::S>, a: Record, b: Record) {
        E::swap(s.inner, a, b);
        lemma_xor_swap(s.acc, E::sink(a), E::sink(b));
    }

    proof fn room(s: Count<E::S>, r: Record) {
        E::room(s.inner, r);
    }
}

/// How exclusive or behaves.
pub proof fn lemma_xor_swap(acc: u64, a: u64, b: u64)
    ensures
        acc ^ a ^ b == acc ^ b ^ a,
        acc ^ (a ^ b) == acc ^ a ^ b,
        acc ^ 0 == acc,
        acc ^ acc == 0,
        a ^ b == b ^ a,
        acc << 0u64 == acc,
{
    assert({
        &&& acc ^ a ^ b == acc ^ b ^ a
        &&& acc ^ (a ^ b) == acc ^ a ^ b
        &&& acc ^ 0 == acc
        &&& acc ^ acc == 0
        &&& a ^ b == b ^ a
        &&& acc << 0u64 == acc
    }) by (bit_vector);
}

/// The XOR of what `rows` yield, starting from `acc`.
pub open spec fn sinks<E: Sunk>(acc: u64, rows: Seq<Record>) -> u64
    decreases rows.len(),
{
    if rows.len() == 0 {
        acc
    } else {
        sinks::<E>(acc ^ E::sink(rows[0]), rows.drop_first())
    }
}

/// Counting a run is running, counting and folding.
pub proof fn law_counted_run<E: Sunk>(s: Count<E::S>, rows: Seq<Record>)
    ensures
        run_all::<Counted<E>>(s, rows) == (Count {
            acc: sinks::<E>(s.acc, rows),
            n: s.n + rows.len(),
            inner: run_all::<E>(s.inner, rows),
        }),
    decreases rows.len(),
{
    if rows.len() > 0 {
        law_counted_run::<E>(Counted::<E>::next(s, rows[0]), rows.drop_first());
    }
}

/// Engines that yield the same for every row end with the same sink and the same count.
pub proof fn law_same_sink<E: Sunk, F: Sunk>(acc: u64, rows: Seq<Record>)
    requires
        forall|r: Record| #[trigger] E::sink(r) == F::sink(r),
    ensures
        sinks::<E>(acc, rows) == sinks::<F>(acc, rows),
    decreases rows.len(),
{
    if rows.len() > 0 {
        assert(E::sink(rows[0]) == F::sink(rows[0]));
        law_same_sink::<E, F>(acc ^ E::sink(rows[0]), rows.drop_first());
    }
}

/// The sink of rows reached in another order is the same sink.
pub proof fn law_sink_any_order<E: Sunk>(acc: u64, a: Seq<Record>, b: Seq<Record>)
    requires
        a.to_multiset() == b.to_multiset(),
    ensures
        sinks::<E>(acc, a) == sinks::<E>(acc, b),
    decreases a.len(),
{
    a.to_multiset_ensures();
    b.to_multiset_ensures();
    if a.len() > 0 {
        let r = a[0];
        assert(a.contains(r));
        assert(a.to_multiset().count(r) > 0);
        assert(b.to_multiset().count(r) > 0);
        assert(b.contains(r));
        let k = choose|k: int| 0 <= k < b.len() && b[k] == r;
        let front = b.subrange(0, k);
        let back = b.subrange(k + 1, b.len() as int);
        assert(front + back =~= b.remove(k));
        assert(a.drop_first() =~= a.remove(0));
        law_sink_any_order::<E>(acc ^ E::sink(r), a.drop_first(), front + back);
        assert(b =~= front + (seq![r] + back));
        lemma_sinks_concat::<E>(acc, front, seq![r] + back);
        lemma_sinks_concat::<E>(acc ^ E::sink(r), front, back);
        lemma_sinks_later::<E>(acc, E::sink(r), front);
        assert((seq![r] + back).drop_first() =~= back);
        assert((seq![r] + back)[0] == r);
    }
}

pub proof fn lemma_sinks_concat<E: Sunk>(acc: u64, a: Seq<Record>, b: Seq<Record>)
    ensures
        sinks::<E>(acc, a + b) == sinks::<E>(sinks::<E>(acc, a), b),
    decreases a.len(),
{
    if a.len() == 0 {
        assert(a + b =~= b);
    } else {
        assert((a + b)[0] == a[0]);
        assert((a + b).drop_first() =~= a.drop_first() + b);
        lemma_sinks_concat::<E>(acc ^ E::sink(a[0]), a.drop_first(), b);
    }
}

proof fn lemma_sinks_later<E: Sunk>(acc: u64, v: u64, rows: Seq<Record>)
    ensures
        sinks::<E>(acc ^ v, rows) == sinks::<E>(acc, rows) ^ v,
    decreases rows.len(),
{
    if rows.len() > 0 {
        lemma_xor_swap(acc, v, E::sink(rows[0]));
        lemma_sinks_later::<E>(acc ^ E::sink(rows[0]), v, rows.drop_first());
    }
}

/// The sink takes in what every row yields, the last as the first, and nothing where there is none.
pub proof fn law_sink_takes_in_every_row<E: Sunk>(acc: u64, rows: Seq<Record>, r: Record)
    ensures
        sinks::<E>(acc, seq![]) == acc,
        sinks::<E>(acc, rows.push(r)) == sinks::<E>(acc, rows) ^ E::sink(r),
{
    assert(rows.push(r) =~= rows + seq![r]);
    lemma_sinks_concat::<E>(acc, rows, seq![r]);
    assert(seq![r].drop_first() =~= seq![]);
    reveal_with_fuel(sinks, 2);
}

} // verus!
