//! Row loops driven by delimiter bitmaps instead of by the previous row's parse.

use crate::block::bit;
use crate::block::block_delims;
use crate::block::block_newlines;
use crate::block::BLOCK;
use crate::bytes::lemma_first_at;
use crate::bytes::NEWLINE;
use crate::bytes::SEMICOLON;
use crate::engine::accepts_all;
use crate::engine::holds_rows;
use crate::engine::lemma_first_row;
use crate::engine::run_all;
use crate::engine::Engine;
use crate::hot::count::Counted;
use crate::hot::count::Counter;
use crate::hot::count::TakePair;
use crate::hot::count::TakeRow;
use crate::rows::lemma_row_shape;
use crate::rows::record_at;
use crate::rows::remaining;
use crate::rows::row_next;
use crate::rows::row_ok;
use crate::rows::row_stop;
use crate::rows::rows;
use crate::rows::rows_ok;
use crate::swar::find_semi;
use crate::swar::semi_at;
use vstd::prelude::*;
use vstd::slice::slice_subrange;
use vstd::std_specs::bits::axiom_u64_trailing_zeros;
use vstd::std_specs::bits::u64_trailing_zeros;

verus! {

/// Bit by bit: intersection, the bits from `s` up, the bits below `e`, and clearing the lowest.
proof fn lemma_bit_ops(m: u64, k: u64, s: u64, e: u64, i: int)
    requires
        0 <= i < 64,
        s < 64,
        0 < e < 64,
    ensures
        bit(m & k, i) == (bit(m, i) && bit(k, i)),
        bit(!0u64 << s, i) == (i >= s),
        bit(!0u64, i),
        (1u64 << e) >= 1,
        bit(((1u64 << e) - 1) as u64, i) == (i < e),
        !bit(0, i),
        m != 0 ==> bit((m & (m - 1) as u64), i) == (bit(m, i) && i != u64_trailing_zeros(m)),
{
    axiom_u64_trailing_zeros(m);
    let t = u64_trailing_zeros(m) as u64;
    let j = i as u64;
    assert({
        &&& (((m & k) >> j) & 1 == 1) == ((m >> j) & 1 == 1 && (k >> j) & 1 == 1)
        &&& (((!0u64 << s) >> j) & 1 == 1) == (j >= s)
        &&& ((!0u64) >> j) & 1 == 1
        &&& (1u64 << e) >= 1
        &&& (((((1u64 << e) - 1) as u64) >> j) & 1 == 1) == (j < e)
        &&& (0u64 >> j) & 1 != 1
        &&& m != 0 && t < 64 && (m >> t) & 1 == 1 && m << ((64 - t) as u64) == 0 ==> (((m & ((m
            - 1) as u64)) >> j) & 1 == 1) == ((m >> j) & 1 == 1 && j != t)
    }) by (bit_vector)
        requires
            j < 64,
            s < 64,
            0 < e < 64,
    ;
}

/// The lowest bit of a mask is set, and none below it is.
proof fn lemma_lowest_bit(m: u64)
    requires
        m != 0,
    ensures
        u64_trailing_zeros(m) < 64,
        bit(m, u64_trailing_zeros(m) as int),
        forall|i: int| 0 <= i < u64_trailing_zeros(m) ==> !#[trigger] bit(m, i),
{
    axiom_u64_trailing_zeros(m);
}

/// Delimiters that are not dealt with yet: those of the block at `base` that lie in `[pos, end)`.
spec fn awaits(m: u64, d: Seq<u8>, needle: u8, base: int, pos: int, end: int) -> bool {
    forall|i: int|
        0 <= i < 64 ==> #[trigger] bit(m, i) == (d[base + i] == needle && pos <= base + i < end)
}

/// The mask of a block, cut to what lies in the range.
#[inline(always)]
fn cut(m: u64, keep: u64, base: usize, end: usize) -> (r: u64)
    requires
        base < end,
    ensures
        forall|i: int|
            0 <= i < 64 ==> #[trigger] bit(r, i) == (bit(m, i) && bit(keep, i) && base + i < end),
{
    let kept = m & keep;
    if end - base < BLOCK {
        // 1 ..= 63 here, so the shift is in range.
        let e: u64 = (end - base) as u64;
        proof {
            lemma_bit_ops(m, keep, 0, e, 0);
            let last = ((1u64 << e) - 1) as u64;
            assert forall|i: int| 0 <= i < 64 implies #[trigger] bit(kept & last, i) == (bit(m, i)
                && bit(keep, i) && base + i < end) by {
                lemma_bit_ops(m, keep, 0, e, i);
                lemma_bit_ops(kept, last, 0, e, i);
            }
        }
        kept & ((1u64 << e) - 1)
    } else {
        assert forall|i: int| 0 <= i < 64 implies #[trigger] bit(kept, i) == (bit(m, i) && bit(
            keep,
            i,
        ) && base + i < end) by {
            lemma_bit_ops(m, keep, 0, 1, i);
        }
        kept
    }
}

/// Clears the lowest bit of a mask.
#[inline(always)]
fn pop(m: u64) -> (r: u64)
    requires
        m != 0,
    ensures
        forall|i: int|
            0 <= i < 64 ==> #[trigger] bit(r, i) == (bit(m, i) && i != u64_trailing_zeros(m)),
{
    assert forall|i: int| 0 <= i < 64 implies #[trigger] bit(m & (m - 1) as u64, i) == (bit(m, i)
        && i != u64_trailing_zeros(m)) by {
        lemma_bit_ops(m, 0, 0, 1, i);
    }
    m & (m - 1)
}

/// The first newline from a row's start on ends the row.
proof fn lemma_row_end(d: Seq<u8>, pos: int, nl: int, lim: int)
    requires
        0 <= pos <= nl < lim <= d.len(),
        row_ok(d, pos, lim),
        d[nl] == NEWLINE,
        forall|i: int| pos <= i < nl ==> #[trigger] d[i] != NEWLINE,
    ensures
        row_stop(d, pos) == nl,
        row_next(d, pos) == nl + 1,
{
    lemma_row_shape(d, pos, lim);
}

/// A row without a newline in the range ends with the range or after it.
proof fn lemma_row_open(d: Seq<u8>, pos: int, end: int, lim: int)
    requires
        0 <= pos < end <= lim <= d.len(),
        row_ok(d, pos, lim),
        forall|i: int| pos <= i < end ==> #[trigger] d[i] != NEWLINE,
    ensures
        end <= row_stop(d, pos) <= lim,
{
    lemma_row_shape(d, pos, lim);
}

/// Row loop driven by the newline bitmap instead of by the previous row's parse.
///
/// One [`block_newlines`] call yields every row boundary in 64 bytes up front, so the rows in a
/// block are independent by construction and the out-of-order window can overlap them.
///
/// Blocks are aligned down from `start` and the bits below it masked off, so the mask always
/// covers whole 64-byte lines of the input. The final block is truncated at `end`, whose
/// newline the next chunk must not see twice. A file with no trailing newline leaves a row
/// with no bit at all, which the tail check after the loop picks up. So it does with a row that
/// goes on past `end`, told to end there: that is for work that finds the row's end itself.
#[inline(always)]
pub fn drain_newlines<E: TakeRow>(ctx: &mut Counter<E::Ctx>, data: &[u8], start: usize, end: usize)
    requires
        Counted::<E>::inv(*old(ctx), data@),
        start <= end,
        holds_rows(data@, start as int, end as int),
        E::by_end() ==> rows_ok(data@, start as int, end as int, end as int),
        end + BLOCK <= data@.len() + 1,
        end + E::reach() <= data@.len() + 1,
        data@.len() < usize::MAX,
        accepts_all::<Counted<E>>(
            Counted::<E>::state(*old(ctx), data@),
            rows(data@, start as int, end as int),
        ),
    ensures
        Counted::<E>::inv(*final(ctx), data@),
        Counted::<E>::state(*final(ctx), data@) == run_all::<Counted<E>>(
            Counted::<E>::state(*old(ctx), data@),
            rows(data@, start as int, end as int),
        ),
{
    let ghost d = data@;
    let ghost goal = run_all::<Counted<E>>(
        Counted::<E>::state(*ctx, d),
        rows(d, start as int, end as int),
    );
    let ghost lim = if E::by_end() {
        end as int
    } else {
        choose|lim: int| end <= lim <= d.len() && #[trigger] rows_ok(d, start as int, end as int, lim)
    };
    assert(data.len() == d.len());
    let mut base: usize = start - start % BLOCK;
    let mut pos = start;
    // Newlines before `start` closed rows the previous chunk owns.
    let mut keep: u64 = !0u64 << ((start - base) as u64);
    assert forall|i: int| 0 <= i < 64 implies #[trigger] bit(keep, i) == (base + i >= pos) by {
        lemma_bit_ops(0, 0, (start - base) as u64, 1, i);
    }
    while base < end
        invariant
            d == data@,
            data.len() == d.len(),
            end + BLOCK <= d.len() + 1,
            end + E::reach() <= d.len() + 1,
            d.len() < usize::MAX,
            Counted::<E>::inv(*ctx, d),
            goal == run_all::<Counted<E>>(
                Counted::<E>::state(*ctx, d),
                rows(d, pos as int, end as int),
            ),
            accepts_all::<Counted<E>>(
                Counted::<E>::state(*ctx, d),
                rows(d, pos as int, end as int),
            ),
            end <= lim <= d.len(),
            E::by_end() ==> lim == end,
            rows_ok(d, pos as int, end as int, lim),
            pos <= end,
            pos <= base + BLOCK,
            forall|i: int| 0 <= i < 64 ==> #[trigger] bit(keep, i) == (base + i >= pos),
            forall|i: int| pos <= i < base && i < end ==> #[trigger] d[i] != NEWLINE,
        decreases remaining(base as int, end as int),
    {
        let block = slice_subrange(data, base, base + BLOCK);
        let mut m = cut(block_newlines(block), keep, base, end);
        proof {
            assert forall|i: int| 0 <= i < 64 implies #[trigger] bit(m, i) == (d[base + i]
                == NEWLINE && pos <= base + i < end) by {
                assert(block@[i] == d[base + i]);
                assert(bit(keep, i) == (base + i >= pos));
            }
        }
        while m != 0
            invariant
                d == data@,
                base < end,
                end + BLOCK <= d.len() + 1,
                end + E::reach() <= d.len() + 1,
                d.len() < usize::MAX,
                Counted::<E>::inv(*ctx, d),
                goal == run_all::<Counted<E>>(
                    Counted::<E>::state(*ctx, d),
                    rows(d, pos as int, end as int),
                ),
                accepts_all::<Counted<E>>(
                    Counted::<E>::state(*ctx, d),
                    rows(d, pos as int, end as int),
                ),
                end <= lim <= d.len(),
                E::by_end() ==> lim == end,
                rows_ok(d, pos as int, end as int, lim),
                pos <= end,
                pos <= base + BLOCK,
                awaits(m, d, NEWLINE, base as int, pos as int, end as int),
                forall|i: int| pos <= i < base && i < end ==> #[trigger] d[i] != NEWLINE,
            decreases remaining(pos as int, end as int),
        {
            let nl = base + m.trailing_zeros() as usize;
            proof {
                lemma_lowest_bit(m);
                let t = u64_trailing_zeros(m) as int;
                assert(bit(m, t));
                assert forall|i: int| pos <= i < nl implies #[trigger] d[i] != NEWLINE by {
                    if i >= base {
                        assert(!bit(m, i - base));
                    }
                }
                lemma_first_row(d, pos as int, end as int, lim);
                lemma_row_end(d, pos as int, nl as int, lim);
            }
            m = pop(m);
            let v = E::row(&mut ctx.inner, data, pos, nl);
            ctx.acc = ctx.acc ^ v;
            ctx.n = ctx.n + 1;
            pos = nl + 1;
        }
        proof {
            assert forall|i: int| pos <= i < base + BLOCK && i < end implies #[trigger] d[i]
                != NEWLINE by {
                if i >= base {
                    lemma_bit_ops(0, 0, 0, 1, i - base);
                    assert(!bit(m, i - base));
                }
            }
        }
        keep = !0u64;
        base += BLOCK;
        assert forall|i: int| 0 <= i < 64 implies #[trigger] bit(keep, i) by {
            lemma_bit_ops(0, 0, 0, 1, i);
        }
    }

    // Only fires on a final chunk whose file has no trailing newline, or where `end` cuts a row.
    if pos < end {
        proof {
            lemma_first_row(d, pos as int, end as int, lim);
            lemma_row_open(d, pos as int, end as int, lim);
        }
        let ghost st = Counted::<E>::state(*ctx, d);
        let v = E::row(&mut ctx.inner, data, pos, end);
        ctx.acc = ctx.acc ^ v;
        ctx.n = ctx.n + 1;
        proof {
            assert(rows(d, row_next(d, pos as int), end as int) =~= seq![]);
            assert(Counted::<E>::state(*ctx, d) == Counted::<E>::next(
                st,
                record_at(d, pos as int),
            ));
            assert(goal == run_all::<Counted<E>>(
                Counted::<E>::state(*ctx, d),
                rows(d, row_next(d, pos as int), end as int),
            ));
        }
    } else {
        assert(rows(d, pos as int, end as int) =~= seq![]);
    }
}

/// A row holds one `;`, within six bytes of its end.
proof fn lemma_row_semi(d: Seq<u8>, pos: int, end: int)
    requires
        0 <= pos < end <= d.len(),
        row_ok(d, pos, end),
    ensures
        pos < semi_at(d, pos) < row_stop(d, pos) <= semi_at(d, pos) + 6,
        row_stop(d, pos) <= end,
        forall|i: int|
            pos <= i < row_stop(d, pos) ==> (#[trigger] d[i] == SEMICOLON <==> i == semi_at(d, pos)),
        row_stop(d, pos) < end ==> d[row_stop(d, pos)] == NEWLINE,
{
    lemma_row_shape(d, pos, end);
    lemma_first_at(d, SEMICOLON, pos);
}

/// A carried `;`: one past its position, or 0 for none. It belongs to the row at `pos`, whose
/// newline has not been seen.
spec fn carried(carry: int, d: Seq<u8>, base: int, pos: int, end: int) -> bool {
    if carry == 0 {
        forall|i: int| pos <= i < base && i < end ==> #[trigger] d[i] != SEMICOLON
    } else {
        carry - 1 == semi_at(d, pos) && pos < carry <= base && pos < end
    }
}

/// [`drain_newlines`] driven by both bitmaps, so no row is scanned at all.
///
/// Names hold no `;` and temperatures hold no `\n`, so the two delimiters strictly alternate
/// and the k-th `;` in a chunk belongs to the k-th `\n`. Pairing is therefore just popping one
/// bit from each mask, with one exception: a row's `;` can land in one block and its `\n` in
/// the next, which leaves a `;` bit with no partner. At most one can ever be outstanding (the
/// `\n` follows its `;` within six bytes, and the next `;` follows that `\n`), so a single
/// carried position covers it.
#[inline(always)]
pub fn drain_delims<E: TakePair>(ctx: &mut Counter<E::Ctx>, data: &[u8], start: usize, end: usize)
    requires
        Counted::<E>::inv(*old(ctx), data@),
        start <= end,
        rows_ok(data@, start as int, end as int, end as int),
        end + BLOCK <= data@.len() + 1,
        end + E::reach() <= data@.len() + 1,
        data@.len() < usize::MAX,
        accepts_all::<Counted<E>>(
            Counted::<E>::state(*old(ctx), data@),
            rows(data@, start as int, end as int),
        ),
    ensures
        Counted::<E>::inv(*final(ctx), data@),
        Counted::<E>::state(*final(ctx), data@) == run_all::<Counted<E>>(
            Counted::<E>::state(*old(ctx), data@),
            rows(data@, start as int, end as int),
        ),
{
    let ghost d = data@;
    let ghost goal = run_all::<Counted<E>>(
        Counted::<E>::state(*ctx, d),
        rows(d, start as int, end as int),
    );
    assert(data.len() == d.len());
    let mut base: usize = start - start % BLOCK;
    let mut pos = start;
    let mut keep: u64 = !0u64 << ((start - base) as u64);
    // One past the carried `;`, or 0 for none.
    let mut carry: usize = 0;
    assert forall|i: int| 0 <= i < 64 implies #[trigger] bit(keep, i) == (base + i >= pos) by {
        lemma_bit_ops(0, 0, (start - base) as u64, 1, i);
    }
    while base < end
        invariant
            d == data@,
            data.len() == d.len(),
            end + BLOCK <= d.len() + 1,
            end + E::reach() <= d.len() + 1,
            d.len() < usize::MAX,
            Counted::<E>::inv(*ctx, d),
            goal == run_all::<Counted<E>>(
                Counted::<E>::state(*ctx, d),
                rows(d, pos as int, end as int),
            ),
            accepts_all::<Counted<E>>(
                Counted::<E>::state(*ctx, d),
                rows(d, pos as int, end as int),
            ),
            rows_ok(d, pos as int, end as int, end as int),
            pos <= end,
            pos <= base + BLOCK,
            forall|i: int| 0 <= i < 64 ==> #[trigger] bit(keep, i) == (base + i >= pos),
            forall|i: int| pos <= i < base && i < end ==> #[trigger] d[i] != NEWLINE,
            carried(carry as int, d, base as int, pos as int, end as int),
        decreases remaining(base as int, end as int),
    {
        let block = slice_subrange(data, base, base + BLOCK);
        let (semis, newlines) = block_delims(block);
        let mut sm = cut(semis, keep, base, end);
        let mut nm = cut(newlines, keep, base, end);
        proof {
            assert forall|i: int| 0 <= i < 64 implies #[trigger] bit(nm, i) == (d[base + i]
                == NEWLINE && pos <= base + i < end) by {
                assert(block@[i] == d[base + i]);
                assert(bit(newlines, i) == (block@[i] == NEWLINE));
                assert(bit(keep, i) == (base + i >= pos));
            }
            assert forall|i: int| 0 <= i < 64 implies #[trigger] bit(sm, i) == (d[base + i]
                == SEMICOLON && pos <= base + i < end) by {
                assert(block@[i] == d[base + i]);
                assert(bit(semis, i) == (block@[i] == SEMICOLON));
                assert(bit(keep, i) == (base + i >= pos));
            }
        }
        while nm != 0
            invariant
                d == data@,
                base < end,
                end + BLOCK <= d.len() + 1,
                end + E::reach() <= d.len() + 1,
                d.len() < usize::MAX,
                Counted::<E>::inv(*ctx, d),
                goal == run_all::<Counted<E>>(
                    Counted::<E>::state(*ctx, d),
                    rows(d, pos as int, end as int),
                ),
                accepts_all::<Counted<E>>(
                    Counted::<E>::state(*ctx, d),
                    rows(d, pos as int, end as int),
                ),
                rows_ok(d, pos as int, end as int, end as int),
                pos <= end,
                pos <= base + BLOCK,
                awaits(nm, d, NEWLINE, base as int, pos as int, end as int),
                awaits(sm, d, SEMICOLON, base as int, pos as int, end as int),
                forall|i: int| pos <= i < base && i < end ==> #[trigger] d[i] != NEWLINE,
                carried(carry as int, d, base as int, pos as int, end as int),
            decreases remaining(pos as int, end as int),
        {
            let nl = base + nm.trailing_zeros() as usize;
            proof {
                lemma_lowest_bit(nm);
                assert(bit(nm, u64_trailing_zeros(nm) as int));
                assert forall|i: int| pos <= i < nl implies #[trigger] d[i] != NEWLINE by {
                    if i >= base {
                        assert(!bit(nm, i - base));
                    }
                }
                lemma_first_row(d, pos as int, end as int, end as int);
                lemma_row_end(d, pos as int, nl as int, end as int);
                lemma_row_semi(d, pos as int, end as int);
                lemma_semi_found(sm, carry as int, d, base as int, pos as int, end as int);
            }
            nm = pop(nm);

            let semi: usize = if carry != 0 {
                carry - 1
            } else {
                base + sm.trailing_zeros() as usize
            };
            if carry == 0 {
                sm = pop(sm);
            }
            carry = 0;

            let v = E::pair(&mut ctx.inner, data, pos, semi, nl);
            ctx.acc = ctx.acc ^ v;
            ctx.n = ctx.n + 1;
            proof {
                assert forall|i: int| 0 <= i < 64 implies #[trigger] bit(sm, i) == (d[base + i]
                    == SEMICOLON && nl + 1 <= base + i < end) by {
                    if pos <= base + i < nl {
                        assert(d[base + i] == SEMICOLON <==> base + i == semi);
                    }
                    assert(d[nl as int] == NEWLINE);
                }
            }
            pos = nl + 1;
        }
        proof {
            assert forall|i: int| pos <= i < base + BLOCK && i < end implies #[trigger] d[i]
                != NEWLINE by {
                if i >= base {
                    lemma_bit_ops(0, 0, 0, 1, i - base);
                    assert(!bit(nm, i - base));
                }
            }
            if pos < end {
                lemma_first_row(d, pos as int, end as int, end as int);
            }
            lemma_carry(sm, carry as int, d, base as int, pos as int, end as int);
        }
        // At most one `;` is left without its newline.
        if sm != 0 {
            carry = base + sm.trailing_zeros() as usize + 1;
        }
        keep = !0u64;
        base += BLOCK;
        assert forall|i: int| 0 <= i < 64 implies #[trigger] bit(keep, i) by {
            lemma_bit_ops(0, 0, 0, 1, i);
        }
    }

    // Only fires on a final chunk whose file has no trailing newline.
    if pos < end {
        proof {
            lemma_first_row(d, pos as int, end as int, end as int);
            lemma_row_open(d, pos as int, end as int, end as int);
            lemma_row_semi(d, pos as int, end as int);
        }
        let semi: usize = if carry != 0 {
            carry - 1
        } else {
            find_semi(data, pos)
        };
        let ghost st = Counted::<E>::state(*ctx, d);
        let v = E::pair(&mut ctx.inner, data, pos, semi, end);
        ctx.acc = ctx.acc ^ v;
        ctx.n = ctx.n + 1;
        proof {
            assert(rows(d, row_next(d, pos as int), end as int) =~= seq![]);
            assert(Counted::<E>::state(*ctx, d) == Counted::<E>::next(
                st,
                record_at(d, pos as int),
            ));
            assert(goal == run_all::<Counted<E>>(
                Counted::<E>::state(*ctx, d),
                rows(d, row_next(d, pos as int), end as int),
            ));
        }
    } else {
        assert(rows(d, pos as int, end as int) =~= seq![]);
    }
}

/// With nothing carried, the lowest `;` of the block is the row's.
proof fn lemma_semi_found(sm: u64, carry: int, d: Seq<u8>, base: int, pos: int, end: int)
    requires
        0 <= base,
        0 <= pos < end <= d.len(),
        row_ok(d, pos, end),
        base <= row_stop(d, pos) < base + 64,
        awaits(sm, d, SEMICOLON, base, pos, end),
        carried(carry, d, base, pos, end),
    ensures
        carry == 0 ==> sm != 0 && base + u64_trailing_zeros(sm) == semi_at(d, pos),
{
    lemma_row_semi(d, pos, end);
    let semi = semi_at(d, pos);
    if carry == 0 {
        assert(d[semi] == SEMICOLON);
        assert(semi >= base);
        assert(bit(sm, semi - base));
        if sm == 0 {
            lemma_bit_ops(0, 0, 0, 1, semi - base);
        }
        lemma_lowest_bit(sm);
        let t = u64_trailing_zeros(sm) as int;
        assert(bit(sm, t));
        if t < semi - base {
            assert(d[base + t] == SEMICOLON <==> base + t == semi);
        }
    }
}

/// At the end of a block, a `;` that is left over is the one of the row still open, and then
/// none was carried into the block.
proof fn lemma_carry(sm: u64, carry: int, d: Seq<u8>, base: int, pos: int, end: int)
    requires
        0 <= base < end,
        0 <= pos <= end <= d.len(),
        pos < end ==> row_ok(d, pos, end),
        awaits(sm, d, SEMICOLON, base, pos, end),
        carried(carry, d, base, pos, end),
        forall|i: int| pos <= i < base + 64 && i < end ==> #[trigger] d[i] != NEWLINE,
    ensures
        sm == 0 ==> carried(carry, d, base + 64, pos, end),
        sm != 0 ==> carried(base + u64_trailing_zeros(sm) + 1, d, base + 64, pos, end),
        sm != 0 ==> u64_trailing_zeros(sm) < 64,
{
    if sm != 0 {
        lemma_lowest_bit(sm);
        let t = u64_trailing_zeros(sm) as int;
        assert(bit(sm, t));
        lemma_row_semi(d, pos, end);
        let semi = semi_at(d, pos);
        let stop = row_stop(d, pos);
        assert(stop < end ==> stop >= base + 64) by {
            if stop < end && stop < base + 64 {
                assert(d[stop] != NEWLINE);
            }
        }
        assert(base + t < stop);
        assert(d[base + t] == SEMICOLON <==> base + t == semi);
    } else {
        if carry == 0 {
            assert forall|i: int| pos <= i < base + 64 && i < end implies #[trigger] d[i]
                != SEMICOLON by {
                if i >= base {
                    lemma_bit_ops(0, 0, 0, 1, i - base);
                    assert(!bit(sm, i - base));
                }
            }
        }
    }
}

} // verus!
