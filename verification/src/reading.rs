//! Which bytes to read for a chunk, and what reading them without parsing comes to.

use crate::bytes::load_word;
use crate::bytes::word_at;
use crate::chunk::chunk_count;
use crate::chunk::lemma_chunk_count;
use crate::feed::OVERLAP;
use crate::hot::count::lemma_xor_swap;
use crate::hot::sweep::law_sweep_feels_every_byte;
use crate::hot::sweep::lemma_words_later;
use crate::hot::sweep::words_folded;
use vstd::prelude::*;

verus! {

/// Where chunk `i` of an input of `len` bytes starts, and how many bytes of it to read: the chunk
/// and enough past it that the line straddling its end can be finished. `None` past the end.
pub fn read_span(len: usize, i: usize, chunk_size: usize) -> (r: Option<(usize, usize)>)
    ensures
        match r {
            Some((base, avail)) => {
                &&& base == i * chunk_size < len
                &&& avail == if chunk_size + OVERLAP < len - base {
                    chunk_size + OVERLAP
                } else {
                    len - base
                }
            },
            None => i * chunk_size >= len,
        },
{
    let base = match i.checked_mul(chunk_size) {
        Some(base) => base,
        None => {
            return None;
        },
    };
    if base >= len {
        return None;
    }
    let rest = len - base;
    if chunk_size < rest && rest - chunk_size > OVERLAP {
        Some((base, chunk_size + OVERLAP))
    } else {
        Some((base, rest))
    }
}

/// Chunk `i` of an input of `len` bytes, with no regard to lines.
pub open spec fn raw_range(len: int, i: int, chunk_size: int) -> (int, int) {
    let a = i * chunk_size;
    (
        a,
        if a + chunk_size < len {
            a + chunk_size
        } else {
            len
        },
    )
}

/// Chunk `i`, until they run out.
pub fn next_range(len: usize, i: usize, chunk_size: usize) -> (r: Option<(usize, usize)>)
    requires
        chunk_size > 0,
    ensures
        match r {
            Some((a, b)) => {
                &&& i < chunk_count(len as int, chunk_size as int)
                &&& (a as int, b as int) == raw_range(len as int, i as int, chunk_size as int)
                &&& a < b <= len
            },
            None => i >= chunk_count(len as int, chunk_size as int),
        },
{
    if i >= crate::chunk::num_chunks(len, chunk_size) {
        return None;
    }
    proof {
        lemma_chunk_count(len as int, chunk_size as int);
        let n = chunk_count(len as int, chunk_size as int);
        assert(i * chunk_size <= (n - 1) * chunk_size) by (nonlinear_arith)
            requires
                i <= n - 1,
                chunk_size > 0,
        ;
        assert(0 <= i * chunk_size) by (nonlinear_arith)
            requires
                0 <= i,
                0 < chunk_size,
        ;
    }
    let a = i * chunk_size;
    if len - a > chunk_size {
        Some((a, a + chunk_size))
    } else {
        Some((a, len))
    }
}

/// The ranges tile the input: each starts where the one before ends, and the last ends with it.
pub proof fn law_ranges_tile(len: int, i: int, chunk_size: int)
    requires
        len >= 0,
        chunk_size > 0,
        0 <= i < chunk_count(len, chunk_size),
    ensures
        raw_range(len, 0, chunk_size).0 == 0,
        i + 1 < chunk_count(len, chunk_size) ==> raw_range(len, i, chunk_size).1 == raw_range(
            len,
            i + 1,
            chunk_size,
        ).0,
        i + 1 == chunk_count(len, chunk_size) ==> raw_range(len, i, chunk_size).1 == len,
{
    lemma_chunk_count(len, chunk_size);
    let n = chunk_count(len, chunk_size);
    assert(0 * chunk_size == 0);
    assert((i + 1) * chunk_size == i * chunk_size + chunk_size) by (nonlinear_arith);
    if i + 1 < n {
        assert((i + 1) * chunk_size <= (n - 1) * chunk_size) by (nonlinear_arith)
            requires
                i + 1 <= n - 1,
                chunk_size > 0,
        ;
    }
}

/// The XOR of the bytes of `[pos, end)`, starting from `acc`.
pub open spec fn bytes_folded(acc: u64, d: Seq<u8>, pos: int, end: int) -> u64
    decreases end - pos,
{
    if pos >= end {
        acc
    } else {
        bytes_folded(acc ^ (d[pos] as u64), d, pos + 1, end)
    }
}

/// The XOR of the words of `d`, and of the bytes past the last whole one.
pub open spec fn reduced(acc: u64, d: Seq<u8>) -> u64 {
    let whole = d.len() - d.len() % 8;
    bytes_folded(words_folded(acc, d, 0, whole), d, whole, d.len() as int)
}

/// XOR-reduces, so that the reads cannot be optimised away.
#[inline]
pub fn reduce(bytes: &[u8]) -> (acc: u64)
    ensures
        acc == reduced(0, bytes@),
{
    let mut acc: u64 = 0;
    let whole: usize = bytes.len() - bytes.len() % 8;
    let mut pos: usize = 0;
    while pos < whole
        invariant
            pos <= whole <= bytes@.len(),
            whole == bytes@.len() - bytes@.len() % 8,
            pos % 8 == 0,
            words_folded(acc, bytes@, pos as int, whole as int) == words_folded(
                0,
                bytes@,
                0,
                whole as int,
            ),
        decreases whole - pos,
    {
        acc = acc ^ load_word(bytes, pos);
        pos = pos + 8;
    }
    while pos < bytes.len()
        invariant
            whole <= pos <= bytes@.len(),
            whole == bytes@.len() - bytes@.len() % 8,
            bytes_folded(acc, bytes@, pos as int, bytes@.len() as int) == reduced(0, bytes@),
        decreases bytes@.len() - pos,
    {
        acc = acc ^ bytes[pos] as u64;
        pos = pos + 1;
    }
    acc
}

proof fn lemma_bytes_later(acc: u64, v: u64, d: Seq<u8>, pos: int, end: int)
    ensures
        bytes_folded(acc ^ v, d, pos, end) == bytes_folded(acc, d, pos, end) ^ v,
    decreases end - pos,
{
    if pos < end {
        lemma_xor_swap(acc, v, d[pos] as u64);
        lemma_bytes_later(acc ^ (d[pos] as u64), v, d, pos + 1, end);
    }
}

/// Each part's sum can be taken on its own, and the parts in any order: what a part comes to is
/// folded in whatever has been folded before.
pub proof fn law_parts_fold_in_any_order(acc: u64, v: u64, d: Seq<u8>)
    ensures
        reduced(acc ^ v, d) == reduced(acc, d) ^ v,
{
    let whole = d.len() - d.len() % 8;
    lemma_words_later(acc, v, d, 0, whole);
    lemma_bytes_later(words_folded(acc, d, 0, whole), v, d, whole, d.len() as int);
}

proof fn lemma_words_concat(acc: u64, a: Seq<u8>, b: Seq<u8>, pos: int)
    requires
        a.len() % 8 == 0,
        0 <= pos <= a.len(),
        pos % 8 == 0,
    ensures
        ({
            let whole = (a + b).len() - (a + b).len() % 8;
            words_folded(acc, a + b, pos, whole) == words_folded(
                words_folded(acc, a, pos, a.len() as int),
                b,
                0,
                b.len() - b.len() % 8,
            )
        }),
    decreases a.len() - pos,
{
    let whole = (a + b).len() - (a + b).len() % 8;
    if pos < a.len() {
        assert(word_at(a + b, pos) == word_at(a, pos));
        lemma_words_concat(acc ^ word_at(a, pos), a, b, pos + 8);
    } else {
        lemma_words_shift(acc, a, b, 0);
    }
}

proof fn lemma_words_shift(acc: u64, a: Seq<u8>, b: Seq<u8>, pos: int)
    requires
        a.len() % 8 == 0,
        0 <= pos,
        pos % 8 == 0,
    ensures
        words_folded(acc, a + b, a.len() + pos, (a + b).len() - (a + b).len() % 8)
            == words_folded(acc, b, pos, b.len() - b.len() % 8),
    decreases b.len() - pos,
{
    if pos + 8 <= b.len() - b.len() % 8 {
        assert(word_at(a + b, a.len() + pos) == word_at(b, pos));
        lemma_words_shift(acc ^ word_at(b, pos), a, b, pos + 8);
    }
}

proof fn lemma_bytes_shift(acc: u64, a: Seq<u8>, b: Seq<u8>, pos: int)
    requires
        0 <= pos,
    ensures
        bytes_folded(acc, a + b, a.len() + pos, (a + b).len() as int) == bytes_folded(
            acc,
            b,
            pos,
            b.len() as int,
        ),
    decreases b.len() - pos,
{
    if pos < b.len() {
        assert((a + b)[a.len() + pos] == b[pos]);
        lemma_bytes_shift(acc ^ (b[pos] as u64), a, b, pos + 1);
    }
}

/// Cut at a whole word, an input comes to what its parts do: the checksum does not show how the
/// input was cut up.
pub proof fn law_checksum_of_parts(acc: u64, a: Seq<u8>, b: Seq<u8>)
    requires
        a.len() % 8 == 0,
    ensures
        reduced(acc, a + b) == reduced(reduced(acc, a), b),
{
    let whole = (a + b).len() - (a + b).len() % 8;
    let tail = b.len() - b.len() % 8;
    lemma_words_concat(acc, a, b, 0);
    assert(whole == a.len() + tail);
    lemma_bytes_shift(words_folded(acc, a + b, 0, whole), a, b, tail);
}

/// Which range a byte is in: the one that its place, divided by the size, says.
pub proof fn law_range_has_its_bytes(len: int, i: int, chunk_size: int, x: int)
    requires
        0 < chunk_size,
        0 <= i,
        0 <= x < len,
    ensures
        raw_range(len, i, chunk_size).0 <= x < raw_range(len, i, chunk_size).1 <==> i * chunk_size
            <= x < (i + 1) * chunk_size,
{
    assert((i + 1) * chunk_size == i * chunk_size + chunk_size) by (nonlinear_arith);
}

proof fn lemma_tail_feels_every_byte(acc: u64, d: Seq<u8>, pos: int, end: int, k: int, v: u8)
    requires
        0 <= pos <= end <= d.len(),
        0 <= k < d.len(),
    ensures
        bytes_folded(acc, d.update(k, v), pos, end) == if pos <= k < end {
            bytes_folded(acc, d, pos, end) ^ ((d[k] ^ v) as u64)
        } else {
            bytes_folded(acc, d, pos, end)
        },
        (forall|i: int| pos <= i < end ==> d[i] == 0) ==> bytes_folded(acc, d, pos, end) == acc,
    decreases end - pos,
{
    if pos < end {
        let x = d[pos] as u64;
        lemma_tail_feels_every_byte(acc ^ x, d, pos + 1, end, k, v);
        if k == pos {
            let e = d.update(k, v);
            let (a, b) = (v as u64, (d[k] ^ v) as u64);
            assert(a == x ^ b) by {
                assert(b == x ^ a);
                lemma_xor_swap(x, x, a);
                lemma_xor_swap(a, 0, a);
            }
            lemma_xor_swap(acc, x, b);
            lemma_bytes_later(acc ^ x, b, e, pos + 1, end);
        }
        lemma_xor_swap(acc, 0, 0);
    }
}

/// **The checksum feels every byte.** Another byte changes it by just the bits in which the two
/// differ: in the byte's place in its word, or at the bottom where it is in no whole word. An input
/// of zeros comes to nothing.
pub proof fn law_checksum_feels_every_byte(acc: u64, d: Seq<u8>, k: int, v: u8)
    requires
        0 <= k < d.len(),
    ensures
        reduced(acc, d.update(k, v)) == reduced(acc, d) ^ (((d[k] ^ v) as u64) << (if k < d.len()
            - d.len() % 8 {
            8 * (k % 8)
        } else {
            0
        }) as u64),
        (forall|i: int| 0 <= i < d.len() ==> d[i] == 0) ==> reduced(acc, d) == acc,
{
    let len = d.len() as int;
    let whole = len - len % 8;
    let e = d.update(k, v);
    let y = (d[k] ^ v) as u64;
    law_sweep_feels_every_byte(acc, d, 0, whole, k, v);
    let sum = words_folded(acc, d, 0, whole);
    lemma_tail_feels_every_byte(words_folded(acc, e, 0, whole), d, whole, len, k, v);
    lemma_tail_feels_every_byte(sum, d, whole, len, k, v);
    if k < whole {
        let x = y << ((8 * (k % 8)) as u64);
        lemma_bytes_later(sum, x, d, whole, len);
    } else {
        lemma_xor_swap(y, 0, 0);
    }
}

} // verus!
