//! SWAR (SIMD-within-a-register) scanning: the `;` is found and the name hashed in one pass,
//! eight bytes at a time, in ordinary integer registers.

use crate::bytes::byte_flags;
use crate::bytes::byte_or_zero;
use crate::bytes::first_at;
use crate::bytes::flag;
use crate::bytes::lemma_first_at;
use crate::bytes::lemma_first_at_is;
use crate::bytes::lemma_first_flag;
use crate::bytes::lemma_pack;
use crate::bytes::lemma_pack_low;
use crate::bytes::lemma_pack_zero;
use crate::bytes::load_word;
use crate::bytes::low_bytes;
use crate::bytes::pack;
use crate::bytes::window;
use crate::bytes::word_at;
use crate::bytes::NEWLINE;
use crate::bytes::SEMICOLON;
use crate::generate::rotated;
use crate::lanes::and_lanes;
use crate::lanes::eq_lanes;
use crate::lanes::index_below;
use crate::lanes::lane;
use crate::lanes::nibble_lanes;
use crate::lanes::not_lanes;
use crate::lanes::or_lanes;
use crate::lanes::shift_lanes;
use vstd::prelude::*;
use vstd::std_specs::bits::axiom_u64_trailing_zeros;
use vstd::std_specs::bits::u64_trailing_zeros;

verus! {

const SEMI: u64 = 0x3B3B_3B3B_3B3B_3B3B;

const NL: u64 = 0x0A0A_0A0A_0A0A_0A0A;

/// The low seven bits of every byte.
const LOW7: u64 = 0x7F7F_7F7F_7F7F_7F7F;

pub const SEED: u64 = 0x517c_c1b7_2722_0a95;

/// Bytes of readable slack the fused scan may touch past a line's `;`.
pub const SLACK: usize = 8;

/// Slack [`find_semi_and_hash_flat`] requires instead: it reads its 16-byte window up front.
pub const FLAT_SLACK: usize = 16;

/// Slack [`line_len_flat`] requires, and the value it returns when it finds no newline.
///
/// It is not larger than what the flat path already touches: a name that fits
/// [`FLAT_SLACK`] puts the `;` at offset 15 at worst, and the parser then loads eight bytes
/// from offset 16.
pub const LINE_SLACK: usize = 24;

/// One round of the hash: rotate, fold the word in, multiply.
pub open spec fn mixed(h: u64, word: u64) -> u64 {
    (((h << 5) | (h >> 59)) ^ word).wrapping_mul(SEED)
}

/// The final avalanche, which spreads the high bits over the low ones.
pub open spec fn finalized(h: u64) -> u64 {
    let a = h ^ (h >> 32);
    let b = a.wrapping_mul(0xd6e8_feb8_6659_fd93);
    b ^ (b >> 32)
}

/// The hash of `name[at..]` continued from `h`: one round per eight bytes, the last of them
/// zero-padded, and always at least one.
pub open spec fn hash_from(h: u64, name: Seq<u8>, at: int) -> u64
    decreases name.len() - at,
{
    if name.len() - at < 8 {
        mixed(h, word_at(name, at))
    } else {
        hash_from(mixed(h, word_at(name, at)), name, at + 8)
    }
}

/// The hash of a name, before the final avalanche.
pub open spec fn raw_hash(name: Seq<u8>) -> u64 {
    hash_from(0, name, 0)
}

/// The hash of a name.
pub open spec fn name_hash(name: Seq<u8>) -> u64 {
    finalized(raw_hash(name))
}

/// Where the name starting at `pos` ends: its `;`.
pub open spec fn semi_at(d: Seq<u8>, pos: int) -> int {
    first_at(d, SEMICOLON, pos)
}

/// The name starting at `pos`.
pub open spec fn name_at(d: Seq<u8>, pos: int) -> Seq<u8> {
    d.subrange(pos, semi_at(d, pos))
}

/// A `;` follows at or after `pos`, and the eight-byte step from `pos` that it falls in is
/// readable to its end.
pub open spec fn loop_readable(d: Seq<u8>, pos: int) -> bool {
    let semi = semi_at(d, pos);
    &&& 0 <= pos <= d.len()
    &&& semi < d.len()
    &&& semi - (semi - pos) % 8 + 8 <= d.len()
}

#[inline(always)]
fn mix(h: u64, word: u64) -> (r: u64)
    ensures
        r == mixed(h, word),
{
    (((h << 5) | (h >> 59)) ^ word).wrapping_mul(SEED)
}

/// Adding the low seven bits of every byte to themselves carries into the eighth exactly where
/// they are not all zero, and never into the next byte.
proof fn lemma_zero_bytes(word: u64, needle: u8, spread: u64)
    requires
        spread == pack(needle, needle, needle, needle, needle, needle, needle, needle),
    ensures
        ((word ^ spread) & LOW7) + LOW7 <= u64::MAX,
        !(((((word ^ spread) & LOW7) + LOW7) as u64) | (word ^ spread) | LOW7) == byte_flags(
            word,
            needle,
        ),
{
    assert(((word ^ spread) & LOW7) + LOW7 <= 0xFFFF_FFFF_FFFF_FFFF && !(((((word ^ spread) & LOW7)
        + LOW7) as u64) | (word ^ spread) | LOW7) == byte_flags(word, needle)) by (bit_vector)
        requires
            spread == pack(needle, needle, needle, needle, needle, needle, needle, needle),
    ;
}

/// The two delimiters, in every byte of a word.
proof fn lemma_spread()
    ensures
        SEMI == pack(0x3B, 0x3B, 0x3B, 0x3B, 0x3B, 0x3B, 0x3B, 0x3B),
        NL == pack(0x0A, 0x0A, 0x0A, 0x0A, 0x0A, 0x0A, 0x0A, 0x0A),
{
    assert(SEMI == pack(0x3B, 0x3B, 0x3B, 0x3B, 0x3B, 0x3B, 0x3B, 0x3B) && NL == pack(
        0x0A,
        0x0A,
        0x0A,
        0x0A,
        0x0A,
        0x0A,
        0x0A,
        0x0A,
    )) by (bit_vector);
}

/// `0x80` at each byte of `word` that holds a `;`, zero elsewhere.
#[inline(always)]
fn semi_mask(word: u64) -> (m: u64)
    ensures
        m == byte_flags(word, SEMICOLON),
{
    let x = word ^ SEMI;
    proof {
        lemma_spread();
        lemma_zero_bytes(word, SEMICOLON, SEMI);
    }
    !(((x & LOW7) + LOW7) | x | LOW7)
}

/// The same, for a newline.
#[inline(always)]
fn nl_mask(word: u64) -> (m: u64)
    ensures
        m == byte_flags(word, NEWLINE),
{
    let x = word ^ NL;
    proof {
        lemma_spread();
        lemma_zero_bytes(word, NEWLINE, NL);
    }
    !(((x & LOW7) + LOW7) | x | LOW7)
}

#[inline(always)]
fn finalize(h: u64) -> (r: u64)
    ensures
        r == finalized(h),
{
    let a = h ^ (h >> 32);
    let b = a.wrapping_mul(0xd6e8_feb8_6659_fd93);
    b ^ (b >> 32)
}

/// The flags of the word at `p` are the flags of the eight bytes there.
proof fn lemma_word_flags(d: Seq<u8>, p: int, needle: u8)
    requires
        0 <= p,
        p + 8 <= d.len(),
    ensures
        byte_flags(word_at(d, p), needle) == pack(
            flag(d[p], needle),
            flag(d[p + 1], needle),
            flag(d[p + 2], needle),
            flag(d[p + 3], needle),
            flag(d[p + 4], needle),
            flag(d[p + 5], needle),
            flag(d[p + 6], needle),
            flag(d[p + 7], needle),
        ),
{
    lemma_pack(d[p], d[p + 1], d[p + 2], d[p + 3], d[p + 4], d[p + 5], d[p + 6], d[p + 7]);
}

/// A mask that is non-zero in exactly the bytes that match says where the first match is:
/// inside the word at `trailing_zeros / 8`, or past it when there is none.
proof fn lemma_mask_finds(d: Seq<u8>, p: int, needle: u8, hit: u8, m: u64)
    requires
        0 <= p,
        p + 8 <= d.len(),
        hit != 0,
        m == pack(
            if d[p] == needle { hit } else { 0 },
            if d[p + 1] == needle { hit } else { 0 },
            if d[p + 2] == needle { hit } else { 0 },
            if d[p + 3] == needle { hit } else { 0 },
            if d[p + 4] == needle { hit } else { 0 },
            if d[p + 5] == needle { hit } else { 0 },
            if d[p + 6] == needle { hit } else { 0 },
            if d[p + 7] == needle { hit } else { 0 },
        ),
    ensures
        u64_trailing_zeros(m) <= 64,
        m == 0 <==> u64_trailing_zeros(m) == 64,
        m == 0 <==> first_at(d, needle, p) >= p + 8,
        m != 0 ==> ({
            let t = u64_trailing_zeros(m);
            let i = first_at(d, needle, p) - p;
            &&& 0 <= i < 8
            &&& t < 64
            &&& t / 8 == i
            &&& t >> 3 == i
            &&& t & 0x38 == 8 * i
        }),
{
    let f0: u8 = if d[p] == needle { hit } else { 0 };
    let f1: u8 = if d[p + 1] == needle { hit } else { 0 };
    let f2: u8 = if d[p + 2] == needle { hit } else { 0 };
    let f3: u8 = if d[p + 3] == needle { hit } else { 0 };
    let f4: u8 = if d[p + 4] == needle { hit } else { 0 };
    let f5: u8 = if d[p + 5] == needle { hit } else { 0 };
    let f6: u8 = if d[p + 6] == needle { hit } else { 0 };
    let f7: u8 = if d[p + 7] == needle { hit } else { 0 };
    lemma_first_flag(f0, f1, f2, f3, f4, f5, f6, f7, m);
    lemma_first_at(d, needle, p);
    if m != 0 {
        let i = u64_trailing_zeros(m) as int / 8;
        lemma_first_at_is(d, needle, p, p + i);
    }
}

/// The word at `p`, cut off at `end`, is the word there of the bytes from `a` to `end`.
proof fn lemma_word_of_part(d: Seq<u8>, a: int, p: int, end: int)
    requires
        0 <= a <= p <= end <= d.len(),
        p + 8 <= d.len(),
    ensures
        end >= p + 8 ==> word_at(d.subrange(a, end), p - a) == word_at(d, p),
        end < p + 8 ==> word_at(d.subrange(a, end), p - a) == word_at(d, p) & low_bytes(
            (end - p) as u64,
        ),
{
    if end < p + 8 {
        lemma_pack_low(
            d[p],
            d[p + 1],
            d[p + 2],
            d[p + 3],
            d[p + 4],
            d[p + 5],
            d[p + 6],
            d[p + 7],
            (end - p) as u64,
        );
    }
}

/// The word at `p`, cut off at the end of the name that starts at `a`, is the name's own word
/// there.
proof fn lemma_word_of_name(d: Seq<u8>, a: int, p: int)
    requires
        0 <= a <= p,
        p + 8 <= d.len(),
        p <= semi_at(d, a) < d.len(),
    ensures
        semi_at(d, p) == semi_at(d, a),
        semi_at(d, a) >= p + 8 ==> word_at(name_at(d, a), p - a) == word_at(d, p),
        semi_at(d, a) < p + 8 ==> word_at(name_at(d, a), p - a) == word_at(d, p) & low_bytes(
            (semi_at(d, a) - p) as u64,
        ),
{
    let semi = semi_at(d, a);
    lemma_first_at(d, SEMICOLON, a);
    lemma_first_at_is(d, SEMICOLON, p, semi);
    lemma_word_of_part(d, a, p, semi);
}

/// The word-at-a-time scan, returning the accumulator *before* [`finalize`].
#[inline]
fn scan_loop(data: &[u8], pos: usize) -> (r: (usize, u64))
    requires
        loop_readable(data@, pos as int),
    ensures
        r.0 == semi_at(data@, pos as int),
        r.1 == raw_hash(name_at(data@, pos as int)),
{
    let mut h: u64 = 0;
    let mut p = pos;
    let ghost d = data@;
    let ghost semi = semi_at(d, pos as int);
    let ghost name = name_at(d, pos as int);
    proof {
        lemma_first_at(d, SEMICOLON, pos as int);
    }
    loop
        invariant
            d == data@,
            semi == semi_at(d, pos as int),
            name == name_at(d, pos as int),
            loop_readable(d, pos as int),
            pos <= p <= semi,
            (p - pos) % 8 == 0,
            name.len() == semi - pos,
            raw_hash(name) == hash_from(h, name, p - pos),
        decreases semi - p,
    {
        proof {
            lemma_word_of_name(d, pos as int, p as int);
            lemma_word_flags(d, p as int, SEMICOLON);
            lemma_mask_finds(d, p as int, SEMICOLON, 0x80, byte_flags(word_at(d, p as int), SEMICOLON));
            assert(data.len() == d.len());
        }
        let word = load_word(data, p);
        let m = semi_mask(word);
        if m != 0 {
            let idx: usize = (m.trailing_zeros() >> 3) as usize;
            // Keep only the bytes before the ';'. idx == 0 yields a zero mask.
            let mask = (1u64 << (idx * 8)).wrapping_sub(1);
            proof {
                lemma_keep(idx as u64);
            }
            return (p + idx, mix(h, word & mask));
        }
        h = mix(h, word);
        p += 8;
    }
}

/// The mask that keeps `n` bytes, as it is computed.
proof fn lemma_keep(n: u64)
    requires
        n < 8,
    ensures
        1u64 << (8 * n) >= 1,
        low_bytes(n) == (1u64 << (8 * n)) - 1,
{
    assert(1u64 << (8 * n) >= 1) by (bit_vector)
        requires
            n < 8,
    ;
}

/// Finds the `;` at or after `pos` and hashes `data[pos..semi]` in the same pass.
///
/// Returns `(index_of_semicolon, hash)`.
///
/// Reads in 8-byte words, so it may touch up to [`SLACK`] bytes past the `;`. Callers must
/// only use this where that slack is in bounds.
#[inline]
pub fn find_semi_and_hash(data: &[u8], pos: usize) -> (r: (usize, u64))
    requires
        loop_readable(data@, pos as int),
    ensures
        r.0 == semi_at(data@, pos as int),
        r.1 == name_hash(name_at(data@, pos as int)),
{
    let (semi, h) = scan_loop(data, pos);
    (semi, finalize(h))
}

/// Names 16 bytes and over.
#[inline(never)]
fn scan_loop_long(data: &[u8], pos: usize) -> (r: (usize, u64))
    requires
        loop_readable(data@, pos as int),
    ensures
        r.0 == semi_at(data@, pos as int),
        r.1 == raw_hash(name_at(data@, pos as int)),
{
    scan_loop(data, pos)
}

/// What the 16-byte window at `pos` says of the name starting there: where its `;` is, its
/// hash before the avalanche, and its bytes as two zero-padded words. Nothing when the window
/// holds no `;`.
pub open spec fn keyed(d: Seq<u8>, pos: int) -> Option<(usize, u64, u64, u64)> {
    let semi = semi_at(d, pos);
    let name = name_at(d, pos);
    if semi < pos + 16 {
        Some((semi as usize, raw_hash(name), word_at(name, 0), word_at(name, 8)))
    } else {
        None
    }
}

/// The flat scans read their window, and where it holds no `;` they go on word by word.
pub open spec fn flat_readable(d: Seq<u8>, pos: int) -> bool {
    &&& 0 <= pos
    &&& pos + 16 <= d.len()
    &&& semi_at(d, pos) >= pos + 16 ==> loop_readable(d, pos)
}

/// Bytes that end in the window, in terms of the window's two words: which of them is cut, and
/// where.
proof fn lemma_window_part(d: Seq<u8>, pos: int, len: int)
    requires
        0 <= pos,
        pos + 16 <= d.len(),
        0 <= len < 16,
    ensures
        len < 8 ==> ({
            let part = d.subrange(pos, pos + len);
            let last = word_at(d, pos) & low_bytes(len as u64);
            &&& word_at(part, 0) == last
            &&& word_at(part, 8) == 0
            &&& raw_hash(part) == mixed(0, last)
        }),
        8 <= len ==> ({
            let part = d.subrange(pos, pos + len);
            let last = word_at(d, pos + 8) & low_bytes((len - 8) as u64);
            &&& word_at(part, 0) == word_at(d, pos)
            &&& word_at(part, 8) == last
            &&& raw_hash(part) == mixed(mixed(0, word_at(d, pos)), last)
        }),
{
    reveal_with_fuel(hash_from, 3);
    lemma_word_of_part(d, pos, pos, pos + len);
    if len < 8 {
        lemma_pack_zero();
    } else {
        lemma_word_of_part(d, pos, pos + 8, pos + len);
    }
}

/// A name that ends in the window, in terms of the window's two words: which of them is cut,
/// and where.
proof fn lemma_window_name(d: Seq<u8>, pos: int)
    requires
        0 <= pos,
        pos + 16 <= d.len(),
    ensures
        pos <= semi_at(d, pos) <= d.len(),
        semi_at(d, pos) < pos + 8 ==> ({
            let name = name_at(d, pos);
            let last = word_at(d, pos) & low_bytes((semi_at(d, pos) - pos) as u64);
            &&& word_at(name, 0) == last
            &&& word_at(name, 8) == 0
            &&& raw_hash(name) == mixed(0, last)
        }),
        pos + 8 <= semi_at(d, pos) < pos + 16 ==> ({
            let name = name_at(d, pos);
            let last = word_at(d, pos + 8) & low_bytes((semi_at(d, pos) - pos - 8) as u64);
            &&& word_at(name, 0) == word_at(d, pos)
            &&& word_at(name, 8) == last
            &&& raw_hash(name) == mixed(mixed(0, word_at(d, pos)), last)
        }),
{
    lemma_first_at(d, SEMICOLON, pos);
    let semi = semi_at(d, pos);
    if semi < pos + 16 {
        lemma_window_part(d, pos, semi - pos);
    }
}

/// Masks over the window's two words, non-zero in exactly the bytes that hold a `;`, locate
/// the name's end.
proof fn lemma_window_masks(d: Seq<u8>, pos: int, hit: u8, m0: u64, m1: u64)
    requires
        0 <= pos,
        pos + 16 <= d.len(),
        hit != 0,
        m0 == pack(
            if d[pos] == SEMICOLON { hit } else { 0 },
            if d[pos + 1] == SEMICOLON { hit } else { 0 },
            if d[pos + 2] == SEMICOLON { hit } else { 0 },
            if d[pos + 3] == SEMICOLON { hit } else { 0 },
            if d[pos + 4] == SEMICOLON { hit } else { 0 },
            if d[pos + 5] == SEMICOLON { hit } else { 0 },
            if d[pos + 6] == SEMICOLON { hit } else { 0 },
            if d[pos + 7] == SEMICOLON { hit } else { 0 },
        ),
        m1 == pack(
            if d[pos + 8] == SEMICOLON { hit } else { 0 },
            if d[pos + 9] == SEMICOLON { hit } else { 0 },
            if d[pos + 10] == SEMICOLON { hit } else { 0 },
            if d[pos + 11] == SEMICOLON { hit } else { 0 },
            if d[pos + 12] == SEMICOLON { hit } else { 0 },
            if d[pos + 13] == SEMICOLON { hit } else { 0 },
            if d[pos + 14] == SEMICOLON { hit } else { 0 },
            if d[pos + 15] == SEMICOLON { hit } else { 0 },
        ),
    ensures
        pos <= semi_at(d, pos) <= d.len(),
        m0 | m1 == 0 <==> semi_at(d, pos) >= pos + 16,
        m0 != 0 <==> semi_at(d, pos) < pos + 8,
        m0 != 0 ==> ({
            let t = u64_trailing_zeros(m0);
            let len = semi_at(d, pos) - pos;
            &&& t < 64
            &&& t >> 3 == len
            &&& t & 0x38 == 8 * len
        }),
        8 <= semi_at(d, pos) - pos < 16 ==> ({
            let t = u64_trailing_zeros(m1);
            let len = semi_at(d, pos) - pos;
            &&& t < 64
            &&& t >> 3 == len - 8
            &&& t & 0x38 == 8 * (len - 8)
        }),
{
    lemma_first_at(d, SEMICOLON, pos);
    lemma_mask_finds(d, pos, SEMICOLON, hit, m0);
    lemma_mask_finds(d, pos + 8, SEMICOLON, hit, m1);
    assert(m0 | m1 == 0 <==> m0 == 0 && m1 == 0) by (bit_vector);
    if m0 == 0 {
        lemma_first_at(d, SEMICOLON, pos + 8);
        lemma_first_at_is(d, SEMICOLON, pos, first_at(d, SEMICOLON, pos + 8));
    }
}

/// [`lemma_window_masks`] for the masks [`semi_mask`] yields.
proof fn lemma_window_flags(d: Seq<u8>, pos: int)
    requires
        0 <= pos,
        pos + 16 <= d.len(),
    ensures
        pos <= semi_at(d, pos) <= d.len(),
        ({
            let m0 = byte_flags(word_at(d, pos), SEMICOLON);
            let m1 = byte_flags(word_at(d, pos + 8), SEMICOLON);
            let len = semi_at(d, pos) - pos;
            &&& m0 | m1 == 0 <==> len >= 16
            &&& m0 != 0 <==> len < 8
            &&& m0 != 0 ==> {
                let t = u64_trailing_zeros(m0);
                &&& t < 64
                &&& t >> 3 == len
                &&& t & 0x38 == 8 * len
            }
            &&& 8 <= len < 16 ==> {
                let t = u64_trailing_zeros(m1);
                &&& t < 64
                &&& t >> 3 == len - 8
                &&& t & 0x38 == 8 * (len - 8)
            }
        }),
{
    lemma_word_flags(d, pos, SEMICOLON);
    lemma_word_flags(d, pos + 8, SEMICOLON);
    lemma_window_masks(
        d,
        pos,
        0x80,
        byte_flags(word_at(d, pos), SEMICOLON),
        byte_flags(word_at(d, pos + 8), SEMICOLON),
    );
}

/// Both words of the window mask the same count of bytes: the length, reduced below eight.
proof fn lemma_cut(len: usize)
    requires
        len < 16,
    ensures
        len & 7 == len % 8,
        1u64 << (8 * (len & 7)) >= 1,
        low_bytes((len % 8) as u64) == (1u64 << (8 * (len & 7))) - 1,
{
    assert(len & 7 == len % 8) by (bit_vector);
    lemma_keep((len % 8) as u64);
}

/// [`find_semi_and_hash`] with the loop replaced by one fixed 16-byte window.
///
/// Reading both words unconditionally and selecting between them is more instructions and
/// fewer cycles than a loop whose exit is a coin flip. Names of 16 bytes and over re-scan
/// through the loop.
///
/// Reads [`FLAT_SLACK`] bytes from `pos`, more than [`SLACK`], and unconditionally.
#[inline(always)]
pub fn find_semi_and_hash_flat(data: &[u8], pos: usize) -> (r: (usize, u64))
    requires
        flat_readable(data@, pos as int),
    ensures
        r.0 == semi_at(data@, pos as int),
        r.1 == name_hash(name_at(data@, pos as int)),
{
    let (semi, h) = scan_flat(data, pos);
    (semi, finalize(h))
}

/// [`find_semi_and_hash_flat`] without the final avalanche.
///
/// `mix` ends in a multiply, so the *high* bits of what it returns are already well mixed and
/// `finalize` only buys spread in the low ones. The result is not a general-purpose hash: use
/// it only where the index comes off the top.
#[inline(always)]
pub fn find_semi_and_hash_flat_raw(data: &[u8], pos: usize) -> (r: (usize, u64))
    requires
        flat_readable(data@, pos as int),
    ensures
        r.0 == semi_at(data@, pos as int),
        r.1 == raw_hash(name_at(data@, pos as int)),
{
    scan_flat(data, pos)
}

/// The hash of [`find_semi_and_hash_flat_raw`] for a caller that already knows the length.
///
/// The two masks, the `trailing_zeros` and the branch between the two words drop out. At 16
/// bytes and over it re-scans, as the scan does.
#[inline(always)]
pub fn hash_len_raw(data: &[u8], pos: usize, len: usize) -> (h: u64)
    requires
        pos + 16 <= data@.len(),
        len >= 16 ==> loop_readable(data@, pos as int) && len == semi_at(data@, pos as int) - pos,
    ensures
        h == raw_hash(data@.subrange(pos as int, pos + len)),
{
    if len >= 16 {
        return scan_loop_long(data, pos).1;
    }
    proof {
        lemma_window_part(data@, pos as int, len as int);
        lemma_cut(len);
        assert(data.len() == data@.len());
    }
    let w0 = load_word(data, pos);
    let w1 = load_word(data, pos + 8);

    let keep = (1u64 << (8 * (len & 7))) - 1;
    let short = len < 8;
    let prev: u64 = if short {
        0
    } else {
        mix(0, w0)
    };
    let last: u64 = (if short {
        w0
    } else {
        w1
    }) & keep;
    mix(prev, last)
}

/// [`find_semi_and_hash_flat_raw`], also handing back the name's 16-byte window already
/// zero-padded, which is the low half of
/// [`probe_key`](crate::inline_table::probe_key)'s answer.
///
/// The scan loads those bytes anyway, and it already masks the word the `;` falls in to keep
/// the trailing garbage out of the hash.
///
/// `None` when the window holds no `;`: the length is not known here, so neither is the key.
#[inline(always)]
pub fn scan_flat_keyed(data: &[u8], pos: usize) -> (r: Option<(usize, u64, u64, u64)>)
    requires
        pos + 16 <= data@.len(),
    ensures
        r == keyed(data@, pos as int),
{
    proof {
        lemma_window_flags(data@, pos as int);
        lemma_window_name(data@, pos as int);
        assert(data.len() == data@.len());
    }
    let w0 = load_word(data, pos);
    let w1 = load_word(data, pos + 8);
    let m0 = semi_mask(w0);
    let m1 = semi_mask(w1);

    if m0 | m1 == 0 {
        return None;
    }
    let len: usize = if m0 != 0 {
        (m0.trailing_zeros() >> 3) as usize
    } else {
        8 + (m1.trailing_zeros() >> 3) as usize
    };
    proof {
        lemma_cut(len);
    }

    // One mix or two, depending on which word the `;` fell in. Both cases end with a mix of a
    // masked word, and both mask the same count of bytes mod 8, so a single shift serves both.
    let keep = (1u64 << (8 * (len & 7))) - 1;
    let short = len < 8;
    let prev: u64 = if short {
        0
    } else {
        mix(0, w0)
    };
    let last: u64 = (if short {
        w0
    } else {
        w1
    }) & keep;
    // The same two words the hash consumed, in name order.
    let (klo, khi): (u64, u64) = if short {
        (last, 0)
    } else {
        (w0, last)
    };

    Some((pos + len, mix(prev, last), klo, khi))
}

/// [`scan_flat_keyed`] with the key mask taken off `trailing_zeros` instead of off the length.
///
/// `8 * (len & 7)` is `tz & 0x38`, so the round trip through the length is not needed.
#[inline(always)]
pub fn scan_flat_keyed_tz(data: &[u8], pos: usize) -> (r: Option<(usize, u64, u64, u64)>)
    requires
        pos + 16 <= data@.len(),
    ensures
        r == keyed(data@, pos as int),
{
    proof {
        lemma_window_flags(data@, pos as int);
        lemma_window_name(data@, pos as int);
        assert(data.len() == data@.len());
    }
    let w0 = load_word(data, pos);
    let w1 = load_word(data, pos + 8);
    let m0 = semi_mask(w0);
    let m1 = semi_mask(w1);

    if m0 | m1 == 0 {
        return None;
    }
    let short = m0 != 0;
    // Where the `;` is inside its own word, which is chosen by which mask is non-zero.
    let tz: u32 = if short {
        m0.trailing_zeros()
    } else {
        m1.trailing_zeros()
    };

    let len: usize = (tz >> 3) as usize + if short {
        0
    } else {
        8
    };
    proof {
        lemma_keep((len % 8) as u64);
    }
    let keep = (1u64 << (tz & 0x38)) - 1;
    let prev: u64 = if short {
        0
    } else {
        mix(0, w0)
    };
    let last: u64 = (if short {
        w0
    } else {
        w1
    }) & keep;
    let (klo, khi): (u64, u64) = if short {
        (last, 0)
    } else {
        (w0, last)
    };

    Some((pos + len, mix(prev, last), klo, khi))
}

/// The two halves of a lane mask are the words of matches of the two halves of the window.
proof fn lemma_lane_masks(d: Seq<u8>, pos: int, eq: Seq<u8>)
    requires
        0 <= pos,
        pos + 16 <= d.len(),
        eq.len() == 16,
        forall|i: int| 0 <= i < 16 ==> #[trigger] eq[i] == lane(d[pos + i] == SEMICOLON),
    ensures
        pos <= semi_at(d, pos) <= d.len(),
        ({
            let m0 = word_at(eq, 0);
            let m1 = word_at(eq, 8);
            let len = semi_at(d, pos) - pos;
            &&& m0 | m1 == 0 <==> len >= 16
            &&& m0 != 0 <==> len < 8
            &&& m0 != 0 ==> {
                let t = u64_trailing_zeros(m0);
                &&& t < 64
                &&& t >> 3 == len
                &&& t & 0x38 == 8 * len
            }
            &&& 8 <= len < 16 ==> {
                let t = u64_trailing_zeros(m1);
                &&& t < 64
                &&& t >> 3 == len - 8
                &&& t & 0x38 == 8 * (len - 8)
            }
        }),
{
    lemma_window_masks(d, pos, 0xFF, word_at(eq, 0), word_at(eq, 8));
}

/// [`scan_flat_keyed`] with the two delimiter masks built by one compare across all sixteen
/// lanes.
///
/// A matching lane is `0xFF` where [`semi_mask`] gives `0x80`. Both have their lowest set bit
/// in the same byte, so everything derived from `trailing_zeros` is unchanged.
///
/// Reads [`FLAT_SLACK`] bytes from `pos`, as [`scan_flat_keyed`] does.
#[inline(always)]
#[verifier::spinoff_prover]
#[verifier::rlimit(100)]
pub fn scan_flat_keyed_neon(data: &[u8], pos: usize) -> (r: Option<(usize, u64, u64, u64)>)
    requires
        pos + 16 <= data@.len(),
    ensures
        r == keyed(data@, pos as int),
{
    assert(data.len() == data@.len());
    let w0 = load_word(data, pos);
    let w1 = load_word(data, pos + 8);

    let v: [u8; 16] = window(data, pos);
    let eq = eq_lanes(&v, SEMICOLON);
    let m0 = load_word(&eq, 0);
    let m1 = load_word(&eq, 8);
    proof {
        lemma_lane_masks(data@, pos as int, eq@);
        lemma_window_name(data@, pos as int);
    }

    if m0 | m1 == 0 {
        return None;
    }
    let short = m0 != 0;
    let tz: u32 = if short {
        m0.trailing_zeros()
    } else {
        m1.trailing_zeros()
    };

    let len: usize = (tz >> 3) as usize + if short {
        0
    } else {
        8
    };
    proof {
        lemma_keep((len % 8) as u64);
    }
    let keep = (1u64 << (tz & 0x38)) - 1;
    let prev: u64 = if short {
        0
    } else {
        mix(0, w0)
    };
    let last: u64 = (if short {
        w0
    } else {
        w1
    }) & keep;
    let (klo, khi): (u64, u64) = if short {
        (last, 0)
    } else {
        (w0, last)
    };

    Some((pos + len, mix(prev, last), klo, khi))
}

/// Sixteen lanes kept up to the name's end and zeroed from there on are the name's two words.
proof fn lemma_kept_lanes(d: Seq<u8>, pos: int, k: Seq<u8>)
    requires
        0 <= pos,
        pos + 16 <= d.len(),
        k.len() == 16,
        semi_at(d, pos) < pos + 16,
        forall|i: int|
            0 <= i < 16 ==> #[trigger] k[i] == if pos + i < semi_at(d, pos) {
                d[pos + i]
            } else {
                0
            },
    ensures
        word_at(k, 0) == word_at(name_at(d, pos), 0),
        word_at(k, 8) == word_at(name_at(d, pos), 8),
        semi_at(d, pos) - pos < 8 ==> raw_hash(name_at(d, pos)) == mixed(0, word_at(k, 0)),
        semi_at(d, pos) - pos >= 8 ==> raw_hash(name_at(d, pos)) == mixed(
            mixed(0, word_at(k, 0)),
            word_at(k, 8),
        ),
{
    lemma_first_at(d, SEMICOLON, pos);
    let name = name_at(d, pos);
    assert forall|i: int| 0 <= i < 16 implies #[trigger] byte_or_zero(k, i) == byte_or_zero(
        name,
        i,
    ) by {
        assert(k[i] == k[i]);
    }
    reveal_with_fuel(hash_from, 3);
}

/// Four bits per lane, so the lowest set bit of a narrowed mask gives the first set lane as
/// `trailing_zeros / 4`.
proof fn lemma_first_nibble(nibbles: Seq<u8>)
    requires
        nibbles.len() == 8,
        forall|j: int|
            0 <= j < 8 ==> #[trigger] nibbles[j] == 0 || nibbles[j] == 0x0F || nibbles[j] == 0xF0
                || nibbles[j] == 0xFF,
    ensures
        word_at(nibbles, 0) == 0 <==> forall|j: int| 0 <= j < 8 ==> #[trigger] nibbles[j] == 0,
        word_at(nibbles, 0) != 0 ==> ({
            let i = u64_trailing_zeros(word_at(nibbles, 0)) >> 2;
            &&& 0 <= i < 16
            &&& forall|j: int| 0 <= j < i / 2 ==> #[trigger] nibbles[j] == 0
            &&& nibbles[i as int / 2] != 0
            &&& i % 2 == 1 <==> nibbles[i as int / 2] == 0xF0
        }),
{
    let nib = word_at(nibbles, 0);
    let f0 = nibbles[0];
    let f1 = nibbles[1];
    let f2 = nibbles[2];
    let f3 = nibbles[3];
    let f4 = nibbles[4];
    let f5 = nibbles[5];
    let f6 = nibbles[6];
    let f7 = nibbles[7];
    lemma_first_flag(f0, f1, f2, f3, f4, f5, f6, f7, nib);
    if nib != 0 {
        axiom_u64_trailing_zeros(nib);
        let t32 = u64_trailing_zeros(nib);
        let t = t32 as u64;
        assert({
            &&& t32 >> 2 == t32 / 4
            &&& t / 8 == 0 ==> (t / 4 == 0 <==> f0 != 0xF0)
            &&& t / 8 == 1 ==> (t / 4 == 2 <==> f1 != 0xF0)
            &&& t / 8 == 2 ==> (t / 4 == 4 <==> f2 != 0xF0)
            &&& t / 8 == 3 ==> (t / 4 == 6 <==> f3 != 0xF0)
            &&& t / 8 == 4 ==> (t / 4 == 8 <==> f4 != 0xF0)
            &&& t / 8 == 5 ==> (t / 4 == 10 <==> f5 != 0xF0)
            &&& t / 8 == 6 ==> (t / 4 == 12 <==> f6 != 0xF0)
            &&& t / 8 == 7 ==> (t / 4 == 14 <==> f7 != 0xF0)
        }) by (bit_vector)
            requires
                nib == pack(f0, f1, f2, f3, f4, f5, f6, f7),
                f0 == 0 || f0 == 0x0F || f0 == 0xF0 || f0 == 0xFF,
                f1 == 0 || f1 == 0x0F || f1 == 0xF0 || f1 == 0xFF,
                f2 == 0 || f2 == 0x0F || f2 == 0xF0 || f2 == 0xFF,
                f3 == 0 || f3 == 0x0F || f3 == 0xF0 || f3 == 0xFF,
                f4 == 0 || f4 == 0x0F || f4 == 0xF0 || f4 == 0xFF,
                f5 == 0 || f5 == 0x0F || f5 == 0xF0 || f5 == 0xFF,
                f6 == 0 || f6 == 0x0F || f6 == 0xF0 || f6 == 0xFF,
                f7 == 0 || f7 == 0x0F || f7 == 0xF0 || f7 == 0xFF,
                t < 64,
                (nib >> t) & 1 == 1,
                nib << ((64 - t) as u64) == 0,
        ;
        let h = t as int / 8;
        assert(h == 0 || h == 1 || h == 2 || h == 3 || h == 4 || h == 5 || h == 6 || h == 7);
    } else {
        assert forall|j: int| 0 <= j < 8 implies #[trigger] nibbles[j] == 0 by {
            assert(j == 0 || j == 1 || j == 2 || j == 3 || j == 4 || j == 5 || j == 6 || j == 7);
        }
    }
}

/// The narrowed mask of a window locates the name's end.
proof fn lemma_nibble_mask(d: Seq<u8>, pos: int, eq: Seq<u8>, nibbles: Seq<u8>)
    requires
        0 <= pos,
        pos + 16 <= d.len(),
        eq.len() == 16,
        nibbles.len() == 8,
        forall|i: int| 0 <= i < 16 ==> #[trigger] eq[i] == lane(d[pos + i] == SEMICOLON),
        forall|j: int|
            0 <= j < 8 ==> #[trigger] nibbles[j] == (eq[2 * j] >> 4) | (eq[2 * j + 1] << 4),
    ensures
        pos <= semi_at(d, pos) <= d.len(),
        ({
            let nib = word_at(nibbles, 0);
            let len = semi_at(d, pos) - pos;
            &&& nib == 0 <==> len >= 16
            &&& nib != 0 ==> u64_trailing_zeros(nib) >> 2 == len
        }),
{
    let nib = word_at(nibbles, 0);
    assert(0u8 >> 4 == 0 && 0u8 << 4 == 0 && 0xFFu8 >> 4 == 0x0F && 0xFFu8 << 4 == 0xF0 && 0u8 | 0
        == 0 && 0x0Fu8 | 0 == 0x0F && 0u8 | 0xF0 == 0xF0 && 0x0Fu8 | 0xF0 == 0xFF) by (bit_vector);
    assert forall|j: int| 0 <= j < 8 implies {
        &&& #[trigger] nibbles[j] == 0 || nibbles[j] == 0x0F || nibbles[j] == 0xF0 || nibbles[j]
            == 0xFF
        &&& (nibbles[j] == 0x0F || nibbles[j] == 0xFF <==> d[pos + 2 * j] == SEMICOLON)
        &&& (nibbles[j] == 0xF0 || nibbles[j] == 0xFF <==> d[pos + 2 * j + 1] == SEMICOLON)
    } by {
        assert(eq[2 * j] == lane(d[pos + 2 * j] == SEMICOLON));
        assert(eq[2 * j + 1] == lane(d[pos + (2 * j + 1)] == SEMICOLON));
    }
    lemma_first_nibble(nibbles);
    lemma_first_at(d, SEMICOLON, pos);
    let i = if nib != 0 {
        (u64_trailing_zeros(nib) >> 2) as int
    } else {
        16
    };
    assert forall|k: int| pos <= k < pos + i implies d[k] != SEMICOLON by {
        let j = (k - pos) / 2;
        assert(nibbles[j] == 0 || j == i / 2);
        assert(k == pos + 2 * j || k == pos + 2 * j + 1);
    }
    if nib != 0 {
        let h = i / 2;
        assert(nibbles[h] != 0);
        assert(i == 2 * h || i == 2 * h + 1);
        assert(d[pos + i] == SEMICOLON);
        lemma_first_at_is(d, SEMICOLON, pos, pos + i);
    }
}

/// [`scan_flat_keyed_neon`] with the key masking done in lanes too.
///
/// Keeping the bytes before the `;` is one compare of the lane indices against the length.
/// The mask covers all sixteen lanes at once, so both words of the key come out of it
/// directly: whichever half the `;` is in, the other half is already correct.
///
/// Reads [`FLAT_SLACK`] bytes from `pos`, as [`scan_flat_keyed`] does.
#[inline(always)]
pub fn scan_flat_keyed_vmask(data: &[u8], pos: usize) -> (r: Option<(usize, u64, u64, u64)>)
    requires
        pos + 16 <= data@.len(),
    ensures
        r == keyed(data@, pos as int),
{
    assert(data.len() == data@.len());
    let v: [u8; 16] = window(data, pos);
    let eq = eq_lanes(&v, SEMICOLON);
    let nibbles = nibble_lanes(&eq);
    let nib = load_word(&nibbles, 0);
    proof {
        lemma_nibble_mask(data@, pos as int, eq@, nibbles@);
    }

    if nib == 0 {
        return None;
    }
    // Four bits per input byte, so the first `;` is at byte `tz / 4`.
    let len: usize = (nib.trailing_zeros() >> 2) as usize;

    let keep = index_below(len);
    let k = and_lanes(&v, &keep);
    let klo = load_word(&k, 0);
    let khi = load_word(&k, 8);
    proof {
        assert forall|i: int| 0 <= i < 16 implies #[trigger] k@[i] == if pos + i < semi_at(
            data@,
            pos as int,
        ) {
            data@[pos + i]
        } else {
            0
        } by {
            assert(keep@[i] == lane(i < len));
        }
        lemma_kept_lanes(data@, pos as int, k@);
    }

    let short = len < 8;
    let prev: u64 = if short {
        0
    } else {
        mix(0, klo)
    };
    let last: u64 = if short {
        klo
    } else {
        khi
    };

    Some((pos + len, mix(prev, last), klo, khi))
}

/// A mask OR-ed with itself moved up by one, two, four and eight lanes is set from its first
/// set lane on.
fn prefix_or(eq: &[u8; 16]) -> (p: [u8; 16])
    requires
        forall|i: int| 0 <= i < 16 ==> #[trigger] eq@[i] == 0 || eq@[i] == 0xFF,
    ensures
        forall|i: int|
            0 <= i < 16 ==> #[trigger] p@[i] == lane(
                exists|j: int| 0 <= j <= i && #[trigger] eq@[j] == 0xFF,
            ),
{
    let s1 = shift_lanes(eq, 1);
    let p1 = or_lanes(eq, &s1);
    assert forall|i: int| 0 <= i < 16 implies #[trigger] p1@[i] == lane(
        exists|j: int| 0 <= j <= i && i - 2 < j && #[trigger] eq@[j] == 0xFF,
    ) by {
        assert(s1@[i] == s1@[i]);
        assert(eq@[i] == eq@[i]);
        if i > 0 {
            assert(eq@[i - 1] == eq@[i - 1]);
        }
    }
    let s2 = shift_lanes(&p1, 2);
    let p2 = or_lanes(&p1, &s2);
    assert forall|i: int| 0 <= i < 16 implies #[trigger] p2@[i] == lane(
        exists|j: int| 0 <= j <= i && i - 4 < j && #[trigger] eq@[j] == 0xFF,
    ) by {
        assert(s2@[i] == s2@[i]);
        assert(p1@[i] == p1@[i]);
        if i >= 2 {
            assert(p1@[i - 2] == p1@[i - 2]);
        }
    }
    let s4 = shift_lanes(&p2, 4);
    let p4 = or_lanes(&p2, &s4);
    assert forall|i: int| 0 <= i < 16 implies #[trigger] p4@[i] == lane(
        exists|j: int| 0 <= j <= i && i - 8 < j && #[trigger] eq@[j] == 0xFF,
    ) by {
        assert(s4@[i] == s4@[i]);
        assert(p2@[i] == p2@[i]);
        if i >= 4 {
            assert(p2@[i - 4] == p2@[i - 4]);
        }
    }
    let s8 = shift_lanes(&p4, 8);
    let p8 = or_lanes(&p4, &s8);
    assert forall|i: int| 0 <= i < 16 implies #[trigger] p8@[i] == lane(
        exists|j: int| 0 <= j <= i && #[trigger] eq@[j] == 0xFF,
    ) by {
        assert(s8@[i] == s8@[i]);
        assert(p4@[i] == p4@[i]);
        if i >= 8 {
            assert(p4@[i - 8] == p4@[i - 8]);
        }
    }
    p8
}

/// [`scan_flat_keyed_vmask`] with the lane mask built from the compare rather than from the
/// length.
///
/// An inclusive prefix-OR across the compare marks every lane at or after the first `;`, and
/// the others are kept. The key no longer waits for the length.
///
/// Reads [`FLAT_SLACK`] bytes from `pos`, as [`scan_flat_keyed`] does.
#[inline(always)]
pub fn scan_flat_keyed_pfx(data: &[u8], pos: usize) -> (r: Option<(usize, u64, u64, u64)>)
    requires
        pos + 16 <= data@.len(),
    ensures
        r == keyed(data@, pos as int),
{
    assert(data.len() == data@.len());
    let v: [u8; 16] = window(data, pos);
    let eq = eq_lanes(&v, SEMICOLON);
    let nibbles = nibble_lanes(&eq);
    let nib = load_word(&nibbles, 0);
    proof {
        lemma_nibble_mask(data@, pos as int, eq@, nibbles@);
    }

    if nib == 0 {
        return None;
    }
    let len: usize = (nib.trailing_zeros() >> 2) as usize;

    let p = prefix_or(&eq);
    let keep = not_lanes(&p);
    let k = and_lanes(&v, &keep);
    let klo = load_word(&k, 0);
    let khi = load_word(&k, 8);
    proof {
        lemma_first_at(data@, SEMICOLON, pos as int);
        assert forall|i: int| 0 <= i < 16 implies #[trigger] k@[i] == if pos + i < semi_at(
            data@,
            pos as int,
        ) {
            data@[pos + i]
        } else {
            0
        } by {
            assert(p@[i] == p@[i]);
            assert(keep@[i] == lane(p@[i] == 0));
            if pos + i >= semi_at(data@, pos as int) {
                assert(eq@[len as int] == 0xFF);
            }
        }
        lemma_kept_lanes(data@, pos as int, k@);
    }

    let short = len < 8;
    let prev: u64 = if short {
        0
    } else {
        mix(0, klo)
    };
    let last: u64 = if short {
        klo
    } else {
        khi
    };

    Some((pos + len, mix(prev, last), klo, khi))
}

/// [`scan_flat_keyed`] taking the 16-byte window instead of a slice and an index, and
/// returning the name's *length* rather than the absolute position of the `;`.
#[inline(always)]
pub fn scan_flat_keyed_win(w: &[u8; 16]) -> (r: Option<(usize, u64, u64, u64)>)
    ensures
        r == keyed(w@, 0),
{
    proof {
        lemma_window_flags(w@, 0);
        lemma_window_name(w@, 0);
    }
    let w0 = load_word(w, 0);
    let w1 = load_word(w, 8);
    let m0 = semi_mask(w0);
    let m1 = semi_mask(w1);

    if m0 | m1 == 0 {
        return None;
    }
    let len: usize = if m0 != 0 {
        (m0.trailing_zeros() >> 3) as usize
    } else {
        8 + (m1.trailing_zeros() >> 3) as usize
    };
    proof {
        lemma_cut(len);
    }
    let keep = (1u64 << (8 * (len & 7))) - 1;
    let short = len < 8;
    let prev: u64 = if short {
        0
    } else {
        mix(0, w0)
    };
    let last: u64 = (if short {
        w0
    } else {
        w1
    }) & keep;
    let (klo, khi): (u64, u64) = if short {
        (last, 0)
    } else {
        (w0, last)
    };

    Some((len, mix(prev, last), klo, khi))
}

/// [`scan_flat_keyed_neon`] on a window, which is [`scan_flat_keyed_win`]'s relation to
/// [`scan_flat_keyed`].
#[inline(always)]
pub fn scan_flat_keyed_neon_win(w: &[u8; 16]) -> (r: Option<(usize, u64, u64, u64)>)
    ensures
        r == keyed(w@, 0),
{
    let w0 = load_word(w, 0);
    let w1 = load_word(w, 8);

    let eq = eq_lanes(w, SEMICOLON);
    let m0 = load_word(&eq, 0);
    let m1 = load_word(&eq, 8);
    proof {
        lemma_lane_masks(w@, 0, eq@);
        lemma_window_name(w@, 0);
    }

    if m0 | m1 == 0 {
        return None;
    }
    let short = m0 != 0;
    let tz: u32 = if short {
        m0.trailing_zeros()
    } else {
        m1.trailing_zeros()
    };

    let len: usize = (tz >> 3) as usize + if short {
        0
    } else {
        8
    };
    proof {
        lemma_keep((len % 8) as u64);
    }
    let keep = (1u64 << (tz & 0x38)) - 1;
    let prev: u64 = if short {
        0
    } else {
        mix(0, w0)
    };
    let last: u64 = (if short {
        w0
    } else {
        w1
    }) & keep;
    let (klo, khi): (u64, u64) = if short {
        (last, 0)
    } else {
        (w0, last)
    };

    Some((len, mix(prev, last), klo, khi))
}

/// Offset from `pos` of the newline that ends the row starting there: the row's length.
///
/// All three words come off `pos` alone, so nothing waits for the `;` or the value. Correct
/// only for a row that ends within [`LINE_SLACK`] bytes, which is every row whose name fits
/// [`FLAT_SLACK`]; for any other this returns [`LINE_SLACK`], and callers must discard it.
///
/// `trailing_zeros` is 64 on a zero mask and at most 63 otherwise, which makes `t >> 6` a
/// "this word held no newline" flag and its negation a mask over the next word's contribution.
/// `t >> 3` is the byte index, and it is 8 on a zero mask, which is exactly the offset to the
/// next word: the three terms add up on their own.
#[inline(always)]
pub fn line_len_flat(data: &[u8], pos: usize) -> (len: usize)
    requires
        pos + LINE_SLACK <= data@.len(),
    ensures
        len == if first_at(data@, NEWLINE, pos as int) < pos + LINE_SLACK {
            first_at(data@, NEWLINE, pos as int) - pos
        } else {
            LINE_SLACK as int
        },
{
    assert(data.len() == data@.len());
    let t0: u64 = nl_mask(load_word(data, pos)).trailing_zeros() as u64;
    let t1: u64 = nl_mask(load_word(data, pos + 8)).trailing_zeros() as u64;
    let t2: u64 = nl_mask(load_word(data, pos + 16)).trailing_zeros() as u64;
    proof {
        lemma_newline_word(data@, pos as int, pos as int, t0);
        lemma_newline_word(data@, pos as int, pos + 8, t1);
        lemma_newline_word(data@, pos as int, pos + 16, t2);
    }

    let m0 = 0u64.wrapping_sub(t0 >> 6);
    let m1 = 0u64.wrapping_sub(t1 >> 6);
    let inner = m1 & (t2 >> 3);
    assert(inner == if t1 == 64 { t2 >> 3 } else { 0 }) by {
        lemma_masked(t2 >> 3);
    }
    let outer = m0 & ((t1 >> 3) + inner);
    assert(outer == if t0 == 64 { (t1 >> 3) + inner } else { 0 }) by {
        lemma_masked(((t1 >> 3) + inner) as u64);
    }
    ((t0 >> 3) + outer) as usize
}

/// A mask of all ones keeps a word and a mask of zeros clears it.
proof fn lemma_masked(x: u64)
    ensures
        u64::MAX & x == x,
        0u64 & x == 0,
{
    assert(0xffff_ffff_ffff_ffffu64 & x == x && 0u64 & x == 0) by (bit_vector);
}

/// One word's part in the newline search from `a`: its `trailing_zeros` is 64 when it holds no
/// newline, and otherwise gives the place of its first.
proof fn lemma_newline_word(d: Seq<u8>, a: int, p: int, t: u64)
    requires
        0 <= a <= p,
        p + 8 <= d.len(),
        t == u64_trailing_zeros(byte_flags(word_at(d, p), NEWLINE)),
    ensures
        t <= 64,
        t >> 3 == t / 8,
        t >> 6 == if t == 64 {
            1int
        } else {
            0
        },
        t == 64 <==> first_at(d, NEWLINE, p) >= p + 8,
        t < 64 ==> t / 8 == first_at(d, NEWLINE, p) - p,
        first_at(d, NEWLINE, a) >= p ==> first_at(d, NEWLINE, a) == first_at(d, NEWLINE, p),
{
    let m = byte_flags(word_at(d, p), NEWLINE);
    lemma_word_flags(d, p, NEWLINE);
    lemma_mask_finds(d, p, NEWLINE, 0x80, m);
    lemma_first_at(d, NEWLINE, a);
    if first_at(d, NEWLINE, a) >= p {
        lemma_first_at_is(d, NEWLINE, p, first_at(d, NEWLINE, a));
    }
    assert(t >> 3 == t / 8 && t >> 6 == t / 64) by (bit_vector);
}

/// The `;` at or after `pos`, with no hashing on the way.
#[inline(always)]
pub fn find_semi(data: &[u8], pos: usize) -> (semi: usize)
    requires
        loop_readable(data@, pos as int),
    ensures
        semi == semi_at(data@, pos as int),
{
    let mut p = pos;
    let ghost d = data@;
    let ghost semi = semi_at(d, pos as int);
    proof {
        lemma_first_at(d, SEMICOLON, pos as int);
    }
    loop
        invariant
            d == data@,
            semi == semi_at(d, pos as int),
            loop_readable(d, pos as int),
            pos <= p <= semi,
            (p - pos) % 8 == 0,
        decreases semi - p,
    {
        proof {
            lemma_word_of_name(d, pos as int, p as int);
            lemma_word_flags(d, p as int, SEMICOLON);
            lemma_mask_finds(d, p as int, SEMICOLON, 0x80, byte_flags(word_at(d, p as int), SEMICOLON));
            assert(data.len() == d.len());
        }
        let m = semi_mask(load_word(data, p));
        if m != 0 {
            return p + (m.trailing_zeros() >> 3) as usize;
        }
        p += 8;
    }
}

/// Byte-at-a-time equivalent of [`find_semi_and_hash`], for the end of the file where the wide
/// load would run off the data.
pub fn find_semi_and_hash_scalar(data: &[u8], pos: usize) -> (r: (usize, u64))
    requires
        pos <= data@.len(),
        semi_at(data@, pos as int) < data@.len(),
    ensures
        r.0 == semi_at(data@, pos as int),
        r.1 == name_hash(name_at(data@, pos as int)),
{
    let ghost d = data@;
    let ghost name = name_at(d, pos as int);
    proof {
        lemma_first_at(d, SEMICOLON, pos as int);
    }
    let mut semi = pos;
    while data[semi] != SEMICOLON
        invariant
            d == data@,
            pos <= semi <= semi_at(d, pos as int) < d.len(),
            d[semi_at(d, pos as int)] == SEMICOLON,
        decreases semi_at(d, pos as int) - semi,
    {
        semi += 1;
    }
    let mut h: u64 = 0;
    let mut p = pos;
    while semi - p >= 8
        invariant
            d == data@,
            name == d.subrange(pos as int, semi as int),
            pos <= p <= semi < d.len(),
            raw_hash(name) == hash_from(h, name, p - pos),
        decreases semi - p,
    {
        assert(word_at(name, p - pos) == word_at(d, p as int));
        h = mix(h, load_word(data, p));
        p += 8;
    }
    let mut buf: [u8; 8] = [0; 8];
    let rest = semi - p;
    for i in 0..rest
        invariant
            d == data@,
            name == d.subrange(pos as int, semi as int),
            pos <= p <= semi < d.len(),
            rest == semi - p,
            rest < 8,
            forall|j: int|
                0 <= j < 8 ==> #[trigger] buf@[j] == if j < i {
                    d[p + j]
                } else {
                    0
                },
    {
        assert(data.len() == d.len());
        buf[i] = data[p + i];
    }
    assert(word_at(buf@, 0) == word_at(name, p - pos)) by {
        assert forall|j: int| 0 <= j < 8 implies #[trigger] byte_or_zero(buf@, j) == byte_or_zero(
            name,
            p - pos + j,
        ) by {
            assert(buf@[j] == buf@[j]);
        }
    }
    (semi, finalize(mix(h, load_word(&buf, 0))))
}

#[inline(always)]
fn scan_flat(data: &[u8], pos: usize) -> (r: (usize, u64))
    requires
        flat_readable(data@, pos as int),
    ensures
        r.0 == semi_at(data@, pos as int),
        r.1 == raw_hash(name_at(data@, pos as int)),
{
    proof {
        lemma_first_at(data@, SEMICOLON, pos as int);
        assert(data.len() == data@.len());
    }
    match scan_flat_keyed(data, pos) {
        Some((semi, h, _, _)) => (semi, h),
        None => scan_loop_long(data, pos),
    }
}

/// One round of the hash in numbers: rotated by five, the word folded in, and multiplied modulo 2^64.
pub proof fn law_round_in_numbers(h: u64, word: u64)
    ensures
        mixed(h, word) == ((rotated(h, 5) ^ word) * 0x517c_c1b7_2722_0a95) % 0x1_0000_0000_0000_0000,
{
}

/// The final avalanche in numbers: the upper half folded onto the lower, multiplied modulo 2^64, and
/// folded once more.
pub proof fn law_avalanche_in_numbers(h: u64, a: u64)
    requires
        a == ((h ^ ((h / 0x1_0000_0000) as u64)) * 0xd6e8_feb8_6659_fd93)
            % 0x1_0000_0000_0000_0000,
    ensures
        finalized(h) == a ^ ((a / 0x1_0000_0000) as u64),
{
    vstd::arithmetic::power2::lemma2_to64();
    vstd::bits::lemma_u64_shr_is_div(h, 32);
    vstd::bits::lemma_u64_shr_is_div(a, 32);
}

proof fn lemma_hash_shifts(h: u64, a: Seq<u8>, b: Seq<u8>, at: int)
    requires
        a.len() == 8,
        0 <= at,
    ensures
        hash_from(h, a + b, at + 8) == hash_from(h, b, at),
    decreases b.len() - at,
{
    assert(word_at(a + b, at + 8) == word_at(b, at));
    if b.len() - at >= 8 {
        lemma_hash_shifts(mixed(h, word_at(b, at)), a, b, at + 8);
    }
}

/// The hash of a name takes its bytes eight at a time, a round for each eight, and one more for what
/// is left of them, be it nothing.
pub proof fn law_hash_takes_eight_bytes_a_round(h: u64, a: Seq<u8>, b: Seq<u8>, rest: Seq<u8>)
    requires
        a.len() == 8,
        rest.len() < 8,
    ensures
        raw_hash(b) == hash_from(0, b, 0),
        name_hash(b) == finalized(raw_hash(b)),
        hash_from(h, a + b, 0) == hash_from(mixed(h, word_at(a, 0)), b, 0),
        hash_from(h, rest, 0) == mixed(h, word_at(rest, 0)),
{
    assert(word_at(a + b, 0) == word_at(a, 0));
    lemma_hash_shifts(mixed(h, word_at(a, 0)), a, b, 0);
}

} // verus!
