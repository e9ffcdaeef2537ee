//! Names as fixed-width keys: the first 32 bytes of a name, zero past its end.

use crate::bytes::byte_of;
use crate::bytes::byte_or_zero;
use crate::bytes::lemma_pack;
use crate::bytes::lemma_pack_low;
use crate::bytes::lemma_pack_zero;
use crate::bytes::load_word;
use crate::bytes::low_bytes;
use crate::bytes::word_at;
use vstd::prelude::*;

verus! {

/// Bytes of the name held inline. Must be a multiple of 16.
pub const INLINE_KEY: usize = 32;

/// Readable bytes the probe requires from the start of a name.
pub const KEY_SLACK: usize = 32;

/// Two words as one, the first in the low half.
pub open spec fn wide(lo: u64, hi: u64) -> u128 {
    (lo as u128) | ((hi as u128) << 64)
}

/// The sixteen bytes of `name` from `at` on, little-endian, zero past its end.
pub open spec fn key_half(name: Seq<u8>, at: int) -> u128 {
    wide(word_at(name, at), word_at(name, at + 8))
}

/// The key is that of `name`.
pub open spec fn is_key(key: [u128; 2], name: Seq<u8>) -> bool {
    key@[0] == key_half(name, 0) && key@[1] == key_half(name, 16)
}

/// A name that is a key holds no NUL, which is what makes a zero mark its end.
pub open spec fn nul_free(name: Seq<u8>) -> bool {
    forall|i: int| 0 <= i < name.len() ==> #[trigger] name[i] != 0
}

/// The mask that keeps the low `n` bytes of sixteen.
pub open spec fn low_mask(n: u128) -> u128 {
    if n == 0 {
        0
    } else {
        0xffff_ffff_ffff_ffff_ffff_ffff_ffff_ffffu128 >> ((128 - 8 * n) as u128)
    }
}

/// The mask that keeps the low `n` bytes of sixteen.
#[inline(always)]
fn mask(n: usize) -> (m: u128)
    requires
        n <= 16,
    ensures
        m == low_mask(n as u128),
{
    if n == 0 {
        0
    } else {
        u128::MAX >> ((128 - 8 * n) as u128)
    }
}

/// The sixteen bytes at `at` as a little-endian word.
#[inline(always)]
fn load_wide(data: &[u8], at: usize) -> (w: u128)
    requires
        at + 16 <= data@.len(),
    ensures
        w == wide(word_at(data@, at as int), word_at(data@, at + 8)),
{
    assert(data.len() == data@.len());
    (load_word(data, at) as u128) | ((load_word(data, at + 8) as u128) << 64)
}

/// Masking two words as one masks whichever of them the cut falls in.
proof fn lemma_wide_mask(lo: u64, hi: u64, n: u128)
    requires
        n <= 16,
    ensures
        n < 8 ==> wide(lo, hi) & low_mask(n) == wide(lo & low_bytes(n as u64), 0),
        8 <= n < 16 ==> wide(lo, hi) & low_mask(n) == wide(lo, hi & low_bytes((n - 8) as u64)),
        n == 16 ==> wide(lo, hi) & low_mask(n) == wide(lo, hi),
{
    assert({
        &&& n < 8 ==> ((lo as u128) | ((hi as u128) << 64)) & low_mask(n) == ((lo & ((1u64 << (8 * (
        n as u64)) as u64) - 1) as u64) as u128) | (0u128 << 64)
        &&& 8 <= n < 16 ==> ((lo as u128) | ((hi as u128) << 64)) & low_mask(n) == (lo as u128) | (((
        hi & ((1u64 << (8 * ((n - 8) as u64)) as u64) - 1) as u64) as u128) << 64)
        &&& n == 16 ==> ((lo as u128) | ((hi as u128) << 64)) & low_mask(n) == (lo as u128) | ((
        hi as u128) << 64)
    }) by (bit_vector)
        requires
            n <= 16,
    ;
}

/// A word of `name`, from the bytes that `name` was cut out of.
proof fn lemma_word_cut(d: Seq<u8>, off: int, len: int, at: int)
    requires
        0 <= off,
        0 <= at,
        0 <= len,
        off + len <= d.len(),
        off + at + 8 <= d.len(),
    ensures
        ({
            let name = d.subrange(off, off + len);
            &&& len <= at ==> word_at(name, at) == 0
            &&& at < len < at + 8 ==> word_at(name, at) == word_at(d, off + at) & low_bytes(
                (len - at) as u64,
            )
            &&& at + 8 <= len ==> word_at(name, at) == word_at(d, off + at)
        }),
{
    let name = d.subrange(off, off + len);
    if len <= at {
        lemma_pack_zero();
    } else if len < at + 8 {
        let p = off + at;
        lemma_pack_low(
            d[p],
            d[p + 1],
            d[p + 2],
            d[p + 3],
            d[p + 4],
            d[p + 5],
            d[p + 6],
            d[p + 7],
            (len - at) as u64,
        );
    }
}

/// Sixteen bytes masked to what is left of a name are its key half.
proof fn lemma_half(d: Seq<u8>, off: int, len: int, at: int, n: u128)
    requires
        0 <= off,
        0 <= at,
        0 <= len,
        off + len <= d.len(),
        off + at + 16 <= d.len(),
        n == if len <= at {
            0
        } else if len - at < 16 {
            len - at
        } else {
            16
        },
    ensures
        wide(word_at(d, off + at), word_at(d, off + at + 8)) & low_mask(n) == key_half(
            d.subrange(off, off + len),
            at,
        ),
{
    let lo = word_at(d, off + at);
    let hi = word_at(d, off + at + 8);
    lemma_wide_mask(lo, hi, n);
    lemma_word_cut(d, off, len, at);
    lemma_word_cut(d, off, len, at + 8);
    assert(lo & low_bytes(0) == 0 && hi & low_bytes(0) == 0) by (bit_vector);
}

/// Byte `i` of a key, counted from the bottom of its first half.
pub open spec fn key_byte(key: [u128; 2], i: int) -> u8 {
    #[verifier::truncate]
    ((key@[i / 16] >> ((8 * (i % 16)) as u128)) as u8)
}

/// The part of a name that a key holds.
pub open spec fn key_len(len: int) -> int {
    if len < INLINE_KEY {
        len
    } else {
        INLINE_KEY as int
    }
}

proof fn lemma_wide_bytes(lo: u64, hi: u64, i: u64)
    requires
        i < 16,
    ensures
        #[verifier::truncate] ((wide(lo, hi) >> ((8 * i) as u128)) as u8) == if i < 8 {
            byte_of(lo, i)
        } else {
            byte_of(hi, (i - 8) as u64)
        },
{
    assert(#[verifier::truncate] ((((lo as u128) | ((hi as u128) << 64)) >> ((8 * i) as u128)) as u8)
        == if i < 8 {
        #[verifier::truncate] ((lo >> (8 * i) as u64) as u8)
    } else {
        #[verifier::truncate] ((hi >> (8 * ((i - 8) as u64)) as u64) as u8)
    }) by (bit_vector)
        requires
            i < 16,
    ;
}

/// A key half read a byte at a time.
proof fn lemma_half_bytes(name: Seq<u8>, at: int, i: int)
    requires
        0 <= i < 16,
    ensures
        #[verifier::truncate] ((key_half(name, at) >> ((8 * i) as u128)) as u8) == byte_or_zero(
            name,
            at + i,
        ),
{
    lemma_wide_bytes(word_at(name, at), word_at(name, at + 8), i as u64);
    lemma_pack(
        byte_or_zero(name, at),
        byte_or_zero(name, at + 1),
        byte_or_zero(name, at + 2),
        byte_or_zero(name, at + 3),
        byte_or_zero(name, at + 4),
        byte_or_zero(name, at + 5),
        byte_or_zero(name, at + 6),
        byte_or_zero(name, at + 7),
    );
    lemma_pack(
        byte_or_zero(name, at + 8),
        byte_or_zero(name, at + 9),
        byte_or_zero(name, at + 10),
        byte_or_zero(name, at + 11),
        byte_or_zero(name, at + 12),
        byte_or_zero(name, at + 13),
        byte_or_zero(name, at + 14),
        byte_or_zero(name, at + 15),
    );
    assert(i == 0 || i == 1 || i == 2 || i == 3 || i == 4 || i == 5 || i == 6 || i == 7 || i == 8
        || i == 9 || i == 10 || i == 11 || i == 12 || i == 13 || i == 14 || i == 15);
}

/// A key is its name's first bytes, zero past its end.
pub proof fn law_key_holds_the_bytes(key: [u128; 2], name: Seq<u8>)
    requires
        is_key(key, name),
    ensures
        forall|i: int| 0 <= i < INLINE_KEY ==> #[trigger] key_byte(key, i) == byte_or_zero(name, i),
{
    assert forall|i: int| 0 <= i < INLINE_KEY implies #[trigger] key_byte(key, i) == byte_or_zero(
        name,
        i,
    ) by {
        lemma_half_bytes(name, 16 * (i / 16), i % 16);
        assert(i / 16 == 0 || i / 16 == 1);
    }
}

/// The name's first [`INLINE_KEY`] bytes, zeroed past `len`.
///
/// Reads [`KEY_SLACK`] bytes from `off` regardless of `len`, so callers must keep that much
/// slack in bounds. Masking rather than branching on the length keeps this off the critical
/// path: both halves are independent of the hash and of each other.
#[inline(always)]
pub fn probe_key(data: &[u8], off: usize, len: usize) -> (key: [u128; 2])
    requires
        off + KEY_SLACK <= data@.len(),
    ensures
        is_key(key, data@.subrange(off as int, off + key_len(len as int))),
        forall|i: int|
            0 <= i < INLINE_KEY ==> #[trigger] key_byte(key, i) == if i < len {
                data@[off + i]
            } else {
                0
            },
        off + len <= data@.len() ==> is_key(key, data@.subrange(off as int, off + len)),
{
    assert(data.len() == data@.len());
    let lo = load_wide(data, off);
    let hi = load_wide(data, off + 16);
    let n0: usize = if len < 16 {
        len
    } else {
        16
    };
    let n1: usize = if len <= 16 {
        0
    } else if len - 16 < 16 {
        len - 16
    } else {
        16
    };
    let key: [u128; 2] = [lo & mask(n0), hi & mask(n1)];
    proof {
        let cut = key_len(len as int);
        lemma_half(data@, off as int, cut, 0, n0 as u128);
        lemma_half(data@, off as int, cut, 16, n1 as u128);
        law_key_holds_the_bytes(key, data@.subrange(off as int, off + cut));
        if off + len <= data@.len() {
            lemma_half(data@, off as int, len as int, 0, n0 as u128);
            lemma_half(data@, off as int, len as int, 16, n1 as u128);
        }
    }
    key
}

/// [`probe_key`] for a name whose 16-byte window is already masked, as two little-endian
/// words: the shape [`scan_flat_keyed`](crate::swar::scan_flat_keyed) hands back.
///
/// Only correct for names of up to 16 bytes, which is exactly why the high half is zero.
#[inline(always)]
pub fn key_from_words(lo: u64, hi: u64) -> (key: [u128; 2])
    ensures
        key@[0] == wide(lo, hi),
        key@[1] == 0,
        forall|name: Seq<u8>|
            name.len() <= 16 && lo == word_at(name, 0) && hi == word_at(name, 8)
                ==> #[trigger] is_key(key, name),
{
    let key: [u128; 2] = [(lo as u128) | ((hi as u128) << 64), 0];
    assert forall|name: Seq<u8>|
        name.len() <= 16 && lo == word_at(name, 0) && hi == word_at(
            name,
            8,
        ) implies #[trigger] is_key(key, name) by {
        lemma_high_half(name);
    }
    key
}

/// A name of up to 16 bytes leaves the second half of its key zero.
pub proof fn lemma_high_half(name: Seq<u8>)
    requires
        name.len() <= 16,
    ensures
        key_half(name, 16) == 0,
{
    lemma_pack_zero();
    lemma_wide_zero();
}

proof fn lemma_wide_zero()
    ensures
        wide(0, 0) == 0,
{
    assert(wide(0, 0) == 0) by (bit_vector);
}

/// Equal halves hold equal bytes.
pub proof fn lemma_half_eq(a: Seq<u8>, b: Seq<u8>, at: int)
    requires
        key_half(a, at) == key_half(b, at),
    ensures
        forall|i: int| at <= i < at + 16 ==> #[trigger] byte_or_zero(a, i) == byte_or_zero(b, i),
{
    let (a0, a1) = (word_at(a, at), word_at(a, at + 8));
    let (b0, b1) = (word_at(b, at), word_at(b, at + 8));
    assert(a0 == b0 && a1 == b1) by (bit_vector)
        requires
            (a0 as u128) | ((a1 as u128) << 64) == (b0 as u128) | ((b1 as u128) << 64),
    ;
    lemma_word_bytes(a, b, at);
    lemma_word_bytes(a, b, at + 8);
}

proof fn lemma_word_bytes(a: Seq<u8>, b: Seq<u8>, at: int)
    requires
        word_at(a, at) == word_at(b, at),
    ensures
        forall|i: int| at <= i < at + 8 ==> #[trigger] byte_or_zero(a, i) == byte_or_zero(b, i),
{
    lemma_pack(
        byte_or_zero(a, at),
        byte_or_zero(a, at + 1),
        byte_or_zero(a, at + 2),
        byte_or_zero(a, at + 3),
        byte_or_zero(a, at + 4),
        byte_or_zero(a, at + 5),
        byte_or_zero(a, at + 6),
        byte_or_zero(a, at + 7),
    );
    lemma_pack(
        byte_or_zero(b, at),
        byte_or_zero(b, at + 1),
        byte_or_zero(b, at + 2),
        byte_or_zero(b, at + 3),
        byte_or_zero(b, at + 4),
        byte_or_zero(b, at + 5),
        byte_or_zero(b, at + 6),
        byte_or_zero(b, at + 7),
    );
    assert forall|i: int| at <= i < at + 8 implies #[trigger] byte_or_zero(a, i) == byte_or_zero(
        b,
        i,
    ) by {
        assert(i == at || i == at + 1 || i == at + 2 || i == at + 3 || i == at + 4 || i == at + 5
            || i == at + 6 || i == at + 7);
    }
}

/// A name that ends within `width` bytes is told from every other by those bytes alone, since
/// neither holds a NUL and it is followed by one.
pub proof fn lemma_padded(a: Seq<u8>, b: Seq<u8>, width: int)
    requires
        nul_free(a),
        nul_free(b),
        a.len() < width,
        forall|i: int| 0 <= i < width ==> #[trigger] byte_or_zero(a, i) == byte_or_zero(b, i),
    ensures
        a == b,
{
    assert(byte_or_zero(a, a.len() as int) == byte_or_zero(b, a.len() as int));
    if b.len() < width {
        assert(byte_or_zero(a, b.len() as int) == byte_or_zero(b, b.len() as int));
    }
    assert forall|i: int| 0 <= i < a.len() implies a[i] == b[i] by {
        assert(byte_or_zero(a, i) == byte_or_zero(b, i));
    }
    assert(a =~= b);
}

/// A name shorter than the inline key is determined by its key.
pub proof fn law_short_key_is_name(a: Seq<u8>, b: Seq<u8>)
    requires
        nul_free(a),
        nul_free(b),
        a.len() < INLINE_KEY,
        key_half(a, 0) == key_half(b, 0),
        key_half(a, 16) == key_half(b, 16),
    ensures
        a == b,
{
    lemma_half_eq(a, b, 0);
    lemma_half_eq(a, b, 16);
    lemma_padded(a, b, 32);
}

/// A name of fewer than 16 bytes is determined by the low half of its key.
pub proof fn law_low_half_is_name(a: Seq<u8>, b: Seq<u8>)
    requires
        nul_free(a),
        nul_free(b),
        a.len() < 16,
        key_half(a, 0) == key_half(b, 0),
    ensures
        a == b,
{
    lemma_half_eq(a, b, 0);
    lemma_padded(a, b, 16);
}

/// A longer name is determined by its key, its length, and the part past the key.
pub proof fn law_long_key_is_name(a: Seq<u8>, b: Seq<u8>)
    requires
        a.len() >= INLINE_KEY,
        a.len() == b.len(),
        key_half(a, 0) == key_half(b, 0),
        key_half(a, 16) == key_half(b, 16),
        a.subrange(32, a.len() as int) == b.subrange(32, b.len() as int),
    ensures
        a == b,
{
    lemma_half_eq(a, b, 0);
    lemma_half_eq(a, b, 16);
    assert forall|i: int| 0 <= i < a.len() implies a[i] == b[i] by {
        if i < 32 {
            assert(byte_or_zero(a, i) == byte_or_zero(b, i));
        } else {
            assert(a.subrange(32, a.len() as int)[i - 32] == a[i]);
            assert(b.subrange(32, b.len() as int)[i - 32] == b[i]);
        }
    }
    assert(a =~= b);
}

/// The key of a name is never all zero, not even in its low half, so zero can mark an empty
/// slot.
pub proof fn law_key_is_not_blank(name: Seq<u8>)
    requires
        name.len() > 0,
        nul_free(name),
    ensures
        key_half(name, 0) != 0,
{
    let none = Seq::<u8>::empty();
    assert(key_half(none, 0) == 0) by {
        lemma_pack_zero();
        lemma_wide_zero();
    }
    if key_half(name, 0) == 0 {
        lemma_half_eq(name, none, 0);
        assert(byte_or_zero(name, 0) == byte_or_zero(none, 0));
    }
}

} // verus!
