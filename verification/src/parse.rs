//! Temperatures, read from their text into integer tenths of a degree.
//!
//! A temperature is an optional `-`, one or two integer digits, a `.` and exactly one
//! fractional digit.

use crate::bytes::lemma_trailing_zeros_is;
use crate::bytes::load_word;
use crate::bytes::pack;
use crate::bytes::word_at;
use crate::bytes::DIGIT_0;
use crate::bytes::DIGIT_9;
use crate::bytes::DOT;
use crate::bytes::MINUS;
use vstd::prelude::*;
use vstd::std_specs::bits::u64_trailing_zeros;

verus! {

pub open spec fn is_digit(b: u8) -> bool {
    DIGIT_0 <= b <= DIGIT_9
}

/// Where the integer digits of the temperature at `p` start: past the sign if there is one.
pub open spec fn digits_at(d: Seq<u8>, p: int) -> int {
    if d[p] == MINUS {
        p + 1
    } else {
        p
    }
}

/// How many bytes the temperature at `p` occupies, without the newline.
pub open spec fn temp_width(d: Seq<u8>, p: int) -> int {
    let q = digits_at(d, p);
    if d[q + 1] == DOT {
        q + 3 - p
    } else {
        q + 4 - p
    }
}

/// A temperature stands at `p`, whole.
pub open spec fn temp_ok(d: Seq<u8>, p: int) -> bool {
    let q = digits_at(d, p);
    &&& 0 <= p
    &&& p + temp_width(d, p) <= d.len()
    &&& is_digit(d[q])
    &&& if d[q + 1] == DOT {
        is_digit(d[q + 2])
    } else {
        is_digit(d[q + 1]) && d[q + 2] == DOT && is_digit(d[q + 3])
    }
}

/// The temperature at `p` in tenths of a degree.
pub open spec fn temp_value(d: Seq<u8>, p: int) -> int {
    let q = digits_at(d, p);
    let magnitude = if d[q + 1] == DOT {
        (d[q] - DIGIT_0) * 10 + (d[q + 2] - DIGIT_0)
    } else {
        (d[q] - DIGIT_0) * 100 + (d[q + 1] - DIGIT_0) * 10 + (d[q + 3] - DIGIT_0)
    };
    if d[p] == MINUS {
        -magnitude
    } else {
        magnitude
    }
}

/// Parses the temperature starting at `p` (the first byte after `;`) into tenths of a
/// degree, and returns the index of the next line's first byte.
///
/// The returned index may be one past the end of the data when the file has no trailing
/// newline; the caller's bound check handles that.
#[inline]
pub fn parse_temp(d: &[u8], p: usize) -> (r: (i16, usize))
    requires
        temp_ok(d@, p as int),
        d@.len() < usize::MAX,
    ensures
        r.0 == temp_value(d@, p as int),
        r.1 == p + temp_width(d@, p as int) + 1,
{
    let neg = d[p] == MINUS;
    let mut p: usize = if neg {
        p + 1
    } else {
        p
    };
    let mut v: i16 = (d[p] - DIGIT_0) as i16;
    p += 1;
    if d[p] != DOT {
        v = v * 10 + (d[p] - DIGIT_0) as i16;
        p += 1;
    }
    // d[p] is '.', d[p + 1] is the fractional digit, and a newline follows.
    v = v * 10 + (d[p + 1] - DIGIT_0) as i16;

    (if neg {
        -v
    } else {
        v
    }, p + 3)
}

/// All ones when the byte at the bottom of `word` is a `-`, otherwise zero: of the bytes a
/// temperature can start with, only the sign lacks bit `0x10`.
pub open spec fn sign_mask(word: u64) -> i64 {
    ((!word << 59) as i64) >> 63
}

/// The value's bytes with the sign cleared and the `.` moved to byte 3.
pub open spec fn aligned(word: u64, shift: u32) -> u64 {
    (word & !((sign_mask(word) as u64) & 0xFF)) << shift
}

/// The word loaded at `p` holds the temperature's bytes.
proof fn lemma_window(d: Seq<u8>, p: int)
    requires
        0 <= p,
        p + 8 <= d.len(),
    ensures
        word_at(d, p) == pack(
            d[p],
            d[p + 1],
            d[p + 2],
            d[p + 3],
            d[p + 4],
            d[p + 5],
            d[p + 6],
            d[p + 7],
        ),
{
}

/// What the branchless steps compute from the eight bytes at a temperature: where the dot is,
/// the sign, and the three digits in their fixed places.
proof fn lemma_branchless(d: Seq<u8>, p: int, word: u64)
    requires
        temp_ok(d, p),
        p + 8 <= d.len(),
        word == word_at(d, p),
    ensures
        3 <= temp_width(d, p) <= 5,
        u64_trailing_zeros(!word & 0x1010_1000) == 8 * temp_width(d, p) - 12,
        sign_mask(word) == if d[p] == MINUS {
            -1i64
        } else {
            0i64
        },
        ({
            let v = aligned(word, (40 - 8 * temp_width(d, p)) as u32);
            let tens = (v >> 8) & 0x0F;
            let ones = (v >> 16) & 0x0F;
            let frac = (v >> 32) & 0x0F;
            let magnitude = tens * 100 + ones * 10 + frac;
            &&& tens <= 9
            &&& ones <= 9
            &&& frac <= 9
            &&& temp_value(d, p) == if d[p] == MINUS {
                -magnitude
            } else {
                magnitude
            }
        }),
{
    lemma_window(d, p);
    let b0 = d[p];
    let b1 = d[p + 1];
    let b2 = d[p + 2];
    let b3 = d[p + 3];
    let b4 = d[p + 4];
    let b5 = d[p + 5];
    let b6 = d[p + 6];
    let b7 = d[p + 7];
    if d[p] != MINUS && d[p + 1] == DOT {
        assert({
            let m = !word & 0x1010_1000;
            let v = aligned(word, 16);
            &&& (m >> 12) & 1 == 1
            &&& m << 52 == 0
            &&& sign_mask(word) == 0
            &&& (v >> 8) & 0x0F == 0
            &&& (v >> 16) & 0x0F == b0 - 0x30
            &&& (v >> 32) & 0x0F == b2 - 0x30
        }) by (bit_vector)
            requires
                word == pack(b0, b1, b2, b3, b4, b5, b6, b7),
                0x30 <= b0 <= 0x39,
                b1 == 0x2E,
                0x30 <= b2 <= 0x39,
        ;
        lemma_trailing_zeros_is(!word & 0x1010_1000, 12);
    } else if d[p] != MINUS {
        assert({
            let m = !word & 0x1010_1000;
            let v = aligned(word, 8);
            &&& (m >> 20) & 1 == 1
            &&& m << 44 == 0
            &&& sign_mask(word) == 0
            &&& (v >> 8) & 0x0F == b0 - 0x30
            &&& (v >> 16) & 0x0F == b1 - 0x30
            &&& (v >> 32) & 0x0F == b3 - 0x30
        }) by (bit_vector)
            requires
                word == pack(b0, b1, b2, b3, b4, b5, b6, b7),
                0x30 <= b0 <= 0x39,
                0x30 <= b1 <= 0x39,
                b2 == 0x2E,
                0x30 <= b3 <= 0x39,
        ;
        lemma_trailing_zeros_is(!word & 0x1010_1000, 20);
    } else if d[p + 2] == DOT {
        assert({
            let m = !word & 0x1010_1000;
            let v = aligned(word, 8);
            &&& (m >> 20) & 1 == 1
            &&& m << 44 == 0
            &&& sign_mask(word) == -1
            &&& (v >> 8) & 0x0F == 0
            &&& (v >> 16) & 0x0F == b1 - 0x30
            &&& (v >> 32) & 0x0F == b3 - 0x30
        }) by (bit_vector)
            requires
                word == pack(b0, b1, b2, b3, b4, b5, b6, b7),
                b0 == 0x2D,
                0x30 <= b1 <= 0x39,
                b2 == 0x2E,
                0x30 <= b3 <= 0x39,
        ;
        lemma_trailing_zeros_is(!word & 0x1010_1000, 20);
    } else {
        assert({
            let m = !word & 0x1010_1000;
            let v = aligned(word, 0);
            &&& (m >> 28) & 1 == 1
            &&& m << 36 == 0
            &&& sign_mask(word) == -1
            &&& (v >> 8) & 0x0F == b1 - 0x30
            &&& (v >> 16) & 0x0F == b2 - 0x30
            &&& (v >> 32) & 0x0F == b4 - 0x30
        }) by (bit_vector)
            requires
                word == pack(b0, b1, b2, b3, b4, b5, b6, b7),
                b0 == 0x2D,
                0x30 <= b1 <= 0x39,
                0x30 <= b2 <= 0x39,
                b3 == 0x2E,
                0x30 <= b4 <= 0x39,
        ;
        lemma_trailing_zeros_is(!word & 0x1010_1000, 28);
    }
}

/// Negation by mask: `(x ^ -1) - -1 == -x`, and a zero mask changes nothing.
proof fn lemma_negate(x: i64, mask: i64)
    requires
        0 <= x < 1000,
        mask == 0 || mask == -1,
    ensures
        (x ^ mask) - mask == if mask == 0 {
            x as int
        } else {
            -x
        },
        -1000 <= x ^ mask < 1000,
{
    assert(x ^ mask == if mask == 0 {
        x as int
    } else {
        -1 - x
    }) by (bit_vector)
        requires
            mask == 0 || mask == -1,
    ;
}

/// Branchless equivalent of [`parse_temp`].
///
/// Eight bytes are loaded little-endian; the layout is one of `d.d`, `dd.d`, `-d.d`, `-dd.d`.
/// ASCII digits all have bit `0x10` set while `.` and `-` do not, so the lowest set bit of
/// `!word & 0x10101000` locates the `.`, which can only be at byte 1, 2 or 3. Shifting left by
/// `28 - dot_bit` moves the `.` to byte 3 in every layout, which pins the tens digit to byte 1,
/// the units to byte 2 and the fraction to byte 4. The sign byte is cleared before the shift so
/// it cannot masquerade as a tens digit.
///
/// Reads 8 bytes from `p`, so the caller must guarantee that much slack.
#[inline]
pub fn parse_temp_branchless(d: &[u8], p: usize) -> (r: (i16, usize))
    requires
        temp_ok(d@, p as int),
        p + 8 <= d@.len(),
    ensures
        r.0 == temp_value(d@, p as int),
        r.1 == p + temp_width(d@, p as int) + 1,
{
    let word = load_word(d, p);
    let inv = !word;
    proof {
        lemma_branchless(d@, p as int, word);
    }

    // Bit position of the `.`: 12, 20 or 28 for byte 1, 2 or 3.
    let dot_bit: u32 = (inv & 0x1010_1000).trailing_zeros();

    // All ones when byte 0 is '-', otherwise zero.
    let signed: i64 = ((inv << 59) as i64) >> 63;

    let masked = word & !((signed as u64) & 0xFF);
    let v = masked << (28 - dot_bit);

    let tens: u64 = (v >> 8) & 0x0F;
    let ones: u64 = (v >> 16) & 0x0F;
    let frac: u64 = (v >> 32) & 0x0F;
    let abs: i64 = (tens * 100 + ones * 10 + frac) as i64;

    // Negate without branching: (x ^ -1) - -1 == -x.
    proof {
        lemma_negate(abs, signed);
        lemma_dot_index(dot_bit);
        assert(d.len() == d@.len());
    }
    let value: i64 = (abs ^ signed) - signed;

    (value as i16, p + (dot_bit as usize >> 3) + 3)
}

/// The dot's byte index from its bit position.
proof fn lemma_dot_index(dot_bit: u32)
    requires
        dot_bit == 12 || dot_bit == 20 || dot_bit == 28,
    ensures
        (dot_bit as usize) >> 3 == (dot_bit - 4) / 8,
{
    assert(12usize >> 3 == 1 && 20usize >> 3 == 2 && 28usize >> 3 == 3) by (bit_vector);
}

/// [`parse_temp_branchless`] taking the 8 bytes it reads instead of a slice and an index.
///
/// Returns the value and how far past the window start the next line begins, which is what
/// [`parse_temp_branchless`] adds to `p`.
#[inline]
pub fn parse_temp_branchless_win(w: &[u8; 8]) -> (r: (i16, usize))
    requires
        temp_ok(w@, 0),
    ensures
        r.0 == temp_value(w@, 0),
        r.1 == temp_width(w@, 0) + 1,
{
    let word = load_word(w, 0);
    let inv = !word;
    proof {
        lemma_branchless(w@, 0, word);
    }

    let dot_bit: u32 = (inv & 0x1010_1000).trailing_zeros();
    let signed: i64 = ((inv << 59) as i64) >> 63;

    let masked = word & !((signed as u64) & 0xFF);
    let v = masked << (28 - dot_bit);

    let tens: u64 = (v >> 8) & 0x0F;
    let ones: u64 = (v >> 16) & 0x0F;
    let frac: u64 = (v >> 32) & 0x0F;
    let abs: i64 = (tens * 100 + ones * 10 + frac) as i64;

    proof {
        lemma_negate(abs, signed);
        lemma_dot_index(dot_bit);
    }
    let value: i64 = (abs ^ signed) - signed;

    (value as i16, (dot_bit as usize >> 3) + 3)
}

/// The product of the spread digits and the packed weights, reduced to what bits 32..42 hold.
proof fn lemma_digits_land(tens: int, ones: int, frac: int)
    requires
        0 <= tens <= 9,
        0 <= ones <= 9,
        0 <= frac <= 9,
    ensures
        (((tens * 0x100 + ones * 0x1_0000 + frac * 0x1_0000_0000) * 0x640A_0001)
            % 0x1_0000_0000_0000_0000) / 0x1_0000_0000 % 0x400 == tens * 100 + ones * 10 + frac,
{
    let product = (tens * 0x100 + ones * 0x1_0000 + frac * 0x1_0000_0000) * 0x640A_0001;
    let above: int = 25 * ones + 640 * frac + 1638400 * frac;
    let at: int = 100 * tens + 10 * ones + frac;
    let below: int = 0x0A00_0100 * tens + 0x1_0000 * ones;
    assert(product == 0x400_0000_0000 * above + 0x1_0000_0000 * at + below);
    let wrapped = product % 0x1_0000_0000_0000_0000;
    let lost = product / 0x1_0000_0000_0000_0000;
    assert(wrapped == 0x400_0000_0000 * (above - 0x40_0000 * lost) + 0x1_0000_0000 * at + below);
    assert(wrapped / 0x1_0000_0000 == 0x400 * (above - 0x40_0000 * lost) + at);
}

/// One multiply lines each digit's weight up with its byte position, so that the three digits
/// land together at bit 32. The terms above that point are all multiples of 1024 there, and
/// nothing below it is large enough to carry.
proof fn lemma_magic_multiply(v: u64)
    requires
        (v >> 8) & 0x0F <= 9,
        (v >> 16) & 0x0F <= 9,
        (v >> 32) & 0x0F <= 9,
    ensures
        ((v & 0x0000_000F_000F_0F00).wrapping_mul(0x640A_0001) >> 32) & 0x3FF == ((v >> 8) & 0x0F)
            * 100 + ((v >> 16) & 0x0F) * 10 + ((v >> 32) & 0x0F),
{
    let digits = v & 0x0000_000F_000F_0F00;
    let tens = (v >> 8) & 0x0F;
    let ones = (v >> 16) & 0x0F;
    let frac = (v >> 32) & 0x0F;
    let product = digits.wrapping_mul(0x640A_0001);
    assert(v & 0x0000_000F_000F_0F00 == ((v >> 8) & 0x0F) * 0x100 + ((v >> 16) & 0x0F) * 0x1_0000
        + ((v >> 32) & 0x0F) * 0x1_0000_0000 && (product >> 32) & 0x3FF == (product / 0x1_0000_0000)
        % 0x400) by (bit_vector);
    lemma_digits_land(tens as int, ones as int, frac as int);
}

/// [`parse_temp_branchless`] with the three digits folded into one multiply.
#[inline]
pub fn parse_temp_branchless_mul(d: &[u8], p: usize) -> (r: (i16, usize))
    requires
        temp_ok(d@, p as int),
        p + 8 <= d@.len(),
    ensures
        r.0 == temp_value(d@, p as int),
        r.1 == p + temp_width(d@, p as int) + 1,
{
    let word = load_word(d, p);
    let inv = !word;
    proof {
        lemma_branchless(d@, p as int, word);
    }

    let dot_bit: u32 = (inv & 0x1010_1000).trailing_zeros();
    let signed: i64 = ((inv << 59) as i64) >> 63;

    let masked = word & !((signed as u64) & 0xFF);
    let v = masked << (28 - dot_bit);

    let digits = v & 0x0000_000F_000F_0F00;
    proof {
        lemma_magic_multiply(v);
    }
    let abs: i64 = ((digits.wrapping_mul(0x640A_0001) >> 32) & 0x3FF) as i64;

    proof {
        lemma_negate(abs, signed);
        lemma_dot_index(dot_bit);
        assert(d.len() == d@.len());
    }
    let value: i64 = (abs ^ signed) - signed;

    (value as i16, p + (dot_bit as usize >> 3) + 3)
}

/// [`parse_temp_branchless`] for a caller that already knows where the line ends.
///
/// `len` is the byte count from `p` to the newline. In every legal layout the `.` sits at byte
/// `len - 2`, so the dot search collapses to one subtraction that does not wait on the load.
///
/// Reads 8 bytes from `p`, as [`parse_temp_branchless`] does. Returns no next index: the
/// caller already has it.
#[inline]
pub fn parse_temp_len(d: &[u8], p: usize, len: usize) -> (r: i16)
    requires
        temp_ok(d@, p as int),
        p + 8 <= d@.len(),
        len == temp_width(d@, p as int),
    ensures
        r == temp_value(d@, p as int),
{
    let word = load_word(d, p);
    proof {
        lemma_branchless(d@, p as int, word);
    }

    let signed: i64 = ((!word << 59) as i64) >> 63;
    let masked = word & !((signed as u64) & 0xFF);
    let v = masked << (40 - 8 * len as u32);

    let tens: u64 = (v >> 8) & 0x0F;
    let ones: u64 = (v >> 16) & 0x0F;
    let frac: u64 = (v >> 32) & 0x0F;
    let abs: i64 = (tens * 100 + ones * 10 + frac) as i64;

    proof {
        lemma_negate(abs, signed);
    }
    ((abs ^ signed) - signed) as i16
}

} // verus!
