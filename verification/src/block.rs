//! Delimiter bitmaps over 64-byte blocks.
//!
//! A scan that finds one delimiter at a time pays a serial dependency for it: a row's name
//! cannot be hashed until the previous row's temperature has been parsed, because that is what
//! says where the row starts. [`split_streams`](crate::chunk::split_streams) papers over this by
//! walking several rows at once, but the chain is still there.
//!
//! Here a whole 64-byte block is compared against `;` and `\n` at once, producing two 64-bit
//! masks with one bit per input byte. Every delimiter in the block is then known before any
//! row is touched, so rows become independent by construction.
//!
//! [`block_semis`] and [`block_newlines`] exist next to [`block_delims`]: half the bitmap for
//! half the price, if half is enough.

use crate::bytes::window;
use crate::bytes::NEWLINE;
use crate::bytes::SEMICOLON;
use crate::lanes::eq_lanes;
use vstd::prelude::*;
use vstd::std_specs::bits::axiom_u64_trailing_zeros;
use vstd::std_specs::bits::u64_trailing_zeros;

verus! {

/// Bytes covered by one mask. Also the readable slack a call needs past its position.
pub const BLOCK: usize = 64;

/// Bit `i` of a mask.
pub open spec fn bit(m: u64, i: int) -> bool {
    (m >> (i as u64)) & 1 == 1
}

/// The mask has a bit for every byte of the block that is `needle`, and no other.
pub open spec fn marks(m: u64, block: Seq<u8>, needle: u8) -> bool {
    forall|i: int| 0 <= i < 64 ==> #[trigger] bit(m, i) == (block[i] == needle)
}

/// Setting a bit sets that one.
proof fn lemma_set_bit(m: u64, i: u64)
    requires
        i < 64,
    ensures
        forall|j: int|
            0 <= j < 64 ==> #[trigger] bit(m | (1u64 << i), j) == (bit(m, j) || j == i),
{
    assert forall|j: int| 0 <= j < 64 implies #[trigger] bit(m | (1u64 << i), j) == (bit(m, j) || j
        == i) by {
        let k = j as u64;
        assert((((m | (1u64 << i)) >> k) & 1 == 1) == ((m >> k) & 1 == 1 || k == i)) by (bit_vector)
            requires
                i < 64,
                k < 64,
        ;
    }
}

/// Folds four lanes of byte-wise compare results into one bit per byte, in order.
#[inline(always)]
fn movemask(a: &[u8; 16], b: &[u8; 16], c: &[u8; 16], d: &[u8; 16]) -> (m: u64)
    ensures
        forall|i: int|
            0 <= i < 64 ==> #[trigger] bit(m, i) == ((a@ + b@ + c@ + d@)[i] != 0),
{
    let ghost all = a@ + b@ + c@ + d@;
    let mut m: u64 = 0;
    assert forall|j: int| 0 <= j < 64 implies !#[trigger] bit(m, j) by {
        let k = j as u64;
        assert((0u64 >> k) & 1 != 1) by (bit_vector);
    }
    for i in 0..64u64
        invariant
            all == a@ + b@ + c@ + d@,
            forall|j: int| 0 <= j < i ==> #[trigger] bit(m, j) == (all[j] != 0),
            forall|j: int| i <= j < 64 ==> !#[trigger] bit(m, j),
    {
        let at = (i % 16) as usize;
        let lane: u8 = if i < 16 {
            a[at]
        } else if i < 32 {
            b[at]
        } else if i < 48 {
            c[at]
        } else {
            d[at]
        };
        assert(lane == all[i as int]);
        if lane != 0 {
            proof {
                lemma_set_bit(m, i);
            }
            m = m | (1u64 << i);
        }
    }
    m
}

/// One bit for each byte of the block at the start of `p` that is `needle`.
#[inline(always)]
fn block_mask(p: &[u8], needle: u8) -> (m: u64)
    requires
        p@.len() >= BLOCK,
    ensures
        marks(m, p@, needle),
{
    let a = eq_lanes(&window(p, 0), needle);
    let b = eq_lanes(&window(p, 16), needle);
    let c = eq_lanes(&window(p, 32), needle);
    let d = eq_lanes(&window(p, 48), needle);
    let m = movemask(&a, &b, &c, &d);
    let ghost all = a@ + b@ + c@ + d@;
    assert forall|i: int| 0 <= i < 64 implies #[trigger] bit(m, i) == (p@[i] == needle) by {
        assert(bit(m, i) == (all[i] != 0));
        let l = i % 16;
        assert(i < 16 ==> all[i] == a@[l]);
        assert(16 <= i < 32 ==> all[i] == b@[l]);
        assert(32 <= i < 48 ==> all[i] == c@[l]);
        assert(48 <= i ==> all[i] == d@[l]);
    }
    m
}

/// `(semicolons, newlines)` for the [`BLOCK`] bytes at `p`, one bit per byte, LSB first.
#[inline(always)]
pub fn block_delims(p: &[u8]) -> (r: (u64, u64))
    requires
        p@.len() >= BLOCK,
    ensures
        marks(r.0, p@, SEMICOLON),
        marks(r.1, p@, NEWLINE),
{
    (block_mask(p, SEMICOLON), block_mask(p, NEWLINE))
}

/// Just the `;` bits. Half of [`block_delims`], for a caller that finds the temperature's end
/// by itself and only wants the name boundaries up front.
#[inline(always)]
pub fn block_semis(p: &[u8]) -> (m: u64)
    requires
        p@.len() >= BLOCK,
    ensures
        marks(m, p@, SEMICOLON),
{
    block_mask(p, SEMICOLON)
}

/// Just the `\n` bits: the half that makes row starts independent of the previous parse.
#[inline(always)]
pub fn block_newlines(p: &[u8]) -> (m: u64)
    requires
        p@.len() >= BLOCK,
    ensures
        marks(m, p@, NEWLINE),
{
    block_mask(p, NEWLINE)
}

/// A mask is determined by what it marks, so the two halves are interchangeable with the
/// corresponding half of the combined call.
pub proof fn law_marks_determine_the_mask(a: u64, b: u64, block: Seq<u8>, needle: u8)
    requires
        marks(a, block, needle),
        marks(b, block, needle),
    ensures
        a == b,
{
    let x = a ^ b;
    axiom_u64_trailing_zeros(x);
    let t = u64_trailing_zeros(x) as u64;
    assert((a != b ==> x != 0) && (t < 64 && (x >> t) & 1 == 1 ==> ((a >> t) & 1 == 1) != ((b >> t)
        & 1 == 1))) by (bit_vector)
        requires
            x == a ^ b,
    ;
    if a != b {
        assert(bit(a, t as int) == bit(b, t as int));
    }
}

/// [`marks`] for the first `n` bytes alone.
spec fn marks_below(m: u64, block: Seq<u8>, needle: u8, n: int) -> bool {
    forall|i: int| 0 <= i < 64 ==> #[trigger] bit(m, i) == (i < n && block[i] == needle)
}

proof fn lemma_mask_up_to(block: Seq<u8>, needle: u8, n: int)
    requires
        0 <= n <= 64,
    ensures
        exists|m: u64| #[trigger] marks_below(m, block, needle, n),
    decreases n,
{
    if n == 0 {
        assert forall|i: int| 0 <= i < 64 implies !#[trigger] bit(0, i) by {
            let k = i as u64;
            assert((0u64 >> k) & 1 != 1) by (bit_vector);
        }
        assert(marks_below(0, block, needle, 0));
    } else {
        lemma_mask_up_to(block, needle, n - 1);
        let m = choose|m: u64| #[trigger] marks_below(m, block, needle, n - 1);
        if block[n - 1] == needle {
            lemma_set_bit(m, (n - 1) as u64);
            let more = m | (1u64 << ((n - 1) as u64));
            assert(marks_below(more, block, needle, n));
        } else {
            assert(marks_below(m, block, needle, n));
        }
    }
}

/// Every block has a mask, and its bits are where the bytes are.
pub proof fn law_every_block_has_its_mask(block: Seq<u8>, needle: u8)
    ensures
        exists|m: u64| #[trigger] marks(m, block, needle),
        forall|m: u64, i: u64|
            i < 64 && #[trigger] marks(m, block, needle) ==> ((#[trigger] (m >> i)) & 1 == 1
                <==> block[i as int] == needle),
{
    lemma_mask_up_to(block, needle, 64);
    let m = choose|m: u64| #[trigger] marks_below(m, block, needle, 64);
    assert(marks(m, block, needle)) by {
        assert forall|i: int| 0 <= i < 64 implies #[trigger] bit(m, i) == (block[i] == needle) by {}
    }
    assert forall|m: u64, i: u64| i < 64 && #[trigger] marks(m, block, needle) implies ((
    #[trigger] (m >> i)) & 1 == 1 <==> block[i as int] == needle) by {
        assert(bit(m, i as int) == (block[i as int] == needle));
    }
}

} // verus!
