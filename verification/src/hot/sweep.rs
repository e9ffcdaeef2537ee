//! Modes that drain no rows: what it costs to touch the bytes, and to find the delimiters.

use crate::block::block_delims;
use crate::block::block_newlines;
use crate::block::block_semis;
use crate::block::law_every_block_has_its_mask;
use crate::block::law_marks_determine_the_mask;
use crate::block::marks;
use crate::block::BLOCK;
use crate::bytes::byte_or_zero;
use crate::bytes::lemma_pack_zero;
use crate::bytes::lemma_word_changes;
use crate::bytes::load_word;
use crate::bytes::word_at;
use crate::bytes::NEWLINE;
use crate::bytes::SEMICOLON;
use crate::generate::rotated;
use crate::hot::count::lemma_xor_swap;
use crate::rows::remaining;
use vstd::prelude::*;
use vstd::slice::slice_subrange;

verus! {

/// The XOR of the whole words of `[pos, end)`, starting from `acc`. Bytes that fill no word are
/// left out.
pub open spec fn words_folded(acc: u64, d: Seq<u8>, pos: int, end: int) -> u64
    decreases end - pos,
{
    if pos + 8 > end {
        acc
    } else {
        words_folded(acc ^ word_at(d, pos), d, pos + 8, end)
    }
}

/// XOR-reduces the bytes of `[start, end)`.
#[inline(always)]
pub fn touch(data: &[u8], start: usize, end: usize, acc: &mut u64)
    requires
        start <= end <= data@.len(),
    ensures
        *final(acc) == words_folded(*old(acc), data@, start as int, end as int),
{
    let mut a = *acc;
    let mut pos = start;
    while end - pos >= 8
        invariant
            start <= pos <= end <= data@.len(),
            words_folded(a, data@, pos as int, end as int) == words_folded(
                *old(acc),
                data@,
                start as int,
                end as int,
            ),
        decreases end - pos,
    {
        a = a ^ load_word(data, pos);
        pos = pos + 8;
    }
    *acc = a;
}

/// The mask with a bit for every byte of the block that is `needle`.
pub open spec fn mask_of(block: Seq<u8>, needle: u8) -> u64 {
    choose|m: u64| marks(m, block, needle)
}

/// A mask with the right bits is the mask.
proof fn lemma_mask_of(m: u64, block: Seq<u8>, needle: u8)
    requires
        marks(m, block, needle),
    ensures
        m == mask_of(block, needle),
{
    law_marks_determine_the_mask(m, mask_of(block, needle), block, needle);
}

/// What a block yields.
pub trait BlockSink {
    spec fn yields(block: Seq<u8>) -> u64;

    fn take(block: &[u8]) -> (v: u64)
        requires
            block@.len() == BLOCK,
        ensures
            v == Self::yields(block@),
    ;
}

/// Both delimiters.
pub struct Delims;

impl BlockSink for Delims {
    open spec fn yields(block: Seq<u8>) -> u64 {
        let nl = mask_of(block, NEWLINE);
        mask_of(block, SEMICOLON) ^ (nl << 1 | nl >> 63)
    }

    #[inline(always)]
    fn take(block: &[u8]) -> (v: u64) {
        let (s, nl) = block_delims(block);
        proof {
            lemma_mask_of(s, block@, SEMICOLON);
            lemma_mask_of(nl, block@, NEWLINE);
        }
        s ^ (nl << 1 | nl >> 63)
    }
}

/// Just the `;` bits.
pub struct Semis;

impl BlockSink for Semis {
    open spec fn yields(block: Seq<u8>) -> u64 {
        mask_of(block, SEMICOLON)
    }

    #[inline(always)]
    fn take(block: &[u8]) -> (v: u64) {
        let s = block_semis(block);
        proof {
            lemma_mask_of(s, block@, SEMICOLON);
        }
        s
    }
}

/// Just the `\n` bits.
pub struct Newlines;

impl BlockSink for Newlines {
    open spec fn yields(block: Seq<u8>) -> u64 {
        mask_of(block, NEWLINE)
    }

    #[inline(always)]
    fn take(block: &[u8]) -> (v: u64) {
        let nl = block_newlines(block);
        proof {
            lemma_mask_of(nl, block@, NEWLINE);
        }
        nl
    }
}

/// The XOR of what the blocks that start in `[pos, end)` yield, starting from `acc`. The last of
/// them may reach past `end`.
pub open spec fn blocks_folded<B: BlockSink>(acc: u64, d: Seq<u8>, pos: int, end: int) -> u64
    decreases remaining(pos, end),
{
    if pos >= end {
        acc
    } else {
        blocks_folded::<B>(
            acc ^ B::yields(d.subrange(pos, pos + BLOCK)),
            d,
            pos + BLOCK,
            end,
        )
    }
}

/// Delimiter bitmaps only, no rows drained.
#[inline(always)]
pub fn mask<B: BlockSink>(data: &[u8], start: usize, end: usize, acc: &mut u64)
    requires
        start <= end,
        end + BLOCK <= data@.len() + 1,
    ensures
        *final(acc) == blocks_folded::<B>(*old(acc), data@, start as int, end as int),
{
    let mut a = *acc;
    let mut pos = start;
    assert(data.len() == data@.len());
    while pos < end
        invariant
            data.len() == data@.len(),
            end + BLOCK <= data@.len() + 1,
            blocks_folded::<B>(a, data@, pos as int, end as int) == blocks_folded::<B>(
                *old(acc),
                data@,
                start as int,
                end as int,
            ),
        decreases remaining(pos as int, end as int),
    {
        a = a ^ B::take(slice_subrange(data, pos, pos + BLOCK));
        pos = pos + BLOCK;
    }
    *acc = a;
}

/// What is folded in later might as well be folded in first.
pub proof fn lemma_words_later(acc: u64, v: u64, d: Seq<u8>, pos: int, end: int)
    ensures
        words_folded(acc ^ v, d, pos, end) == words_folded(acc, d, pos, end) ^ v,
    decreases end - pos,
{
    if pos + 8 <= end {
        lemma_xor_swap(acc, v, word_at(d, pos));
        lemma_words_later(acc ^ word_at(d, pos), v, d, pos + 8, end);
    }
}

/// **Every byte of the whole words is touched.** Another byte there changes the sum by the bits in
/// which the two differ, in the byte's place in its word; another byte elsewhere changes nothing;
/// and zeros come to nothing.
pub proof fn law_sweep_feels_every_byte(
    acc: u64,
    d: Seq<u8>,
    pos: int,
    end: int,
    k: int,
    v: u8,
)
    requires
        0 <= pos <= end <= d.len(),
        0 <= k < d.len(),
    ensures
        words_folded(acc, d.update(k, v), pos, end) == if pos <= k < end - (end - pos) % 8 {
            words_folded(acc, d, pos, end) ^ (((d[k] ^ v) as u64) << ((8 * ((k - pos) % 8)) as u64))
        } else {
            words_folded(acc, d, pos, end)
        },
        (forall|i: int| pos <= i < end ==> d[i] == 0) ==> words_folded(acc, d, pos, end) == acc,
    decreases end - pos,
{
    let e = d.update(k, v);
    if pos + 8 <= end {
        let w = word_at(d, pos);
        law_sweep_feels_every_byte(acc ^ w, d, pos + 8, end, k, v);
        if pos <= k < pos + 8 {
            let x = ((d[k] ^ v) as u64) << ((8 * ((k - pos) % 8)) as u64);
            lemma_word_changes(d, pos, k, v);
            lemma_xor_swap(acc, w, x);
            lemma_words_later(acc ^ w, x, e, pos + 8, end);
        } else {
            assert(word_at(e, pos) == w) by {
                assert forall|i: int| 0 <= i < 8 implies #[trigger] byte_or_zero(e, pos + i)
                    == byte_or_zero(d, pos + i) by {}
                assert(byte_or_zero(e, pos + 0) == byte_or_zero(e, pos));
            }
        }
        if forall|i: int| pos <= i < end ==> d[i] == 0 {
            lemma_pack_zero();
            lemma_xor_swap(acc, 0, 0);
        }
    }
}

/// The mask of a block has a bit for each of its bytes, set just where the byte is `needle`.
pub proof fn law_mask_has_the_bits(block: Seq<u8>, needle: u8, i: u64)
    requires
        i < 64,
    ensures
        (mask_of(block, needle) >> i) & 1 == 1 <==> block[i as int] == needle,
{
    law_every_block_has_its_mask(block, needle);
    let m = mask_of(block, needle);
    assert(marks(m, block, needle));
    assert((m >> i) & 1 == 1 <==> block[i as int] == needle);
}

/// What the bitmap modes make of a block: the bits of its `;`, those of its newlines, or both, the
/// second rotated by one so that no bit of the one can hide one of the other in the same place.
pub proof fn law_bitmaps_yield_their_bits(block: Seq<u8>)
    ensures
        Semis::yields(block) == mask_of(block, 0x3B),
        Newlines::yields(block) == mask_of(block, 0x0A),
        Delims::yields(block) == mask_of(block, 0x3B) ^ rotated(mask_of(block, 0x0A), 1),
{
}

/// Blocks are taken in one after the other, 64 bytes each.
pub proof fn law_blocks_are_taken_in_turn<B: BlockSink>(acc: u64, d: Seq<u8>, pos: int, end: int)
    ensures
        pos >= end ==> blocks_folded::<B>(acc, d, pos, end) == acc,
        pos < end ==> blocks_folded::<B>(acc, d, pos, end) == blocks_folded::<B>(
            acc ^ B::yields(d.subrange(pos, pos + 64)),
            d,
            pos + 64,
            end,
        ),
{
}

} // verus!
