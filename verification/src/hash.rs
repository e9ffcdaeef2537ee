//! An FxHash-style hasher. std's default is SipHash, which is far too slow here.

use crate::bytes::byte_or_zero;
use crate::bytes::load_word;
use crate::bytes::word_at;
use crate::rows::remaining;
use crate::swar::finalized;
use crate::swar::mixed;
use std::hash::BuildHasherDefault;
use std::hash::Hasher;
use vstd::prelude::*;

verus! {

const SEED: u64 = 0x51_7c_c1_b7_27_22_0a_95;

pub type FxBuildHasher = BuildHasherDefault<FxHasher>;

#[derive(Clone, Copy)]
pub struct FxHasher {
    hash: u64,
}

/// Adds the whole words of `bytes` from `at` on, and what is left of them, zero-padded, if
/// anything is.
pub open spec fn fx_words(h: u64, bytes: Seq<u8>, at: int) -> u64
    decreases remaining(at, bytes.len() as int),
{
    if at >= bytes.len() {
        h
    } else {
        fx_words(mixed(h, word_at(bytes, at)), bytes, at + 8)
    }
}

/// The state after writing `bytes`. Length matters: without it "ab" and "ab\0" would collide
/// after zero padding.
pub open spec fn fx_written(h: u64, bytes: Seq<u8>) -> u64 {
    mixed(fx_words(h, bytes, 0), bytes.len() as u64)
}

impl Default for FxHasher {
    fn default() -> (h: Self)
        ensures
            h.state() == 0,
    {
        FxHasher { hash: 0 }
    }
}

impl FxHasher {
    /// The state that is hashed into.
    pub closed spec fn state(&self) -> u64 {
        self.hash
    }

    #[inline]
    fn add(&mut self, word: u64)
        ensures
            final(self).hash == mixed(old(self).hash, word),
    {
        let h = self.hash;
        self.hash = (((h << 5) | (h >> 59)) ^ word).wrapping_mul(SEED);
    }
}

impl Hasher for FxHasher {
    #[inline]
    fn write(&mut self, bytes: &[u8])
        ensures
            final(self).state() == fx_written(old(self).state(), bytes@),
    {
        let ghost h = self.hash;
        let ghost d = bytes@;
        let mut at: usize = 0;
        while bytes.len() - at >= 8
            invariant
                d == bytes@,
                at <= bytes.len(),
                fx_words(self.hash, d, at as int) == fx_words(h, d, 0),
            decreases bytes.len() - at,
        {
            self.add(load_word(bytes, at));
            at += 8;
        }
        let rest = bytes.len() - at;
        if rest > 0 {
            let mut buf: [u8; 8] = [0; 8];
            for i in 0..rest
                invariant
                    d == bytes@,
                    at + rest == bytes.len(),
                    rest < 8,
                    forall|j: int|
                        0 <= j < 8 ==> #[trigger] buf@[j] == if j < i {
                            d[at + j]
                        } else {
                            0
                        },
            {
                buf[i] = bytes[at + i];
            }
            assert(word_at(buf@, 0) == word_at(d, at as int)) by {
                assert forall|j: int| 0 <= j < 8 implies #[trigger] byte_or_zero(buf@, j)
                    == byte_or_zero(d, at + j) by {
                    assert(buf@[j] == buf@[j]);
                }
            }
            self.add(load_word(&buf, 0));
            assert(fx_words(self.hash, d, at + 8) == self.hash);
        }
        assert(self.hash == fx_words(h, d, 0));
        self.add(bytes.len() as u64);
    }

    /// Fx pushes entropy toward the high bits, but a hash map picks the bucket from the low
    /// bits. Without this finalizer the table clusters badly.
    #[inline]
    fn finish(&self) -> (r: u64)
        ensures
            r == finalized(self.state()),
    {
        let mut h = self.hash;
        h ^= h >> 32;
        h = h.wrapping_mul(0xd6e8_feb8_6659_fd93);
        h ^= h >> 32;
        h
    }
}

/// The hash of `bytes`.
pub open spec fn fx_hashed(bytes: Seq<u8>) -> u64 {
    finalized(fx_written(0, bytes))
}

/// The same hash as [`FxHasher`], without going through the `Hasher` trait: used by the
/// custom table in [`crate::table`], which indexes on the raw value.
#[inline]
pub fn fx_hash(bytes: &[u8]) -> (r: u64)
    ensures
        r == fx_hashed(bytes@),
{
    let mut h = FxHasher::default();
    h.write(bytes);
    h.finish()
}

proof fn lemma_fx_shifts(h: u64, a: Seq<u8>, b: Seq<u8>, at: int)
    requires
        a.len() == 8,
        0 <= at,
    ensures
        fx_words(h, a + b, at + 8) == fx_words(h, b, at),
    decreases remaining(at, b.len() as int),
{
    assert(word_at(a + b, at + 8) == word_at(b, at));
    if at < b.len() {
        lemma_fx_shifts(mixed(h, word_at(b, at)), a, b, at + 8);
    }
}

/// Bytes are hashed eight at a time, a round for each eight and one for what is left if anything is,
/// then a round for their number, and the avalanche.
pub proof fn law_fx_takes_eight_bytes_a_round(h: u64, a: Seq<u8>, b: Seq<u8>, rest: Seq<u8>)
    requires
        a.len() == 8,
        0 < rest.len() < 8,
    ensures
        fx_words(h, a + b, 0) == fx_words(mixed(h, word_at(a, 0)), b, 0),
        fx_words(h, rest, 0) == mixed(h, word_at(rest, 0)),
        fx_words(h, seq![], 0) == h,
        fx_written(h, b) == mixed(fx_words(h, b, 0), b.len() as u64),
        fx_hashed(b) == finalized(mixed(fx_words(0, b, 0), b.len() as u64)),
{
    assert(word_at(a + b, 0) == word_at(a, 0));
    lemma_fx_shifts(mixed(h, word_at(a, 0)), a, b, 0);
    reveal_with_fuel(fx_words, 2);
}

} // verus!
