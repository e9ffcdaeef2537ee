//! Little-endian words and the bit-level facts about them that the scans rest on.

use vstd::prelude::*;
use vstd::std_specs::bits::axiom_u64_trailing_zeros;
use vstd::std_specs::bits::u64_trailing_zeros;

verus! {

pub const SEMICOLON: u8 = 0x3B;

pub const NEWLINE: u8 = 0x0A;

pub const MINUS: u8 = 0x2D;

pub const DOT: u8 = 0x2E;

pub const DIGIT_0: u8 = 0x30;

pub const DIGIT_9: u8 = 0x39;

/// The byte of `s` at `i`, or zero past either end.
pub open spec fn byte_or_zero(s: Seq<u8>, i: int) -> u8 {
    if 0 <= i < s.len() {
        s[i]
    } else {
        0
    }
}

/// Eight bytes as a little-endian word.
pub open spec fn pack(
    b0: u8,
    b1: u8,
    b2: u8,
    b3: u8,
    b4: u8,
    b5: u8,
    b6: u8,
    b7: u8,
) -> u64 {
    (b0 as u64) | (b1 as u64) << 8 | (b2 as u64) << 16 | (b3 as u64) << 24 | (b4 as u64) << 32 | (
    b5 as u64) << 40 | (b6 as u64) << 48 | (b7 as u64) << 56
}

/// The eight bytes of `s` from `at` on as a little-endian word, zero past the end of `s`.
pub open spec fn word_at(s: Seq<u8>, at: int) -> u64 {
    pack(
        byte_or_zero(s, at),
        byte_or_zero(s, at + 1),
        byte_or_zero(s, at + 2),
        byte_or_zero(s, at + 3),
        byte_or_zero(s, at + 4),
        byte_or_zero(s, at + 5),
        byte_or_zero(s, at + 6),
        byte_or_zero(s, at + 7),
    )
}

/// Byte `i` of a word, counted from the bottom.
pub open spec fn byte_of(word: u64, i: u64) -> u8 {
    #[verifier::truncate]
    ((word >> (8 * i) as u64) as u8)
}

/// `0x80` where `b` is the byte looked for, zero where it is not.
pub open spec fn flag(b: u8, needle: u8) -> u8 {
    if b == needle {
        0x80
    } else {
        0
    }
}

/// [`flag`] for each of a word's bytes.
pub open spec fn byte_flags(word: u64, needle: u8) -> u64 {
    pack(
        flag(byte_of(word, 0), needle),
        flag(byte_of(word, 1), needle),
        flag(byte_of(word, 2), needle),
        flag(byte_of(word, 3), needle),
        flag(byte_of(word, 4), needle),
        flag(byte_of(word, 5), needle),
        flag(byte_of(word, 6), needle),
        flag(byte_of(word, 7), needle),
    )
}

/// The mask that keeps the low `n` bytes of a word.
pub open spec fn low_bytes(n: u64) -> u64 {
    #[verifier::truncate]
    (((1u64 << (8 * n) as u64) - 1) as u64)
}

/// The position of the first `b` in `s` at or after `from`, or the length when there is none.
pub open spec fn first_at(s: Seq<u8>, b: u8, from: int) -> int
    decreases s.len() - from,
{
    if from >= s.len() {
        s.len() as int
    } else if s[from] == b {
        from
    } else {
        first_at(s, b, from + 1)
    }
}

/// `first_at` is the first occurrence: nothing before it matches, and it matches unless it is
/// the end.
pub proof fn lemma_first_at(s: Seq<u8>, b: u8, from: int)
    requires
        0 <= from <= s.len(),
    ensures
        from <= first_at(s, b, from) <= s.len(),
        first_at(s, b, from) < s.len() ==> s[first_at(s, b, from)] == b,
        forall|i: int| from <= i < first_at(s, b, from) ==> s[i] != b,
    decreases s.len() - from,
{
    if from < s.len() && s[from] != b {
        lemma_first_at(s, b, from + 1);
    }
}

/// Whatever has the properties of the first occurrence is it.
pub proof fn lemma_first_at_is(s: Seq<u8>, b: u8, from: int, at: int)
    requires
        0 <= from <= at <= s.len(),
        forall|i: int| from <= i < at ==> s[i] != b,
        at < s.len() ==> s[at] == b,
    ensures
        first_at(s, b, from) == at,
    decreases at - from,
{
    if from < at {
        lemma_first_at_is(s, b, from + 1, at);
    }
}

/// The position of the first `b` at or after `from`, or the length when there is none.
pub fn find_byte(data: &[u8], b: u8, from: usize) -> (at: usize)
    requires
        from <= data@.len(),
    ensures
        at == first_at(data@, b, from as int),
{
    let mut at = from;
    while at < data.len()
        invariant
            from <= at <= data@.len(),
            forall|j: int| from <= j < at ==> data@[j] != b,
        ensures
            at < data@.len() ==> data@[at as int] == b,
        decreases data@.len() - at,
    {
        if data[at] == b {
            break ;
        }
        at += 1;
    }
    proof {
        lemma_first_at_is(data@, b, from as int, at as int);
    }
    at
}

/// Loads the eight bytes at `at` as a little-endian word.
#[inline(always)]
pub fn load_word(data: &[u8], at: usize) -> (w: u64)
    requires
        at + 8 <= data@.len(),
    ensures
        w == word_at(data@, at as int),
{
    (data[at] as u64) | (data[at + 1] as u64) << 8 | (data[at + 2] as u64) << 16 | (data[at + 3]
        as u64) << 24 | (data[at + 4] as u64) << 32 | (data[at + 5] as u64) << 40 | (data[at + 6]
        as u64) << 48 | (data[at + 7] as u64) << 56
}

/// The `N` bytes at `pos`, copied out as an array.
#[inline(always)]
pub fn window<const N: usize>(data: &[u8], pos: usize) -> (w: [u8; N])
    requires
        pos + N <= data@.len(),
    ensures
        w@ == data@.subrange(pos as int, pos + N),
{
    let mut w: [u8; N] = [0; N];
    for i in 0..N
        invariant
            pos + N <= data.len(),
            w@.len() == N,
            forall|j: int| 0 <= j < i ==> w@[j] == data@[pos + j],
    {
        w[i] = data[pos + i];
    }
    assert(w@ =~= data@.subrange(pos as int, pos + N));
    w
}

/// Whether two slices hold the same bytes.
pub fn bytes_eq(a: &[u8], b: &[u8]) -> (r: bool)
    ensures
        r == (a@ == b@),
{
    if a.len() != b.len() {
        return false;
    }
    for i in 0..a.len()
        invariant
            a@.len() == b@.len(),
            forall|j: int| 0 <= j < i ==> a@[j] == b@[j],
    {
        if a[i] != b[i] {
            return false;
        }
    }
    assert(a@ =~= b@);
    true
}

/// Equal words hold equal bytes.
pub proof fn lemma_word_eq(a: Seq<u8>, i: int, b: Seq<u8>, j: int)
    requires
        0 <= i,
        i + 8 <= a.len(),
        0 <= j,
        j + 8 <= b.len(),
    ensures
        word_at(a, i) == word_at(b, j) <==> a.subrange(i, i + 8) == b.subrange(j, j + 8),
{
    lemma_pack(a[i], a[i + 1], a[i + 2], a[i + 3], a[i + 4], a[i + 5], a[i + 6], a[i + 7]);
    lemma_pack(b[j], b[j + 1], b[j + 2], b[j + 3], b[j + 4], b[j + 5], b[j + 6], b[j + 7]);
    let s = a.subrange(i, i + 8);
    let t = b.subrange(j, j + 8);
    if s == t {
        assert forall|k: int| 0 <= k < 8 implies #[trigger] a[i + k] == b[j + k] by {
            assert(s[k] == t[k]);
        }
        assert(a[i + 0] == b[j + 0]);
        assert(a[i + 1] == b[j + 1]);
        assert(a[i + 2] == b[j + 2]);
        assert(a[i + 3] == b[j + 3]);
        assert(a[i + 4] == b[j + 4]);
        assert(a[i + 5] == b[j + 5]);
        assert(a[i + 6] == b[j + 6]);
        assert(a[i + 7] == b[j + 7]);
    }
    if word_at(a, i) == word_at(b, j) {
        assert(s =~= t);
    }
}

/// A lowest set bit found by hand is the one `trailing_zeros` reports.
pub proof fn lemma_trailing_zeros_is(m: u64, t: u64)
    requires
        t < 64,
        (m >> t) & 1 == 1,
        m << ((64 - t) as u64) == 0,
    ensures
        u64_trailing_zeros(m) == t,
{
    axiom_u64_trailing_zeros(m);
    let z = u64_trailing_zeros(m) as u64;
    assert(m != 0 && (z < t ==> (m >> z) & 1 == 0)) by (bit_vector)
        requires
            t < 64,
            (m >> t) & 1 == 1,
            m << ((64 - t) as u64) == 0,
    ;
}

/// The bytes of a packed word are the ones that were packed.
pub proof fn lemma_pack(b0: u8, b1: u8, b2: u8, b3: u8, b4: u8, b5: u8, b6: u8, b7: u8)
    ensures
        ({
            let w = pack(b0, b1, b2, b3, b4, b5, b6, b7);
            &&& byte_of(w, 0) == b0
            &&& byte_of(w, 1) == b1
            &&& byte_of(w, 2) == b2
            &&& byte_of(w, 3) == b3
            &&& byte_of(w, 4) == b4
            &&& byte_of(w, 5) == b5
            &&& byte_of(w, 6) == b6
            &&& byte_of(w, 7) == b7
        }),
{
    assert({
        let w = pack(b0, b1, b2, b3, b4, b5, b6, b7);
        &&& byte_of(w, 0) == b0
        &&& byte_of(w, 1) == b1
        &&& byte_of(w, 2) == b2
        &&& byte_of(w, 3) == b3
        &&& byte_of(w, 4) == b4
        &&& byte_of(w, 5) == b5
        &&& byte_of(w, 6) == b6
        &&& byte_of(w, 7) == b7
    }) by (bit_vector);
}

/// Eight zero bytes are a zero word.
pub proof fn lemma_pack_zero()
    ensures
        pack(0, 0, 0, 0, 0, 0, 0, 0) == 0,
{
    assert(pack(0, 0, 0, 0, 0, 0, 0, 0) == 0) by (bit_vector);
}

/// Masking a packed word keeps its low bytes and zeroes the others.
pub proof fn lemma_pack_low(
    b0: u8,
    b1: u8,
    b2: u8,
    b3: u8,
    b4: u8,
    b5: u8,
    b6: u8,
    b7: u8,
    n: u64,
)
    requires
        n < 8,
    ensures
        pack(b0, b1, b2, b3, b4, b5, b6, b7) & low_bytes(n) == pack(
            if n > 0 { b0 } else { 0 },
            if n > 1 { b1 } else { 0 },
            if n > 2 { b2 } else { 0 },
            if n > 3 { b3 } else { 0 },
            if n > 4 { b4 } else { 0 },
            if n > 5 { b5 } else { 0 },
            if n > 6 { b6 } else { 0 },
            0,
        ),
{
    assert(pack(b0, b1, b2, b3, b4, b5, b6, b7) & low_bytes(n) == pack(
        if n > 0 { b0 } else { 0 },
        if n > 1 { b1 } else { 0 },
        if n > 2 { b2 } else { 0 },
        if n > 3 { b3 } else { 0 },
        if n > 4 { b4 } else { 0 },
        if n > 5 { b5 } else { 0 },
        if n > 6 { b6 } else { 0 },
        0,
    )) by (bit_vector)
        requires
            n < 8,
    ;
}

/// The lowest set bit of a word falls in its first byte that is not zero.
pub proof fn lemma_first_flag(
    f0: u8,
    f1: u8,
    f2: u8,
    f3: u8,
    f4: u8,
    f5: u8,
    f6: u8,
    f7: u8,
    m: u64,
)
    requires
        m == pack(f0, f1, f2, f3, f4, f5, f6, f7),
    ensures
        m == 0 <==> f0 == 0 && f1 == 0 && f2 == 0 && f3 == 0 && f4 == 0 && f5 == 0 && f6 == 0
            && f7 == 0,
        u64_trailing_zeros(m) <= 64,
        m == 0 <==> u64_trailing_zeros(m) == 64,
        m != 0 ==> ({
            let t = u64_trailing_zeros(m);
            let i = t / 8;
            &&& t < 64
            &&& t >> 3 == i
            &&& t & 0x38 == 8 * i
            &&& i > 0 ==> f0 == 0
            &&& i > 1 ==> f1 == 0
            &&& i > 2 ==> f2 == 0
            &&& i > 3 ==> f3 == 0
            &&& i > 4 ==> f4 == 0
            &&& i > 5 ==> f5 == 0
            &&& i > 6 ==> f6 == 0
            &&& i == 0 ==> f0 != 0
            &&& i == 1 ==> f1 != 0
            &&& i == 2 ==> f2 != 0
            &&& i == 3 ==> f3 != 0
            &&& i == 4 ==> f4 != 0
            &&& i == 5 ==> f5 != 0
            &&& i == 6 ==> f6 != 0
            &&& i == 7 ==> f7 != 0
        }),
{
    axiom_u64_trailing_zeros(m);
    lemma_pack(f0, f1, f2, f3, f4, f5, f6, f7);
    lemma_pack_zero();
    lemma_pack(0, 0, 0, 0, 0, 0, 0, 0);
    if m != 0 {
        let t32 = u64_trailing_zeros(m);
        let t = t32 as u64;
        assert(t32 >> 3 == t32 / 8 && t32 & 0x38 == 8 * (t32 / 8)) by (bit_vector)
            requires
                t32 < 64,
        ;
        assert({
            &&& t / 8 > 0 ==> f0 == 0
            &&& t / 8 > 1 ==> f1 == 0
            &&& t / 8 > 2 ==> f2 == 0
            &&& t / 8 > 3 ==> f3 == 0
            &&& t / 8 > 4 ==> f4 == 0
            &&& t / 8 > 5 ==> f5 == 0
            &&& t / 8 > 6 ==> f6 == 0
            &&& t / 8 == 0 ==> f0 != 0
            &&& t / 8 == 1 ==> f1 != 0
            &&& t / 8 == 2 ==> f2 != 0
            &&& t / 8 == 3 ==> f3 != 0
            &&& t / 8 == 4 ==> f4 != 0
            &&& t / 8 == 5 ==> f5 != 0
            &&& t / 8 == 6 ==> f6 != 0
            &&& t / 8 == 7 ==> f7 != 0
        }) by (bit_vector)
            requires
                m == pack(f0, f1, f2, f3, f4, f5, f6, f7),
                t < 64,
                (m >> t) & 1 == 1,
                m << ((64 - t) as u64) == 0,
        ;
    }
}

/// A word has its eight bytes from the bottom up, and zeros for those past the end.
pub proof fn law_word_has_its_bytes(s: Seq<u8>, at: int, i: u64)
    requires
        i < 8,
    ensures
        #[verifier::truncate]
        ((word_at(s, at) >> (8 * i) as u64) as u8) == if 0 <= at + i < s.len() {
            s[at + i]
        } else {
            0
        },
{
    lemma_pack(
        byte_or_zero(s, at),
        byte_or_zero(s, at + 1),
        byte_or_zero(s, at + 2),
        byte_or_zero(s, at + 3),
        byte_or_zero(s, at + 4),
        byte_or_zero(s, at + 5),
        byte_or_zero(s, at + 6),
        byte_or_zero(s, at + 7),
    );
    assert(byte_of(word_at(s, at), i) == byte_or_zero(s, at + i));
}

/// Another byte in a word changes the word by just the bits in which the two differ, in that place.
pub proof fn lemma_word_changes(s: Seq<u8>, at: int, k: int, v: u8)
    requires
        0 <= at <= k < at + 8,
        k < s.len(),
    ensures
        word_at(s.update(k, v), at) == word_at(s, at) ^ (((s[k] ^ v) as u64) << ((8 * (k - at))
            as u64)),
{
    let t = s.update(k, v);
    let (a, b, c, d) = (
        byte_or_zero(s, at),
        byte_or_zero(s, at + 1),
        byte_or_zero(s, at + 2),
        byte_or_zero(s, at + 3),
    );
    let (e, f, g, h) = (
        byte_or_zero(s, at + 4),
        byte_or_zero(s, at + 5),
        byte_or_zero(s, at + 6),
        byte_or_zero(s, at + 7),
    );
    assert({
        let w = pack(a, b, c, d, e, f, g, h);
        &&& pack(v, b, c, d, e, f, g, h) == w ^ (((a ^ v) as u64) << 0u64)
        &&& pack(a, v, c, d, e, f, g, h) == w ^ (((b ^ v) as u64) << 8u64)
        &&& pack(a, b, v, d, e, f, g, h) == w ^ (((c ^ v) as u64) << 16u64)
        &&& pack(a, b, c, v, e, f, g, h) == w ^ (((d ^ v) as u64) << 24u64)
        &&& pack(a, b, c, d, v, f, g, h) == w ^ (((e ^ v) as u64) << 32u64)
        &&& pack(a, b, c, d, e, v, g, h) == w ^ (((f ^ v) as u64) << 40u64)
        &&& pack(a, b, c, d, e, f, v, h) == w ^ (((g ^ v) as u64) << 48u64)
        &&& pack(a, b, c, d, e, f, g, v) == w ^ (((h ^ v) as u64) << 56u64)
    }) by (bit_vector);
    assert forall|i: int| 0 <= i < 8 implies #[trigger] byte_or_zero(t, at + i) == if at + i == k {
        v
    } else {
        byte_or_zero(s, at + i)
    } by {}
    assert(byte_or_zero(t, at + 0) == byte_or_zero(t, at));
}

} // verus!
