//! Open-addressed hash table specialised for this workload.
//!
//! Keys are not copied: an entry stores the offset and length of the name within the
//! input, so the table holds no heap allocations beyond its own slot array.

use crate::bytes::bytes_eq;
use crate::bytes::lemma_word_eq;
use crate::bytes::load_word;
use crate::output::pushed;
use crate::output::single;
use crate::output::Stats;
use crate::output::Summary;
use crate::probing::agrees;
use crate::probing::along;
use crate::probing::compact;
use crate::probing::held;
use crate::probing::is_len;
use crate::probing::is_name;
use crate::probing::landed;
use crate::probing::landing;
use crate::probing::lemma_blank;
use crate::probing::lemma_held;
use crate::probing::lemma_landed;
use crate::probing::lemma_landing;
use crate::probing::lemma_not_exhausted;
use crate::probing::lemma_probe;
use crate::probing::lemma_roomy;
use crate::probing::live;
use crate::probing::passed;
use crate::probing::roomy;
use crate::probing::sound;
use crate::probing::Cell;
use crate::probing::Cells;
use crate::rows::noted;
use crate::rows::Tally;
use vstd::arithmetic::power2::pow2;
use vstd::prelude::*;
use vstd::slice::slice_subrange;

verus! {

/// 28 bytes of payload, padded to 32, so exactly two entries share a 64-byte cache line.
#[derive(Clone, Copy)]
pub struct Entry {
    pub sum: i64,
    pub offset: u64,
    pub count: u32,
    /// Doubles as the occupancy flag: names are at least 1 byte, so 0 means empty.
    pub len: u32,
    pub min: i16,
    pub max: i16,
}

impl Default for Entry {
    fn default() -> (e: Self)
        ensures
            e.len == 0,
            e.count == 0,
            e.sum == 0,
            e.offset == 0,
            e.min == 0,
            e.max == 0,
    {
        Entry { sum: 0, offset: 0, count: 0, len: 0, min: 0, max: 0 }
    }
}

impl Entry {
    /// What the entry has accumulated.
    pub open spec fn stats(self) -> Summary {
        Summary {
            min: self.min as int,
            max: self.max as int,
            sum: self.sum as int,
            count: self.count as nat,
        }
    }

    /// The slot that the entry is, over the input its name lies in.
    pub open spec fn cell(self, data: Seq<u8>, hash: u64) -> Option<Cell> {
        if self.len == 0 {
            None
        } else {
            Some(
                Cell {
                    name: data.subrange(self.offset as int, self.offset + self.len),
                    hash,
                    stats: self.stats(),
                },
            )
        }
    }

    /// Accumulates one measurement.
    #[inline(always)]
    fn note(&mut self, value: i16)
        requires
            i64::MIN <= old(self).sum + value <= i64::MAX,
            old(self).count < u32::MAX,
        ensures
            final(self).stats() == pushed(old(self).stats(), value as int),
            final(self).offset == old(self).offset,
            final(self).len == old(self).len,
    {
        self.sum += value as i64;
        self.count += 1;
        if value < self.min {
            self.min = value;
        }
        if value > self.max {
            self.max = value;
        }
    }
}

pub struct Table {
    entries: Vec<Entry>,
    mask: usize,
    used: usize,
    /// The hash that each slot's name was stored under.
    hashes: Ghost<Seq<u64>>,
}

/// `data[a..a + len] == data[b..b + len]`, compared in 8-byte words.
///
/// Never reads outside either key: the last word is aligned to the *end* of the key rather
/// than masked, so it re-compares a few bytes instead of reaching past them. That keeps the
/// function usable everywhere `upsert` is, including the final line of the file.
#[inline(always)]
pub fn keys_eq(data: &[u8], a: usize, b: usize, len: usize) -> (r: bool)
    requires
        a + len <= data@.len(),
        b + len <= data@.len(),
    ensures
        r == (data@.subrange(a as int, a + len) == data@.subrange(b as int, b + len)),
{
    assert(data.len() == data@.len());
    let ghost d = data@;
    let ghost s = d.subrange(a as int, a + len);
    let ghost t = d.subrange(b as int, b + len);
    if len < 8 {
        // No room for a word; at most 7 iterations, and no call.
        for i in 0..len
            invariant
                data.len() == d.len(),
                d == data@,
                a + len <= d.len(),
                b + len <= d.len(),
                s == d.subrange(a as int, a + len),
                t == d.subrange(b as int, b + len),
                forall|j: int| 0 <= j < i ==> #[trigger] s[j] == t[j],
        {
            if data[a + i] != data[b + i] {
                assert(s[i as int] != t[i as int]);
                return false;
            }
        }
        assert(s =~= t);
        return true;
    }
    let mut i: usize = 0;
    while len - i > 8
        invariant
            data.len() == d.len(),
            d == data@,
            8 <= len,
            i <= len,
            a + len <= d.len(),
            b + len <= d.len(),
            s == d.subrange(a as int, a + len),
            t == d.subrange(b as int, b + len),
            forall|j: int| 0 <= j < i ==> #[trigger] s[j] == t[j],
        decreases len - i,
    {
        proof {
            lemma_word_eq(d, a + i, d, b + i);
            lemma_same_words(s, t, d, a as int, b as int, i as int);
        }
        if load_word(data, a + i) != load_word(data, b + i) {
            return false;
        }
        i += 8;
    }
    proof {
        lemma_word_eq(d, a + len - 8, d, b + len - 8);
        lemma_same_words(s, t, d, a as int, b as int, len - 8);
    }
    let r = load_word(data, a + (len - 8)) == load_word(data, b + (len - 8));
    proof {
        if r {
            assert(s =~= t);
        }
    }
    r
}

/// Eight bytes of two keys and of the input they lie in.
proof fn lemma_same_words(s: Seq<u8>, t: Seq<u8>, d: Seq<u8>, a: int, b: int, i: int)
    requires
        0 <= a,
        0 <= b,
        0 <= i,
        i + 8 <= s.len(),
        s.len() == t.len(),
        a + s.len() <= d.len(),
        b + t.len() <= d.len(),
        s == d.subrange(a, a + s.len()),
        t == d.subrange(b, b + t.len()),
    ensures
        d.subrange(a + i, a + i + 8) == d.subrange(b + i, b + i + 8) ==> forall|j: int|
            i <= j < i + 8 ==> #[trigger] s[j] == t[j],
        d.subrange(a + i, a + i + 8) != d.subrange(b + i, b + i + 8) ==> s != t,
{
    let x = d.subrange(a + i, a + i + 8);
    let y = d.subrange(b + i, b + i + 8);
    if x == y {
        assert forall|j: int| i <= j < i + 8 implies #[trigger] s[j] == t[j] by {
            assert(x[j - i] == y[j - i]);
        }
    } else if s == t {
        assert forall|j: int| 0 <= j < 8 implies x[j] == y[j] by {
            assert(s[i + j] == t[i + j]);
        }
        assert(x =~= y);
    }
}

/// Stepping on from slot `i` and masking is stepping round the ring.
pub proof fn lemma_step(i: usize, cap: usize, mask: usize)
    requires
        i < cap,
        mask + 1 == cap,
        cap & mask == 0,
    ensures
        ((i + 1) as usize) & mask == if i < mask {
            i + 1
        } else {
            0
        },
{
    if i < mask {
        let n = (i + 1) as usize;
        assert(n & mask == n) by (bit_vector)
            requires
                n <= mask,
                cap == mask + 1,
                cap & mask == 0,
        ;
    }
}

/// Masking lands within the table.
pub proof fn lemma_masked_below(h: usize, mask: usize)
    ensures
        h & mask <= mask,
{
    assert(h & mask <= mask) by (bit_vector);
}

/// A capacity that is a power of two.
pub proof fn lemma_capacity(bits: u32)
    requires
        bits < usize::BITS,
    ensures
        1usize << bits == pow2(bits as nat),
        1usize << bits >= 1,
        (1usize << bits) & ((1usize << bits) - 1) as usize == 0,
{
    vstd::bits::lemma_usize_pow2_no_overflow(bits as nat);
    vstd::bits::lemma_usize_shl_is_mul(1, bits as usize);
    let cap = 1usize << bits;
    let mask = (cap - 1) as usize;
    assert(cap & mask == 0) by (bit_vector)
        requires
            cap == 1usize << bits,
            mask == cap - 1,
            cap >= 1,
    ;
}

impl Table {
    /// How many slots there are.
    pub closed spec fn capacity(&self) -> nat {
        self.entries@.len()
    }

    /// The slot that a hash picks.
    pub closed spec fn home(&self) -> spec_fn(u64) -> int {
        let mask = self.mask;
        |h: u64| ((h as usize) & mask) as int
    }

    /// A slot is one of the table's.
    pub proof fn lemma_home(&self, data: Seq<u8>, hash: u64)
        requires
            self.wf(data),
        ensures
            0 <= (self.home())(hash) < self.capacity(),
    {
        let h = hash as usize;
        let mask = self.mask;
        assert(h & mask <= mask) by (bit_vector);
    }

    /// The slots, over the input that the names lie in.
    pub closed spec fn cells(&self, data: Seq<u8>) -> Cells {
        Seq::new(
            self.entries@.len(),
            |i: int| self.entries@[i].cell(data, self.hashes@[i]),
        )
    }

    /// What the table has accumulated, over the input that the names lie in.
    pub open spec fn tally(&self, data: Seq<u8>) -> Tally {
        held(self.cells(data), self.capacity() as int)
    }

    /// If `name` is held, it was stored under `hash`.
    pub open spec fn agrees(&self, data: Seq<u8>, name: Seq<u8>, hash: u64) -> bool {
        agrees(self.cells(data), name, hash)
    }

    /// The table is sound over the input `data`: its names lie in it, are distinct, can be
    /// reached by probing, and leave at least one slot empty so that probing ends.
    pub closed spec fn wf(&self, data: Seq<u8>) -> bool {
        &&& self.mask + 1 == self.entries@.len()
        &&& self.entries@.len() <= usize::MAX
        &&& (self.mask + 1) as usize & self.mask == 0
        &&& self.hashes@.len() == self.entries@.len()
        &&& self.used == live(self.cells(data), self.entries@.len() as int)
        &&& self.used < self.entries@.len()
        &&& sound(self.cells(data), self.home())
        &&& forall|i: int|
            0 <= i < self.entries@.len() && (#[trigger] self.entries@[i]).len != 0
                ==> self.entries@[i].offset + self.entries@[i].len <= data.len()
    }

    /// Allocates `2^bits` slots. Allocate once per thread and reuse across chunks;
    /// re-zeroing this per chunk would cost more than the parsing.
    pub fn new(bits: u32) -> (t: Self)
        requires
            bits < usize::BITS,
        ensures
            t.capacity() == pow2(bits as nat),
            forall|data: Seq<u8>| #[trigger] t.wf(data) && t.tally(data) == Map::<
                Seq<u8>,
                Summary,
            >::empty(),
            forall|data: Seq<u8>, name: Seq<u8>, hash: u64| t.agrees(data, name, hash),
    {
        proof {
            lemma_capacity(bits);
        }
        let cap: usize = 1usize << bits;
        let blank = Entry::default();
        let t = Table {
            entries: vec![blank; cap],
            mask: cap - 1,
            used: 0,
            hashes: Ghost(Seq::new(cap as nat, |i: int| 0u64)),
        };
        assert forall|data: Seq<u8>| #[trigger] t.wf(data) && t.tally(data) == Map::<
            Seq<u8>,
            Summary,
        >::empty() by {
            assert forall|i: int| 0 <= i < cap implies #[trigger] t.cells(data)[i] is None by {
                assert(t.entries@[i] == blank);
            }
            lemma_blank(t.cells(data), cap as int);
            assert forall|h: u64| 0 <= #[trigger] (t.home())(h) < cap by {
                lemma_masked_below(h as usize, t.mask);
            }
            assert forall|i: int|
                0 <= i < t.entries@.len() && (#[trigger] t.entries@[i]).len
                    != 0 implies t.entries@[i].offset + t.entries@[i].len <= data.len() by {
                assert(t.cells(data)[i] is None);
            }
        }
        assert forall|data: Seq<u8>, name: Seq<u8>, hash: u64| t.agrees(data, name, hash) by {
            assert forall|i: int| 0 <= i < cap implies #[trigger] t.cells(data)[i] is None by {
                assert(t.entries@[i] == blank);
            }
        }
        t
    }

    /// Accumulates one measurement. `hash` must be derived from `data[off..off + len]`.
    ///
    /// A hash match is never treated as a key match: the full name is compared on every
    /// probe, so distinct stations that collide stay distinct.
    #[inline]
    pub fn upsert(&mut self, data: &[u8], off: usize, len: usize, hash: u64, value: i16)
        requires
            old(self).accepts(data@, off, len, hash, value),
        ensures
            final(self).upserted(*old(self), data@, off, len, hash, value),
    {
        self.upsert_impl::<false>(data, off, len, hash, value)
    }

    /// [`Table::upsert`] with the key comparison done inline in 8-byte words.
    ///
    /// The slice comparison in `upsert` costs a branch, a call and a length dispatch on every
    /// single row. This compares the same bytes with straight-line word loads. Behaviour is
    /// identical; only the code generation differs.
    #[inline]
    pub fn upsert_wide_cmp(&mut self, data: &[u8], off: usize, len: usize, hash: u64, value: i16)
        requires
            old(self).accepts(data@, off, len, hash, value),
        ensures
            final(self).upserted(*old(self), data@, off, len, hash, value),
    {
        self.upsert_impl::<true>(data, off, len, hash, value)
    }

    /// A measurement that [`Table::upsert`] can take: its name lies in the input, its hash is
    /// the one the name is held under, and there is room for it.
    pub open spec fn accepts(
        &self,
        data: Seq<u8>,
        off: usize,
        len: usize,
        hash: u64,
        value: i16,
    ) -> bool {
        let name = data.subrange(off as int, off + len);
        let m = self.tally(data);
        &&& self.wf(data)
        &&& 0 < len <= u32::MAX
        &&& off + len <= data.len()
        &&& self.agrees(data, name, hash)
        &&& if m.contains_key(name) {
            m[name].count < u32::MAX && i64::MIN <= m[name].sum + value <= i64::MAX
        } else {
            m.len() + 1 < self.capacity()
        }
    }

    /// What [`Table::upsert`] does: the measurement is in the tally, and the name is held
    /// under its hash.
    pub open spec fn upserted(
        &self,
        before: Table,
        data: Seq<u8>,
        off: usize,
        len: usize,
        hash: u64,
        value: i16,
    ) -> bool {
        let name = data.subrange(off as int, off + len);
        &&& self.wf(data)
        &&& self.capacity() == before.capacity()
        &&& self.tally(data) == noted(before.tally(data), name, single(value as int))
        &&& forall|n: Seq<u8>, h: u64| #[trigger]
            self.agrees(data, n, h) == if n == name {
                h == hash
            } else {
                before.agrees(data, n, h)
            }
    }

    /// **Diagnostic only: this is not a correct upsert.**
    ///
    /// Treats a length match as a key match, skipping the comparison entirely. Used by the
    /// ablation modes to separate the cost of reaching the slot from the cost of comparing the
    /// key, which lives at a scattered offset in the input rather than in the entry. Any
    /// two same-length stations that collide will be merged, so never use this for output.
    #[inline]
    pub fn upsert_no_key_compare(
        &mut self,
        data: &[u8],
        off: usize,
        len: usize,
        hash: u64,
        value: i16,
    )
        requires
            old(self).wf(data@),
            0 < len <= u32::MAX,
            off + len <= data@.len(),
            old(self).agrees(data@, data@.subrange(off as int, off + len), hash),
            ({
                let cells = old(self).cells(data@);
                match cells[landing(cells, (old(self).home())(hash), is_len(len as nat))] {
                    Some(c) => c.stats.count < u32::MAX && i64::MIN <= c.stats.sum + value
                        <= i64::MAX,
                    None => old(self).tally(data@).len() + 1 < old(self).capacity(),
                }
            }),
        ensures
            final(self).wf(data@),
            final(self).home() == old(self).home(),
            ({
                let cells = old(self).cells(data@);
                final(self).cells(data@) == landed(
                    cells,
                    landing(cells, (old(self).home())(hash), is_len(len as nat)),
                    data@.subrange(off as int, off + len),
                    hash,
                    value as int,
                )
            }),
            forall|n: Seq<u8>, h: u64|
                (n != data@.subrange(off as int, off + len) || h == hash) && old(self).agrees(
                    data@,
                    n,
                    h,
                ) ==> #[trigger] final(self).agrees(data@, n, h),
    {
        let ghost d = data@;
        let ghost name = d.subrange(off as int, off + len);
        let ghost cells = self.cells(d);
        let ghost cap = self.entries@.len() as int;
        let ghost home = self.home();
        let ghost ok = is_len(len as nat);
        let ghost mut k: int = 0;
        assert(data.len() == d.len());
        proof {
            lemma_masked_below(hash as usize, self.mask);
            lemma_held(cells, cap);
            lemma_roomy(cells);
        }
        let mut idx: usize = (hash as usize) & self.mask;
        loop
            invariant_except_break
                *self == *old(self),
                passed(cells, home(hash), ok, k),
            invariant
                d == data@,
                old(self).wf(d),
                cells == old(self).cells(d),
                home == old(self).home(),
                cap == old(self).entries@.len(),
                cap == self.entries@.len(),
                ok == is_len(len as nat),
                name == d.subrange(off as int, off + len),
                0 < len <= u32::MAX,
                off + len <= d.len() <= usize::MAX,
                old(self).agrees(d, name, hash),
                roomy(cells),
                held(cells, cap) == old(self).tally(d),
                held(cells, cap).len() == old(self).used,
                match cells[landing(cells, home(hash), ok)] {
                    Some(c) => c.stats.count < u32::MAX && i64::MIN <= c.stats.sum + value
                        <= i64::MAX,
                    None => old(self).tally(d).len() + 1 < cap,
                },
                0 <= k < cap,
                0 <= home(hash) < cap,
                idx == along(home(hash), k, cap),
            ensures
                passed(cells, home(hash), ok, k),
                ok(cells[idx as int]),
                self.mask == old(self).mask,
                self.hashes@.len() == cap,
                forall|i: int|
                    0 <= i < cap && i != idx ==> #[trigger] self.entries@[i] == old(
                        self,
                    ).entries@[i] && self.hashes@[i] == old(self).hashes@[i],
                self.used == old(self).used + if cells[idx as int] is None {
                    1int
                } else {
                    0
                },
                self.entries@[idx as int].len != 0,
                self.entries@[idx as int].offset + self.entries@[idx as int].len <= d.len(),
                self.cells(d)[idx as int] == landed(
                    cells,
                    idx as int,
                    name,
                    hash,
                    value as int,
                )[idx as int],
            decreases cap - k,
        {
            let e = self.entries[idx];
            assert(cells[idx as int] == old(self).entries@[idx as int].cell(
                d,
                old(self).hashes@[idx as int],
            ));
            if e.len == 0 {
                proof {
                    lemma_landing(cells, home(hash), ok, k);
                    self.hashes@ = self.hashes@.update(idx as int, hash);
                }
                self.entries[idx] = Entry {
                    sum: value as i64,
                    offset: off as u64,
                    count: 1,
                    len: len as u32,
                    min: value,
                    max: value,
                };
                self.used += 1;
                break ;
            }
            if e.len as usize == len {
                proof {
                    lemma_landing(cells, home(hash), ok, k);
                }
                self.entries[idx].note(value);
                break ;
            }
            proof {
                assert(!ok(cells[along(home(hash), k, cap)]));
                lemma_not_exhausted(cells, home(hash), ok, k);
                lemma_step(idx, self.entries@.len() as usize, self.mask);
                k = k + 1;
            }
            idx = (idx + 1) & self.mask;
        }
        proof {
            let after = landed(cells, idx as int, name, hash, value as int);
            lemma_landing(cells, home(hash), ok, k);
            assert(self.cells(d) =~= after);
            assert(passed(cells, home(hash), is_name(name), k));
            lemma_landed(cells, home, name, hash, value as int, k);
            assert(forall|i: int|
                0 <= i < cap && (#[trigger] self.entries@[i]).len != 0 && i != idx
                    ==> old(self).entries@[i].len != 0);
        }
    }

    #[inline(always)]
    fn upsert_impl<const WIDE_CMP: bool>(
        &mut self,
        data: &[u8],
        off: usize,
        len: usize,
        hash: u64,
        value: i16,
    )
        requires
            old(self).accepts(data@, off, len, hash, value),
        ensures
            final(self).upserted(*old(self), data@, off, len, hash, value),
    {
        let ghost d = data@;
        let ghost name = d.subrange(off as int, off + len);
        let ghost cells = self.cells(d);
        let ghost cap = self.entries@.len() as int;
        let ghost home = self.home();
        let ghost ok = is_name(name);
        let ghost mut k: int = 0;
        assert(data.len() == d.len());
        proof {
            lemma_masked_below(hash as usize, self.mask);
            lemma_held(cells, cap);
            lemma_roomy(cells);
        }
        let mut idx: usize = (hash as usize) & self.mask;
        loop
            invariant_except_break
                *self == *old(self),
                passed(cells, home(hash), ok, k),
            invariant
                d == data@,
                old(self).accepts(d, off, len, hash, value),
                cells == old(self).cells(d),
                home == old(self).home(),
                cap == old(self).entries@.len(),
                cap == self.entries@.len(),
                ok == is_name(name),
                name == d.subrange(off as int, off + len),
                0 < len <= u32::MAX,
                off + len <= d.len() <= usize::MAX,
                roomy(cells),
                held(cells, cap).len() == old(self).used,
                0 <= k < cap,
                0 <= home(hash) < cap,
                idx == along(home(hash), k, cap),
            ensures
                passed(cells, home(hash), ok, k),
                ok(cells[idx as int]),
                self.mask == old(self).mask,
                self.hashes@.len() == cap,
                forall|i: int|
                    0 <= i < cap && i != idx ==> #[trigger] self.entries@[i] == old(
                        self,
                    ).entries@[i] && self.hashes@[i] == old(self).hashes@[i],
                self.used == old(self).used + if cells[idx as int] is None {
                    1int
                } else {
                    0
                },
                self.entries@[idx as int].len != 0,
                self.entries@[idx as int].offset + self.entries@[idx as int].len <= d.len(),
                self.cells(d)[idx as int] == landed(
                    cells,
                    idx as int,
                    name,
                    hash,
                    value as int,
                )[idx as int],
            decreases cap - k,
        {
            let e = self.entries[idx];
            assert(cells[idx as int] == old(self).entries@[idx as int].cell(
                d,
                old(self).hashes@[idx as int],
            ));
            if e.len == 0 {
                proof {
                    lemma_probe(cells, home, name, hash, k);
                    self.hashes@ = self.hashes@.update(idx as int, hash);
                }
                // At least one slot stays empty, so probing always ends.
                self.entries[idx] = Entry {
                    sum: value as i64,
                    offset: off as u64,
                    count: 1,
                    len: len as u32,
                    min: value,
                    max: value,
                };
                self.used += 1;
                break ;
            }
            let ghost other = d.subrange(e.offset as int, e.offset + e.len);
            assert(e.len != 0 ==> e.offset + e.len <= d.len());
            if e.len as usize == len {
                let start: usize = e.offset as usize;
                let hit = if WIDE_CMP {
                    keys_eq(data, start, off, len)
                } else {
                    bytes_eq(
                        slice_subrange(data, start, start + len),
                        slice_subrange(data, off, off + len),
                    )
                };
                if hit {
                    proof {
                        lemma_probe(cells, home, name, hash, k);
                    }
                    self.entries[idx].note(value);
                    break ;
                }
            }
            proof {
                assert(other != name) by {
                    assert(other.len() == e.len && name.len() == len);
                }
                assert(!ok(cells[along(home(hash), k, cap)]));
                lemma_not_exhausted(cells, home(hash), ok, k);
                lemma_step(idx, self.entries@.len() as usize, self.mask);
                k = k + 1;
            }
            idx = (idx + 1) & self.mask;
        }
        proof {
            let after = landed(cells, idx as int, name, hash, value as int);
            assert(self.cells(d) =~= after);
            lemma_probe(cells, home, name, hash, k);
            lemma_landed(cells, home, name, hash, value as int, k);
            assert(forall|i: int|
                0 <= i < cap && (#[trigger] self.entries@[i]).len != 0 && i != idx
                    ==> old(self).entries@[i].len != 0);
        }
    }

    /// How often a name has been counted, if it is held. `hash` must be derived from
    /// `data[off..off + len]`.
    pub fn count_of(&self, data: &[u8], off: usize, len: usize, hash: u64) -> (r: Option<u32>)
        requires
            self.wf(data@),
            0 < len <= u32::MAX,
            off + len <= data@.len(),
            self.agrees(data@, data@.subrange(off as int, off + len), hash),
        ensures
            ({
                let name = data@.subrange(off as int, off + len);
                match r {
                    Some(count) => self.tally(data@).contains_key(name) && self.tally(
                        data@,
                    )[name].count == count,
                    None => !self.tally(data@).contains_key(name),
                }
            }),
    {
        let ghost d = data@;
        let ghost name = d.subrange(off as int, off + len);
        let ghost cells = self.cells(d);
        let ghost cap = self.entries@.len() as int;
        let ghost home = self.home();
        let ghost ok = is_name(name);
        let ghost mut k: int = 0;
        assert(data.len() == d.len());
        proof {
            lemma_masked_below(hash as usize, self.mask);
            lemma_held(cells, cap);
            lemma_roomy(cells);
        }
        let mut idx: usize = (hash as usize) & self.mask;
        loop
            invariant
                d == data@,
                self.wf(d),
                cells == self.cells(d),
                home == self.home(),
                cap == self.entries@.len(),
                ok == is_name(name),
                name == d.subrange(off as int, off + len),
                0 < len <= u32::MAX,
                off + len <= d.len() <= usize::MAX,
                self.agrees(d, name, hash),
                roomy(cells),
                0 <= k < cap,
                0 <= home(hash) < cap,
                idx == along(home(hash), k, cap),
                passed(cells, home(hash), ok, k),
            decreases cap - k,
        {
            let e = self.entries[idx];
            assert(cells[idx as int] == self.entries@[idx as int].cell(
                d,
                self.hashes@[idx as int],
            ));
            if e.len == 0 {
                proof {
                    lemma_probe(cells, home, name, hash, k);
                }
                return None;
            }
            let ghost other = d.subrange(e.offset as int, e.offset + e.len);
            assert(e.len != 0 ==> e.offset + e.len <= d.len());
            if e.len as usize == len && keys_eq(data, e.offset as usize, off, len) {
                proof {
                    lemma_probe(cells, home, name, hash, k);
                }
                return Some(e.count);
            }
            proof {
                assert(other != name) by {
                    assert(other.len() == e.len && name.len() == len);
                }
                assert(!ok(cells[along(home(hash), k, cap)]));
                lemma_not_exhausted(cells, home(hash), ok, k);
                lemma_step(idx, self.entries@.len() as usize, self.mask);
                k = k + 1;
            }
            idx = (idx + 1) & self.mask;
        }
    }

    /// What the entry holds that [`Table::upsert_no_key_compare`] would add to, if any.
    pub fn length_match(&self, data: &[u8], len: usize, hash: u64) -> (r: Option<Stats>)
        requires
            self.wf(data@),
            0 < len <= u32::MAX,
        ensures
            ({
                let cells = self.cells(data@);
                match cells[landing(cells, (self.home())(hash), is_len(len as nat))] {
                    Some(c) => r is Some && r->0@ == c.stats,
                    None => r is None,
                }
            }),
    {
        let ghost d = data@;
        let ghost cells = self.cells(d);
        let ghost cap = self.entries@.len() as int;
        let ghost home = self.home();
        let ghost ok = is_len(len as nat);
        let ghost mut k: int = 0;
        proof {
            lemma_masked_below(hash as usize, self.mask);
            lemma_held(cells, cap);
            lemma_roomy(cells);
        }
        let mut idx: usize = (hash as usize) & self.mask;
        while self.entries[idx].len != 0 && self.entries[idx].len as usize != len
            invariant
                self.wf(d),
                cells == self.cells(d),
                home == self.home(),
                cap == self.entries@.len(),
                ok == is_len(len as nat),
                0 < len <= u32::MAX,
                roomy(cells),
                0 <= k < cap,
                0 <= home(hash) < cap,
                idx == along(home(hash), k, cap),
                passed(cells, home(hash), ok, k),
            decreases cap - k,
        {
            proof {
                assert(cells[idx as int] == self.entries@[idx as int].cell(
                    d,
                    self.hashes@[idx as int],
                ));
                assert(!ok(cells[along(home(hash), k, cap)]));
                lemma_not_exhausted(cells, home(hash), ok, k);
                lemma_step(idx, self.entries@.len() as usize, self.mask);
                k = k + 1;
            }
            idx = (idx + 1) & self.mask;
        }
        let e = self.entries[idx];
        proof {
            assert(cells[idx as int] == e.cell(d, self.hashes@[idx as int]));
            lemma_landing(cells, home(hash), ok, k);
        }
        if e.len == 0 {
            None
        } else {
            Some(Stats { min: e.min, max: e.max, sum: e.sum, count: e.count })
        }
    }

    /// The names and what they have accumulated, in slot order.
    pub fn iter<'a>(&'a self, data: &'a [u8]) -> (v: Vec<(&'a [u8], Stats)>)
        requires
            self.wf(data@),
        ensures
            v@.len() == compact(self.cells(data@), self.capacity() as int).len(),
            forall|i: int|
                #![trigger v@[i]]
                0 <= i < v@.len() ==> {
                    let c = compact(self.cells(data@), self.capacity() as int)[i];
                    v@[i].0@ == c.name && v@[i].1@ == c.stats
                },
    {
        assert(data.len() == data@.len());
        let mut v: Vec<(&'a [u8], Stats)> = Vec::new();
        for i in 0..self.entries.len()
            invariant
                self.wf(data@),
                data.len() == data@.len(),
                v@.len() == compact(self.cells(data@), i as int).len(),
                forall|j: int|
                    #![trigger v@[j]]
                    0 <= j < v@.len() ==> {
                        let c = compact(self.cells(data@), i as int)[j];
                        v@[j].0@ == c.name && v@[j].1@ == c.stats
                    },
        {
            let e = self.entries[i];
            assert(self.cells(data@)[i as int] == e.cell(data@, self.hashes@[i as int]));
            if e.len != 0 {
                let start: usize = e.offset as usize;
                v.push(
                    (
                        slice_subrange(data, start, start + e.len as usize),
                        Stats { min: e.min, max: e.max, sum: e.sum, count: e.count },
                    ),
                );
            }
        }
        v
    }

    pub fn len(&self) -> (n: usize)
        ensures
            forall|data: Seq<u8>| #[trigger] self.wf(data) ==> n == self.tally(data).len(),
    {
        assert forall|data: Seq<u8>| #[trigger] self.wf(data) implies self.used == self.tally(
            data,
        ).len() by {
            lemma_held(self.cells(data), self.entries@.len() as int);
        }
        self.used
    }

    /// The most entries that the slots can take: one of them stays empty, so that every probe
    /// ends.
    pub fn max_len(&self) -> (n: usize)
        requires
            self.capacity() > 0,
        ensures
            n == self.capacity() - 1,
    {
        self.entries.len() - 1
    }

    pub fn is_empty(&self) -> (b: bool)
        ensures
            forall|data: Seq<u8>| #[trigger]
                self.wf(data) ==> b == (self.tally(data).len() == 0),
    {
        self.len() == 0
    }
}

/// A sound table holds as many names as it has live slots, each in one slot.
pub proof fn lemma_wf(t: Table, data: Seq<u8>)
    requires
        t.wf(data),
    ensures
        t.tally(data).dom().finite(),
        t.tally(data).len() < t.capacity(),
        crate::probing::distinct(t.cells(data)),
        crate::probing::homely(t.cells(data), t.home()),
        t.cells(data).len() == t.capacity(),
        live(t.cells(data), t.capacity() as int) == t.tally(data).len(),
        forall|name: Seq<u8>| #[trigger]
            t.tally(data).contains_key(name) ==> t.tally(data)[name].count <= u32::MAX,
{
    lemma_held(t.cells(data), t.capacity() as int);
    assert forall|name: Seq<u8>| #[trigger] t.tally(data).contains_key(name) implies t.tally(
        data,
    )[name].count <= u32::MAX by {
        let i = choose|i: int|
            0 <= i < t.capacity() && (#[trigger] t.cells(data)[i]) is Some && t.cells(
                data,
            )[i]->0.name == name;
        assert(t.cells(data)[i] == t.entries@[i].cell(data, t.hashes@[i]));
    }
}

} // verus!
