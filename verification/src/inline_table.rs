//! Open-addressed table that stores the station name *inside* the entry.
//!
//! [`crate::table::Table`] keeps only an offset into the input and compares keys by reading
//! the name back out of it. That read is a second, scattered memory access on every row.
//!
//! Here the first 32 bytes of the name live in the entry itself, next to what the probe already
//! loaded, so the common case touches no other memory. 32 bytes covers every name in the
//! official list (longest is 26) but names may have 100, so longer names fall back to comparing
//! the remainder against a copy that the table owns.

use crate::bytes::bytes_eq;
use crate::bytes::word_at;
use crate::keys::is_key;
use crate::keys::key_half;
use crate::keys::law_key_is_not_blank;
use crate::keys::law_long_key_is_name;
use crate::keys::law_low_half_is_name;
use crate::keys::law_short_key_is_name;
use crate::keys::lemma_high_half;
use crate::keys::nul_free;
use crate::output::pushed;
use crate::output::single;
use crate::output::Stats;
use crate::output::Summary;
use crate::probing::agrees;
use crate::probing::along;
use crate::probing::compact;
use crate::probing::distance;
use crate::probing::held;
use crate::probing::is_free;
use crate::probing::is_len;
use crate::probing::is_name;
use crate::probing::landed;
use crate::probing::landing;
use crate::probing::lemma_blank;
use crate::probing::lemma_claim;
use crate::probing::lemma_held;
use crate::probing::lemma_landed;
use crate::probing::lemma_landing;
use crate::probing::lemma_not_exhausted;
use crate::probing::lemma_probe;
use crate::probing::lemma_restat;
use crate::probing::lemma_roomy;
use crate::probing::live;
use crate::probing::passed;
use crate::probing::roomy;
use crate::probing::sound;
use crate::probing::Cell;
use crate::probing::Cells;
use crate::rows::noted;
use crate::rows::Tally;
use crate::table::lemma_capacity;
use crate::table::lemma_step;
use crate::table::Table;
use vstd::arithmetic::power2::pow2;
use vstd::prelude::*;
use vstd::slice::slice_subrange;

pub use crate::keys::key_from_words;
pub use crate::keys::probe_key;
pub use crate::keys::INLINE_KEY;
pub use crate::keys::KEY_SLACK;

verus! {

/// One slot.
#[derive(Clone, Copy)]
pub struct Entry {
    /// The name's first [`INLINE_KEY`] bytes, zero beyond `len`. All-zero means the slot is
    /// empty; see [`upsert`](InlineTable::upsert) for why no real name can look like that.
    key: [u128; 2],
    /// `sum`..`max` are the only fields a repeat row touches, so they are kept adjacent.
    sum: i64,
    count: u32,
    min: i16,
    max: i16,
    /// Where the owned copy of the name starts in the table's key arena.
    key_off: u32,
    len: u32,
    /// Only [`grow`](InlineTable::grow) reads this, to re-slot the entry without having to
    /// re-hash a name it would first have to reassemble.
    hash: u64,
}

impl Default for Entry {
    fn default() -> (e: Self)
        ensures
            e == Self::blank(),
    {
        Entry { key: [0, 0], sum: 0, count: 0, min: 0, max: 0, key_off: 0, len: 0, hash: 0 }
    }
}

impl Entry {
    /// An empty slot.
    pub closed spec fn blank() -> Entry {
        Entry { key: [0, 0], sum: 0, count: 0, min: 0, max: 0, key_off: 0, len: 0, hash: 0 }
    }

    /// What the entry has accumulated.
    pub closed spec fn stats(self) -> Summary {
        Summary {
            min: self.min as int,
            max: self.max as int,
            sum: self.sum as int,
            count: self.count as nat,
        }
    }

    /// The low half of the key.
    pub closed spec fn key_lo(self) -> u128 {
        self.key@[0]
    }

    /// The owned copy of the name.
    spec fn name(self, keys: Seq<u8>) -> Seq<u8> {
        keys.subrange(self.key_off as int, self.key_off + self.len)
    }

    /// The slot that the entry is, over the arena its name lies in.
    spec fn cell(self, keys: Seq<u8>) -> Option<Cell> {
        if self.len == 0 {
            None
        } else {
            Some(Cell { name: self.name(keys), hash: self.hash, stats: self.stats() })
        }
    }

    /// The entry's key is its name's, and blank where there is none.
    spec fn keyed(self, keys: Seq<u8>) -> bool {
        if self.len == 0 {
            self.key@[0] == 0 && self.key@[1] == 0
        } else {
            nul_free(self.name(keys)) && is_key(self.key, self.name(keys))
        }
    }

    /// The entry with one more measurement.
    pub closed spec fn and(self, value: int) -> Entry {
        let s = pushed(self.stats(), value);
        Entry {
            sum: s.sum as i64,
            count: s.count as u32,
            min: s.min as i16,
            max: s.max as i16,
            ..self
        }
    }

    /// Accumulates one measurement.
    ///
    /// Extending the range is logarithmic in the row count, so it is a branch that predicts,
    /// and taking it out of line leaves the common row with a plain load and no store. Writing
    /// it as one sign test lets the two bounds be checked with a single branch.
    #[inline(always)]
    fn note(&mut self, value: i16)
        requires
            old(self).has_room(value as int),
        ensures
            *final(self) == old(self).and(value as int),
            final(self).stats() == pushed(old(self).stats(), value as int),
            final(self).key == old(self).key,
            final(self).key_off == old(self).key_off,
            final(self).len == old(self).len,
            final(self).hash == old(self).hash,
    {
        self.sum += value as i64;
        self.count += 1;
        let below: i32 = value as i32 - self.min as i32;
        let above: i32 = self.max as i32 - value as i32;
        assert((below | above) < 0 <==> below < 0 || above < 0) by (bit_vector);
        if (below | above) < 0 {
            widen(self, value);
        }
    }

    /// The entry can take one more measurement.
    pub open spec fn has_room(self, value: int) -> bool {
        &&& self.stats().count < u32::MAX
        &&& i64::MIN <= self.stats().sum + value <= i64::MAX
    }
}

pub struct InlineTable {
    entries: Vec<Entry>,
    /// Owned copy of every name inserted. The table therefore borrows nothing from the
    /// input, which a reader that recycles one buffer per chunk needs: an offset into it would
    /// dangle as soon as the next chunk was read.
    keys: Vec<u8>,
    /// Bits taken off the *top* of the hash to pick a slot. See [`slot`].
    shift: u32,
    mask: usize,
    used: usize,
}

/// Slot for `hash`, taken from its high bits.
///
/// The low bits of a multiply are barely mixed, so masking the bottom of a multiplicative hash
/// spreads badly unless the hash first avalanches. The top bits do not have that problem, which
/// is what lets [`crate::swar::find_semi_and_hash_flat_raw`] skip its final avalanche entirely.
#[inline(always)]
fn slot(hash: u64, shift: u32) -> (s: usize)
    requires
        1 <= shift < 64,
        (1u64 << (64 - shift)) <= usize::MAX,
    ensures
        s == slot_of(shift)(hash),
        s < 1u64 << (64 - shift),
{
    proof {
        lemma_slot_below(hash, shift);
    }
    (hash >> shift) as usize
}

/// The slot that a hash picks.
pub open spec fn slot_of(shift: u32) -> spec_fn(u64) -> int {
    |h: u64| (h >> shift) as int
}

/// A slot is one of the table's.
pub proof fn lemma_slot_below(hash: u64, shift: u32)
    requires
        1 <= shift < 64,
    ensures
        hash >> shift < 1u64 << (64 - shift),
{
    assert(hash >> shift < 1u64 << ((64 - shift) as u32)) by (bit_vector)
        requires
            1 <= shift < 64,
    ;
}

/// The slots, over the arena that the names lie in.
pub closed spec fn cells_of(entries: Seq<Entry>, keys: Seq<u8>) -> Cells {
    Seq::new(entries.len(), |i: int| entries[i].cell(keys))
}

/// Every entry's key is its name's.
pub closed spec fn all_keyed(entries: Seq<Entry>, keys: Seq<u8>) -> bool {
    forall|i: int| 0 <= i < entries.len() ==> (#[trigger] entries[i]).keyed(keys)
}

/// The slots form a ring that can be probed: a power of two of them, each name whole in the
/// arena, distinct, and reachable.
pub closed spec fn ring(entries: Seq<Entry>, keys: Seq<u8>, shift: u32, used: int) -> bool {
    let cap = entries.len();
    &&& 1 <= shift < 64
    &&& cap == 1u64 << (64 - shift)
    &&& 2 <= cap <= usize::MAX
    &&& (cap as usize) & ((cap - 1) as usize) == 0
    &&& used == live(cells_of(entries, keys), cap as int)
    &&& sound(cells_of(entries, keys), slot_of(shift))
    &&& forall|i: int|
        0 <= i < cap && (#[trigger] entries[i]).len != 0 ==> entries[i].key_off
            + entries[i].len <= keys.len()
}

/// The slots are well shaped: a ring with at most half of it live.
pub open spec fn shaped(entries: Seq<Entry>, keys: Seq<u8>, shift: u32, used: int) -> bool {
    ring(entries, keys, shift, used) && 2 * used <= entries.len()
}

/// What slots borrowed out of a table keep: shape and keys.
pub open spec fn slots_ok(entries: Seq<Entry>, keys: Seq<u8>, shift: u32, used: int) -> bool {
    shaped(entries, keys, shift, used) && all_keyed(entries, keys)
}

/// Grow once the table is this full. Linear probing degrades sharply past a half-full
/// table, and a doubling is bounded: from 2^11 slots ten thousand names cost four of them.
const MAX_LOAD_NUM: usize = 1;

const MAX_LOAD_DEN: usize = 2;

/// As many names as there can be before the slots could no longer be counted after a doubling.
pub const MAX_ENTRIES: usize = usize::MAX / 4;

/// The slots after growing: every live one of the first `n`, in order, in the first free slot
/// from its home in a table of `cap` slots.
pub open spec fn reslotted(cells: Cells, cap: nat, home: spec_fn(u64) -> int, n: int) -> Cells
    decreases n,
{
    if n <= 0 {
        Seq::new(cap, |i: int| None)
    } else {
        let before = reslotted(cells, cap, home, n - 1);
        match cells[n - 1] {
            Some(c) => before.update(landing(before, home(c.hash), is_free()), Some(c)),
            None => before,
        }
    }
}

impl View for InlineTable {
    type V = Tally;

    open spec fn view(&self) -> Tally {
        held(self.cells(), self.cells().len() as int)
    }
}

impl InlineTable {
    /// The slots as they are stored.
    pub closed spec fn slots(&self) -> Seq<Entry> {
        self.entries@
    }

    /// The arena of names.
    pub closed spec fn arena(&self) -> Seq<u8> {
        self.keys@
    }

    /// How far a hash is shifted to pick a slot.
    pub closed spec fn slot_shift(&self) -> u32 {
        self.shift
    }

    /// How many slots are live.
    pub closed spec fn live_slots(&self) -> int {
        self.used as int
    }

    /// The slots.
    pub open spec fn cells(&self) -> Cells {
        cells_of(self.slots(), self.arena())
    }

    /// The slot that a hash picks.
    pub open spec fn home(&self) -> spec_fn(u64) -> int {
        slot_of(self.slot_shift())
    }

    /// If `name` is held, it was stored under `hash`.
    pub open spec fn agrees(&self, name: Seq<u8>, hash: u64) -> bool {
        agrees(self.cells(), name, hash)
    }

    /// The table is well shaped.
    pub closed spec fn shape_ok(&self) -> bool {
        &&& self.mask + 1 == self.entries@.len()
        &&& shaped(self.entries@, self.keys@, self.shift, self.used as int)
    }

    /// The table is well shaped and every key is its name's.
    pub open spec fn wf(&self) -> bool {
        self.shape_ok() && all_keyed(self.slots(), self.arena())
    }

    /// A name can still be inserted: its offset in the arena fits, and so does a doubling.
    pub open spec fn can_insert(&self, len: int) -> bool {
        &&& 0 < len <= u32::MAX
        &&& self.arena().len() <= u32::MAX
        &&& self@.len() < MAX_ENTRIES
    }

    /// A measurement that [`upsert`](InlineTable::upsert) can take: a name without a NUL, under
    /// the hash that it is held under, and room for it.
    pub open spec fn accepts(&self, name: Seq<u8>, hash: u64, value: i16) -> bool {
        &&& self.wf()
        &&& nul_free(name)
        &&& 0 < name.len() <= u32::MAX
        &&& self.agrees(name, hash)
        &&& if self@.contains_key(name) {
            self@[name].count < u32::MAX && i64::MIN <= self@[name].sum + value <= i64::MAX
        } else {
            self.can_insert(name.len() as int)
        }
    }

    /// What [`upsert`](InlineTable::upsert) does: the measurement is in the tally, and the name
    /// is held under its hash.
    pub open spec fn upserted(
        &self,
        before: InlineTable,
        name: Seq<u8>,
        hash: u64,
        value: i16,
    ) -> bool {
        &&& self.wf()
        &&& self@ == noted(before@, name, single(value as int))
        &&& self.now_holds(before, name, hash)
    }

    /// What storing a name leaves behind: it is held under its hash, the others as before. If it
    /// was new, the arena has grown by it, and the slots have doubled where they had to.
    pub open spec fn now_holds(&self, before: InlineTable, name: Seq<u8>, hash: u64) -> bool {
        &&& forall|n: Seq<u8>, h: u64| #[trigger]
            self.agrees(n, h) == if n == name {
                h == hash
            } else {
                before.agrees(n, h)
            }
        &&& self.arena().len() == before.arena().len() + if before@.contains_key(name) {
            0
        } else {
            name.len()
        }
        &&& self.slots().len() == if !before@.contains_key(name) && before.must_grow() {
            2 * before.slots().len()
        } else {
            before.slots().len()
        }
    }

    /// Allocates `2^bits` slots and grows from there as needed, so `bits` is a floor chosen
    /// for cache behaviour rather than a capacity that has to cover the worst case.
    /// Allocate once per thread and reuse across chunks.
    pub fn new(bits: u32) -> (t: Self)
        requires
            bits < usize::BITS,
        ensures
            t.wf(),
            t@ == Map::<Seq<u8>, Summary>::empty(),
            t.slots().len() == pow2(
                if bits == 0 {
                    1
                } else {
                    bits as nat
                },
            ),
            t.arena().len() == 0,
            forall|name: Seq<u8>, hash: u64| #[trigger] t.agrees(name, hash),
    {
        // At least two slots, because [`slot`] shifts right by `64 - bits` and a 64-bit
        // shift is undefined. Callers pass 0 to mean "this table is never used", and two
        // entries is a rounding error next to the one they do use.
        let bits: u32 = if bits < 1 {
            1
        } else {
            bits
        };
        proof {
            lemma_capacity(bits);
            lemma_shift(bits);
        }
        let cap: usize = 1usize << bits;
        let blank = Entry::default();
        let t = InlineTable {
            entries: vec![blank; cap],
            keys: Vec::new(),
            shift: 64 - bits,
            mask: cap - 1,
            used: 0,
        };
        proof {
            assert forall|i: int| 0 <= i < cap implies #[trigger] t.entries@[i] == blank by {}
            lemma_blank_slots(t.entries@, t.keys@, t.shift);
            assert(t.cells().len() == cap);
        }
        t
    }

    /// Doubles the slot count and re-slots every live entry.
    ///
    /// The arena is untouched: `key_off` stays valid, so no name is copied or re-hashed.
    #[inline(never)]
    fn grow(&mut self)
        requires
            old(self).mask + 1 == old(self).entries@.len(),
            ring(old(self).entries@, old(self).keys@, old(self).shift, old(self).used as int),
            2 * old(self).entries@.len() <= usize::MAX,
        ensures
            final(self).shape_ok(),
            final(self).keys@ == old(self).keys@,
            final(self).shift == old(self).shift - 1,
            final(self).used == old(self).used,
            final(self).entries@.len() == 2 * old(self).entries@.len(),
            final(self)@ == old(self)@,
            final(self).cells() == reslotted(
                old(self).cells(),
                2 * old(self).cells().len(),
                slot_of((old(self).shift - 1) as u32),
                old(self).cells().len() as int,
            ),
            all_keyed(old(self).entries@, old(self).keys@) ==> all_keyed(
                final(self).entries@,
                final(self).keys@,
            ),
            forall|n: Seq<u8>, h: u64| #[trigger]
                final(self).agrees(n, h) == old(self).agrees(n, h),
    {
        let ghost old_entries = self.entries@;
        let ghost keys = self.keys@;
        let ghost cells = cells_of(old_entries, keys);
        let ghost old_cap = old_entries.len() as int;
        let ghost old_shift = self.shift;
        proof {
            lemma_shift_down(self.shift);
            lemma_live_part(cells, old_cap);
        }
        let cap: usize = self.entries.len() * 2;
        let shift: u32 = self.shift - 1;
        let mask: usize = cap - 1;
        let blank = Entry::default();
        let mut entries: Vec<Entry> = vec![blank; cap];
        let ghost home = slot_of(shift);
        proof {
            assert forall|i: int| 0 <= i < cap implies #[trigger] entries@[i] == blank by {}
            lemma_blank_slots(entries@, keys, shift);
            assert(cells_of(entries@, keys) =~= reslotted(cells, cap as nat, home, 0));
            assert(cells.take(0).len() == 0);
        }
        for i in 0..self.entries.len()
            invariant
                self.entries@ == old_entries,
                self.keys@ == keys,
                cells == cells_of(old_entries, keys),
                old_cap == old_entries.len(),
                old_cap == cells.len(),
                crate::probing::distinct(cells),
                forall|j: int|
                    0 <= j < old_cap && (#[trigger] old_entries[j]).len != 0
                        ==> old_entries[j].key_off + old_entries[j].len <= keys.len(),
                entries@.len() == cap,
                cap == 2 * old_cap,
                cap >= 2,
                mask + 1 == cap,
                cap & mask == 0,
                1 <= shift < 64,
                cap == 1u64 << (64 - shift),
                home == slot_of(shift),
                sound(cells_of(entries@, keys), home),
                cells_of(entries@, keys) == reslotted(cells, cap as nat, home, i as int),
                held(cells_of(entries@, keys), cap as int) == held(cells, i as int),
                live(cells_of(entries@, keys), cap as int) == live(cells, i as int),
                forall|j: int|
                    0 <= j < cap && (#[trigger] entries@[j]).len != 0 ==> entries@[j].key_off
                        + entries@[j].len <= keys.len(),
                all_keyed(old_entries, keys) ==> all_keyed(entries@, keys),
                forall|n: Seq<u8>, h: u64| #[trigger]
                    agrees(cells_of(entries@, keys), n, h) == agrees(
                        cells.take(i as int),
                        n,
                        h,
                    ),
        {
            let e = self.entries[i];
            let ghost before = cells_of(entries@, keys);
            assert(cells[i as int] == e.cell(keys));
            proof {
                lemma_live_part(cells, i as int);
                lemma_roomy(before);
                lemma_slot_below(e.hash, shift);
                lemma_take_agrees(cells, i as int);
            }
            if e.len != 0 {
                let ghost c = e.cell(keys)->0;
                let mut idx = slot(e.hash, shift);
                let ghost mut k: int = 0;
                while entries[idx].len != 0
                    invariant
                        before == cells_of(entries@, keys),
                        entries@.len() == cap,
                        cap >= 2,
                        mask + 1 == cap,
                        cap & mask == 0,
                        roomy(before),
                        0 <= home(e.hash) < cap,
                        0 <= k < cap,
                        idx == along(home(e.hash), k, cap as int),
                        passed(before, home(e.hash), is_free(), k),
                    decreases cap - k,
                {
                    proof {
                        assert(before[idx as int] == entries@[idx as int].cell(keys));
                        assert(!is_free()(before[along(home(e.hash), k, cap as int)]));
                        lemma_not_exhausted(before, home(e.hash), is_free(), k);
                        lemma_step(idx, cap, mask);
                        k = k + 1;
                    }
                    idx = (idx + 1) & mask;
                }
                proof {
                    assert(before[idx as int] == entries@[idx as int].cell(keys));
                    lemma_landing(before, home(e.hash), is_free(), k);
                    assert forall|j: int| 0 <= j < k implies (#[trigger] before[along(
                        home(c.hash),
                        j,
                        cap as int,
                    )]) is Some by {
                        assert(!is_free()(before[along(home(e.hash), j, cap as int)]));
                    }
                    lemma_held(cells, i as int);
                    if held(cells, i as int).contains_key(c.name) {
                        let j = choose|j: int|
                            0 <= j < i && (#[trigger] cells[j]) is Some && cells[j]->0.name
                                == c.name;
                        assert(cells[j]->0.name != cells[i as int]->0.name);
                    }
                    lemma_claim(before, home, k, c);
                }
                entries[idx] = e;
                proof {
                    assert(cells_of(entries@, keys) =~= before.update(idx as int, Some(c)));
                    assert(old_entries[i as int] == e);
                }
            }
        }
        assert(cells.take(old_cap) =~= cells);
        self.entries = entries;
        self.shift = shift;
        self.mask = mask;
    }

    /// Accumulates one measurement. `hash` must be derived from `data[off..off + len]`, and
    /// [`KEY_SLACK`] bytes from `off` must be readable.
    ///
    /// A hash match is never taken as a key match: the full name is always compared.
    ///
    /// **Why the length is not compared, and why the slot needs no occupancy flag.** Station
    /// names hold no NUL, so a name of `len < INLINE_KEY` zero-padded to [`INLINE_KEY`] bytes
    /// determines both the bytes and the length: it has a zero at index `len`, where a longer
    /// name has either a name byte or, at `len == INLINE_KEY` and above, no zero at all. The key
    /// alone therefore settles the match for every such name, and the same argument makes an
    /// all-zero key impossible for a live entry, so `Default` marks an empty slot and the hot
    /// compare rejects it for free.
    ///
    /// The bound is strict, and that is the whole of it: a name of *exactly* [`INLINE_KEY`] bytes
    /// fills the key with non-zero and so is indistinguishable from the first 32 bytes of any
    /// longer name. It gets the length check and the tail compare like the longer names it can be
    /// confused with: `tail_eq` then compares an empty range, and `e.len` does the work.
    #[inline(always)]
    pub fn upsert(&mut self, data: &[u8], off: usize, len: usize, hash: u64, value: i16)
        requires
            off + len <= data@.len(),
            off + KEY_SLACK <= data@.len(),
            old(self).accepts(data@.subrange(off as int, off + len), hash, value),
        ensures
            final(self).upserted(*old(self), data@.subrange(off as int, off + len), hash, value),
    {
        let ghost name = data@.subrange(off as int, off + len);
        let key = probe_key(data, off, len);
        let idx = self.find(data, off, len, hash, &key);
        let ghost k = distance((self.home())(hash), idx as int, self.entries@.len() as int);
        proof {
            lemma_probe(self.cells(), self.home(), name, hash, k);
        }
        if self.entries[idx].len != 0 {
            self.accumulate(idx, value, Ghost(name), Ghost(hash));
            return ;
        }
        self.insert(data, off, len, hash, value, key, idx);
    }

    /// [`upsert`](Self::upsert) for a name shorter than 16 bytes whose zero-padded window the
    /// caller already holds, as the two words
    /// [`scan_flat_keyed`](crate::swar::scan_flat_keyed) returns.
    ///
    /// Under that length bound the probe collapses twice over. The key needs no rebuilding
    /// from memory: the scan masked those same bytes to keep them out of the hash. And only its
    /// *low* half has to be compared: a name of fewer than 16 bytes has a zero at index `len`,
    /// every stored name of 16 or more has none in its first 16 bytes, and an empty slot is all
    /// zeros, so the low half alone separates the query from every entry the table can hold,
    /// live or empty, at any length.
    #[inline(always)]
    pub fn upsert_words(
        &mut self,
        data: &[u8],
        off: usize,
        len: usize,
        hash: u64,
        value: i16,
        klo: u64,
        khi: u64,
    )
        requires
            len < 16,
            off + len <= data@.len(),
            klo == word_at(data@.subrange(off as int, off + len), 0),
            khi == word_at(data@.subrange(off as int, off + len), 8),
            old(self).accepts(data@.subrange(off as int, off + len), hash, value),
        ensures
            final(self).upserted(*old(self), data@.subrange(off as int, off + len), hash, value),
    {
        let ghost name = data@.subrange(off as int, off + len);
        let key_lo: u128 = (klo as u128) | ((khi as u128) << 64);
        proof {
            lemma_probeable(self.entries@, self.keys@, self.shift, self.used as int);
            lemma_slot_below(hash, self.shift);
            assert(key_lo == key_half(name, 0));
        }
        let idx = find_low(&self.entries, self.mask, slot(hash, self.shift), key_lo);
        proof {
            let k = choose|k: int| #[trigger]
                low_probe(self.entries@, (self.home())(hash), key_lo, k) && idx == along(
                    (self.home())(hash),
                    k,
                    self.entries@.len() as int,
                );
            lemma_hot_probe(
                self.entries@,
                self.keys@,
                self.shift,
                self.used as int,
                name,
                hash,
                key_lo,
                k,
            );
            assert(self.cells()[idx as int] == self.entries@[idx as int].cell(self.keys@));
            lemma_high_half(name);
        }
        if self.entries[idx].len != 0 {
            self.accumulate(idx, value, Ghost(name), Ghost(hash));
            return ;
        }
        self.insert(data, off, len, hash, value, [key_lo, 0], idx);
    }

    /// The slots and the shift, borrowed, for a caller that wants to keep them in registers.
    ///
    /// [`upsert_words`](Self::upsert_words) cannot: `&mut self` stays live across `insert`,
    /// which may [`grow`](Self::grow) and replace `entries`. While this borrow is live nothing
    /// can reallocate, so what it hands out is loop-invariant. The caller pays for it by having
    /// to drop the borrow to insert, which is what [`probe_words`] returning `false` is for.
    #[inline(always)]
    pub fn hot_slots(&mut self) -> (r: (&mut [Entry], u32))
        requires
            old(self).wf(),
        ensures
            r.0@ == old(self).slots(),
            r.1 == old(self).slot_shift(),
            slots_ok(r.0@, old(self).arena(), r.1, old(self).live_slots()),
            final(self).slots() == final(r.0)@,
            final(self).arena() == old(self).arena(),
            final(self).slot_shift() == old(self).slot_shift(),
            final(self).live_slots() == old(self).live_slots(),
            slots_ok(
                final(r.0)@,
                old(self).arena(),
                r.1,
                old(self).live_slots(),
            ) ==> final(self).wf(),
    {
        let shift = self.shift;
        (self.entries.as_mut_slice(), shift)
    }

    /// [`upsert`](Self::upsert) with the key dropped entirely: no [`probe_key`], no compare,
    /// slots matched on length alone. Ablation only: distinct names of equal length merge, so
    /// the results are wrong. Prices everything the key costs, the two masked loads included.
    ///
    /// With no key there is no all-zero-key sentinel either, so occupancy falls back to `len`.
    #[inline(always)]
    pub fn upsert_no_key(&mut self, data: &[u8], off: usize, len: usize, hash: u64, value: i16)
        requires
            old(self).shape_ok(),
            off + len <= data@.len(),
            0 < len <= u32::MAX,
            old(self).agrees(data@.subrange(off as int, off + len), hash),
            ({
                let cells = old(self).cells();
                match cells[landing(cells, (old(self).home())(hash), is_len(len as nat))] {
                    Some(c) => c.stats.count < u32::MAX && i64::MIN <= c.stats.sum + value
                        <= i64::MAX,
                    None => old(self).can_insert(len as int),
                }
            }),
        ensures
            final(self).shape_ok(),
            ({
                let name = data@.subrange(off as int, off + len);
                let cells = old(self).cells();
                let at = landing(cells, (old(self).home())(hash), is_len(len as nat));
                let after = landed(cells, at, name, hash, value as int);
                &&& cells[at] is Some || !old(self).must_grow() ==> final(self).cells() == after
                    && final(self).slot_shift() == old(self).slot_shift()
                &&& cells[at] is None && old(self).must_grow() ==> final(self).cells()
                    == reslotted(
                    after,
                    2 * after.len(),
                    slot_of((old(self).slot_shift() - 1) as u32),
                    after.len() as int,
                ) && final(self).slot_shift() == old(self).slot_shift() - 1
                &&& final(self).arena().len() == old(self).arena().len() + if cells[at] is None {
                    len
                } else {
                    0
                }
            }),
            forall|n: Seq<u8>, h: u64|
                (n != data@.subrange(off as int, off + len) || h == hash) && old(self).agrees(n, h)
                    ==> #[trigger] final(self).agrees(n, h),
    {
        let ghost name = data@.subrange(off as int, off + len);
        let ghost cells = self.cells();
        let ghost cap = self.entries@.len() as int;
        let ghost home = self.home();
        let ghost ok = is_len(len as nat);
        let ghost mut k: int = 0;
        proof {
            lemma_roomy(cells);
            lemma_slot_below(hash, self.shift);
        }
        let mut idx = slot(hash, self.shift);
        while self.entries[idx].len != 0 && self.entries[idx].len as usize != len
            invariant
                self.shape_ok(),
                cells == self.cells(),
                cap == self.entries@.len(),
                home == self.home(),
                ok == is_len(len as nat),
                0 < len <= u32::MAX,
                roomy(cells),
                0 <= k < cap,
                0 <= home(hash) < cap,
                idx == along(home(hash), k, cap),
                passed(cells, home(hash), ok, k),
            decreases cap - k,
        {
            proof {
                assert(cells[idx as int] == self.entries@[idx as int].cell(self.keys@));
                assert(!ok(cells[along(home(hash), k, cap)]));
                lemma_not_exhausted(cells, home(hash), ok, k);
                lemma_step(idx, cap as usize, self.mask);
                k = k + 1;
            }
            idx = (idx + 1) & self.mask;
        }
        proof {
            assert(cells[idx as int] == self.entries@[idx as int].cell(self.keys@));
            lemma_landing(cells, home(hash), ok, k);
            assert(passed(cells, home(hash), is_name(name), k));
            assert(distance(home(hash), idx as int, cap) == k);
        }
        if self.entries[idx].len != 0 {
            proof {
                lemma_landed(cells, home, name, hash, value as int, k);
            }
            let mut e = self.entries[idx];
            e.note(value);
            self.entries[idx] = e;
            proof {
                assert(self.cells() =~= landed(cells, idx as int, name, hash, value as int));
                assert(forall|i: int|
                    0 <= i < cap && (#[trigger] self.entries@[i]).len != 0 ==> old(
                        self,
                    ).entries@[i].len != 0);
            }
            return ;
        }
        proof {
            lemma_probe(cells, home, name, hash, k);
        }
        self.insert(data, off, len, hash, value, [0, 0], idx);
    }

    /// [`upsert`](Self::upsert) with the four-field accumulate dropped. Ablation only: it probes
    /// and compares exactly as the real one does, then throws the measurement away, so it prices
    /// the read-modify-write against a slot the probe has already pulled into cache.
    #[inline(always)]
    pub fn upsert_no_stats(&mut self, data: &[u8], off: usize, len: usize, hash: u64, value: i16)
        requires
            off + len <= data@.len(),
            off + KEY_SLACK <= data@.len(),
            ({
                let name = data@.subrange(off as int, off + len);
                &&& old(self).wf()
                &&& nul_free(name)
                &&& 0 < name.len() <= u32::MAX
                &&& old(self).agrees(name, hash)
                &&& old(self)@.contains_key(name) || old(self).can_insert(len as int)
            }),
        ensures
            ({
                let name = data@.subrange(off as int, off + len);
                &&& final(self).wf()
                &&& final(self)@ == if old(self)@.contains_key(name) {
                    old(self)@
                } else {
                    old(self)@.insert(name, single(value as int))
                }
                &&& final(self).now_holds(*old(self), name, hash)
            }),
    {
        let ghost name = data@.subrange(off as int, off + len);
        let key = probe_key(data, off, len);
        let idx = self.find(data, off, len, hash, &key);
        let ghost k = distance((self.home())(hash), idx as int, self.entries@.len() as int);
        proof {
            lemma_probe(self.cells(), self.home(), name, hash, k);
        }
        if self.entries[idx].len != 0 {
            proof {
                assert(self.cells()[idx as int] is Some);
            }
            return ;
        }
        self.insert(data, off, len, hash, value, key, idx);
    }

    /// One more name than there are now takes more than half of the slots.
    pub open spec fn must_grow(&self) -> bool {
        2 * (self.live_slots() + 1) > self.slots().len()
    }

    /// The slot where the probe for a name ends: its own, or the empty one it would take.
    #[inline(always)]
    fn find(&self, data: &[u8], off: usize, len: usize, hash: u64, key: &[u128; 2]) -> (idx: usize)
        requires
            self.wf(),
            0 < len,
            off + len <= data@.len(),
            nul_free(data@.subrange(off as int, off + len)),
            is_key(*key, data@.subrange(off as int, off + len)),
        ensures
            idx < self.entries@.len(),
            ({
                let name = data@.subrange(off as int, off + len);
                let start = (self.home())(hash);
                let k = distance(start, idx as int, self.entries@.len() as int);
                &&& 0 <= start < self.entries@.len()
                &&& 0 <= k < self.entries@.len()
                &&& along(start, k, self.entries@.len() as int) == idx
                &&& passed(self.cells(), start, is_name(name), k)
                &&& is_name(name)(self.cells()[idx as int])
            }),
    {
        let ghost name = data@.subrange(off as int, off + len);
        let ghost cells = self.cells();
        let ghost cap = self.entries@.len() as int;
        let ghost home = self.home();
        let ghost ok = is_name(name);
        let ghost mut k: int = 0;
        assert(data.len() == data@.len());
        proof {
            lemma_roomy(cells);
            lemma_slot_below(hash, self.shift);
            law_key_is_not_blank(name);
        }
        let mut idx = slot(hash, self.shift);
        loop
            invariant_except_break
                passed(cells, home(hash), ok, k),
            invariant
                self.wf(),
                0 < len,
                off + len <= data@.len() == data.len(),
                name == data@.subrange(off as int, off + len),
                nul_free(name),
                is_key(*key, name),
                key_half(name, 0) != 0,
                cells == self.cells(),
                cap == self.entries@.len(),
                home == self.home(),
                ok == is_name(name),
                roomy(cells),
                0 <= k < cap,
                0 <= home(hash) < cap,
                idx == along(home(hash), k, cap),
            ensures
                passed(cells, home(hash), ok, k),
                ok(cells[idx as int]),
            decreases cap - k,
        {
            let e = self.entries[idx];
            assert(cells[idx as int] == self.entries@[idx as int].cell(self.keys@));
            assert(self.entries@[idx as int].keyed(self.keys@));
            let ghost other = e.name(self.keys@);
            proof {
                if e.len != 0 {
                    assert(other.len() == e.len);
                    law_key_is_not_blank(other);
                    assert(e.len >= INLINE_KEY ==> self.keys@.subrange(
                        e.key_off + INLINE_KEY,
                        e.key_off + e.len,
                    ) =~= other.subrange(32, e.len as int));
                }
                assert(len >= INLINE_KEY ==> data@.subrange(off + INLINE_KEY, off + len)
                    =~= name.subrange(32, len as int));
            }
            if e.key[0] == key[0] && e.key[1] == key[1] {
                if len < INLINE_KEY {
                    proof {
                        law_short_key_is_name(name, other);
                    }
                    break ;
                }
                if e.len as usize == len && tail_eq(
                    &self.keys,
                    e.key_off as usize,
                    data,
                    off,
                    len,
                ) {
                    proof {
                        law_long_key_is_name(name, other);
                    }
                    break ;
                }
            } else if e.key[0] == 0 && e.key[1] == 0 {
                break ;
            }
            proof {
                assert(other != name);
                assert(!ok(cells[along(home(hash), k, cap)]));
                lemma_not_exhausted(cells, home(hash), ok, k);
                lemma_step(idx, cap as usize, self.mask);
                k = k + 1;
            }
            idx = (idx + 1) & self.mask;
        }
        assert(distance(home(hash), idx as int, cap) == k);
        idx
    }

    /// Adds a measurement to the live slot that a probe found.
    #[inline(always)]
    fn accumulate(&mut self, idx: usize, value: i16, name: Ghost<Seq<u8>>, hash: Ghost<u64>)
        requires
            old(self).wf(),
            idx < old(self).entries@.len(),
            old(self).cells()[idx as int] is Some,
            old(self).cells()[idx as int]->0.name == name@,
            old(self).cells()[idx as int]->0.hash == hash@,
            old(self)@.contains_key(name@),
            old(self)@[name@] == old(self).cells()[idx as int]->0.stats,
            old(self)@[name@].count < u32::MAX,
            i64::MIN <= old(self)@[name@].sum + value <= i64::MAX,
        ensures
            final(self).upserted(*old(self), name@, hash@, value),
    {
        let ghost cells = self.cells();
        let ghost before = self.entries@;
        let mut e = self.entries[idx];
        assert(cells[idx as int] == e.cell(self.keys@));
        e.note(value);
        self.entries[idx] = e;
        proof {
            lemma_slot_noted(
                before,
                self.keys@,
                self.shift,
                self.used as int,
                idx as int,
                value as int,
            );
            assert(self.entries@ =~= before.update(idx as int, before[idx as int].and(value as int)));
            crate::output::law_push_is_merge(cells[idx as int]->0.stats, value as int);
            assert(agrees(cells, name@, hash@)) by {
                assert forall|i: int|
                    0 <= i < cells.len() && (#[trigger] cells[i]) is Some && cells[i]->0.name
                        == name@ implies cells[i]->0.hash == hash@ by {
                    assert(cells[idx as int] is Some);
                }
            }
            assert(forall|h: u64| agrees(cells, name@, h) ==> h == hash@) by {
                assert(cells[idx as int] is Some);
            }
        }
    }

    /// Claims the empty slot the probe stopped on. At most once per distinct station, so it is
    /// outlined: its cost is irrelevant and its size is not.
    #[inline(never)]
    fn insert(
        &mut self,
        data: &[u8],
        off: usize,
        len: usize,
        hash: u64,
        value: i16,
        key: [u128; 2],
        idx: usize,
    )
        requires
            old(self).shape_ok(),
            off + len <= data@.len(),
            old(self).can_insert(len as int),
            idx < old(self).entries@.len(),
            ({
                let name = data@.subrange(off as int, off + len);
                let cells = old(self).cells();
                let cap = cells.len() as int;
                let start = (old(self).home())(hash);
                let k = distance(start, idx as int, cap);
                &&& cells[idx as int] is None
                &&& passed(cells, start, is_name(name), k)
                &&& !old(self)@.contains_key(name)
            }),
        ensures
            final(self).shape_ok(),
            ({
                let name = data@.subrange(off as int, off + len);
                let cells = old(self).cells();
                let after = landed(cells, idx as int, name, hash, value as int);
                &&& final(self)@ == old(self)@.insert(name, single(value as int))
                &&& final(self).now_holds(*old(self), name, hash)
                &&& all_keyed(old(self).entries@, old(self).keys@) && nul_free(name) && is_key(
                    key,
                    name,
                ) ==> final(self).wf()
                &&& !old(self).must_grow() ==> final(self).cells() == after
                    && final(self).slot_shift() == old(self).slot_shift()
                &&& old(self).must_grow() ==> final(self).cells() == reslotted(
                    after,
                    2 * after.len(),
                    slot_of((old(self).slot_shift() - 1) as u32),
                    after.len() as int,
                ) && final(self).slot_shift() == old(self).slot_shift() - 1
            }),
    {
        let ghost name = data@.subrange(off as int, off + len);
        let ghost cells = self.cells();
        let ghost old_entries = self.entries@;
        let ghost old_keys = self.keys@;
        let ghost cap = cells.len() as int;
        let ghost home = self.home();
        let ghost k = distance(home(hash), idx as int, cap);
        let ghost c = Cell { name, hash, stats: single(value as int) };
        assert(data.len() == data@.len());
        proof {
            lemma_held(cells, cap);
            lemma_slot_below(hash, self.shift);
            assert forall|j: int| 0 <= j < k implies (#[trigger] cells[along(
                home(hash),
                j,
                cap,
            )]) is Some by {
                assert(!is_name(name)(cells[along(home(hash), j, cap)]));
            }
            assert(along(home(hash), k, cap) == idx);
            lemma_claim(cells, home, k, c);
        }
        let key_off: u32 = self.keys.len() as u32;
        self.keys.extend_from_slice(slice_subrange(data, off, off + len));
        self.entries[idx] = Entry {
            key,
            sum: value as i64,
            key_off,
            count: 1,
            len: len as u32,
            min: value,
            max: value,
            hash,
        };
        self.used += 1;
        proof {
            assert(self.keys@ =~= old_keys + name);
            assert(self.keys@.subrange(0, old_keys.len() as int) =~= old_keys);
            lemma_arena_grows(old_entries, old_keys, self.keys@);
            assert(self.entries@[idx as int].name(self.keys@) =~= name);
            assert(self.cells() =~= cells.update(idx as int, Some(c)));
            assert forall|i: int|
                0 <= i < cap && (#[trigger] self.entries@[i]).len != 0 implies self.entries@[i].key_off
                + self.entries@[i].len <= self.keys@.len() by {
                if i != idx {
                    assert(old_entries[i].len != 0);
                }
            }
            assert(all_keyed(old_entries, old_keys) && nul_free(name) && is_key(key, name)
                ==> all_keyed(self.entries@, self.keys@)) by {
                if all_keyed(old_entries, old_keys) && nul_free(name) && is_key(key, name) {
                    assert forall|i: int| 0 <= i < cap implies (#[trigger] self.entries@[i]).keyed(
                        self.keys@,
                    ) by {
                        if i != idx {
                            assert(old_entries[i].keyed(old_keys));
                            assert(old_entries[i].len != 0 ==> old_entries[i].name(old_keys)
                                =~= old_entries[i].name(self.keys@));
                        }
                    }
                }
            }
        }
        // Growing here rather than before the probe leaves the table at most half full on
        // entry, so the probe loop always meets an empty slot and always terminates.
        if self.used * MAX_LOAD_DEN > self.entries.len() * MAX_LOAD_NUM {
            self.grow();
        }
    }

    /// What the entry holds that [`upsert_no_key`](Self::upsert_no_key) would add to, if any.
    pub fn length_match(&self, len: usize, hash: u64) -> (r: Option<Stats>)
        requires
            self.shape_ok(),
            0 < len <= u32::MAX,
        ensures
            match self.cells()[landing(
                self.cells(),
                (self.home())(hash),
                is_len(len as nat),
            )] {
                Some(c) => r is Some && r->0@ == c.stats,
                None => r is None,
            },
    {
        let ghost cells = self.cells();
        let ghost cap = self.entries@.len() as int;
        let ghost home = self.home();
        let ghost ok = is_len(len as nat);
        let ghost mut k: int = 0;
        proof {
            lemma_roomy(cells);
            lemma_slot_below(hash, self.shift);
        }
        let mut idx = slot(hash, self.shift);
        while self.entries[idx].len != 0 && self.entries[idx].len as usize != len
            invariant
                self.shape_ok(),
                cells == self.cells(),
                cap == self.entries@.len(),
                home == self.home(),
                ok == is_len(len as nat),
                0 < len <= u32::MAX,
                roomy(cells),
                0 <= k < cap,
                0 <= home(hash) < cap,
                idx == along(home(hash), k, cap),
                passed(cells, home(hash), ok, k),
            decreases cap - k,
        {
            proof {
                assert(cells[idx as int] == self.entries@[idx as int].cell(self.keys@));
                assert(!ok(cells[along(home(hash), k, cap)]));
                lemma_not_exhausted(cells, home(hash), ok, k);
                lemma_step(idx, cap as usize, self.mask);
                k = k + 1;
            }
            idx = (idx + 1) & self.mask;
        }
        let e = self.entries[idx];
        proof {
            assert(cells[idx as int] == e.cell(self.keys@));
            lemma_landing(cells, home(hash), ok, k);
        }
        if e.len == 0 {
            None
        } else {
            Some(Stats { min: e.min, max: e.max, sum: e.sum, count: e.count })
        }
    }

    /// The names and what they have accumulated, in slot order.
    pub fn iter(&self) -> (v: Vec<(&[u8], Stats)>)
        requires
            self.shape_ok(),
        ensures
            v@.len() == compact(self.cells(), self.cells().len() as int).len(),
            forall|i: int|
                #![trigger v@[i]]
                0 <= i < v@.len() ==> {
                    let c = compact(self.cells(), self.cells().len() as int)[i];
                    v@[i].0@ == c.name && v@[i].1@ == c.stats
                },
    {
        let mut v: Vec<(&[u8], Stats)> = Vec::new();
        for i in 0..self.entries.len()
            invariant
                self.shape_ok(),
                v@.len() == compact(self.cells(), i as int).len(),
                forall|j: int|
                    #![trigger v@[j]]
                    0 <= j < v@.len() ==> {
                        let c = compact(self.cells(), i as int)[j];
                        v@[j].0@ == c.name && v@[j].1@ == c.stats
                    },
        {
            let e = self.entries[i];
            assert(self.cells()[i as int] == e.cell(self.keys@));
            assert(self.keys.len() == self.keys@.len());
            if e.len != 0 {
                let start: usize = e.key_off as usize;
                v.push(
                    (
                        slice_subrange(self.keys.as_slice(), start, start + e.len as usize),
                        Stats { min: e.min, max: e.max, sum: e.sum, count: e.count },
                    ),
                );
            }
        }
        v
    }

    /// How many bytes of names the table keeps.
    pub fn arena_len(&self) -> (n: usize)
        ensures
            n == self.arena().len(),
    {
        self.keys.len()
    }

    pub fn len(&self) -> (n: usize)
        ensures
            self.shape_ok() ==> n == self@.len(),
    {
        proof {
            if self.shape_ok() {
                lemma_held(self.cells(), self.entries@.len() as int);
            }
        }
        self.used
    }

    pub fn is_empty(&self) -> (b: bool)
        ensures
            self.shape_ok() ==> b == (self@.len() == 0),
    {
        self.len() == 0
    }
}

/// A well-shaped table holds as many names as it has live slots, each in one slot.
pub proof fn lemma_shape(t: InlineTable)
    requires
        t.shape_ok(),
    ensures
        t@.dom().finite(),
        t@.len() == t.live_slots(),
        t.live_slots() == live(t.cells(), t.cells().len() as int),
        crate::probing::distinct(t.cells()),
        t.cells().len() == t.slots().len(),
        2 * t.live_slots() <= t.slots().len() <= usize::MAX + 1,
        1 <= t.slot_shift() < 64,
        2 <= t.slots().len() == 1u64 << (64 - t.slot_shift()),
{
    lemma_held(t.cells(), t.cells().len() as int);
}

/// A table with a key for every name holds none with a NUL.
pub proof fn lemma_plain(t: InlineTable)
    requires
        t.wf(),
    ensures
        crate::rows::plain_names(t@),
{
    lemma_held(t.cells(), t.cells().len() as int);
    assert forall|name: Seq<u8>| #[trigger] t@.contains_key(name) implies nul_free(name) by {
        let i = choose|i: int|
            0 <= i < t.cells().len() && (#[trigger] t.cells()[i]) is Some && t.cells()[i]->0.name
                == name;
        assert(t.cells()[i] == t.entries@[i].cell(t.keys@));
        assert(t.entries@[i].keyed(t.keys@));
    }
}

/// A slot at which a probe for a low key half stops.
pub open spec fn low_stop(e: Entry, key_lo: u128) -> bool {
    e.key_lo() == key_lo || e.key_lo() == 0
}

/// A probe for a low key half from `start` stops after `k` steps.
pub open spec fn low_probe(slots: Seq<Entry>, start: int, key_lo: u128, k: int) -> bool {
    &&& 0 <= k < slots.len()
    &&& low_stop(slots[along(start, k, slots.len() as int)], key_lo)
    &&& forall|j: int|
        0 <= j < k ==> !low_stop(#[trigger] slots[along(start, j, slots.len() as int)], key_lo)
}

/// Some slot is empty, seen from the low key halves.
pub open spec fn low_room(slots: Seq<Entry>) -> bool {
    exists|f: int| 0 <= f < slots.len() && (#[trigger] slots[f]).key_lo() == 0
}

/// Slots that can be probed by hash: a power of two of them, one empty.
pub open spec fn probeable(slots: Seq<Entry>, shift: u32) -> bool {
    &&& 1 <= shift < 64
    &&& slots.len() == 1u64 << (64 - shift)
    &&& 2 <= slots.len() <= usize::MAX
    &&& (slots.len() as usize) & ((slots.len() - 1) as usize) == 0
    &&& low_room(slots)
}

/// The slot where the probe for a low key half ends.
#[inline(always)]
fn find_low(slots: &[Entry], mask: usize, start: usize, key_lo: u128) -> (idx: usize)
    requires
        mask + 1 == slots@.len(),
        (slots@.len() as usize) & mask == 0,
        start < slots@.len(),
        low_room(slots@),
    ensures
        idx < slots@.len(),
        exists|k: int| #[trigger]
            low_probe(slots@, start as int, key_lo, k) && idx == along(
                start as int,
                k,
                slots@.len() as int,
            ),
{
    let ghost cap = slots@.len() as int;
    let ghost mut k: int = 0;
    assert(slots.len() == cap);
    let mut idx = start;
    while slots[idx].key[0] != key_lo && slots[idx].key[0] != 0
        invariant
            cap == slots@.len() == slots.len(),
            mask + 1 == cap,
            (cap as usize) & mask == 0,
            start < cap,
            low_room(slots@),
            0 <= k < cap,
            idx == along(start as int, k, cap),
            forall|j: int|
                0 <= j < k ==> !low_stop(
                    #[trigger] slots@[along(start as int, j, cap)],
                    key_lo,
                ),
        decreases cap - k,
    {
        proof {
            if k + 1 == cap {
                let f = choose|f: int| 0 <= f < cap && (#[trigger] slots@[f]).key_lo() == 0;
                let j = distance(start as int, f, cap);
                assert(along(start as int, j, cap) == f);
                assert(low_stop(slots@[along(start as int, j, cap)], key_lo));
            }
            lemma_step(idx, cap as usize, mask);
            k = k + 1;
        }
        idx = (idx + 1) & mask;
    }
    assert(low_probe(slots@, start as int, key_lo, k));
    idx
}

/// [`upsert_words`](InlineTable::upsert_words) against slots borrowed out of the table with
/// [`hot_slots`](InlineTable::hot_slots).
///
/// `false` means the probe reached an empty slot, and **nothing was written**: the caller drops
/// the borrow and repeats the row through `upsert_words`, which owns the table and may insert
/// and grow. At most once per distinct station, so the repeat is not a cost.
///
/// The mask is derived from `slots.len()` rather than passed in, which keeps every index
/// visibly within the slots.
#[inline(always)]
pub fn probe_words(slots: &mut [Entry], shift: u32, hash: u64, key_lo: u128, value: i16) -> (hit:
    bool)
    requires
        probeable(old(slots)@, shift),
        forall|k: int| #[trigger]
            low_probe(old(slots)@, slot_of(shift)(hash), key_lo, k) ==> {
                let e = old(slots)@[along(slot_of(shift)(hash), k, old(slots)@.len() as int)];
                e.key_lo() == key_lo ==> e.has_room(value as int)
            },
    ensures
        exists|k: int| #[trigger]
            low_probe(old(slots)@, slot_of(shift)(hash), key_lo, k) && ({
                let at = along(slot_of(shift)(hash), k, old(slots)@.len() as int);
                let e = old(slots)@[at];
                &&& hit == (e.key_lo() == key_lo)
                &&& final(slots)@ == if hit {
                    old(slots)@.update(at, e.and(value as int))
                } else {
                    old(slots)@
                }
            }),
{
    proof {
        lemma_slot_below(hash, shift);
    }
    let mask: usize = slots.len() - 1;
    let idx = find_low(slots, mask, slot(hash, shift), key_lo);
    let mut e = slots[idx];
    if e.key[0] == key_lo {
        e.note(value);
        slots[idx] = e;
        return true;
    }
    false
}

/// Extends an entry's range. Out of line so the common row pays no store; see
/// [`upsert`](InlineTable::upsert).
#[inline(never)]
fn widen(e: &mut Entry, value: i16)
    ensures
        final(e).min == crate::output::least(old(e).min as int, value as int),
        final(e).max == crate::output::greatest(old(e).max as int, value as int),
        final(e).sum == old(e).sum,
        final(e).count == old(e).count,
        final(e).key == old(e).key,
        final(e).key_off == old(e).key_off,
        final(e).len == old(e).len,
        final(e).hash == old(e).hash,
{
    if value < e.min {
        e.min = value;
    }
    if value > e.max {
        e.max = value;
    }
}

/// Compares the part of a name that does not fit inline: the stored copy in `keys` against
/// the probe in `data`. Cold: no name in the official list is long enough to reach it.
///
/// Called at `len == INLINE_KEY` too, where the range is empty and it trivially agrees; there
/// the caller's `e.len` check is what separates the name from the longer ones it shares a key
/// with.
#[inline(never)]
fn tail_eq(keys: &[u8], stored: usize, data: &[u8], off: usize, len: usize) -> (r: bool)
    requires
        INLINE_KEY <= len,
        stored + len <= keys@.len(),
        off + len <= data@.len(),
    ensures
        r == (keys@.subrange(stored + INLINE_KEY, stored + len) == data@.subrange(
            off + INLINE_KEY,
            off + len,
        )),
{
    assert(keys.len() == keys@.len() && data.len() == data@.len());
    bytes_eq(
        slice_subrange(keys, stored + INLINE_KEY, stored + len),
        slice_subrange(data, off + INLINE_KEY, off + len),
    )
}

proof fn lemma_shift(bits: u32)
    requires
        1 <= bits < usize::BITS,
    ensures
        1usize << bits == 1u64 << bits,
        1usize << bits >= 2,
{
    assert(1usize << bits == 1u64 << bits && 1usize << bits >= 2) by (bit_vector)
        requires
            1 <= bits < usize::BITS,
    ;
}

/// Doubling a table whose slots can still be counted afterwards.
pub proof fn lemma_shift_down(shift: u32)
    requires
        1 <= shift < 64,
        2 * (1u64 << (64 - shift)) <= usize::MAX,
    ensures
        shift >= 2,
        1u64 << (65 - shift) == 2 * (1u64 << (64 - shift)),
        ((2 * (1u64 << (64 - shift))) as usize) & ((2 * (1u64 << (64 - shift)) - 1) as usize) == 0,
{
    let cap = 1u64 << (64 - shift);
    assert(shift >= 2 && 1u64 << ((65 - shift) as u32) == 2 * cap && ((2 * cap) as usize) & ((2
        * cap - 1) as usize) == 0) by (bit_vector)
        requires
            1 <= shift < 64,
            cap == 1u64 << ((64 - shift) as u32),
            cap < 0x8000_0000_0000_0000,
    ;
}

/// Slots that are all blank.
proof fn lemma_blank_slots(entries: Seq<Entry>, keys: Seq<u8>, shift: u32)
    requires
        1 <= shift < 64,
        entries.len() == 1u64 << (64 - shift),
        forall|i: int| 0 <= i < entries.len() ==> #[trigger] entries[i] == Entry::blank(),
    ensures
        sound(cells_of(entries, keys), slot_of(shift)),
        live(cells_of(entries, keys), entries.len() as int) == 0,
        held(cells_of(entries, keys), entries.len() as int) == Map::<Seq<u8>, Summary>::empty(),
        all_keyed(entries, keys),
        forall|n: Seq<u8>, h: u64| #[trigger] agrees(cells_of(entries, keys), n, h),
        forall|i: int| 0 <= i < entries.len() ==> (#[trigger] entries[i]).len == 0,
{
    let cells = cells_of(entries, keys);
    assert forall|i: int| 0 <= i < cells.len() implies #[trigger] cells[i] is None by {
        assert(entries[i] == Entry::blank());
    }
    lemma_blank(cells, entries.len() as int);
    assert forall|h: u64| 0 <= #[trigger] slot_of(shift)(h) < cells.len() by {
        lemma_slot_below(h, shift);
    }
}

proof fn lemma_live_part(cells: Cells, n: int)
    requires
        0 <= n <= cells.len(),
    ensures
        live(cells, n) <= n,
    decreases n,
{
    if n > 0 {
        lemma_live_part(cells, n - 1);
    }
}

/// What a further slot adds to what names are held under.
proof fn lemma_take_agrees(cells: Cells, i: int)
    requires
        crate::probing::distinct(cells),
        0 <= i < cells.len(),
    ensures
        forall|n: Seq<u8>, h: u64| #[trigger]
            agrees(cells.take(i + 1), n, h) == match cells[i] {
                Some(c) => if n == c.name {
                    h == c.hash
                } else {
                    agrees(cells.take(i), n, h)
                },
                None => agrees(cells.take(i), n, h),
            },
{
    let part = cells.take(i);
    let more = cells.take(i + 1);
    assert forall|n: Seq<u8>, h: u64| #[trigger] agrees(more, n, h) == match cells[i] {
        Some(c) => if n == c.name {
            h == c.hash
        } else {
            agrees(part, n, h)
        },
        None => agrees(part, n, h),
    } by {
        assert(more[i] == cells[i]);
        if agrees(more, n, h) {
            assert forall|j: int|
                0 <= j < part.len() && (#[trigger] part[j]) is Some && part[j]->0.name
                    == n implies part[j]->0.hash == h by {
                assert(more[j] == part[j]);
            }
        }
        if cells[i] is Some && n == cells[i]->0.name && h == cells[i]->0.hash {
            assert forall|j: int|
                0 <= j < more.len() && (#[trigger] more[j]) is Some && more[j]->0.name
                    == n implies more[j]->0.hash == h by {
                assert(more[j] == cells[j]);
            }
        }
        if (cells[i] is None || n != cells[i]->0.name) && agrees(part, n, h) {
            assert forall|j: int|
                0 <= j < more.len() && (#[trigger] more[j]) is Some && more[j]->0.name
                    == n implies more[j]->0.hash == h by {
                if j < i {
                    assert(more[j] == part[j]);
                }
            }
        }
    }
}

/// A longer arena leaves the names that lie in it as they are.
proof fn lemma_arena_grows(entries: Seq<Entry>, keys: Seq<u8>, more: Seq<u8>)
    requires
        keys.len() <= more.len(),
        more.subrange(0, keys.len() as int) == keys,
        forall|i: int|
            0 <= i < entries.len() && (#[trigger] entries[i]).len != 0 ==> entries[i].key_off
                + entries[i].len <= keys.len(),
    ensures
        cells_of(entries, more) == cells_of(entries, keys),
        forall|i: int|
            0 <= i < entries.len() && (#[trigger] entries[i]).len != 0 ==> entries[i].name(more)
                == entries[i].name(keys),
{
    assert forall|i: int|
        0 <= i < entries.len() && (#[trigger] entries[i]).len != 0 implies entries[i].name(more)
        == entries[i].name(keys) by {
        assert(entries[i].name(more) =~= entries[i].name(keys)) by {
            assert forall|j: int| 0 <= j < keys.len() implies keys[j] == more[j] by {
                assert(more.subrange(0, keys.len() as int)[j] == more[j]);
            }
        }
    }
    assert(cells_of(entries, more) =~= cells_of(entries, keys));
}

/// One measurement added to a live slot.
proof fn lemma_slot_noted(
    entries: Seq<Entry>,
    keys: Seq<u8>,
    shift: u32,
    used: int,
    at: int,
    value: int,
)
    requires
        shaped(entries, keys, shift, used),
        0 <= at < entries.len(),
        entries[at].len != 0,
        entries[at].has_room(value),
        -0x8000 <= value < 0x8000,
    ensures
        ({
            let after = entries.update(at, entries[at].and(value));
            let cells = cells_of(entries, keys);
            let c = cells[at]->0;
            &&& shaped(after, keys, shift, used)
            &&& all_keyed(entries, keys) ==> all_keyed(after, keys)
            &&& held(cells_of(after, keys), after.len() as int) == held(
                cells,
                entries.len() as int,
            ).insert(c.name, pushed(c.stats, value))
            &&& forall|n: Seq<u8>, h: u64| #[trigger]
                agrees(cells_of(after, keys), n, h) == agrees(cells, n, h)
        }),
{
    let after = entries.update(at, entries[at].and(value));
    let cells = cells_of(entries, keys);
    let c = cells[at]->0;
    let stats = pushed(c.stats, value);
    assert(cells[at] == entries[at].cell(keys));
    lemma_restat(cells, slot_of(shift), at, stats);
    assert(entries[at].and(value).stats() == stats);
    assert(cells_of(after, keys) =~= cells.update(at, Some(Cell { stats, ..c })));
    assert forall|i: int|
        0 <= i < after.len() && (#[trigger] after[i]).len != 0 implies after[i].key_off
        + after[i].len <= keys.len() by {
        assert(entries[i].len != 0);
    }
    if all_keyed(entries, keys) {
        assert forall|i: int| 0 <= i < after.len() implies (#[trigger] after[i]).keyed(keys) by {
            assert(entries[i].keyed(keys));
        }
    }
}

/// A slot stops a probe for the low half of a short name's key exactly where it stops a probe
/// for the name.
proof fn lemma_low_stop(
    entries: Seq<Entry>,
    keys: Seq<u8>,
    shift: u32,
    used: int,
    name: Seq<u8>,
    key_lo: u128,
    i: int,
)
    requires
        slots_ok(entries, keys, shift, used),
        nul_free(name),
        0 < name.len() < 16,
        key_lo == key_half(name, 0),
        0 <= i < entries.len(),
    ensures
        low_stop(entries[i], key_lo) == is_name(name)(cells_of(entries, keys)[i]),
        (entries[i].key_lo() == key_lo) == (cells_of(entries, keys)[i] is Some
            && is_name(name)(cells_of(entries, keys)[i])),
        entries[i].key_lo() == 0 <==> cells_of(entries, keys)[i] is None,
{
    let e = entries[i];
    assert(e.keyed(keys));
    law_key_is_not_blank(name);
    if e.len != 0 {
        let other = e.name(keys);
        assert(other.len() == e.len);
        law_key_is_not_blank(other);
        if e.key_lo() == key_lo {
            law_low_half_is_name(name, other);
        }
    }
}

/// Slots of a sound table can be probed.
pub proof fn lemma_probeable(entries: Seq<Entry>, keys: Seq<u8>, shift: u32, used: int)
    requires
        slots_ok(entries, keys, shift, used),
    ensures
        probeable(entries, shift),
{
    let cells = cells_of(entries, keys);
    lemma_roomy(cells);
    let f = choose|f: int| 0 <= f < cells.len() && #[trigger] cells[f] is None;
    assert(entries[f].keyed(keys));
    assert(entries[f].key_lo() == 0);
}

/// What a probe of borrowed slots means for the table: it hits exactly when the name is held,
/// and a hit that accumulates leaves the slots sound with the measurement in the tally.
pub proof fn lemma_hot_probe(
    entries: Seq<Entry>,
    keys: Seq<u8>,
    shift: u32,
    used: int,
    name: Seq<u8>,
    hash: u64,
    key_lo: u128,
    k: int,
)
    requires
        slots_ok(entries, keys, shift, used),
        nul_free(name),
        0 < name.len() < 16,
        key_lo == key_half(name, 0),
        agrees(cells_of(entries, keys), name, hash),
        low_probe(entries, slot_of(shift)(hash), key_lo, k),
    ensures
        ({
            let cells = cells_of(entries, keys);
            let m = held(cells, cells.len() as int);
            let at = along(slot_of(shift)(hash), k, entries.len() as int);
            &&& 0 <= slot_of(shift)(hash) < entries.len()
            &&& 0 <= at < entries.len()
            &&& cells.len() == entries.len()
            &&& (entries[at].key_lo() == key_lo) == m.contains_key(name)
            &&& (cells[at] is Some) == m.contains_key(name)
            &&& passed(cells, slot_of(shift)(hash), is_name(name), k)
            &&& distance(slot_of(shift)(hash), at, entries.len() as int) == k
            &&& m.contains_key(name) ==> {
                &&& entries[at].stats() == m[name]
                &&& cells[at]->0.name == name
                &&& cells[at]->0.hash == hash
                &&& cells[at]->0.stats == m[name]
            }
        }),
{
    let cells = cells_of(entries, keys);
    let cap = entries.len() as int;
    let start = slot_of(shift)(hash);
    let at = along(start, k, cap);
    lemma_slot_below(hash, shift);
    assert forall|j: int| 0 <= j < k implies !is_name(name)(#[trigger] cells[along(start, j, cap)])
    by {
        lemma_low_stop(entries, keys, shift, used, name, key_lo, along(start, j, cap));
        assert(!low_stop(entries[along(start, j, cap)], key_lo));
    }
    lemma_low_stop(entries, keys, shift, used, name, key_lo, at);
    lemma_probe(cells, slot_of(shift), name, hash, k);
    assert(cells[at] == entries[at].cell(keys));
}

/// A hit accumulated into borrowed slots.
pub proof fn lemma_hot_noted(
    entries: Seq<Entry>,
    keys: Seq<u8>,
    shift: u32,
    used: int,
    name: Seq<u8>,
    hash: u64,
    key_lo: u128,
    k: int,
    value: int,
)
    requires
        slots_ok(entries, keys, shift, used),
        nul_free(name),
        0 < name.len() < 16,
        key_lo == key_half(name, 0),
        agrees(cells_of(entries, keys), name, hash),
        low_probe(entries, slot_of(shift)(hash), key_lo, k),
        held(cells_of(entries, keys), entries.len() as int).contains_key(name),
        ({
            let e = entries[along(slot_of(shift)(hash), k, entries.len() as int)];
            e.has_room(value)
        }),
        -0x8000 <= value < 0x8000,
    ensures
        ({
            let at = along(slot_of(shift)(hash), k, entries.len() as int);
            let after = entries.update(at, entries[at].and(value));
            &&& slots_ok(after, keys, shift, used)
            &&& held(cells_of(after, keys), after.len() as int) == noted(
                held(cells_of(entries, keys), entries.len() as int),
                name,
                single(value),
            )
            &&& forall|n: Seq<u8>, h: u64| #[trigger]
                agrees(cells_of(after, keys), n, h) == agrees(cells_of(entries, keys), n, h)
        }),
{
    lemma_hot_probe(entries, keys, shift, used, name, hash, key_lo, k);
    let at = along(slot_of(shift)(hash), k, entries.len() as int);
    assert(cells_of(entries, keys)[at] == entries[at].cell(keys));
    lemma_slot_noted(entries, keys, shift, used, at, value);
    crate::output::law_push_is_merge(entries[at].stats(), value);
}

/// A measurement on its way into a table: the name, the hash it goes under, and the value.
pub type Measurement = (Seq<u8>, u64, i16);

/// One table over time: each after the first is the one before with the next measurement
/// upserted.
pub open spec fn history(ts: Seq<InlineTable>, ms: Seq<Measurement>) -> bool {
    &&& ts.len() == ms.len() + 1
    &&& forall|i: int|
        #![trigger ms[i]]
        0 <= i < ms.len() ==> ts[i + 1].upserted(ts[i], ms[i].0, ms[i].1, ms[i].2)
}

/// An offset-keyed table over time: each after the first is the one before with the next
/// measurement upserted, an offset and a length of `data` for its name.
pub open spec fn offset_history(
    us: Seq<Table>,
    data: Seq<u8>,
    ms: Seq<(usize, usize, u64, i16)>,
) -> bool {
    &&& us.len() == ms.len() + 1
    &&& forall|i: int|
        #![trigger ms[i]]
        0 <= i < ms.len() ==> us[i + 1].upserted(us[i], data, ms[i].0, ms[i].1, ms[i].2, ms[i].3)
}

/// **Growth is invisible.** Two tables that start with the same contents and take the same
/// measurements end with the same contents, however many slots each of them started with.
pub proof fn law_growth_is_invisible(
    ts: Seq<InlineTable>,
    us: Seq<InlineTable>,
    ms: Seq<Measurement>,
)
    requires
        history(ts, ms),
        history(us, ms),
        ts[0]@ == us[0]@,
    ensures
        ts.last()@ == us.last()@,
    decreases ms.len(),
{
    if ms.len() > 0 {
        let last = ms.len() - 1;
        assert(ts[last + 1].upserted(ts[last], ms[last].0, ms[last].1, ms[last].2));
        assert(us[last + 1].upserted(us[last], ms[last].0, ms[last].1, ms[last].2));
        law_growth_is_invisible(ts.drop_last(), us.drop_last(), ms.drop_last());
    }
}

/// **The two tables agree.** An inline-key table and an offset-keyed one that start with the
/// same contents and take the same measurements end with the same contents, whatever hashes
/// each of them goes by.
pub proof fn law_tables_agree(
    ts: Seq<InlineTable>,
    xs: Seq<Measurement>,
    us: Seq<Table>,
    data: Seq<u8>,
    ms: Seq<(usize, usize, u64, i16)>,
)
    requires
        history(ts, xs),
        offset_history(us, data, ms),
        xs.len() == ms.len(),
        forall|i: int|
            #![trigger xs[i]]
            0 <= i < ms.len() ==> xs[i].0 == data.subrange(ms[i].0 as int, ms[i].0 + ms[i].1)
                && xs[i].2 == ms[i].3,
        ts[0]@ == us[0].tally(data),
    ensures
        ts.last()@ == us.last().tally(data),
    decreases ms.len(),
{
    if ms.len() > 0 {
        let last = ms.len() - 1;
        assert(ts[last + 1].upserted(ts[last], xs[last].0, xs[last].1, xs[last].2));
        assert(us[last + 1].upserted(
            us[last],
            data,
            ms[last].0,
            ms[last].1,
            ms[last].2,
            ms[last].3,
        ));
        law_tables_agree(ts.drop_last(), xs.drop_last(), us.drop_last(), data, ms.drop_last());
    }
}

} // verus!
