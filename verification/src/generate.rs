//! Making input: seeded, so that a given number of rows and seed always produce a byte-identical
//! file, regardless of thread count or scheduling.

use crate::bytes::lemma_first_at_is;
use crate::bytes::NEWLINE;
use crate::bytes::SEMICOLON;
use crate::format::law_names_by_their_bytes;
use crate::output::law_written_tenths_parse_back;
use crate::output::tenths_text;
use crate::output::write_tenths;
use crate::rows::name_ok;
use crate::rows::record_at;
use crate::rows::row_as;
use crate::rows::row_next;
use crate::rows::row_ok;
use crate::rows::row_stop;
use crate::rows::rows;
use crate::rows::rows_as;
use crate::rows::Names;
use crate::rows::Record;
use crate::swar::name_at;
use std::collections::BTreeMap;
use vstd::prelude::*;

verus! {

pub const ROWS_PER_CHUNK: usize = 1_000_000;

/// Max chunks buffered ahead of the writer, to bound memory.
pub const WINDOW: usize = 32;

pub const DEFAULT_SEED: u64 = 0x5EED_1B4C_0FFE_E123;

/// `x` with its bits moved `k` places up, those that fall out at the top coming in at the bottom.
pub open spec fn rotated(x: u64, k: int) -> u64 {
    x << (k as u64) | x >> ((64 - k) as u64)
}

#[inline(always)]
fn rotate(x: u64, k: u64) -> (r: u64)
    requires
        0 < k < 64,
    ensures
        r == rotated(x, k as int),
{
    x << k | x >> (64 - k)
}

/// Where the splitmix64 state goes from `x`.
pub open spec fn split_next(x: u64) -> u64 {
    x.wrapping_add(0x9E37_79B9_7F4A_7C15)
}

/// What splitmix64 makes of a state.
pub open spec fn split_out(x: u64) -> u64 {
    let a = (x ^ (x >> 30)).wrapping_mul(0xBF58_476D_1CE4_E5B9);
    let b = (a ^ (a >> 27)).wrapping_mul(0x94D0_49BB_1331_11EB);
    b ^ (b >> 31)
}

/// Advances a splitmix64 state and draws from it.
pub fn splitmix64(state: &mut u64) -> (z: u64)
    ensures
        *final(state) == split_next(*old(state)),
        z == split_out(*final(state)),
{
    *state = state.wrapping_add(0x9E37_79B9_7F4A_7C15);
    let mut z = *state;
    z = (z ^ (z >> 30)).wrapping_mul(0xBF58_476D_1CE4_E5B9);
    z = (z ^ (z >> 27)).wrapping_mul(0x94D0_49BB_1331_11EB);
    z ^ (z >> 31)
}

/// The four words of a xoshiro256 state.
pub type Words = (u64, u64, u64, u64);

/// The state that a seed makes: four draws of splitmix64 in a row.
pub open spec fn seeded(x: u64) -> Words {
    let a = split_next(x);
    let b = split_next(a);
    let c = split_next(b);
    let d = split_next(c);
    (split_out(a), split_out(b), split_out(c), split_out(d))
}

/// What xoshiro256++ draws from a state.
pub open spec fn drawn(s: Words) -> u64 {
    rotated(s.0.wrapping_add(s.3), 23).wrapping_add(s.0)
}

/// The state after a draw.
pub open spec fn advanced(s: Words) -> Words {
    let c = s.2 ^ s.0;
    let d = s.3 ^ s.1;
    (s.0 ^ d, s.1 ^ c, c ^ (s.1 << 17), rotated(d, 45))
}

/// The fraction `x / 2^64` of `n`.
pub open spec fn scaled(x: u64, n: u32) -> int {
    (x as int) * (n as int) / 0x1_0000_0000_0000_0000
}

/// A seeded source of random words.
pub struct Rng {
    s: [u64; 4],
}

impl View for Rng {
    type V = Words;

    closed spec fn view(&self) -> Words {
        (self.s@[0], self.s@[1], self.s@[2], self.s@[3])
    }
}

impl Rng {
    pub fn seed(x: u64) -> (r: Self)
        ensures
            r@ == seeded(x),
    {
        let mut x = x;
        let a = splitmix64(&mut x);
        let b = splitmix64(&mut x);
        let c = splitmix64(&mut x);
        let d = splitmix64(&mut x);
        Rng { s: [a, b, c, d] }
    }

    /// xoshiro256++
    #[inline]
    pub fn next_u64(&mut self) -> (x: u64)
        ensures
            x == drawn(old(self)@),
            final(self)@ == advanced(old(self)@),
    {
        let result = rotate(self.s[0].wrapping_add(self.s[3]), 23).wrapping_add(self.s[0]);
        let t = self.s[1] << 17;
        self.s[2] = self.s[2] ^ self.s[0];
        self.s[3] = self.s[3] ^ self.s[1];
        self.s[1] = self.s[1] ^ self.s[2];
        self.s[0] = self.s[0] ^ self.s[3];
        self.s[2] = self.s[2] ^ t;
        self.s[3] = rotate(self.s[3], 45);
        result
    }

    /// Lemire's bounded reduction; the residual bias is about `2^-64`.
    #[inline]
    pub fn below(&mut self, n: u32) -> (i: u32)
        ensures
            i == scaled(drawn(old(self)@), n),
            n > 0 ==> i < n,
            n > 0 ==> i * 0x1_0000_0000_0000_0000 <= drawn(old(self)@) * n < (i + 1)
                * 0x1_0000_0000_0000_0000,
            final(self)@ == advanced(old(self)@),
    {
        let x = self.next_u64();
        let product: u128 = mul_wide(x, n);
        let high = product / 0x1_0000_0000_0000_0000;
        proof {
            lemma_scaled(x, n);
            if n > 0 {
                law_draw_is_shared_out(x, n, scaled(x, n));
            }
        }
        high as u32
    }
}

fn mul_wide(x: u64, n: u32) -> (p: u128)
    ensures
        p == x * n,
{
    proof {
        assert(0 <= x * n <= 0xFFFF_FFFF_FFFF_FFFF * 0xFFFF_FFFF) by (nonlinear_arith)
            requires
                0 <= x <= 0xFFFF_FFFF_FFFF_FFFF,
                0 <= n <= 0xFFFF_FFFF,
        ;
    }
    (x as u128) * (n as u128)
}

proof fn lemma_scaled(x: u64, n: u32)
    ensures
        0 <= scaled(x, n) <= u32::MAX,
        n > 0 ==> scaled(x, n) < n,
{
    let p = (x as int) * (n as int);
    assert(0 <= p && (n > 0 ==> p < n * 0x1_0000_0000_0000_0000) && (n == 0 ==> p == 0))
        by (nonlinear_arith)
        requires
            0 <= x < 0x1_0000_0000_0000_0000,
            0 <= n,
            p == (x as int) * (n as int),
    ;
}

/// **Every index has its equal share of the draws.** Of the draws in order, index `i` of `n` gets
/// just those from `i` `n`ths of all of them up to `i + 1` `n`ths.
pub proof fn law_draw_is_shared_out(x: u64, n: u32, i: int)
    requires
        n > 0,
    ensures
        scaled(x, n) == i <==> i * 0x1_0000_0000_0000_0000 <= x * n < (i + 1)
            * 0x1_0000_0000_0000_0000,
        0 <= scaled(x, n) < n,
{
    lemma_scaled(x, n);
}

/// A greater draw never gives a smaller index, and each index is given by some draw.
pub proof fn law_draws_keep_their_order(x: u64, y: u64, n: u32, i: int)
    requires
        x <= y,
        0 <= i < n,
    ensures
        scaled(x, n) <= scaled(y, n),
        exists|z: u64| #[trigger] scaled(z, n) == i,
{
    let all: int = 0x1_0000_0000_0000_0000;
    let (p, q) = (x * n, y * n);
    assert(p <= q) by (nonlinear_arith)
        requires
            0 <= x <= y,
            0 <= n,
            p == x * n,
            q == y * n,
    ;
    law_draw_is_shared_out(x, n, scaled(x, n));
    law_draw_is_shared_out(y, n, scaled(y, n));
    let k = n as int;
    let z = (i * all + k - 1) / k;
    assert(i * all <= z * k < i * all + k && 0 <= z < all) by (nonlinear_arith)
        requires
            z == (i * all + k - 1) / k,
            0 <= i < k,
            k <= all,
            all == 0x1_0000_0000_0000_0000,
    ;
    assert(z * k < (i + 1) * all) by (nonlinear_arith)
        requires
            z * k < i * all + k,
            k <= all,
    ;
    law_draw_is_shared_out(z as u64, n, i);
}

/// The generator that a chunk starts from. It depends on the seed and the chunk's index alone.
pub fn chunk_rng(seed: u64, chunk_index: usize) -> (r: Rng)
    ensures
        r@ == seeded(split_out(split_next(seed ^ (chunk_index as u64)))),
{
    let mut x = seed ^ chunk_index as u64;
    Rng::seed(splitmix64(&mut x))
}

/// Appends a value of at most three digits, in tenths of a degree.
#[inline]
pub fn push_tenths(out: &mut Vec<u8>, t: i32)
    requires
        -999 <= t <= 999,
    ensures
        final(out)@ == old(out)@ + tenths_text(t as int),
{
    write_tenths(out, t as i64)
}

/// A value within what a row can hold.
pub open spec fn clamped(t: int) -> int {
    if t < -999 {
        -999
    } else if t > 999 {
        999
    } else {
        t
    }
}

/// A row: the name and its `;`, the value, and a newline.
pub open spec fn row_text(prefix: Seq<u8>, t: int) -> Seq<u8> {
    prefix + tenths_text(clamped(t)) + seq![NEWLINE]
}

/// Appends a row. The value is clamped: one with three digits before the point would silently
/// corrupt a branchless parser.
#[inline]
pub fn push_row(out: &mut Vec<u8>, prefix: &[u8], tenths: i32)
    ensures
        final(out)@ == old(out)@ + row_text(prefix@, tenths as int),
{
    let ghost before = out@;
    let t: i32 = if tenths < -999 {
        -999
    } else if tenths > 999 {
        999
    } else {
        tenths
    };
    out.extend_from_slice(prefix);
    push_tenths(out, t);
    out.push(NEWLINE);
    assert(out@ =~= before + row_text(prefix@, tenths as int));
}

/// `name` and the `;` after it.
pub open spec fn prefix_of(name: Seq<u8>) -> Seq<u8> {
    name.push(SEMICOLON)
}

/// `name;`, made once so that a row takes one copy instead of two.
pub fn prefix(name: &[u8]) -> (p: Vec<u8>)
    ensures
        p@ == prefix_of(name@),
{
    let mut p: Vec<u8> = Vec::new();
    p.extend_from_slice(name);
    p.push(SEMICOLON);
    assert(p@ =~= prefix_of(name@));
    p
}

/// What is written is what is read: a row appended anywhere stands there as a row of that name
/// and that value, and the next one starts after it.
pub proof fn law_written_row_reads_back(
    before: Seq<u8>,
    name: Seq<u8>,
    t: int,
    after: Seq<u8>,
)
    requires
        name_ok(name),
        !name.contains(SEMICOLON),
    ensures
        ({
            let d = before + row_text(prefix_of(name), t) + after;
            let pos = before.len() as int;
            &&& row_ok(d, pos, d.len() as int)
            &&& record_at(d, pos) == (Record { off: pos, name, value: clamped(t) })
            &&& row_next(d, pos) == pos + row_text(prefix_of(name), t).len()
        }),
{
    let d = before + row_text(prefix_of(name), t) + after;
    let pos = before.len() as int;
    let head = before + prefix_of(name);
    let rest = seq![NEWLINE] + after;
    let v = clamped(t);
    law_written_tenths_parse_back(head, v, rest);
    assert(d =~= head + tenths_text(v) + rest);
    let semi = pos + name.len();
    assert forall|i: int| pos <= i < semi implies d[i] != SEMICOLON by {
        assert(d[i] == name[i - pos]);
        assert(name.contains(name[i - pos]));
    }
    assert(d[semi] == SEMICOLON);
    lemma_first_at_is(d, SEMICOLON, pos, semi);
    assert(name_at(d, pos) =~= name);
    assert(row_stop(d, pos) == head.len() + tenths_text(v).len());
    assert(d[row_stop(d, pos)] == rest[0]);
}

/// How many chunks `rows` rows take.
pub fn num_chunks(rows: usize) -> (n: usize)
    ensures
        n == crate::chunk::chunk_count(rows as int, ROWS_PER_CHUNK as int),
{
    crate::chunk::num_chunks(rows, ROWS_PER_CHUNK)
}

/// How many rows chunk `i` has: all but the last are full.
pub fn rows_in_chunk(rows: usize, i: usize) -> (n: usize)
    requires
        i < crate::chunk::chunk_count(rows as int, ROWS_PER_CHUNK as int),
    ensures
        n == part_rows(rows as int, i as int),
        0 < n <= ROWS_PER_CHUNK,
{
    proof {
        crate::chunk::lemma_chunk_count(rows as int, ROWS_PER_CHUNK as int);
    }
    let left = rows - i * ROWS_PER_CHUNK;
    if left < ROWS_PER_CHUNK {
        left
    } else {
        ROWS_PER_CHUNK
    }
}

/// How many of `rows` rows fall to chunk `i`.
pub open spec fn part_rows(rows: int, i: int) -> int {
    let left = rows - i * ROWS_PER_CHUNK;
    if left < ROWS_PER_CHUNK {
        left
    } else {
        ROWS_PER_CHUNK as int
    }
}

/// How many rows the first `k` chunks have.
pub open spec fn rows_before(rows: int, k: int) -> int
    decreases k,
{
    if k <= 0 {
        0
    } else {
        rows_before(rows, k - 1) + part_rows(rows, k - 1)
    }
}

/// The chunks have as many rows between them as were asked for.
pub proof fn law_chunks_make_up_the_rows(rows: int)
    requires
        rows >= 0,
    ensures
        rows_before(rows, crate::chunk::chunk_count(rows, ROWS_PER_CHUNK as int)) == rows,
{
    let n = crate::chunk::chunk_count(rows, ROWS_PER_CHUNK as int);
    crate::chunk::lemma_chunk_count(rows, ROWS_PER_CHUNK as int);
    if n > 0 {
        lemma_rows_before(rows, n - 1);
    }
}

proof fn lemma_rows_before(rows: int, k: int)
    requires
        0 <= k,
        k * ROWS_PER_CHUNK <= rows,
    ensures
        rows_before(rows, k) == k * ROWS_PER_CHUNK,
    decreases k,
{
    if k > 0 {
        lemma_rows_before(rows, k - 1);
    }
}

/// How many stations to keep of `total`: as many as were asked for, where that makes sense.
pub fn stations_kept(asked: Option<usize>, total: usize) -> (n: usize)
    ensures
        n == match asked {
            Some(k) => if 1 <= k <= total {
                k
            } else {
                total
            },
            None => total,
        },
{
    match asked {
        Some(k) => if 1 <= k && k <= total {
            k
        } else {
            total
        },
        None => total,
    }
}

/// Which of `total` stations is the `i`th that is kept, out of `keep`. By stride rather than
/// prefix: the list is alphabetical, and its first ones would skew the name lengths.
pub fn station_at(i: usize, total: usize, keep: usize) -> (at: usize)
    requires
        i < keep <= total,
        total <= u32::MAX,
    ensures
        at == stride(i as int, total as int, keep as int),
        at < total,
{
    proof {
        lemma_stride(i as int, total as int, keep as int);
        assert(i * total <= u32::MAX * u32::MAX) by (nonlinear_arith)
            requires
                0 <= i <= u32::MAX,
                0 <= total <= u32::MAX,
        ;
    }
    ((i as u64) * (total as u64) / (keep as u64)) as usize
}

pub open spec fn stride(i: int, total: int, keep: int) -> int {
    i * total / keep
}

proof fn lemma_stride(i: int, total: int, keep: int)
    requires
        0 <= i < keep <= total,
    ensures
        0 <= stride(i, total, keep) < total,
{
    assert(0 <= i * total < keep * total && i * total / keep < total && 0 <= i * total / keep)
        by (nonlinear_arith)
        requires
            0 <= i < keep <= total,
    ;
}

/// No station is kept twice, and the first always is.
pub proof fn law_kept_stations_differ(i: int, j: int, total: int, keep: int)
    requires
        0 <= i < j < keep <= total,
    ensures
        stride(i, total, keep) < stride(j, total, keep),
        stride(0, total, keep) == 0,
{
    let a = i * total;
    let b = j * total;
    assert(b >= a + total) by (nonlinear_arith)
        requires
            i + 1 <= j,
            total > 0,
            a == i * total,
            b == j * total,
    ;
    assert(a / keep < b / keep) by (nonlinear_arith)
        requires
            b >= a + keep,
            keep > 0,
    ;
    assert(0 * total / keep == 0) by (nonlinear_arith)
        requires
            keep > 0,
    ;
}

/// Finished chunks on their way to the writer, which emits them strictly in order.
pub struct Pipeline {
    done: BTreeMap<usize, Vec<u8>>,
    next: usize,
}

/// What [`Pipeline`] amounts to: which chunk is written next, and what is finished.
pub struct Flow {
    pub next: int,
    pub done: Map<int, Seq<u8>>,
}

/// The finished chunks and their bytes.
spec fn finished(done: Map<usize, Vec<u8>>) -> Map<int, Seq<u8>> {
    Map::new(
        |k: int| 0 <= k <= usize::MAX && done.contains_key(k as usize),
        |k: int| done[k as usize]@,
    )
}

impl View for Pipeline {
    type V = Flow;

    closed spec fn view(&self) -> Flow {
        Flow { next: self.next as int, done: finished(self.done@) }
    }
}

impl Pipeline {
    pub fn new() -> (p: Self)
        ensures
            p@.next == 0,
            p@.done == Map::<int, Seq<u8>>::empty(),
    {
        Pipeline { done: BTreeMap::new(), next: 0 }
    }

    /// Whether chunk `i` may be started: not too far ahead of the writer.
    pub fn may_start(&self, i: usize) -> (b: bool)
        ensures
            b == (i < self@.next + WINDOW),
            b == (i < self@.next + 32),
    {
        i < self.next || i - self.next < WINDOW
    }

    /// Chunk `i` is finished.
    pub fn put(&mut self, i: usize, bytes: Vec<u8>)
        ensures
            final(self)@ == (Flow {
                next: old(self)@.next,
                done: old(self)@.done.insert(i as int, bytes@),
            }),
    {
        self.done.insert(i, bytes);
        assert(self@.done =~= old(self)@.done.insert(i as int, bytes@));
    }

    /// The chunk to write next has been written, and the one after it is next.
    pub fn written(&mut self)
        requires
            old(self)@.next < usize::MAX,
        ensures
            final(self)@ == (Flow { next: old(self)@.next + 1, done: old(self)@.done }),
    {
        self.next = self.next + 1;
    }

    /// The chunk to write next, if it is finished.
    pub fn take(&mut self) -> (r: Option<Vec<u8>>)
        ensures
            final(self)@.next == old(self)@.next,
            match r {
                Some(bytes) => {
                    &&& old(self)@.done.contains_key(old(self)@.next)
                    &&& bytes@ == old(self)@.done[old(self)@.next]
                    &&& final(self)@.done == old(self)@.done.remove(old(self)@.next)
                },
                None => {
                    &&& !old(self)@.done.contains_key(old(self)@.next)
                    &&& final(self)@.done == old(self)@.done
                },
            },
    {
        let r = self.done.remove(&self.next);
        assert(self@.done =~= old(self)@.done.remove(old(self)@.next));
        r
    }
}

/// What happens to a [`Pipeline`]: a worker finishes a chunk, the writer asks for the next one
/// and may get it, or the writer is done with the one it got.
pub enum Move {
    Put(int, Seq<u8>),
    Take(Option<Seq<u8>>),
    Written,
}

/// What a move does to the flow, as [`Pipeline::put`], [`Pipeline::take`] and
/// [`Pipeline::written`] have it.
pub open spec fn moved(a: Flow, m: Move, b: Flow) -> bool {
    match m {
        Move::Put(i, bytes) => b == (Flow { next: a.next, done: a.done.insert(i, bytes) }),
        Move::Take(Some(bytes)) => {
            &&& a.done.contains_key(a.next)
            &&& bytes == a.done[a.next]
            &&& b == (Flow { next: a.next, done: a.done.remove(a.next) })
        },
        Move::Take(None) => !a.done.contains_key(a.next) && b == a,
        Move::Written => b == (Flow { next: a.next + 1, done: a.done }),
    }
}

/// The writer has got a chunk that it is not done with.
pub open spec fn holding(ms: Seq<Move>) -> bool
    decreases ms.len(),
{
    ms.len() > 0 && match ms.last() {
        Move::Put(_, _) => holding(ms.drop_last()),
        Move::Take(r) => r is Some,
        Move::Written => false,
    }
}

/// The chunks that the writer has got, in that order.
pub open spec fn emitted(ms: Seq<Move>) -> Seq<Seq<u8>>
    decreases ms.len(),
{
    if ms.len() == 0 {
        seq![]
    } else {
        let before = emitted(ms.drop_last());
        match ms.last() {
            Move::Take(Some(bytes)) => before.push(bytes),
            _ => before,
        }
    }
}

/// The move finishes chunk `i`.
pub open spec fn puts(m: Move, i: int) -> bool {
    m matches Move::Put(j, _) && i == j
}

/// Chunk `i` has been finished.
pub open spec fn was_put(ms: Seq<Move>, i: int) -> bool {
    exists|k: int| 0 <= k < ms.len() && #[trigger] puts(ms[k], i)
}

/// A pipeline over time, from the start: each flow is the one before after the next move. The
/// writer is done with a chunk before it asks for another, and workers finish chunk `i` with
/// `text(i)`, in any order and at any time.
pub open spec fn course(fs: Seq<Flow>, ms: Seq<Move>, text: spec_fn(int) -> Seq<u8>) -> bool {
    &&& fs.len() == ms.len() + 1
    &&& fs[0] == (Flow { next: 0, done: Map::empty() })
    &&& forall|k: int| #![trigger ms[k]] 0 <= k < ms.len() ==> moved(fs[k], ms[k], fs[k + 1])
    &&& forall|k: int|
        #![trigger ms[k]]
        0 <= k < ms.len() ==> match ms[k] {
            Move::Put(i, bytes) => 0 <= i && bytes == text(i),
            Move::Take(_) => !holding(ms.take(k)),
            Move::Written => holding(ms.take(k)),
        }
}

proof fn lemma_course(fs: Seq<Flow>, ms: Seq<Move>, text: spec_fn(int) -> Seq<u8>)
    requires
        course(fs, ms, text),
    ensures
        emitted(ms).len() == fs.last().next + if holding(ms) {
            1int
        } else {
            0
        },
        forall|i: int| 0 <= i < emitted(ms).len() ==> #[trigger] emitted(ms)[i] == text(i),
        forall|i: int| #[trigger]
            fs.last().done.contains_key(i) ==> 0 <= i && fs.last().done[i] == text(i),
        forall|k: int|
            0 <= k < ms.len() ==> match #[trigger] ms[k] {
                Move::Put(i, _) => fs.last().done.contains_key(i) || i < emitted(ms).len(),
                _ => true,
            },
    decreases ms.len(),
{
    if ms.len() > 0 {
        let n = ms.len() - 1;
        let before = ms.drop_last();
        assert forall|k: int| #![trigger before[k]] 0 <= k < before.len() implies moved(
            fs.drop_last()[k],
            before[k],
            fs.drop_last()[k + 1],
        ) && match before[k] {
            Move::Put(i, bytes) => 0 <= i && bytes == text(i),
            Move::Take(_) => !holding(before.take(k)),
            Move::Written => holding(before.take(k)),
        } by {
            assert(before[k] == ms[k]);
            assert(before.take(k) =~= ms.take(k));
        }
        lemma_course(fs.drop_last(), before, text);
        assert(moved(fs[n], ms[n], fs[n + 1]));
        assert(ms.take(n) =~= before);
        assert forall|k: int| 0 <= k < ms.len() implies match #[trigger] ms[k] {
            Move::Put(i, _) => fs.last().done.contains_key(i) || i < emitted(ms).len(),
            _ => true,
        } by {
            if k < n {
                assert(before[k] == ms[k]);
            }
        }
    }
}

/// **The file does not show the schedule.** Whatever the order in which chunks are finished, the
/// writer gets them as 0, 1, 2 and so on.
pub proof fn law_chunks_come_out_in_order(
    fs: Seq<Flow>,
    ms: Seq<Move>,
    text: spec_fn(int) -> Seq<u8>,
)
    requires
        course(fs, ms, text),
    ensures
        emitted(ms) == Seq::new(emitted(ms).len(), |i: int| text(i)),
{
    lemma_course(fs, ms, text);
    assert(emitted(ms) =~= Seq::new(emitted(ms).len(), |i: int| text(i)));
}

/// No chunk is left behind: once chunks `0..n` are finished and the writer, asking for another,
/// gets none, it has got all of them, each once.
pub proof fn law_every_chunk_comes_out(
    fs: Seq<Flow>,
    ms: Seq<Move>,
    text: spec_fn(int) -> Seq<u8>,
    n: nat,
)
    requires
        course(fs, ms, text),
        forall|i: int| 0 <= i < n ==> #[trigger] was_put(ms, i),
        forall|k: int|
            0 <= k < ms.len() ==> match #[trigger] ms[k] {
                Move::Put(i, _) => i < n,
                _ => true,
            },
        ms.len() > 0,
        ms.last() == Move::Take(None),
    ensures
        emitted(ms) == Seq::new(n, |i: int| text(i)),
{
    lemma_course(fs, ms, text);
    let last = ms.len() - 1;
    assert(moved(fs[last], ms[last], fs[last + 1]));
    let len = emitted(ms).len() as int;
    assert(len == fs.last().next);
    if len < n {
        assert(was_put(ms, len));
        let k = choose|k: int| 0 <= k < ms.len() && #[trigger] puts(ms[k], len);
        assert(puts(ms[k], len));
        assert(fs.last().done.contains_key(len));
    }
    lemma_emitted_were_put(fs, ms, text, n as int);
    law_chunks_come_out_in_order(fs, ms, text);
}

proof fn lemma_emitted_were_put(
    fs: Seq<Flow>,
    ms: Seq<Move>,
    text: spec_fn(int) -> Seq<u8>,
    n: int,
)
    requires
        n >= 0,
        course(fs, ms, text),
        forall|k: int|
            0 <= k < ms.len() ==> match #[trigger] ms[k] {
                Move::Put(i, _) => i < n,
                _ => true,
            },
    ensures
        emitted(ms).len() <= n,
        forall|i: int| #[trigger] fs.last().done.contains_key(i) ==> i < n,
    decreases ms.len(),
{
    if ms.len() > 0 {
        let last = ms.len() - 1;
        let before = ms.drop_last();
        assert forall|k: int| #![trigger before[k]] 0 <= k < before.len() implies moved(
            fs.drop_last()[k],
            before[k],
            fs.drop_last()[k + 1],
        ) && match before[k] {
            Move::Put(i, bytes) => 0 <= i && bytes == text(i),
            Move::Take(_) => !holding(before.take(k)),
            Move::Written => holding(before.take(k)),
        } && match before[k] {
            Move::Put(i, _) => i < n,
            _ => true,
        } by {
            assert(before[k] == ms[k]);
            assert(before.take(k) =~= ms.take(k));
        }
        lemma_emitted_were_put(fs.drop_last(), before, text, n);
        lemma_course(fs.drop_last(), before, text);
        assert(moved(fs[last], ms[last], fs[last + 1]));
        assert(ms.take(last) =~= before);
    }
}

/// Rotating moves every bit `k` places up, and round from the top to the bottom.
pub proof fn law_rotation_moves_bits(x: u64, k: u64, i: u64)
    requires
        0 < k < 64,
        i < 64,
    ensures
        (rotated(x, k as int) >> i) & 1 == (x >> (if i >= k {
            i - k
        } else {
            i + 64 - k
        }) as u64) & 1,
{
    assert(((x << k | x >> ((64 - k) as u64)) >> i) & 1 == (x >> (if i >= k {
        i - k
    } else {
        i + 64 - k
    }) as u64) & 1) by (bit_vector)
        requires
            0 < k < 64,
            i < 64,
    ;
}

/// What splitmix64 makes of a state, in numbers: twice folded onto itself and multiplied, and folded
/// once more, modulo 2^64 throughout.
pub proof fn law_splitmix_in_numbers(x: u64, a: u64, b: u64)
    requires
        a == ((x ^ ((x / 0x4000_0000) as u64)) * 0xBF58_476D_1CE4_E5B9)
            % 0x1_0000_0000_0000_0000,
        b == ((a ^ ((a / 0x800_0000) as u64)) * 0x94D0_49BB_1331_11EB)
            % 0x1_0000_0000_0000_0000,
    ensures
        split_next(x) == (x + 0x9E37_79B9_7F4A_7C15) % 0x1_0000_0000_0000_0000,
        split_out(x) == b ^ ((b / 0x8000_0000) as u64),
{
    vstd::arithmetic::power2::lemma2_to64();
    vstd::bits::lemma_u64_shr_is_div(x, 30);
    vstd::bits::lemma_u64_shr_is_div(a, 27);
    vstd::bits::lemma_u64_shr_is_div(b, 31);
}

/// What a seed makes, in numbers: four states of splitmix64, equally far apart.
pub proof fn law_seed_in_numbers(x: u64, a: u64, b: u64, c: u64, d: u64)
    requires
        a == (x + 0x9E37_79B9_7F4A_7C15) % 0x1_0000_0000_0000_0000,
        b == (x + 2 * 0x9E37_79B9_7F4A_7C15) % 0x1_0000_0000_0000_0000,
        c == (x + 3 * 0x9E37_79B9_7F4A_7C15) % 0x1_0000_0000_0000_0000,
        d == (x + 4 * 0x9E37_79B9_7F4A_7C15) % 0x1_0000_0000_0000_0000,
    ensures
        seeded(x) == (split_out(a), split_out(b), split_out(c), split_out(d)),
{
    lemma_split_step(x, x as int);
    lemma_split_step(a, x + 0x9E37_79B9_7F4A_7C15);
    lemma_split_step(b, x + 2 * 0x9E37_79B9_7F4A_7C15);
    lemma_split_step(c, x + 3 * 0x9E37_79B9_7F4A_7C15);
}

/// One step on from the state that is `n` modulo 2^64.
pub proof fn lemma_split_step(y: u64, n: int)
    requires
        0 <= n,
        y == n % 0x1_0000_0000_0000_0000,
    ensures
        split_next(y) == (n + 0x9E37_79B9_7F4A_7C15) % 0x1_0000_0000_0000_0000,
{
}

/// What is drawn from a state, in numbers: its outer words added, rotated, and the first added once
/// more, modulo 2^64.
pub proof fn law_draw_in_numbers(s: Words, y: u64)
    requires
        y == (s.0 + s.3) % 0x1_0000_0000_0000_0000,
    ensures
        drawn(s) == (rotated(y, 23) + s.0) % 0x1_0000_0000_0000_0000,
{
}

/// Where a state goes: each word of the next is the exclusive or of words of this one, but for one
/// that is shifted on its way and one that is rotated.
pub proof fn law_state_moves_on(s: Words)
    ensures
        advanced(s).0 == s.0 ^ s.1 ^ s.3,
        advanced(s).1 == s.0 ^ s.1 ^ s.2,
        advanced(s).2 == s.0 ^ s.2 ^ (s.1 << 17),
        advanced(s).3 == rotated(s.1 ^ s.3, 45),
{
    let (p, q, r, t) = s;
    assert({
        &&& p ^ (t ^ q) == p ^ q ^ t
        &&& q ^ (r ^ p) == p ^ q ^ r
        &&& (r ^ p) ^ (q << 17) == p ^ r ^ (q << 17)
        &&& t ^ q == q ^ t
    }) by (bit_vector);
}

/// Drawing on never makes two different states one.
pub proof fn law_states_stay_apart(s: Words, t: Words)
    requires
        advanced(s) == advanced(t),
    ensures
        s == t,
{
    let (a, b, c, d) = s;
    let (e, f, g, h) = t;
    assert({
        &&& a ^ (d ^ b) == e ^ (h ^ f)
        &&& b ^ (c ^ a) == f ^ (g ^ e)
        &&& (c ^ a) ^ (b << 17) == (g ^ e) ^ (f << 17)
        &&& (d ^ b) << 45 | (d ^ b) >> 19 == (h ^ f) << 45 | (h ^ f) >> 19
    } ==> a == e && b == f && c == g && d == h) by (bit_vector);
}

/// Multiplying by an odd number modulo 2^64 keeps numbers apart.
proof fn lemma_times_keeps_apart(x: int, y: int, c: int, inverse: int)
    requires
        0 <= x < 0x1_0000_0000_0000_0000,
        0 <= y < 0x1_0000_0000_0000_0000,
        (c * inverse) % 0x1_0000_0000_0000_0000 == 1,
        (x * c) % 0x1_0000_0000_0000_0000 == (y * c) % 0x1_0000_0000_0000_0000,
    ensures
        x == y,
{
    let m: int = 0x1_0000_0000_0000_0000;
    let a = (x * c) / m;
    let b = (y * c) / m;
    let q = (c * inverse) / m;
    vstd::arithmetic::div_mod::lemma_fundamental_div_mod(x * c, m);
    vstd::arithmetic::div_mod::lemma_fundamental_div_mod(y * c, m);
    vstd::arithmetic::div_mod::lemma_fundamental_div_mod(c * inverse, m);
    let w = x - y;
    assert(w * c == m * (a - b)) by (nonlinear_arith)
        requires
            w == x - y,
            x * c == m * a + (x * c) % m,
            y * c == m * b + (y * c) % m,
            (x * c) % m == (y * c) % m,
    ;
    let k = (a - b) * inverse - q * w;
    assert(w == m * k) by (nonlinear_arith)
        requires
            w * c == m * (a - b),
            c * inverse == m * q + 1,
            k == (a - b) * inverse - q * w,
    ;
    assert(k == 0) by (nonlinear_arith)
        requires
            w == m * k,
            -m < w < m,
            m > 0,
    ;
}

/// splitmix64 makes different words of different states.
pub proof fn law_splitmix_keeps_states_apart(x: u64, y: u64)
    requires
        split_out(x) == split_out(y),
    ensures
        x == y,
{
    let a = x ^ (x >> 30);
    let b = y ^ (y >> 30);
    let (c, d) = (a.wrapping_mul(0xBF58_476D_1CE4_E5B9), b.wrapping_mul(0xBF58_476D_1CE4_E5B9));
    let (e, f) = (c ^ (c >> 27), d ^ (d >> 27));
    let (g, h) = (e.wrapping_mul(0x94D0_49BB_1331_11EB), f.wrapping_mul(0x94D0_49BB_1331_11EB));
    assert({
        &&& g ^ (g >> 31) == h ^ (h >> 31) ==> g == h
        &&& c ^ (c >> 27) == d ^ (d >> 27) ==> c == d
        &&& x ^ (x >> 30) == y ^ (y >> 30) ==> x == y
    }) by (bit_vector);
    if e != f {
        lemma_times_keeps_apart(e as int, f as int, 0x94D0_49BB_1331_11EB, 0x3196_42B2_D24D_8EC3);
    }
    if a != b {
        lemma_times_keeps_apart(a as int, b as int, 0xBF58_476D_1CE4_E5B9, 0x96DE_1B17_3F11_9089);
    }
}

/// The chunks of a file start from different states, whatever the seed.
pub proof fn law_chunks_start_apart(seed: u64, i: u64, j: u64)
    requires
        i != j,
    ensures
        seeded(split_out(split_next(seed ^ i))).0 != seeded(split_out(split_next(seed ^ j))).0,
{
    assert(i != j ==> seed ^ i != seed ^ j) by (bit_vector);
    let (x, y) = (split_next(seed ^ i), split_next(seed ^ j));
    assert(x != y);
    if split_out(x) == split_out(y) {
        law_splitmix_keeps_states_apart(x, y);
    }
    let (v, w) = (split_next(split_out(x)), split_next(split_out(y)));
    assert(v != w);
    if split_out(v) == split_out(w) {
        law_splitmix_keeps_states_apart(v, w);
    }
}

/// A row: the name, a `;`, the value that was drawn, or the nearest that a row can hold, and a
/// newline.
pub proof fn law_row_is_name_and_value(name: Seq<u8>, t: int, v: int)
    requires
        -999 <= v <= 999,
        -999 <= t <= 999 ==> v == t,
        t < -999 ==> v == -999,
        t > 999 ==> v == 999,
    ensures
        row_text(prefix_of(name), t) == name + seq![0x3Bu8] + tenths_text(v) + seq![0x0Au8],
{
    assert(prefix_of(name) =~= name + seq![0x3Bu8]);
}

/// A file of measurements: for each its name, a `;`, its value and a newline.
pub open spec fn file_of(list: Seq<(Seq<u8>, int)>) -> Seq<u8>
    decreases list.len(),
{
    if list.len() == 0 {
        seq![]
    } else {
        file_of(list.drop_last()) + list.last().0 + seq![0x3Bu8] + tenths_text(list.last().1)
            + seq![0x0Au8]
    }
}

proof fn lemma_file_starts(list: Seq<(Seq<u8>, int)>, k: int)
    requires
        0 <= k <= list.len(),
    ensures
        file_of(list.take(k)).len() <= file_of(list).len(),
        file_of(list).take(file_of(list.take(k)).len() as int) == file_of(list.take(k)),
    decreases list.len(),
{
    let part = file_of(list.take(k));
    if k == list.len() {
        assert(list.take(k) =~= list);
        assert(file_of(list).take(part.len() as int) =~= part);
    } else {
        let init = list.drop_last();
        lemma_file_starts(init, k);
        assert(init.take(k) =~= list.take(k));
        assert(file_of(list).take(part.len() as int) =~= file_of(init).take(part.len() as int));
    }
}

/// Line `k` of a file, and what comes before and after it.
proof fn lemma_file_line(list: Seq<(Seq<u8>, int)>, k: int)
    requires
        0 <= k < list.len(),
        1 <= list[k].0.len() <= 100,
        -999 <= list[k].1 <= 999,
        forall|j: int|
            0 <= j < list[k].0.len() ==> #[trigger] list[k].0[j] != 0x0A && list[k].0[j] != 0x3B
                && list[k].0[j] != 0,
    ensures
        ({
            let d = file_of(list);
            let at = file_of(list.take(k)).len() as int;
            &&& at < d.len()
            &&& row_as(d, at, d.len() as int, Names::Keyed)
            &&& record_at(d, at).name == list[k].0
            &&& record_at(d, at).value == list[k].1
            &&& row_next(d, at) == file_of(list.take(k + 1)).len()
            &&& row_next(d, at) > at
        }),
{
    let d = file_of(list);
    let head = file_of(list.take(k));
    let (name, v) = list[k];
    let more = list.take(k + 1);
    lemma_file_starts(list, k + 1);
    assert(more.drop_last() =~= list.take(k));
    let text = row_text(prefix_of(name), v);
    law_row_is_name_and_value(name, v, v);
    assert(file_of(more) =~= head + text);
    let after = d.skip(file_of(more).len() as int);
    assert(d =~= d.take(file_of(more).len() as int) + after);
    assert(d =~= head + text + after);
    assert(!name.contains(SEMICOLON));
    law_written_row_reads_back(head, name, v, after);
    law_names_by_their_bytes(name);
    assert(text.len() > 0);
}

proof fn lemma_file_reads_from(list: Seq<(Seq<u8>, int)>, k: int)
    requires
        forall|i: int|
            0 <= i < list.len() ==> 1 <= (#[trigger] list[i]).0.len() <= 100 && -999 <= list[i].1
                <= 999,
        forall|i: int, j: int|
            0 <= i < list.len() && 0 <= j < list[i].0.len() ==> #[trigger] list[i].0[j] != 0x0A
                && list[i].0[j] != 0x3B && list[i].0[j] != 0,
        0 <= k <= list.len(),
    ensures
        ({
            let d = file_of(list);
            let len = d.len() as int;
            let at = file_of(list.take(k)).len() as int;
            &&& rows_as(d, at, len, len, Names::Keyed)
            &&& rows(d, at, len).len() == list.len() - k
            &&& forall|i: int|
                0 <= i < list.len() - k ==> (#[trigger] rows(d, at, len)[i]).name == list[k + i].0
                    && rows(d, at, len)[i].value == list[k + i].1
        }),
    decreases list.len() - k,
{
    let d = file_of(list);
    let len = d.len() as int;
    let at = file_of(list.take(k)).len() as int;
    if k == list.len() {
        assert(list.take(k) =~= list);
        assert(rows(d, at, len) =~= seq![]);
    } else {
        lemma_file_reads_from(list, k + 1);
        lemma_file_line(list, k);
        let rest = rows(d, row_next(d, at), len);
        assert(rows(d, at, len) =~= seq![record_at(d, at)] + rest);
        assert forall|i: int| 0 <= i < list.len() - k implies (#[trigger] rows(
            d,
            at,
            len,
        )[i]).name == list[k + i].0 && rows(d, at, len)[i].value == list[k + i].1 by {
            if i > 0 {
                assert(rows(d, at, len)[i] == rest[i - 1]);
                assert(rest[i - 1].name == list[k + 1 + (i - 1)].0);
            }
        }
    }
}

/// **What is written is what is read, file by file.** Measurements of any stations, in any number,
/// written one after the other, are rows for every reader, and just those measurements in that
/// order.
pub proof fn law_written_file_reads_back(list: Seq<(Seq<u8>, int)>)
    requires
        forall|i: int|
            0 <= i < list.len() ==> 1 <= (#[trigger] list[i]).0.len() <= 100 && -999 <= list[i].1
                <= 999,
        forall|i: int, j: int|
            0 <= i < list.len() && 0 <= j < list[i].0.len() ==> #[trigger] list[i].0[j] != 0x0A
                && list[i].0[j] != 0x3B && list[i].0[j] != 0,
    ensures
        ({
            let d = file_of(list);
            let len = d.len() as int;
            &&& rows_as(d, 0, len, len, Names::Keyed)
            &&& rows(d, 0, len).len() == list.len()
            &&& forall|i: int|
                0 <= i < list.len() ==> (#[trigger] rows(d, 0, len)[i]).name == list[i].0 && rows(
                    d,
                    0,
                    len,
                )[i].value == list[i].1
        }),
{
    lemma_file_reads_from(list, 0);
    assert(list.take(0) =~= seq![]);
    assert forall|i: int| 0 <= i < list.len() implies (#[trigger] rows(
        file_of(list),
        0,
        file_of(list).len() as int,
    )[i]).name == list[i].0 && rows(file_of(list), 0, file_of(list).len() as int)[i].value
        == list[i].1 by {
        assert(list[0 + i] == list[i]);
    }
}

/// Which rows a chunk has: those whose number, counted from zero, is `i` million and so many.
pub proof fn law_chunk_has_its_million(rows: int, i: int, k: int)
    requires
        0 <= i,
        1_000_000 * i < rows,
        0 <= k < rows,
    ensures
        1_000_000 * i <= k < 1_000_000 * (i + 1) <==> 1_000_000 * i <= k < 1_000_000 * i
            + part_rows(rows, i),
        0 < part_rows(rows, i) <= 1_000_000,
        1_000_000 * i + part_rows(rows, i) <= rows,
{
}

/// Kept stations are spread evenly: the `i`th of `keep` stands at `i` `keep`ths of the list, rounded
/// down.
pub proof fn law_kept_stations_are_spread(i: int, total: int, keep: int)
    requires
        0 <= i < keep <= total,
    ensures
        keep * stride(i, total, keep) <= i * total < keep * (stride(i, total, keep) + 1),
{
    vstd::arithmetic::div_mod::lemma_fundamental_div_mod(i * total, keep);
    vstd::arithmetic::div_mod::lemma_mod_bound(i * total, keep);
    let q = stride(i, total, keep);
    assert(keep * (q + 1) == keep * q + keep) by (nonlinear_arith);
}

} // verus!
