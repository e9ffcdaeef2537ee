//! Sixteen byte lanes side by side, with the lane-wise operations the vector scans are built
//! from.

use vstd::prelude::*;

verus! {

/// All ones in a lane that holds, all zeros in one that does not.
pub open spec fn lane(holds: bool) -> u8 {
    if holds {
        0xFF
    } else {
        0
    }
}

/// What a lane of all ones or all zeros does to another.
proof fn lemma_lane_ops(b: u8)
    ensures
        b & 0xFF == b,
        b & 0 == 0,
        0u8 | 0 == 0,
        0u8 | 0xFF == 0xFF,
        0xFFu8 | 0 == 0xFF,
        0xFFu8 | 0xFF == 0xFF,
{
    assert(b & 0xFF == b && b & 0 == 0 && 0u8 | 0 == 0 && 0u8 | 0xFF == 0xFF && 0xFFu8 | 0 == 0xFF
        && 0xFFu8 | 0xFF == 0xFF) by (bit_vector);
}

/// Lane by lane: does it hold `needle`?
pub fn eq_lanes(v: &[u8; 16], needle: u8) -> (r: [u8; 16])
    ensures
        forall|i: int| 0 <= i < 16 ==> #[trigger] r@[i] == lane(v@[i] == needle),
{
    let mut r: [u8; 16] = [0; 16];
    for i in 0..16usize
        invariant
            forall|j: int| 0 <= j < i ==> #[trigger] r@[j] == lane(v@[j] == needle),
    {
        r[i] = if v[i] == needle {
            0xFF
        } else {
            0
        };
    }
    r
}

/// Lane by lane: is the lane's own index below `n`?
pub fn index_below(n: usize) -> (r: [u8; 16])
    ensures
        forall|i: int| 0 <= i < 16 ==> #[trigger] r@[i] == lane(i < n),
{
    let mut r: [u8; 16] = [0; 16];
    for i in 0..16usize
        invariant
            forall|j: int| 0 <= j < i ==> #[trigger] r@[j] == lane(j < n),
    {
        r[i] = if i < n {
            0xFF
        } else {
            0
        };
    }
    r
}

/// Keeps the lanes of `v` whose mask lane is set and zeroes the others.
pub fn and_lanes(v: &[u8; 16], mask: &[u8; 16]) -> (r: [u8; 16])
    requires
        forall|i: int| 0 <= i < 16 ==> #[trigger] mask@[i] == 0 || mask@[i] == 0xFF,
    ensures
        forall|i: int|
            0 <= i < 16 ==> #[trigger] r@[i] == if mask@[i] == 0xFF {
                v@[i]
            } else {
                0
            },
{
    let mut r: [u8; 16] = [0; 16];
    for i in 0..16usize
        invariant
            forall|i: int| 0 <= i < 16 ==> #[trigger] mask@[i] == 0 || mask@[i] == 0xFF,
            forall|j: int|
                0 <= j < i ==> #[trigger] r@[j] == if mask@[j] == 0xFF {
                    v@[j]
                } else {
                    0
                },
    {
        let b = v[i];
        proof {
            lemma_lane_ops(b);
        }
        assert(mask@[i as int] == 0 || mask@[i as int] == 0xFF);
        r[i] = b & mask[i];
    }
    r
}

/// Moves every lane up by `k`, zeros coming in at the bottom.
pub fn shift_lanes(v: &[u8; 16], k: usize) -> (r: [u8; 16])
    ensures
        forall|i: int|
            0 <= i < 16 ==> #[trigger] r@[i] == if i < k {
                0
            } else {
                v@[i - k]
            },
{
    let mut r: [u8; 16] = [0; 16];
    for i in 0..16usize
        invariant
            forall|j: int|
                0 <= j < i ==> #[trigger] r@[j] == if j < k {
                    0
                } else {
                    v@[j - k]
                },
    {
        r[i] = if i < k {
            0
        } else {
            v[i - k]
        };
    }
    r
}

/// Sets every lane that is set in either mask.
pub fn or_lanes(a: &[u8; 16], b: &[u8; 16]) -> (r: [u8; 16])
    requires
        forall|i: int| 0 <= i < 16 ==> #[trigger] a@[i] == 0 || a@[i] == 0xFF,
        forall|i: int| 0 <= i < 16 ==> #[trigger] b@[i] == 0 || b@[i] == 0xFF,
    ensures
        forall|i: int|
            0 <= i < 16 ==> #[trigger] r@[i] == lane(a@[i] == 0xFF || b@[i] == 0xFF),
{
    let mut r: [u8; 16] = [0; 16];
    for i in 0..16usize
        invariant
            forall|i: int| 0 <= i < 16 ==> #[trigger] a@[i] == 0 || a@[i] == 0xFF,
            forall|i: int| 0 <= i < 16 ==> #[trigger] b@[i] == 0 || b@[i] == 0xFF,
            forall|j: int|
                0 <= j < i ==> #[trigger] r@[j] == lane(a@[j] == 0xFF || b@[j] == 0xFF),
    {
        proof {
            lemma_lane_ops(0);
        }
        assert(a@[i as int] == 0 || a@[i as int] == 0xFF);
        assert(b@[i as int] == 0 || b@[i as int] == 0xFF);
        r[i] = a[i] | b[i];
    }
    r
}

/// Flips every lane of a mask.
pub fn not_lanes(a: &[u8; 16]) -> (r: [u8; 16])
    requires
        forall|i: int| 0 <= i < 16 ==> #[trigger] a@[i] == 0 || a@[i] == 0xFF,
    ensures
        forall|i: int| 0 <= i < 16 ==> #[trigger] r@[i] == lane(a@[i] == 0),
{
    let mut r: [u8; 16] = [0; 16];
    for i in 0..16usize
        invariant
            forall|i: int| 0 <= i < 16 ==> #[trigger] a@[i] == 0 || a@[i] == 0xFF,
            forall|j: int| 0 <= j < i ==> #[trigger] r@[j] == lane(a@[j] == 0),
    {
        assert(a@[i as int] == 0 || a@[i as int] == 0xFF);
        r[i] = if a[i] == 0 {
            0xFF
        } else {
            0
        };
    }
    r
}

/// Narrows a mask to four bits per lane, two lanes to a byte, the earlier lane at the bottom.
pub fn nibble_lanes(a: &[u8; 16]) -> (r: [u8; 8])
    ensures
        forall|j: int|
            0 <= j < 8 ==> #[trigger] r@[j] == (a@[2 * j] >> 4) | (a@[2 * j + 1] << 4),
{
    let mut r: [u8; 8] = [0; 8];
    for i in 0..8usize
        invariant
            forall|j: int|
                0 <= j < i ==> #[trigger] r@[j] == (a@[2 * j] >> 4) | (a@[2 * j + 1] << 4),
    {
        r[i] = (a[2 * i] >> 4) | (a[2 * i + 1] << 4);
    }
    r
}

} // verus!
