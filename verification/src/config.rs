//! What the environment variables may set, and what holds where they set nothing sensible.

use crate::MAX_LINE_LEN;
use crate::chunk::CHUNK_SIZE;
use vstd::prelude::*;

verus! {

pub const DEFAULT_THREADS: usize = 8;

/// Slots of a table that grows on demand, as a power of two: a matter of cache behaviour, not a
/// limit of capacity.
pub const DEFAULT_TABLE_BITS: u32 = 14;

/// Slots per table in the diagnostics, where the size is itself under test.
pub const DIAGNOSTIC_TABLE_BITS: u32 = 16;

/// The most slots that may be asked for, as a power of two.
pub const MAX_TABLE_BITS: u32 = 24;

/// Bytes per read where nothing is parsed.
pub const DEFAULT_READ: usize = 0x20_0000;

/// How many threads to run: any number but none.
pub fn threads(asked: Option<usize>) -> (n: usize)
    ensures
        n == match asked {
            Some(k) => if k > 0 {
                k
            } else {
                DEFAULT_THREADS
            },
            None => DEFAULT_THREADS,
        },
{
    match asked {
        Some(k) if k > 0 => k,
        _ => DEFAULT_THREADS,
    }
}

/// How many bytes to a chunk. A chunk must be longer than any line.
pub fn chunk_size(asked: Option<usize>) -> (n: usize)
    ensures
        n == match asked {
            Some(k) => if k > MAX_LINE_LEN {
                k
            } else {
                CHUNK_SIZE
            },
            None => CHUNK_SIZE,
        },
        n > MAX_LINE_LEN,
{
    match asked {
        Some(k) if k > MAX_LINE_LEN => k,
        _ => CHUNK_SIZE,
    }
}

/// How many slots to a table, as a power of two.
pub fn table_bits(asked: Option<u32>) -> (n: u32)
    ensures
        n == match asked {
            Some(k) => if 1 <= k <= MAX_TABLE_BITS {
                k
            } else {
                DEFAULT_TABLE_BITS
            },
            None => DEFAULT_TABLE_BITS,
        },
        1 <= n <= MAX_TABLE_BITS,
{
    match asked {
        Some(k) if 1 <= k && k <= MAX_TABLE_BITS => k,
        _ => DEFAULT_TABLE_BITS,
    }
}

/// [`table_bits`] for the diagnostics, where a table may have a single slot.
pub fn diagnostic_table_bits(asked: Option<u32>) -> (n: u32)
    ensures
        n == match asked {
            Some(k) => if k <= MAX_TABLE_BITS {
                k
            } else {
                DIAGNOSTIC_TABLE_BITS
            },
            None => DIAGNOSTIC_TABLE_BITS,
        },
        n <= MAX_TABLE_BITS,
{
    match asked {
        Some(k) if k <= MAX_TABLE_BITS => k,
        _ => DIAGNOSTIC_TABLE_BITS,
    }
}

/// How many bytes to a read where nothing is parsed.
pub fn read_size(asked: Option<usize>) -> (n: usize)
    ensures
        n == match asked {
            Some(k) => if k > 0 {
                k
            } else {
                DEFAULT_READ
            },
            None => DEFAULT_READ,
        },
        n > 0,
{
    match asked {
        Some(k) if k > 0 => k,
        _ => DEFAULT_READ,
    }
}

/// Whatever sensible thing is asked for is what is used; and what is used is sensible whatever is
/// asked for, the same for every request that is not.
pub proof fn law_sensible_requests_are_granted(
    number: Option<usize>,
    bits: Option<u32>,
    thread_count: usize,
    chunk: usize,
    slots: u32,
    diagnostic_slots: u32,
    read: usize,
)
    requires
        call_ensures(threads, (number,), thread_count),
        call_ensures(chunk_size, (number,), chunk),
        call_ensures(table_bits, (bits,), slots),
        call_ensures(diagnostic_table_bits, (bits,), diagnostic_slots),
        call_ensures(read_size, (number,), read),
    ensures
        number is Some && number->0 > 0 ==> thread_count == number->0 && read == number->0,
        number is Some && number->0 > 107 ==> chunk == number->0,
        bits is Some && 1 <= bits->0 <= 24 ==> slots == bits->0,
        bits is Some && bits->0 <= 24 ==> diagnostic_slots == bits->0,
        number is None || number == Some(0usize) ==> thread_count == 8 && read == 0x20_0000,
        number is None || number->0 <= 107 ==> chunk == 0x10_0000,
        bits is None || bits == Some(0u32) || bits->0 > 24 ==> slots == 14,
        bits is None || bits->0 > 24 ==> diagnostic_slots == 16,
{
}

} // verus!
