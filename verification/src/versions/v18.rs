//! Thrift: fewer operations per row, in the mask and in the digits.

use crate::feed::at_hand;
use crate::feed::by_raw_hash;
use crate::feed::lemma_readable;
use crate::feed::put;
use crate::feed::put_words;
use crate::feed::stocked;
use crate::feed::StationStep;
use crate::feed::TAIL_GUARD;
use crate::inline_table::InlineTable;
use crate::parse::parse_temp_branchless_mul;
use crate::rows::absorb;
use crate::rows::record_at;
use crate::rows::row_next;
use crate::swar::find_semi_and_hash_flat_raw;
use crate::swar::scan_flat_keyed_tz;
use vstd::prelude::*;

verus! {

/// Line streams walked at once.
pub const STREAMS: usize = 2;

/// One row, with the mask driven by the bit position and the digits folded by one multiply.
#[inline(always)]
pub fn step(buf: &[u8], table: &mut InlineTable, pos: usize) -> (next: usize)
    requires
        stocked(*old(table), by_raw_hash()),
        at_hand(*old(table), buf@, pos as int, TAIL_GUARD as int),
    ensures
        stocked(*final(table), by_raw_hash()),
        final(table)@ == absorb(old(table)@, record_at(buf@, pos as int)),
        next == row_next(buf@, pos as int),
{
    proof {
        lemma_readable(buf@, pos as int);
    }
    let Some((semi, hash, klo, khi)) = scan_flat_keyed_tz(buf, pos) else {
        return step_long(buf, table, pos);
    };
    let (value, next) = parse_temp_branchless_mul(buf, semi + 1);
    put_words(table, buf, pos, semi, hash, value, klo, khi);
    next
}

/// A row whose name runs past the scan's window, taken the long way.
#[inline(never)]
fn step_long(buf: &[u8], table: &mut InlineTable, pos: usize) -> (next: usize)
    requires
        stocked(*old(table), by_raw_hash()),
        at_hand(*old(table), buf@, pos as int, TAIL_GUARD as int),
    ensures
        stocked(*final(table), by_raw_hash()),
        final(table)@ == absorb(old(table)@, record_at(buf@, pos as int)),
        next == row_next(buf@, pos as int),
{
    proof {
        lemma_readable(buf@, pos as int);
    }
    let (semi, hash) = find_semi_and_hash_flat_raw(buf, pos);
    let (value, next) = parse_temp_branchless_mul(buf, semi + 1);
    put(table, buf, pos, semi, hash, value, Ghost(by_raw_hash()));
    next
}

/// The version's row, for the drivers.
pub struct Row;

impl StationStep for Row {
    open spec fn hash() -> spec_fn(Seq<u8>) -> u64 {
        by_raw_hash()
    }

    open spec fn reach() -> int {
        TAIL_GUARD as int
    }

    proof fn bounded() {
    }

    #[inline(always)]
    fn feed(table: &mut InlineTable, data: &[u8], pos: usize) -> (next: usize) {
        step(data, table, pos)
    }
}

} // verus!
