//! Keyed: the probe key comes out of the scan instead of being rebuilt from memory.

use crate::feed::at_hand;
use crate::feed::by_raw_hash;
use crate::feed::lemma_readable;
use crate::feed::put_words;
use crate::feed::step_long;
use crate::feed::stocked;
use crate::feed::StationStep;
use crate::feed::TAIL_GUARD;
use crate::inline_table::InlineTable;
use crate::parse::parse_temp_branchless;
use crate::rows::absorb;
use crate::rows::record_at;
use crate::rows::row_next;
use crate::swar::scan_flat_keyed;
use vstd::prelude::*;

verus! {

/// Line streams walked at once.
pub const STREAMS: usize = 3;

/// One row: scan, parse, and a probe on the low half of the key that the scan already masked.
/// Names of 16 bytes and over take the long way.
#[inline(always)]
pub fn step(buf: &[u8], table: &mut InlineTable, pos: usize) -> (next: usize)
    requires
        stocked(*old(table), by_raw_hash()),
        at_hand(*old(table), buf@, pos as int, TAIL_GUARD as int),
    ensures
        stocked(*final(table), by_raw_hash()),
        final(table)@ == absorb(old(table)@, record_at(buf@, pos as int)),
        next == row_next(buf@, pos as int),
{
    proof {
        lemma_readable(buf@, pos as int);
    }
    let Some((semi, hash, klo, khi)) = scan_flat_keyed(buf, pos) else {
        return step_long(buf, table, pos);
    };
    let (value, next) = parse_temp_branchless(buf, semi + 1);
    put_words(table, buf, pos, semi, hash, value, klo, khi);
    next
}

/// The version's row, for the drivers.
pub struct Row;

impl StationStep for Row {
    open spec fn hash() -> spec_fn(Seq<u8>) -> u64 {
        by_raw_hash()
    }

    open spec fn reach() -> int {
        TAIL_GUARD as int
    }

    proof fn bounded() {
    }

    #[inline(always)]
    fn feed(table: &mut InlineTable, data: &[u8], pos: usize) -> (next: usize) {
        step(data, table, pos)
    }
}

} // verus!
