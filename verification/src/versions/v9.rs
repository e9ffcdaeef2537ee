//! Flat scan: the fused scan over one fixed 16-byte window.

use crate::feed::at_hand;
use crate::feed::by_name_hash;
use crate::feed::lemma_readable;
use crate::feed::put;
use crate::feed::stocked;
use crate::feed::StationStep;
use crate::feed::TAIL_GUARD;
use crate::inline_table::InlineTable;
use crate::parse::parse_temp_branchless;
use crate::rows::absorb;
use crate::rows::record_at;
use crate::rows::row_next;
use crate::swar::find_semi_and_hash_flat;
use vstd::prelude::*;

verus! {

/// Line streams walked at once.
pub const STREAMS: usize = 3;

/// One row: scan, parse, upsert.
#[inline(always)]
pub fn step(buf: &[u8], table: &mut InlineTable, pos: usize) -> (next: usize)
    requires
        stocked(*old(table), by_name_hash()),
        at_hand(*old(table), buf@, pos as int, TAIL_GUARD as int),
    ensures
        stocked(*final(table), by_name_hash()),
        final(table)@ == absorb(old(table)@, record_at(buf@, pos as int)),
        next == row_next(buf@, pos as int),
{
    proof {
        lemma_readable(buf@, pos as int);
    }
    let (semi, hash) = find_semi_and_hash_flat(buf, pos);
    let (value, next) = parse_temp_branchless(buf, semi + 1);
    put(table, buf, pos, semi, hash, value, Ghost(by_name_hash()));
    next
}

/// The version's row, for the drivers.
pub struct Row;

impl StationStep for Row {
    open spec fn hash() -> spec_fn(Seq<u8>) -> u64 {
        by_name_hash()
    }

    open spec fn reach() -> int {
        TAIL_GUARD as int
    }

    proof fn bounded() {
    }

    #[inline(always)]
    fn feed(table: &mut InlineTable, data: &[u8], pos: usize) -> (next: usize) {
        step(data, table, pos)
    }
}

} // verus!
