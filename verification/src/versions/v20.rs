//! Vector bounds: the sixteen-lane compare over a fixed-size window.

use crate::bytes::window;
use crate::feed::at_hand;
use crate::feed::by_raw_hash;
use crate::feed::lemma_readable;
use crate::feed::lemma_window_keyed;
use crate::feed::lemma_window_temp;
use crate::feed::put_words;
use crate::feed::step_long;
use crate::feed::stocked;
use crate::feed::StationStep;
use crate::feed::TAIL_GUARD;
use crate::inline_table::InlineTable;
use crate::parse::parse_temp_branchless_win;
use crate::rows::absorb;
use crate::rows::record_at;
use crate::rows::row_next;
use crate::swar::scan_flat_keyed_neon_win;
use vstd::prelude::*;

verus! {

/// Line streams walked at once.
pub const STREAMS: usize = 2;

/// One row, over windows that lie within the slack behind it.
#[inline(always)]
pub fn step(buf: &[u8], table: &mut InlineTable, pos: usize) -> (next: usize)
    requires
        stocked(*old(table), by_raw_hash()),
        at_hand(*old(table), buf@, pos as int, TAIL_GUARD as int),
    ensures
        stocked(*final(table), by_raw_hash()),
        final(table)@ == absorb(old(table)@, record_at(buf@, pos as int)),
        next == row_next(buf@, pos as int),
{
    proof {
        lemma_readable(buf@, pos as int);
    }
    let w: [u8; 16] = window(buf, pos);
    proof {
        lemma_window_keyed(buf@, pos as int, w@);
    }
    let Some((len, hash, klo, khi)) = scan_flat_keyed_neon_win(&w) else {
        return step_long(buf, table, pos);
    };
    let semi = pos + len;
    let v: [u8; 8] = window(buf, semi + 1);
    proof {
        lemma_window_temp(buf@, semi + 1, v@);
    }
    let (value, advance) = parse_temp_branchless_win(&v);
    put_words(table, buf, pos, semi, hash, value, klo, khi);
    semi + 1 + advance
}

/// The version's row, for the drivers.
pub struct Row;

impl StationStep for Row {
    open spec fn hash() -> spec_fn(Seq<u8>) -> u64 {
        by_raw_hash()
    }

    open spec fn reach() -> int {
        TAIL_GUARD as int
    }

    proof fn bounded() {
    }

    #[inline(always)]
    fn feed(table: &mut InlineTable, data: &[u8], pos: usize) -> (next: usize) {
        step(data, table, pos)
    }
}

} // verus!
