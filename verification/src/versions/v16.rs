//! Newline: the next row is found by its newline, not by parsing the value.

use crate::bytes::first_at;
use crate::bytes::lemma_first_at;
use crate::bytes::lemma_first_at_is;
use crate::bytes::NEWLINE;
use crate::engine::ends_in_newline;
use crate::engine::whole_row;
use crate::feed::at_hand;
use crate::feed::by_raw_hash;
use crate::feed::lemma_readable;
use crate::feed::put_words;
use crate::feed::step_long;
use crate::feed::stocked;
use crate::feed::StationStep;
use crate::feed::TAIL_GUARD;
use crate::inline_table::InlineTable;
use crate::parse::parse_temp_branchless;
use crate::rows::absorb;
use crate::rows::lemma_row_shape;
use crate::rows::record_at;
use crate::rows::row_next;
use crate::rows::row_stop;
use crate::swar::keyed;
use crate::swar::line_len_flat;
use crate::swar::scan_flat_keyed;
use crate::swar::LINE_SLACK;
use vstd::prelude::*;

verus! {

/// Line streams walked at once.
pub const STREAMS: usize = 2;

/// One row, whose end is found off its start alone: nothing that the next row waits for
/// depends on the `;` or on the value.
#[inline(always)]
pub fn step(buf: &[u8], table: &mut InlineTable, pos: usize) -> (next: usize)
    requires
        stocked(*old(table), by_raw_hash()),
        at_hand(*old(table), buf@, pos as int, TAIL_GUARD as int),
    ensures
        stocked(*final(table), by_raw_hash()),
        final(table)@ == absorb(old(table)@, record_at(buf@, pos as int)),
        next >= row_next(buf@, pos as int),
        ends_in_newline(buf@, pos as int) ==> next == row_next(buf@, pos as int),
{
    proof {
        lemma_readable(buf@, pos as int);
        lemma_line_len(buf@, pos as int);
    }
    let next = pos + line_len_flat(buf, pos) + 1;
    let Some((semi, hash, klo, khi)) = scan_flat_keyed(buf, pos) else {
        return step_long(buf, table, pos);
    };
    let (value, _) = parse_temp_branchless(buf, semi + 1);
    put_words(table, buf, pos, semi, hash, value, klo, khi);
    next
}

/// The newline search finds the end of a row that fits its window.
pub proof fn lemma_line_len(d: Seq<u8>, pos: int)
    requires
        whole_row(d, pos),
        pos + TAIL_GUARD <= d.len(),
    ensures
        keyed(d, pos) is Some ==> {
            let found = first_at(d, NEWLINE, pos);
            &&& found >= row_stop(d, pos)
            &&& ends_in_newline(d, pos) ==> found == row_stop(d, pos)
            &&& row_stop(d, pos) < pos + LINE_SLACK
        },
{
    lemma_row_shape(d, pos, row_stop(d, pos));
    lemma_first_at(d, NEWLINE, pos);
    if ends_in_newline(d, pos) {
        lemma_first_at_is(d, NEWLINE, pos, row_stop(d, pos));
    }
}

/// The version's row, for the drivers.
pub struct Row;

impl StationStep for Row {
    open spec fn hash() -> spec_fn(Seq<u8>) -> u64 {
        by_raw_hash()
    }

    open spec fn reach() -> int {
        TAIL_GUARD as int
    }

    proof fn bounded() {
    }

    #[inline(always)]
    fn feed(table: &mut InlineTable, data: &[u8], pos: usize) -> (next: usize) {
        step(data, table, pos)
    }
}

} // verus!
