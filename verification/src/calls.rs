//! What calls hand back, in terms of what they are given and nothing else: bytes, numbers and the
//! order of things.

use crate::block::block_delims;
use crate::block::block_newlines;
use crate::block::block_semis;
use crate::block::law_every_block_has_its_mask;
use crate::block::law_marks_determine_the_mask;
use crate::bytes::bytes_eq;
use crate::bytes::find_byte;
use crate::bytes::lemma_first_at;
use crate::bytes::word_at;
use crate::bytes::NEWLINE;
use crate::bytes::SEMICOLON;
use crate::chunk::chunk_bounds;
use crate::chunk::chunk_count;
use crate::chunk::head;
use crate::chunk::law_chunk_owns_the_lines_that_start_in_it;
use crate::chunk::law_chunks_are_as_few_as_hold_the_input;
use crate::chunk::law_reader_is_given_the_lines_that_start_in_its_chunk;
use crate::chunk::law_streams_tile;
use crate::chunk::lemma_chunk_count;
use crate::chunk::local_bounds;
use crate::chunk::num_chunks;
use crate::chunk::split_streams;
use crate::chunk::tail;
use crate::format::law_input_is_rows_line_by_line;
use crate::format::law_names_by_their_bytes;
use crate::format::law_only_rows_are_rows;
use crate::format::law_temperature_by_its_bytes;
use crate::generate::advanced;
use crate::generate::chunk_rng;
use crate::generate::drawn;
use crate::generate::law_chunk_has_its_million;
use crate::generate::law_kept_stations_are_spread;
use crate::generate::lemma_split_step;
use crate::generate::prefix;
use crate::generate::push_row;
use crate::generate::push_tenths;
use crate::generate::rows_in_chunk;
use crate::generate::seeded;
use crate::generate::split_out;
use crate::generate::splitmix64;
use crate::generate::station_at;
use crate::generate::stations_kept;
use crate::generate::Pipeline;
use crate::generate::Rng;
use crate::hash::fx_hash;
use crate::hash::fx_words;
use crate::hot::modes::law_modes_have_one_name_each;
use crate::hot::modes::Mode;
use crate::hot::modes::State;
use crate::hot::modes::Totals;
use crate::hot::sweep::touch;
use crate::hot::sweep::words_folded;
use crate::hot::take::fed_rows;
use crate::hot::take::find_stop;
use crate::hot::take::take;
use crate::inline_table::lemma_shape;
use crate::inline_table::InlineTable;
use crate::intake::take_chunk;
use crate::intake::take_range;
use crate::intake::take_view;
use crate::intake::Intake;
use crate::intake::Outcome;
use crate::merge::law_order_is_of_raw_bytes;
use crate::merge::law_order_is_total;
use crate::merge::lemma_listed;
use crate::merge::place;
use crate::merge::reports;
use crate::merge::Merged;
use crate::merge::Place;
use crate::output::law_mean_rounds_half_up;
use crate::output::mean_tenths;
use crate::output::results_text;
use crate::output::tenths_text;
use crate::output::write_results;
use crate::output::write_tenths;
use crate::output::Stats;
use crate::parse::parse_temp;
use crate::parse::parse_temp_branchless;
use crate::parse::parse_temp_branchless_mul;
use crate::parse::parse_temp_len;
use crate::reading::law_checksum_feels_every_byte;
use crate::reading::next_range;
use crate::reading::read_span;
use crate::reading::reduce;
use crate::rows::absorb_all;
use crate::rows::check_row;
use crate::rows::check_rows;
use crate::rows::joined;
use crate::rows::record_at;
use crate::rows::row_as;
use crate::rows::rows;
use crate::rows::Names;
use crate::rows::Tally;
use crate::swar::finalized;
use crate::swar::find_semi_and_hash;
use crate::swar::find_semi_and_hash_flat;
use crate::swar::find_semi_and_hash_flat_raw;
use crate::swar::find_semi_and_hash_scalar;
use crate::swar::line_len_flat;
use crate::swar::mixed;
use crate::swar::name_hash;
use crate::swar::raw_hash;
use crate::swar::scan_flat_keyed;
use crate::swar::scan_flat_keyed_neon;
use crate::swar::scan_flat_keyed_pfx;
use crate::swar::scan_flat_keyed_tz;
use crate::swar::scan_flat_keyed_vmask;
use crate::table::Table;
use crate::workers::took_buffered;
use crate::workers::took_in_place;
use vstd::prelude::*;

verus! {

/// Whether bytes are a name is a matter of their number, and of newlines and NULs among them.
pub proof fn law_covers_goes_by_bytes(
    names: Names,
    data: &[u8],
    start: usize,
    end: usize,
    b: bool,
)
    requires
        start <= end <= data@.len(),
        call_ensures(Names::covers, (names, data, start, end), b),
    ensures
        b <==> {
            &&& forall|i: int| start <= i < end ==> #[trigger] data@[i] != 0x0A
            &&& names is Held ==> 1 <= end - start <= 0xFFFF_FFFF
            &&& names is Station || names is Keyed ==> 1 <= end - start <= 100
            &&& names is Keyed ==> forall|i: int| start <= i < end ==> #[trigger] data@[i] != 0
        },
{
    let name = data@.subrange(start as int, end as int);
    law_names_by_their_bytes(name);
    assert forall|i: int| start <= i < end implies #[trigger] data@[i] == name[i - start] by {}
    assert forall|i: int| 0 <= i < name.len() implies #[trigger] name[i] == data@[start + i] by {}
}

/// A row is found just where one stands, and the next one after it.
pub proof fn law_check_row_finds_rows(
    data: &[u8],
    pos: usize,
    lim: usize,
    names: Names,
    r: Option<usize>,
)
    requires
        pos <= lim <= data@.len() < usize::MAX,
        call_ensures(check_row, (data, pos, lim, names), r),
    ensures
        r is Some <==> row_as(data@, pos as int, lim as int, names),
        r is Some ==> {
            let n = record_at(data@, pos as int).name.len();
            let neg = data@[pos + n + 1] == 0x2D;
            let at = pos + n + 1 + if neg {
                1int
            } else {
                0
            };
            r->0 == at + if data@[at + 1] == 0x2E {
                4int
            } else {
                5
            }
        },
{
    if r is Some {
        law_only_rows_are_rows(data@, pos as int, lim as int, names);
    }
}

/// Input passes for rows just where there is a row at the start of every line.
pub proof fn law_check_rows_goes_line_by_line(
    data: &[u8],
    start: usize,
    end: usize,
    lim: usize,
    names: Names,
    ok: bool,
)
    requires
        start <= end <= lim <= data@.len() < usize::MAX,
        call_ensures(check_rows, (data, start, end, lim, names), ok),
    ensures
        ok <==> forall|p: int|
            start <= p < end && (p == start || data@[p - 1] == 0x0A) ==> #[trigger] row_as(
                data@,
                p,
                lim as int,
                names,
            ),
{
    law_input_is_rows_line_by_line(data@, start as int, end as int, lim as int, names);
}

/// A range is refused just where a line of it is no row, and then nothing is taken in; where it is
/// not, its rows are, or those before one for which there is no room.
pub proof fn law_range_is_refused_for_a_bad_line<I: Intake>(
    data: &[u8],
    start: usize,
    end: usize,
    lim: usize,
    r: Outcome,
)
    requires
        start <= end <= lim <= data@.len() < usize::MAX,
    ensures
        forall|ctx: &mut I::Ctx| #[trigger]
            call_ensures(take_range::<I>, (ctx, data, start, end, lim), r) ==> {
                &&& r == Outcome::Malformed <==> exists|p: int|
                    start <= p < end && (p == start || data@[p - 1] == 0x0A) && !#[trigger] row_as(
                        data@,
                        p,
                        lim as int,
                        I::names(),
                    )
                &&& r == Outcome::Malformed ==> *final(ctx) == *ctx
                &&& r == Outcome::Fed ==> I::tally(*final(ctx), data@) == absorb_all(
                    I::tally(*ctx, data@),
                    rows(data@, start as int, end as int),
                )
            },
{
    law_input_is_rows_line_by_line(
        data@,
        start as int,
        end as int,
        lim as int,
        I::names(),
    );
}

/// A measurement or two: what statistics come to, field by field.
pub proof fn law_statistics_add_up(v: i16, other: &Stats)
    ensures
        forall|s: Stats| #[trigger]
            call_ensures(Stats::new, (v,), s) ==> s.min == v && s.max == v && s.sum == v && s.count
                == 1,
        forall|s: &mut Stats| #[trigger]
            call_ensures(Stats::push, (s, v), ()) ==> {
                let (a, b) = (*s, *final(s));
                &&& b.min <= a.min && b.min <= v && (b.min == a.min || b.min == v)
                &&& b.max >= a.max && b.max >= v && (b.max == a.max || b.max == v)
                &&& b.sum == a.sum + v
                &&& b.count == a.count + 1
            },
        forall|s: &mut Stats| #[trigger]
            call_ensures(Stats::merge, (s, other), ()) ==> {
                let (a, b) = (*s, *final(s));
                &&& b.min <= a.min && b.min <= other.min && (b.min == a.min || b.min == other.min)
                &&& b.max >= a.max && b.max >= other.max && (b.max == a.max || b.max == other.max)
                &&& b.sum == a.sum + other.sum
                &&& b.count == a.count + other.count
            },
{
}

/// The mean is the nearest number of tenths, the upper one of two.
pub proof fn law_mean_is_the_nearest(sum: i64, count: u32, mean: i64)
    requires
        count > 0,
        call_ensures(mean_tenths, (sum, count), mean),
    ensures
        2 * (mean * count - sum) <= count,
        2 * (sum - mean * count) < count,
{
    law_mean_rounds_half_up(sum as int, count as int);
}

/// What is written goes after what was there, and nothing else changes.
pub proof fn law_text_goes_after_what_was_there(
    tenths: i64,
    entries: &[(Vec<u8>, Stats)],
    prefix: &[u8],
    t: i32,
)
    ensures
        forall|out: &mut Vec<u8>| #[trigger]
            call_ensures(write_tenths, (out, tenths), ()) ==> (*final(out))@ == (*out)@
                + tenths_text(tenths as int),
        forall|out: &mut Vec<u8>| #[trigger]
            call_ensures(write_results, (out, entries), ()) ==> (*final(out))@ == (*out)@
                + results_text(entries@),
        forall|out: &mut Vec<u8>| #[trigger]
            call_ensures(push_tenths, (out, t), ()) ==> (*final(out))@ == (*out)@ + tenths_text(
                t as int,
            ),
        forall|out: &mut Vec<u8>| #[trigger]
            call_ensures(push_row, (out, prefix, t), ()) ==> (*final(out))@ == (*out)@ + prefix@
                + tenths_text(
                if t < -999 {
                    -999
                } else if t > 999 {
                    999
                } else {
                    t as int
                },
            ) + seq![0x0Au8],
{
    assert forall|out: &mut Vec<u8>| #[trigger]
        call_ensures(push_row, (out, prefix, t), ()) implies (*final(out))@ == (*out)@ + prefix@
        + tenths_text(
        if t < -999 {
            -999
        } else if t > 999 {
            999
        } else {
            t as int
        },
    ) + seq![0x0Au8] by {
        assert((*final(out))@ =~= (*out)@ + prefix@ + tenths_text(
            if t < -999 {
                -999
            } else if t > 999 {
                999
            } else {
                t as int
            },
        ) + seq![0x0Au8]);
    }
}

/// A name and a `;`.
pub proof fn law_prefix_is_the_name_and_a_semicolon(name: &[u8], p: Vec<u8>)
    requires
        call_ensures(prefix, (name,), p),
    ensures
        p@ == name@ + seq![0x3Bu8],
{
    assert(p@ =~= name@ + seq![0x3Bu8]);
}

/// Names are placed by their bytes.
pub proof fn law_place_goes_by_raw_bytes(a: &[u8], b: &[u8], p: Place)
    requires
        call_ensures(place, (a, b), p),
    ensures
        p is Same <==> a@ == b@,
        p is Earlier <==> {
            ||| a@.len() < b@.len() && forall|i: int|
                0 <= i < a@.len() ==> #[trigger] a@[i] == b@[i]
            ||| exists|k: int|
                0 <= k < a@.len() && k < b@.len() && #[trigger] a@[k] < b@[k] && forall|i: int|
                    0 <= i < k ==> #[trigger] a@[i] == b@[i]
        },
{
    law_order_is_of_raw_bytes(a@, b@);
    law_order_is_total(a@, b@);
}

/// A measurement pushed, or statistics added, are their station's and change no other's.
pub proof fn law_merged_grows_by_station(
    name: &[u8],
    value: i16,
    stats: &Stats,
    other: Seq<u8>,
)
    ensures
        forall|m: &mut Merged| #[trigger]
            call_ensures(Merged::push, (m, name, value), ()) ==> {
                let (a, b) = ((*m)@, (*final(m))@);
                &&& b.contains_key(name@)
                &&& b[name@].sum == value + if a.contains_key(name@) {
                    a[name@].sum
                } else {
                    0
                }
                &&& b[name@].count == 1 + if a.contains_key(name@) {
                    a[name@].count
                } else {
                    0
                }
                &&& b[name@].min <= value <= b[name@].max
                &&& other != name@ ==> b.contains_key(other) == a.contains_key(other)
                &&& other != name@ && a.contains_key(other) ==> b[other] == a[other]
            },
        forall|m: &mut Merged| #[trigger]
            call_ensures(Merged::add, (m, name, stats), ()) ==> {
                let (a, b) = ((*m)@, (*final(m))@);
                &&& b.contains_key(name@)
                &&& b[name@].sum == stats.sum + if a.contains_key(name@) {
                    a[name@].sum
                } else {
                    0
                }
                &&& b[name@].count == stats.count + if a.contains_key(name@) {
                    a[name@].count
                } else {
                    0
                }
                &&& b[name@].min <= stats.min && stats.max <= b[name@].max
                &&& other != name@ ==> b.contains_key(other) == a.contains_key(other)
                &&& other != name@ && a.contains_key(other) ==> b[other] == a[other]
            },
{
}

/// Tables are added whole or, where a count would pass 32 bits, not at all.
pub proof fn law_tables_are_added_whole(
    t: &InlineTable,
    offsets: &Table,
    data: &[u8],
    other: &Merged,
    ok: bool,
)
    ensures
        forall|m: &mut Merged| #[trigger]
            call_ensures(Merged::add_table, (m, t), ok) ==> added((*m)@, t@, (*final(m))@, ok),
        forall|m: &mut Merged| #[trigger]
            call_ensures(Merged::add_offset_table, (m, offsets, data), ok) ==> added(
                (*m)@,
                offsets.tally(data@),
                (*final(m))@,
                ok,
            ),
        forall|m: &mut Merged| #[trigger]
            call_ensures(Merged::add_merged, (m, other), ok) ==> added(
                (*m)@,
                other@,
                (*final(m))@,
                ok,
            ),
{
}

/// `now` is `a` and `b` together, or where a station would be counted more often than 32 bits can,
/// `a` as it was.
pub open spec fn added(a: Tally, b: Tally, now: Tally, ok: bool) -> bool {
    &&& ok <==> forall|name: Seq<u8>| #[trigger]
        joined(a, b).contains_key(name) ==> joined(a, b)[name].count <= 0xFFFF_FFFF
    &&& now == if ok {
        joined(a, b)
    } else {
        a
    }
}

/// The report of what has been merged goes after what was written before.
pub proof fn law_report_goes_after_what_was_there(m: &Merged)
    ensures
        forall|out: &mut Vec<u8>| #[trigger]
            call_ensures(Merged::report, (m, out), ()) ==> exists|text: Seq<u8>| #[trigger]
                reports(text, m@) && (*final(out))@ == (*out)@ + text,
{
}

/// Stations are listed in the order of their names' bytes, each with what is known of it.
pub proof fn law_entries_are_in_byte_order(
    m: &Merged,
    e: &[(Vec<u8>, Stats)],
    i: int,
    j: int,
    name: Seq<u8>,
)
    requires
        call_ensures(Merged::entries, (m,), e),
        0 <= i < j < e@.len(),
    ensures
        ({
            let (a, b) = (e@[i].0@, e@[j].0@);
            ||| a.len() < b.len() && forall|k: int| 0 <= k < a.len() ==> #[trigger] a[k] == b[k]
            ||| exists|k: int|
                0 <= k < a.len() && k < b.len() && #[trigger] a[k] < b[k] && forall|h: int|
                    0 <= h < k ==> #[trigger] a[h] == b[h]
        }),
        m@.contains_key(e@[i].0@) && m@[e@[i].0@] == e@[i].1@,
        m@.contains_key(name) <==> exists|k: int| 0 <= k < e@.len() && (#[trigger] e@[k]).0@ == name,
{
    lemma_listed(e@, e@.len() as int);
    law_order_is_of_raw_bytes(e@[i].0@, e@[j].0@);
}

/// Every parser reads a temperature as its digits say, and finds the line after it.
pub proof fn law_parsers_read_the_digits(
    d: &[u8],
    p: usize,
    neg: bool,
    wide: bool,
    tens: int,
    ones: int,
    tenth: int,
    r: (i16, usize),
)
    requires
        0 <= tens <= 9,
        0 <= ones <= 9,
        0 <= tenth <= 9,
        ({
            let at = p + if neg {
                1int
            } else {
                0
            };
            let dot = at + if wide {
                2int
            } else {
                1
            };
            &&& dot + 2 <= d@.len()
            &&& neg ==> d@[p as int] == 0x2D
            &&& wide ==> d@[at] == 0x30 + tens
            &&& d@[dot - 1] == 0x30 + ones
            &&& d@[dot] == 0x2E
            &&& d@[dot + 1] == 0x30 + tenth
        }),
        call_ensures(parse_temp, (d, p), r) || call_ensures(parse_temp_branchless, (d, p), r)
            || call_ensures(parse_temp_branchless_mul, (d, p), r),
    ensures
        ({
            let tenths = if wide {
                100 * tens + 10 * ones + tenth
            } else {
                10 * ones + tenth
            };
            r.0 == if neg {
                -tenths
            } else {
                tenths
            }
        }),
        r.1 == p + 4 + (if neg {
            1int
        } else {
            0
        }) + (if wide {
            1int
        } else {
            0
        }),
{
    law_temperature_by_its_bytes(d@, p as int, neg, wide, tens, ones, tenth);
}

/// A parser that is told the length reads the same.
pub proof fn law_parser_told_the_length_reads_the_same(
    d: &[u8],
    p: usize,
    len: usize,
    r: i16,
    s: (i16, usize),
)
    requires
        call_ensures(parse_temp_len, (d, p, len), r),
        call_ensures(parse_temp, (d, p), s),
    ensures
        r == s.0,
{
}

/// Every scan finds the first `;` and hashes what stands before it.
pub proof fn law_scans_find_the_semicolon(data: &[u8], pos: usize, r: (usize, u64))
    requires
        pos <= r.0 < data@.len(),
        call_ensures(find_semi_and_hash, (data, pos), r) || call_ensures(
            find_semi_and_hash_flat,
            (data, pos),
            r,
        ) || call_ensures(find_semi_and_hash_scalar, (data, pos), r),
    ensures
        data@[r.0 as int] == 0x3B,
        forall|i: int| pos <= i < r.0 ==> #[trigger] data@[i] != 0x3B,
        r.1 == name_hash(data@.subrange(pos as int, r.0 as int)),
{
    lemma_first_at(data@, SEMICOLON, pos as int);
}

/// The scans that leave the avalanche out find the same `;`, and those that look at a window find it
/// just where it is in the window, with the bytes before it as two words.
pub proof fn law_windows_find_the_semicolon(
    data: &[u8],
    pos: usize,
    raw: (usize, u64),
    r: Option<(usize, u64, u64, u64)>,
)
    requires
        pos + 16 <= data@.len(),
        call_ensures(find_semi_and_hash_flat_raw, (data, pos), raw),
        raw.0 < data@.len(),
        call_ensures(scan_flat_keyed, (data, pos), r) || call_ensures(
            scan_flat_keyed_tz,
            (data, pos),
            r,
        ) || call_ensures(scan_flat_keyed_neon, (data, pos), r) || call_ensures(
            scan_flat_keyed_vmask,
            (data, pos),
            r,
        ) || call_ensures(scan_flat_keyed_pfx, (data, pos), r),
    ensures
        data@[raw.0 as int] == 0x3B,
        forall|i: int| pos <= i < raw.0 ==> #[trigger] data@[i] != 0x3B,
        raw.1 == raw_hash(data@.subrange(pos as int, raw.0 as int)),
        r is Some <==> raw.0 < pos + 16,
        r is Some ==> {
            let name = data@.subrange(pos as int, raw.0 as int);
            r->0 == (raw.0, raw.1, word_at(name, 0), word_at(name, 8))
        },
{
    lemma_first_at(data@, SEMICOLON, pos as int);
}

/// How far the newline is, as far as 24 bytes show it.
pub proof fn law_line_length_is_to_the_newline(data: &[u8], pos: usize, len: usize)
    requires
        pos + 24 <= data@.len(),
        call_ensures(line_len_flat, (data, pos), len),
    ensures
        len <= 24,
        len < 24 ==> data@[pos + len] == 0x0A,
        forall|i: int| pos <= i < pos + len ==> #[trigger] data@[i] != 0x0A,
{
    lemma_first_at(data@, NEWLINE, pos as int);
}

/// Block masks have a bit to a byte.
pub proof fn law_block_masks_mark_the_bytes(
    p: &[u8],
    both: (u64, u64),
    semis: u64,
    newlines: u64,
    i: u64,
)
    requires
        i < 64 <= p@.len(),
        call_ensures(block_delims, (p,), both),
        call_ensures(block_semis, (p,), semis),
        call_ensures(block_newlines, (p,), newlines),
    ensures
        (both.0 >> i) & 1 == 1 <==> p@[i as int] == 0x3B,
        (both.1 >> i) & 1 == 1 <==> p@[i as int] == 0x0A,
        semis == both.0,
        newlines == both.1,
{
    law_every_block_has_its_mask(p@, 0x3B);
    law_every_block_has_its_mask(p@, 0x0A);
    law_marks_determine_the_mask(semis, both.0, p@, 0x3B);
    law_marks_determine_the_mask(newlines, both.1, p@, 0x0A);
    assert((both.0 >> i) & 1 == 1 <==> p@[i as int] == 0x3B);
    assert((both.1 >> i) & 1 == 1 <==> p@[i as int] == 0x0A);
}

/// A chunk is given the lines that start in it.
pub proof fn law_bounds_give_a_chunk_its_lines(
    data: &[u8],
    i: usize,
    chunk_size: usize,
    r: Option<(usize, usize)>,
    p: int,
)
    requires
        0 < chunk_size,
        call_ensures(chunk_bounds, (data, i, chunk_size), r),
        0 <= p < data@.len(),
        data@.len() <= usize::MAX,
        p == 0 || data@[p - 1] == 0x0A,
    ensures
        (r is Some && (r->0).0 <= p < (r->0).1) <==> i * chunk_size < p <= i * chunk_size + chunk_size
            || i == 0 && p == 0,
        r is Some ==> (r->0).0 < (r->0).1 <= data@.len() && ((r->0).0 == 0 || data@[(r->0).0 - 1] == 0x0A)
            && ((r->0).1 == data@.len() || data@[(r->0).1 - 1] == 0x0A),
{
    law_chunk_owns_the_lines_that_start_in_it(data@, i as int, chunk_size as int, p);
}

/// So is one that sees its bytes alone.
pub proof fn law_local_bounds_give_a_chunk_its_lines(
    view: &[u8],
    base: usize,
    chunk_size: usize,
    r: Option<(usize, usize)>,
    p: int,
)
    requires
        0 < chunk_size,
        call_ensures(local_bounds, (view, base, chunk_size), r),
        0 <= p < view@.len() <= usize::MAX,
        p == 0 || view@[p - 1] == 0x0A,
    ensures
        (r is Some && (r->0).0 <= p < (r->0).1) <==> 0 < p <= chunk_size || base == 0 && p == 0,
        r is Some ==> (r->0).0 < (r->0).1 <= view@.len() && ((r->0).0 == 0 || view@[(r->0).0 - 1] == 0x0A)
            && ((r->0).1 == view@.len() || view@[(r->0).1 - 1] == 0x0A),
{
    law_reader_is_given_the_lines_that_start_in_its_chunk(
        view@,
        base as int,
        chunk_size as int,
        p,
    );
}

/// Streams follow each other without a gap from the start of the range to its end, and are cut
/// where lines start.
pub proof fn law_streams_follow_each_other<const N: usize>(
    data: &[u8],
    start: usize,
    end: usize,
    out: [(usize, usize); N],
    k: int,
)
    requires
        N > 0,
        start <= end <= data@.len(),
        call_ensures(split_streams::<N>, (data, start, end), out),
        0 <= k < N,
    ensures
        out@[0].0 == start,
        out@[N - 1].1 == end,
        start <= out@[k].0 <= out@[k].1 <= end,
        k + 1 < N ==> out@[k].1 == out@[k + 1].0,
        out@[k].0 == start || out@[k].0 == end || data@[out@[k].0 - 1] == 0x0A,
{
    law_streams_tile(data@, start as int, end as int, N as int, k);
    if k + 1 < N {
        law_streams_tile(data@, start as int, end as int, N as int, k + 1);
    }
    assert(out@[0].0 == head(data@, start as int, end as int, N as int, 0));
    assert(out@[N - 1].1 == tail(data@, start as int, end as int, N as int, N - 1));
    assert(out@[k].0 == head(data@, start as int, end as int, N as int, k));
}

/// There are as few chunks as hold the input, and as many as have bytes.
pub proof fn law_chunk_numbers(len: usize, chunk_size: usize, n: usize, rows: usize, parts: usize)
    requires
        0 < chunk_size,
        call_ensures(num_chunks, (len, chunk_size), n),
        call_ensures(crate::generate::num_chunks, (rows,), parts),
    ensures
        len <= n * chunk_size,
        n == 0 || (n - 1) * chunk_size < len,
        rows <= parts * 1_000_000,
        parts == 0 || (parts - 1) * 1_000_000 < rows,
{
    law_chunks_are_as_few_as_hold_the_input(len as int, chunk_size as int, n as int);
    law_chunks_are_as_few_as_hold_the_input(rows as int, 1_000_000, parts as int);
}

/// What is read for a chunk: its own bytes and 107 more, as far as the input goes.
pub proof fn law_reads_reach_past_the_chunk(
    len: usize,
    i: usize,
    chunk_size: usize,
    r: Option<(usize, usize)>,
    range: Option<(usize, usize)>,
)
    requires
        0 < chunk_size,
        call_ensures(read_span, (len, i, chunk_size), r),
        call_ensures(next_range, (len, i, chunk_size), range),
    ensures
        r is Some <==> i * chunk_size < len,
        r is Some ==> (r->0).0 == i * chunk_size && (r->0).0 + (r->0).1 <= len,
        r is Some ==> (r->0).1 == chunk_size + 107 || (r->0).0 + (r->0).1 == len,
        r is Some ==> (r->0).1 <= chunk_size + 107,
        range is Some <==> i * chunk_size < len,
        range is Some ==> (range->0).0 == i * chunk_size && (range->0).1 <= len,
        range is Some ==> (range->0).1 == (i + 1) * chunk_size || (range->0).1 == len,
        range is Some ==> (range->0).1 <= (i + 1) * chunk_size,
{
    let n = chunk_count(len as int, chunk_size as int);
    lemma_chunk_count(len as int, chunk_size as int);
    law_chunks_are_as_few_as_hold_the_input(len as int, chunk_size as int, n);
    assert((i + 1) * chunk_size == i * chunk_size + chunk_size) by (nonlinear_arith);
    assert(i < n <==> i * chunk_size < len) by (nonlinear_arith)
        requires
            len <= n * chunk_size,
            n == 0 || (n - 1) * chunk_size < len,
            chunk_size > 0,
            n >= 0,
            len >= 0,
            i >= 0,
    ;
}

/// What random words are drawn: in order, each index of equal share, and the state moves on by one
/// draw at a time.
pub proof fn law_draws_move_the_state_on(n: u32, x: u64, i: u32)
    ensures
        forall|r: &mut Rng| #[trigger]
            call_ensures(Rng::next_u64, (r,), x) ==> x == drawn((*r)@) && (*final(r))@ == advanced(
                (*r)@,
            ),
        forall|r: &mut Rng| #[trigger]
            call_ensures(Rng::below, (r, n), i) && n > 0 ==> {
                &&& i < n
                &&& i * 0x1_0000_0000_0000_0000 <= drawn((*r)@) * n < (i + 1)
                    * 0x1_0000_0000_0000_0000
                &&& (*final(r))@ == advanced((*r)@)
            },
        forall|state: &mut u64| #[trigger]
            call_ensures(splitmix64, (state,), x) ==> {
                &&& *final(state) == (*state + 0x9E37_79B9_7F4A_7C15) % 0x1_0000_0000_0000_0000
                &&& x == split_out(*final(state))
            },
{
}

/// What generators start from: a seed's four words, and for a chunk those of the word that splitmix64
/// makes of the seed and the chunk's number.
pub proof fn law_generators_start_from_their_seeds(
    x: u64,
    chunk: usize,
    r: Rng,
    of_chunk: Rng,
    z: u64,
)
    requires
        call_ensures(Rng::seed, (x,), r),
        call_ensures(chunk_rng, (x, chunk), of_chunk),
        z == ((x ^ (chunk as u64)) + 0x9E37_79B9_7F4A_7C15) % 0x1_0000_0000_0000_0000,
    ensures
        r@ == seeded(x),
        of_chunk@ == seeded(split_out(z)),
{
    let y = x ^ (chunk as u64);
    lemma_split_step(y, y as int);
}

/// How many rows a chunk gets, how many stations are kept, and which.
pub proof fn law_files_are_laid_out_evenly(
    rows: usize,
    i: usize,
    n: usize,
    asked: Option<usize>,
    total: usize,
    kept: usize,
    k: usize,
    at: usize,
)
    requires
        1_000_000 * i < rows,
        call_ensures(rows_in_chunk, (rows, i), n),
        call_ensures(stations_kept, (asked, total), kept),
        k < kept <= total,
        call_ensures(station_at, (k, total, kept), at),
    ensures
        n <= 1_000_000,
        1_000_000 * i + n <= rows,
        n == 1_000_000 || 1_000_000 * i + n == rows,
        asked is Some && 1 <= asked->0 <= total ==> kept == asked->0,
        asked is None || asked->0 == 0 || asked->0 > total ==> kept == total,
        kept * at <= k * total < kept * (at + 1),
{
    law_chunk_has_its_million(rows as int, i as int, 1_000_000 * i);
    law_kept_stations_are_spread(k as int, total as int, kept as int);
}

/// Finished chunks wait for their turn, 32 of them at most ahead of it.
pub proof fn law_pipeline_keeps_the_order(
    p: &Pipeline,
    i: usize,
    may: bool,
    bytes: Vec<u8>,
    got: Option<Vec<u8>>,
)
    ensures
        call_ensures(Pipeline::may_start, (p, i), may) ==> (may <==> i < p@.next + 32),
        forall|q: &mut Pipeline| #[trigger]
            call_ensures(Pipeline::put, (q, i, bytes), ()) ==> {
                &&& (*final(q))@.next == (*q)@.next
                &&& (*final(q))@.done == (*q)@.done.insert(i as int, bytes@)
            },
        forall|q: &mut Pipeline| #[trigger]
            call_ensures(Pipeline::written, (q,), ()) ==> {
                &&& (*final(q))@.next == (*q)@.next + 1
                &&& (*final(q))@.done == (*q)@.done
            },
        forall|q: &mut Pipeline| #[trigger]
            call_ensures(Pipeline::take, (q,), got) ==> {
                &&& (*final(q))@.next == (*q)@.next
                &&& got is Some <==> (*q)@.done.contains_key((*q)@.next)
                &&& got is Some ==> got->0@ == (*q)@.done[(*q)@.next]
                &&& (*final(q))@.done == (*q)@.done.remove((*q)@.next)
            },
{
    assert forall|q: &mut Pipeline| #[trigger]
        call_ensures(Pipeline::take, (q,), got) implies (*final(q))@.done == (*q)@.done.remove(
        (*q)@.next,
    ) by {
        assert((*final(q))@.done =~= (*q)@.done.remove((*q)@.next));
    }
}

/// Another byte is another checksum, and a sum of zeros is zero.
pub proof fn law_reduce_feels_every_byte(a: &[u8], b: &[u8], k: int, x: u64, y: u64)
    requires
        0 <= k < a@.len(),
        b@ == a@.update(k, b@[k]),
        call_ensures(reduce, (a,), x),
        call_ensures(reduce, (b,), y),
    ensures
        y == x ^ (((a@[k] ^ b@[k]) as u64) << (if k < a@.len() - a@.len() % 8 {
            8 * (k % 8)
        } else {
            0
        }) as u64),
        (forall|i: int| 0 <= i < a@.len() ==> a@[i] == 0) ==> x == 0,
{
    law_checksum_feels_every_byte(0, a@, k, b@[k]);
}

/// A measurement that goes into a table is its station's and changes no other's.
pub proof fn law_tables_grow_by_station(
    data: &[u8],
    off: usize,
    len: usize,
    hash: u64,
    value: i16,
    other: Seq<u8>,
)
    requires
        off + len <= data@.len(),
    ensures
        forall|t: &mut InlineTable| #[trigger]
            call_ensures(InlineTable::upsert, (t, data, off, len, hash, value), ()) ==> counted_in(
                (*t)@,
                (*final(t))@,
                data@.subrange(off as int, off + len),
                value as int,
                other,
            ),
        forall|t: &mut Table| #[trigger]
            call_ensures(Table::upsert, (t, data, off, len, hash, value), ()) ==> counted_in(
                (*t).tally(data@),
                (*final(t)).tally(data@),
                data@.subrange(off as int, off + len),
                value as int,
                other,
            ),
{
}

/// `b` is `a` with one more measurement of `name`, as far as `name` and `other` go.
pub open spec fn counted_in(
    a: Tally,
    b: Tally,
    name: Seq<u8>,
    value: int,
    other: Seq<u8>,
) -> bool {
    &&& b.contains_key(name)
    &&& a.contains_key(name) ==> {
        let (x, y) = (a[name], b[name]);
        &&& y.sum == x.sum + value
        &&& y.count == x.count + 1
        &&& y.min <= x.min && y.min <= value && (y.min == x.min || y.min == value)
        &&& y.max >= x.max && y.max >= value && (y.max == x.max || y.max == value)
    }
    &&& !a.contains_key(name) ==> {
        let y = b[name];
        y.sum == value && y.count == 1 && y.min == value && y.max == value
    }
    &&& other != name ==> b.contains_key(other) == a.contains_key(other)
    &&& other != name && a.contains_key(other) ==> b[other] == a[other]
}

/// A new table has nothing in it, and counts what it has.
pub proof fn law_tables_count_their_stations(
    bits: u32,
    t: InlineTable,
    offsets: Table,
    n: usize,
    d: Seq<u8>,
    any: &InlineTable,
)
    requires
        any.shape_ok(),
    ensures
        call_ensures(InlineTable::new, (bits,), t) ==> t@.dom() == Set::<Seq<u8>>::empty(),
        call_ensures(Table::new, (bits,), offsets) ==> offsets.tally(d).dom() == Set::<
            Seq<u8>,
        >::empty(),
        call_ensures(InlineTable::len, (any,), n) ==> n == any@.len(),
{
    lemma_shape(*any);
    if call_ensures(Table::new, (bits,), offsets) {
        assert(offsets.wf(d));
    }
}

/// How far a mode goes into a chunk, and where it stops short.
pub proof fn law_modes_stop_where_the_guard_lets_them(
    mode: Mode,
    data: &[u8],
    start: usize,
    chunk_end: usize,
    stop: usize,
)
    requires
        start <= chunk_end <= data@.len(),
        call_ensures(find_stop, (mode, data, start, chunk_end), stop),
    ensures
        start <= stop <= chunk_end,
        stop == start || stop + 123 <= data@.len(),
        !mode.bounded() ==> stop == chunk_end || stop == start || stop + 123 == data@.len(),
        mode.bounded() ==> stop == start || data@[stop - 1] == 0x0A,
        mode.bounded() ==> forall|i: int|
            stop <= i < chunk_end && i + 123 < data@.len() ==> #[trigger] data@[i] != 0x0A,
{
}

/// What the threads of a diagnostic run come to together.
pub proof fn law_totals_add_up(acc: u64, rows: u64, entries: usize)
    ensures
        forall|t: &mut Totals| #[trigger]
            call_ensures(Totals::count, (t, acc, rows, entries), ()) ==> {
                &&& (*final(t)).sink == (*t).sink ^ acc
                &&& (*final(t)).rows == (*t).rows + rows
                &&& (*final(t)).distinct == (*t).distinct + entries
            },
{
}

/// A run over a range in a mode refuses it just where a line of it is no row, and then changes
/// nothing; a state says how many rows it has been fed and what they came to.
pub proof fn law_mode_refuses_a_bad_line(
    mode: Mode,
    data: &[u8],
    start: usize,
    end: usize,
    lim: usize,
    r: Outcome,
    stop: int,
)
    requires
        start <= end <= lim <= data@.len(),
        !mode.rowless(),
        stop == if mode.bounded() {
            end as int
        } else {
            lim as int
        },
    ensures
        forall|st: &mut State| #[trigger]
            call_ensures(take, (mode, data, start, end, lim, st), r) ==> {
                &&& r == Outcome::Malformed <==> exists|p: int|
                    start <= p < end && (p == start || data@[p - 1] == 0x0A) && !#[trigger] row_as(
                        data@,
                        p,
                        stop,
                        mode.names(),
                    )
                &&& r == Outcome::Malformed ==> *final(st) == *st
                &&& r == Outcome::Fed ==> fed_rows(
                    mode,
                    *st,
                    *final(st),
                    data@,
                    rows(data@, start as int, end as int),
                )
            },
{
    law_input_is_rows_line_by_line(data@, start as int, end as int, stop, mode.names());
}

/// What a state says of itself.
pub proof fn law_states_say_what_they_hold(st: &State, acc: u64, n: u64)
    requires
        call_ensures(State::acc, (st,), acc),
        call_ensures(State::rows, (st,), n),
    ensures
        match *st {
            State::Plain(c) => acc == c.acc && n == c.n,
            State::Offsets(c) => acc == c.acc && n == c.n,
            State::Inline(c) => acc == c.acc && n == c.n,
            State::Split(c) => acc == c.acc && n == c.n,
        },
{
}

/// Taking in a chunk is what the laws on workers say it is: of the bytes that it is bounded by, where
/// the input is in place, and of those that were read for it where it is not.
pub proof fn law_chunks_are_taken_as_workers_take_them<I: Intake>(
    d: Seq<u8>,
    data: &[u8],
    i: usize,
    chunk_size: usize,
    base: usize,
    avail: usize,
    r: Outcome,
)
    requires
        base == i * chunk_size < d.len(),
        avail <= data@.len(),
        avail == if chunk_size + 107 < d.len() - base {
            chunk_size + 107
        } else {
            d.len() - base
        },
        data@.subrange(0, avail as int) == d.subrange(base as int, base + avail),
    ensures
        forall|ctx: &mut I::Ctx| #[trigger]
            call_ensures(take_chunk::<I>, (ctx, data, i, chunk_size), r) ==> took_in_place::<I>(
                *ctx,
                *final(ctx),
                data@,
                i as int,
                chunk_size as int,
                r,
            ),
        forall|ctx: &mut I::Ctx| #[trigger]
            call_ensures(take_view::<I>, (ctx, data, avail, base, chunk_size), r)
                ==> took_buffered::<I>(
                *ctx,
                *final(ctx),
                d,
                i as int,
                chunk_size as int,
                data@,
                r,
            ),
{
}

/// The hash of bytes, and where a byte first stands.
pub proof fn law_hashes_and_searches_go_by_bytes(
    bytes: &[u8],
    r: u64,
    b: u8,
    from: usize,
    at: usize,
    other: &[u8],
    same: bool,
)
    requires
        call_ensures(fx_hash, (bytes,), r),
        call_ensures(bytes_eq, (bytes, other), same),
        call_ensures(find_byte, (bytes, b, from), at),
        from <= bytes@.len(),
    ensures
        r == finalized(mixed(fx_words(0, bytes@, 0), bytes@.len() as u64)),
        same <==> bytes@ == other@,
        from <= at <= bytes@.len(),
        at < bytes@.len() ==> bytes@[at as int] == b,
        forall|i: int| from <= i < at ==> #[trigger] bytes@[i] != b,
{
    lemma_first_at(bytes@, b, from as int);
}

/// A sweep over a range touches each of its whole words.
pub proof fn law_touch_is_a_sweep(data: &[u8], start: usize, end: usize)
    requires
        start <= end <= data@.len(),
    ensures
        forall|acc: &mut u64| #[trigger]
            call_ensures(touch, (data, start, end, acc), ()) ==> *final(acc) == words_folded(
                *acc,
                data@,
                start as int,
                end as int,
            ),
{
}

/// What has been merged counts its stations, and their measurements.
pub proof fn law_merged_counts_its_stations(
    fresh: Merged,
    m: &Merged,
    n: usize,
    name: &[u8],
    count: Option<u32>,
)
    requires
        call_ensures(Merged::new, (), fresh),
        call_ensures(Merged::len, (m,), n),
        call_ensures(Merged::count_of, (m, name), count),
    ensures
        fresh@.dom() == Set::<Seq<u8>>::empty(),
        n == m@.len(),
        count is Some <==> m@.contains_key(name@),
        count is Some ==> count->0 == m@[name@].count,
{
}

/// A table over offsets counts its stations, and holds one fewer than it has slots.
pub proof fn law_offset_tables_count_their_stations(
    t: &Table,
    data: &[u8],
    n: usize,
    most: usize,
    empty: bool,
)
    requires
        t.wf(data@),
        t.capacity() > 0,
        call_ensures(Table::len, (t,), n),
        call_ensures(Table::max_len, (t,), most),
        call_ensures(Table::is_empty, (t,), empty),
    ensures
        n == t.tally(data@).len(),
        most == t.capacity() - 1,
        empty <==> t.tally(data@).len() == 0,
{
    let d = data@;
    assert(t.wf(d));
    assert((*t).wf(d));
}

/// A mode goes by one name, and a request for any other is refused.
pub proof fn law_modes_are_asked_for_by_name(
    a: &str,
    b: &str,
    x: Option<Mode>,
    y: Option<Mode>,
)
    requires
        call_ensures(Mode::parse, (a,), x),
        call_ensures(Mode::parse, (b,), y),
    ensures
        x is Some && x == y ==> a@ == b@,
        x is Some ==> x->0.known(),
        a@ == b@ ==> x == y,
{
    if x is Some && x == y {
        law_modes_have_one_name_each(a@, b@);
    }
    if x is Some {
        law_modes_have_one_name_each(a@, a@);
    }
}

/// How many entries a state's table has. Those of split streams are left out.
pub proof fn law_states_count_their_entries(st: &State, n: usize)
    requires
        call_ensures(State::entries, (st,), n),
    ensures
        match *st {
            State::Plain(_) => n == 0,
            State::Offsets(c) => forall|d: Seq<u8>| #[trigger]
                c.inner.wf(d) ==> n == c.inner.tally(d).len(),
            State::Inline(c) => c.inner.shape_ok() ==> n == c.inner@.len(),
            State::Split(_) => n == 0,
        },
{
}

} // verus!
