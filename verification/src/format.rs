//! The input and the report, byte by byte: which bytes are a row, what it says, what the rows of a
//! station come to, and how that is printed.

use crate::bytes::lemma_first_at;
use crate::bytes::lemma_first_at_is;
use crate::bytes::SEMICOLON;
use crate::chunk::chunk_count;
use crate::feed::fits;
use crate::feed::has_room;
use crate::feed::law_limits_fit;
use crate::feed::offsets_fit;
use crate::feed::offsets_room;
use crate::feed::Offsets;
use crate::feed::StationStep;
use crate::generate::file_of;
use crate::generate::law_written_file_reads_back;
use crate::inline_table::InlineTable;
use crate::intake::Intake;
use crate::intake::Outcome;
use crate::intake::Streams;
use crate::keys::nul_free;
use crate::merge::Merged;
use crate::output::decimal;
use crate::output::entries_text;
use crate::output::entry_text;
use crate::output::law_mean_between_extremes;
use crate::output::law_mean_rounds_half_up;
use crate::output::law_summary_bounds;
use crate::output::magnitude;
use crate::output::merged;
use crate::output::pushed;
use crate::output::results_text;
use crate::output::rounded_mean;
use crate::output::single;
use crate::output::summary;
use crate::output::tenths_text;
use crate::output::Stats;
use crate::output::Summary;
use crate::parse::temp_ok;
use crate::parse::temp_value;
use crate::parse::temp_width;
use crate::rows::bytes_in;
use crate::rows::joined;
use crate::rows::law_tally_summarises;
use crate::rows::lemma_line_shape;
use crate::rows::noted;
use crate::rows::plain_names;
use crate::rows::record_at;
use crate::rows::remaining;
use crate::rows::row_as;
use crate::rows::row_next;
use crate::rows::row_stop;
use crate::rows::rows;
use crate::rows::rows_as;
use crate::rows::tally;
use crate::rows::values_named;
use crate::rows::Names;
use crate::rows::Record;
use crate::rows::Tally;
use crate::swar::name_at;
use crate::table::Table;
use crate::workers::brought;
use crate::workers::buffered_shift;
use crate::workers::claims;
use crate::workers::law_workers_tally_the_file;
use crate::workers::Buffered;
use crate::workers::Shift;
use vstd::prelude::*;

verus! {

/// Which names are read, byte by byte. No byte but the newline is ruled out anywhere, and a NUL
/// only where the name is a key that it ends.
pub proof fn law_names_by_their_bytes(name: Seq<u8>)
    ensures
        Names::Any.cover(name) <==> forall|i: int|
            0 <= i < name.len() ==> #[trigger] name[i] != 0x0A,
        Names::Held.cover(name) <==> 1 <= name.len() <= 0xFFFF_FFFF && forall|i: int|
            0 <= i < name.len() ==> #[trigger] name[i] != 0x0A,
        Names::Station.cover(name) <==> 1 <= name.len() <= 100 && forall|i: int|
            0 <= i < name.len() ==> #[trigger] name[i] != 0x0A,
        Names::Keyed.cover(name) <==> 1 <= name.len() <= 100 && forall|i: int|
            0 <= i < name.len() ==> #[trigger] name[i] != 0x0A && name[i] != 0,
{
}

/// Every version reads every station: a name of 1 to 100 bytes, whatever they are but for the
/// newline, the `;` and the NUL, is one that a row may have.
pub proof fn law_every_version_reads_stations<const N: usize, R: StationStep>(name: Seq<u8>)
    requires
        1 <= name.len() <= 100,
        forall|i: int|
            0 <= i < name.len() ==> #[trigger] name[i] != 0x0A && name[i] != 0x3B && name[i] != 0,
    ensures
        crate::versions::v2::Chunk::names().cover(name),
        crate::versions::v3::Chunk::names().cover(name),
        crate::versions::v4::Chunk::names().cover(name),
        crate::versions::v6::Chunk::names().cover(name),
        crate::versions::v7::Chunk::names().cover(name),
        Streams::<N, R>::names().cover(name),
        crate::versions::v13::Chunk::names().cover(name),
        crate::versions::v17::Chunk::names().cover(name),
{
}

/// The versions that keep no keys also read names that no station has: with a NUL, of any length,
/// and the first of them even none at all.
pub proof fn law_early_versions_read_any_name(name: Seq<u8>)
    requires
        forall|i: int| 0 <= i < name.len() ==> #[trigger] name[i] != 0x0A && name[i] != 0x3B,
    ensures
        crate::versions::v2::Chunk::names().cover(name),
        1 <= name.len() <= 0xFFFF_FFFF ==> crate::versions::v3::Chunk::names().cover(name),
        1 <= name.len() <= 0xFFFF_FFFF ==> crate::versions::v4::Chunk::names().cover(name),
{
}

/// **What a row is.** A name of `n` bytes, a `;`, a `-` where the value is negative, one or two
/// digits, a `.` and one more digit, and then a newline or the end of the input: that is a row, of
/// that name and of that many tenths of a degree, and the next one starts after it.
pub proof fn law_row_by_its_bytes(
    d: Seq<u8>,
    pos: int,
    lim: int,
    n: int,
    neg: bool,
    wide: bool,
    tens: int,
    ones: int,
    tenth: int,
)
    requires
        0 <= pos,
        0 <= n,
        lim <= d.len(),
        0 <= tens <= 9,
        0 <= ones <= 9,
        0 <= tenth <= 9,
        forall|i: int| pos <= i < pos + n ==> #[trigger] d[i] != 0x3B && d[i] != 0x0A,
        ({
            let at = pos + n + 1 + if neg {
                1int
            } else {
                0
            };
            let dot = at + if wide {
                2int
            } else {
                1
            };
            &&& d[pos + n] == 0x3B
            &&& neg ==> d[pos + n + 1] == 0x2D
            &&& wide ==> d[at] == 0x30 + tens
            &&& d[dot - 1] == 0x30 + ones
            &&& d[dot] == 0x2E
            &&& d[dot + 1] == 0x30 + tenth
            &&& dot + 2 <= lim
            &&& dot + 2 < lim ==> d[dot + 2] == 0x0A
        }),
    ensures
        row_as(d, pos, lim, Names::Any),
        1 <= n <= 0xFFFF_FFFF ==> row_as(d, pos, lim, Names::Held),
        1 <= n <= 100 ==> row_as(d, pos, lim, Names::Station),
        1 <= n <= 100 && (forall|i: int| pos <= i < pos + n ==> #[trigger] d[i] != 0) ==> row_as(
            d,
            pos,
            lim,
            Names::Keyed,
        ),
        record_at(d, pos).off == pos,
        record_at(d, pos).name == d.subrange(pos, pos + n),
        ({
            let tenths = if wide {
                100 * tens + 10 * ones + tenth
            } else {
                10 * ones + tenth
            };
            record_at(d, pos).value == if neg {
                -tenths
            } else {
                tenths
            }
        }),
        row_next(d, pos) == pos + n + 5 + (if neg {
            1int
        } else {
            0
        }) + (if wide {
            1int
        } else {
            0
        }),
{
    lemma_first_at_is(d, SEMICOLON, pos, pos + n);
    let name = name_at(d, pos);
    assert(name =~= d.subrange(pos, pos + n));
    assert forall|i: int| 0 <= i < name.len() implies #[trigger] name[i] != 0x0A by {
        assert(d[pos + i] != 0x0A);
    }
    if forall|i: int| pos <= i < pos + n ==> #[trigger] d[i] != 0 {
        assert forall|i: int| 0 <= i < name.len() implies #[trigger] name[i] != 0 by {
            assert(d[pos + i] != 0);
        }
    }
}

/// Nothing else is a row: where one is read, the bytes of [`law_row_by_its_bytes`] stand there,
/// with nothing before the newline or the end that they do not account for.
pub proof fn law_only_rows_are_rows(d: Seq<u8>, pos: int, lim: int, names: Names)
    requires
        row_as(d, pos, lim, names),
        0 <= pos <= lim <= d.len(),
    ensures
        ({
            let n = record_at(d, pos).name.len();
            let neg = d[pos + n + 1] == 0x2D;
            let at = pos + n + 1 + if neg {
                1int
            } else {
                0
            };
            let wide = d[at + 1] != 0x2E;
            let dot = at + if wide {
                2int
            } else {
                1
            };
            &&& forall|i: int| pos <= i < pos + n ==> #[trigger] d[i] != 0x3B && d[i] != 0x0A
            &&& d[pos + n] == 0x3B
            &&& wide ==> 0x30 <= d[at] <= 0x39
            &&& 0x30 <= d[dot - 1] <= 0x39
            &&& d[dot] == 0x2E
            &&& 0x30 <= d[dot + 1] <= 0x39
            &&& dot + 2 <= lim
            &&& dot + 2 < lim ==> d[dot + 2] == 0x0A
            &&& names is Held ==> 1 <= n <= 0xFFFF_FFFF
            &&& names is Station || names is Keyed ==> 1 <= n <= 100
            &&& names is Keyed ==> forall|i: int| pos <= i < pos + n ==> #[trigger] d[i] != 0
        }),
{
    lemma_line_shape(d, pos, lim, names);
    lemma_first_at(d, SEMICOLON, pos);
    let name = name_at(d, pos);
    if names is Keyed {
        assert forall|i: int| pos <= i < pos + name.len() implies #[trigger] d[i] != 0 by {
            assert(name[i - pos] == d[i]);
        }
    }
}

/// **Which input is rows.** Input is rows just where there is one at the start of every line: a line
/// that is none is found, wherever it stands, and no other complaint is made.
pub proof fn law_input_is_rows_line_by_line(
    d: Seq<u8>,
    pos: int,
    end: int,
    lim: int,
    names: Names,
)
    requires
        0 <= pos,
        end <= lim <= d.len(),
    ensures
        rows_as(d, pos, end, lim, names) <==> forall|p: int|
            pos <= p < end && (p == pos || d[p - 1] == 0x0A) ==> #[trigger] row_as(
                d,
                p,
                lim,
                names,
            ),
    decreases remaining(pos, end),
{
    if pos < end {
        if row_as(d, pos, lim, names) {
            let next = row_next(d, pos);
            lemma_line_shape(d, pos, lim, names);
            law_input_is_rows_line_by_line(d, next, end, lim, names);
            if rows_as(d, pos, end, lim, names) {
                assert forall|p: int| pos <= p < end && (p == pos || d[p - 1] == 0x0A) implies
                    #[trigger] row_as(d, p, lim, names) by {
                    if p > pos {
                        assert(p - 1 >= row_stop(d, pos));
                    }
                }
            } else if forall|p: int|
                pos <= p < end && (p == pos || d[p - 1] == 0x0A) ==> #[trigger] row_as(
                    d,
                    p,
                    lim,
                    names,
                ) {
                assert forall|p: int| next <= p < end && (p == next || d[p - 1] == 0x0A) implies
                    #[trigger] row_as(d, p, lim, names) by {
                    assert(d[next - 1] == 0x0A);
                }
                assert(false);
            }
        }
    }
}

/// **Which rows input has.** One for every line, in the order of the lines, each read at its line's
/// start.
pub proof fn law_rows_are_the_lines(d: Seq<u8>, pos: int, end: int, lim: int, names: Names)
    requires
        0 <= pos,
        end <= lim <= d.len(),
        rows_as(d, pos, end, lim, names),
    ensures
        forall|i: int|
            0 <= i < rows(d, pos, end).len() ==> {
                let p = (#[trigger] rows(d, pos, end)[i]).off;
                &&& pos <= p < end
                &&& p == pos || d[p - 1] == 0x0A
                &&& rows(d, pos, end)[i] == record_at(d, p)
            },
        forall|i: int, j: int|
            0 <= i < j < rows(d, pos, end).len() ==> (#[trigger] rows(d, pos, end)[i]).off < (
            #[trigger] rows(d, pos, end)[j]).off,
        forall|p: int|
            pos <= p < end && (p == pos || d[p - 1] == 0x0A) ==> exists|i: int|
                0 <= i < rows(d, pos, end).len() && rows(d, pos, end)[i] == #[trigger] record_at(
                    d,
                    p,
                ),
    decreases remaining(pos, end),
{
    let all = rows(d, pos, end);
    if pos < end {
        let next = row_next(d, pos);
        let rest = rows(d, next, end);
        lemma_line_shape(d, pos, lim, names);
        law_rows_are_the_lines(d, next, end, lim, names);
        assert(all =~= seq![record_at(d, pos)] + rest);
        assert forall|i: int| 0 < i < all.len() implies #[trigger] all[i] == rest[i - 1] by {}
        assert(all[0] == record_at(d, pos));
        assert forall|i: int| 0 <= i < all.len() implies {
            let p = (#[trigger] all[i]).off;
            &&& pos <= p < end
            &&& p == pos || d[p - 1] == 0x0A
            &&& all[i] == record_at(d, p)
        } by {
            if i > 0 {
                assert(all[i] == rest[i - 1]);
                assert(next <= rest[i - 1].off < end);
            }
        }
        assert forall|i: int, j: int| 0 <= i < j < all.len() implies (#[trigger] all[i]).off < (
        #[trigger] all[j]).off by {
            assert(all[j] == rest[j - 1]);
            if i > 0 {
                assert(all[i] == rest[i - 1]);
            }
        }
        assert forall|p: int| pos <= p < end && (p == pos || d[p - 1] == 0x0A) implies exists|
            i: int,
        |
            0 <= i < all.len() && all[i] == #[trigger] record_at(d, p) by {
            if p == pos {
                assert(all[0] == record_at(d, p));
            } else {
                assert(p - 1 >= row_stop(d, pos));
                let i = choose|i: int| 0 <= i < rest.len() && rest[i] == record_at(d, p);
                assert(all[i + 1] == rest[i]);
            }
        }
    }
}

/// The values of the rows that are `name`'s, in the order of the rows.
pub open spec fn values_of(rows: Seq<Record>, name: Seq<u8>) -> Seq<int> {
    rows.filter(|r: Record| r.name == name).map_values(|r: Record| r.value)
}

/// The sum of `values`.
pub open spec fn sum_of(values: Seq<int>) -> int {
    values.fold_left(0, |a: int, v: int| a + v)
}

proof fn lemma_values_of(rows: Seq<Record>, name: Seq<u8>)
    ensures
        values_named(rows, name) == values_of(rows, name),
    decreases rows.len(),
{
    reveal(Seq::filter);
    let mine = |r: Record| r.name == name;
    let value = |r: Record| r.value;
    if rows.len() > 0 {
        let init = rows.drop_last();
        lemma_values_of(init, name);
        if rows.last().name == name {
            assert(rows.filter(mine) == init.filter(mine).push(rows.last()));
            assert(rows.filter(mine).map_values(value) =~= init.filter(mine).map_values(value).push(
                rows.last().value,
            ));
        } else {
            assert(rows.filter(mine) == init.filter(mine));
        }
    } else {
        assert(values_of(rows, name) =~= seq![]);
    }
}

/// The sum of a summary is the sum of what it summarises.
pub proof fn law_summary_sums(values: Seq<int>)
    requires
        values.len() > 0,
    ensures
        summary(values).sum == sum_of(values),
    decreases values.len(),
{
    let plus = |a: int, v: int| a + v;
    reveal_with_fuel(Seq::fold_left, 2);
    if values.len() > 1 {
        law_summary_sums(values.drop_last());
    } else {
        assert(values.drop_last() =~= seq![]);
        assert(values.last() == values[0]);
    }
}

/// **What a tally says of a station.** It has the stations that have rows, and of each the least and
/// the greatest of its values, their sum and their number.
pub proof fn law_tally_by_station(rows: Seq<Record>, name: Seq<u8>)
    ensures
        tally(rows).contains_key(name) <==> exists|i: int|
            0 <= i < rows.len() && (#[trigger] rows[i]).name == name,
        tally(rows).contains_key(name) ==> {
            let s = tally(rows)[name];
            let values = values_of(rows, name);
            &&& s.count == values.len()
            &&& s.sum == sum_of(values)
            &&& values.contains(s.min)
            &&& values.contains(s.max)
            &&& forall|i: int| 0 <= i < values.len() ==> s.min <= #[trigger] values[i] <= s.max
        },
{
    law_tally_summarises(rows, name);
    lemma_values_of(rows, name);
    if tally(rows).contains_key(name) {
        law_summary_bounds(values_named(rows, name));
        law_summary_sums(values_named(rows, name));
    }
}

/// What [`Stats`] hold is what they say.
pub proof fn law_stats_say_what_they_hold(s: Stats)
    ensures
        s@.min == s.min,
        s@.max == s.max,
        s@.sum == s.sum,
        s@.count == s.count,
{
}

/// One more measurement: no extreme but the old ones and the new value, and none missed; the value
/// is in the sum and in the count, once.
pub proof fn law_push_adds_one(s: Summary, v: int)
    ensures
        single(v).min == v && single(v).max == v && single(v).sum == v && single(v).count == 1,
        pushed(s, v).min <= s.min && pushed(s, v).min <= v,
        pushed(s, v).min == s.min || pushed(s, v).min == v,
        pushed(s, v).max >= s.max && pushed(s, v).max >= v,
        pushed(s, v).max == s.max || pushed(s, v).max == v,
        pushed(s, v).sum - s.sum == v,
        pushed(s, v).count - s.count == 1,
{
}

/// Two lots of measurements: the extremes are the outer ones, and nothing is left out of the sum or
/// the count.
pub proof fn law_merge_adds_all(a: Summary, b: Summary)
    ensures
        merged(a, b).min <= a.min && merged(a, b).min <= b.min,
        merged(a, b).min == a.min || merged(a, b).min == b.min,
        merged(a, b).max >= a.max && merged(a, b).max >= b.max,
        merged(a, b).max == a.max || merged(a, b).max == b.max,
        merged(a, b).sum - a.sum == b.sum,
        merged(a, b).count - a.count == b.count,
{
}

/// A note on a station leaves the others alone, and adds to what is known of its own.
pub proof fn law_note_is_of_one_station(m: Tally, name: Seq<u8>, s: Summary, other: Seq<u8>)
    ensures
        noted(m, name, s).contains_key(name),
        !m.contains_key(name) ==> noted(m, name, s)[name] == s,
        m.contains_key(name) ==> {
            let n = noted(m, name, s)[name];
            &&& n.min <= m[name].min && n.min <= s.min && (n.min == m[name].min || n.min == s.min)
            &&& n.max >= m[name].max && n.max >= s.max && (n.max == m[name].max || n.max == s.max)
            &&& n.sum - m[name].sum == s.sum
            &&& n.count - m[name].count == s.count
        },
        other != name ==> noted(m, name, s).contains_key(other) == m.contains_key(other),
        other != name && m.contains_key(other) ==> noted(m, name, s)[other] == m[other],
{
}

/// Joining tallies: a station of either is there, alone as it was, and in both with all of its
/// measurements.
pub proof fn law_joining_is_by_station(a: Tally, b: Tally, name: Seq<u8>)
    ensures
        joined(a, b).contains_key(name) <==> a.contains_key(name) || b.contains_key(name),
        a.contains_key(name) && !b.contains_key(name) ==> joined(a, b)[name] == a[name],
        b.contains_key(name) && !a.contains_key(name) ==> joined(a, b)[name] == b[name],
        a.contains_key(name) && b.contains_key(name) ==> {
            let (n, x, y) = (joined(a, b)[name], a[name], b[name]);
            &&& n.min <= x.min && n.min <= y.min && (n.min == x.min || n.min == y.min)
            &&& n.max >= x.max && n.max >= y.max && (n.max == x.max || n.max == y.max)
            &&& n.sum - x.sum == y.sum
            &&& n.count - x.count == y.count
        },
{
}

/// The number that digits read as.
pub open spec fn number(digits: Seq<u8>) -> int
    decreases digits.len(),
{
    if digits.len() == 0 {
        0
    } else {
        10 * number(digits.drop_last()) + (digits.last() - 0x30)
    }
}

proof fn lemma_decimal_reads(n: nat)
    ensures
        decimal(n).len() >= 1,
        number(decimal(n)) == n,
        forall|i: int| 0 <= i < decimal(n).len() ==> 0x30 <= #[trigger] decimal(n)[i] <= 0x39,
        decimal(n).len() > 1 ==> decimal(n)[0] != 0x30,
        decimal(n)[0] == 0x30 ==> n == 0,
    decreases n,
{
    reveal_with_fuel(number, 2);
    if n < 10 {
        assert(decimal(n).drop_last() =~= seq![]);
    } else {
        lemma_decimal_reads(n / 10);
        assert(decimal(n).drop_last() =~= decimal(n / 10));
        assert(decimal(n)[0] == decimal(n / 10)[0]);
    }
}

/// **How a number of tenths is printed.** A `-` just where it is negative, then digits with a `.`
/// before the last of them, and no zero in front that is not the only digit before the `.`. Without
/// the `.` the digits read as the number.
pub proof fn law_printed_tenths_read_as_the_number(t: int)
    ensures
        ({
            let text = tenths_text(t);
            let body = if t < 0 {
                text.skip(1)
            } else {
                text
            };
            let dot = body.len() - 2;
            &&& t < 0 ==> text[0] == 0x2D
            &&& dot >= 1
            &&& body[dot] == 0x2E
            &&& forall|i: int|
                0 <= i < body.len() && i != dot ==> 0x30 <= #[trigger] body[i] <= 0x39
            &&& dot > 1 ==> body[0] != 0x30
            &&& number(body.remove(dot)) == if t < 0 {
                -t
            } else {
                t
            }
        }),
{
    let text = tenths_text(t);
    let m = magnitude(t);
    let whole = decimal(m / 10);
    let last = (0x30 + m % 10) as u8;
    let body = if t < 0 {
        text.skip(1)
    } else {
        text
    };
    lemma_decimal_reads(m / 10);
    assert(body =~= whole + seq![0x2Eu8, last]);
    let dot = body.len() - 2;
    assert(dot == whole.len());
    assert(body.remove(dot) =~= whole.push(last));
    assert(whole.push(last).drop_last() =~= whole);
    assert forall|i: int| 0 <= i < body.len() && i != dot implies 0x30 <= #[trigger] body[i]
        <= 0x39 by {
        if i < dot {
            assert(body[i] == whole[i]);
        }
    }
    assert(body[0] == whole[0]);
}

/// **How a station is printed.** Its name, `=`, its minimum, `/`, its mean, `/` and its maximum. The
/// mean is the number of tenths nearest to its own sum over its own count, the upper one where two
/// are, and no other number is printed in its place.
pub proof fn law_station_prints_its_mean(name: Seq<u8>, s: Summary, mean: int)
    requires
        s.count > 0,
        2 * (mean * s.count - s.sum) <= s.count,
        2 * (s.sum - mean * s.count) < s.count,
    ensures
        entry_text(name, s) == name + seq![0x3Du8] + tenths_text(s.min) + seq![0x2Fu8]
            + tenths_text(mean) + seq![0x2Fu8] + tenths_text(s.max),
{
    let c = s.count as int;
    let m = rounded_mean(s.sum, c);
    law_mean_rounds_half_up(s.sum, c);
    assert(m == mean) by (nonlinear_arith)
        requires
            c > 0,
            2 * (mean * c - s.sum) <= c,
            2 * (s.sum - mean * c) < c,
            2 * (m * c - s.sum) <= c,
            2 * (s.sum - m * c) < c,
    ;
}

/// The mean that is printed of a station of a tally is that of its rows, and lies between the
/// minimum and the maximum that are printed beside it.
pub proof fn law_printed_mean_is_of_the_rows(rows: Seq<Record>, name: Seq<u8>, mean: int)
    requires
        tally(rows).contains_key(name),
        ({
            let values = values_of(rows, name);
            &&& 2 * (mean * values.len() - sum_of(values)) <= values.len()
            &&& 2 * (sum_of(values) - mean * values.len()) < values.len()
        }),
    ensures
        ({
            let s = tally(rows)[name];
            &&& entry_text(name, s) == name + seq![0x3Du8] + tenths_text(s.min) + seq![0x2Fu8]
                + tenths_text(mean) + seq![0x2Fu8] + tenths_text(s.max)
            &&& s.min <= mean <= s.max
        }),
{
    let s = tally(rows)[name];
    let values = values_of(rows, name);
    law_tally_by_station(rows, name);
    law_station_prints_its_mean(name, s, mean);
    law_tally_summarises(rows, name);
    lemma_values_of(rows, name);
    law_mean_between_extremes(values);
    law_mean_rounds_half_up(s.sum, s.count as int);
    let c = s.count as int;
    let m = rounded_mean(s.sum, c);
    assert(m == mean) by (nonlinear_arith)
        requires
            c > 0,
            2 * (mean * c - s.sum) <= c,
            2 * (s.sum - mean * c) < c,
            2 * (m * c - s.sum) <= c,
            2 * (s.sum - m * c) < c,
    ;
}

proof fn lemma_entries_prefix(
    a: Seq<(Vec<u8>, Stats)>,
    b: Seq<(Vec<u8>, Stats)>,
    n: nat,
)
    requires
        n <= a.len(),
        n <= b.len(),
        forall|i: int| 0 <= i < n ==> #[trigger] a[i] == b[i],
    ensures
        entries_text(a, n) == entries_text(b, n),
    decreases n,
{
    if n > 0 {
        lemma_entries_prefix(a, b, (n - 1) as nat);
        assert(a[n - 1] == b[n - 1]);
    }
}

/// **How stations are printed together.** Nothing but the braces and a newline where there is none;
/// and each one more goes before the closing brace, after a `, ` if it is not the first.
pub proof fn law_report_is_its_stations(
    entries: Seq<(Vec<u8>, Stats)>,
    name: Vec<u8>,
    stats: Stats,
)
    ensures
        results_text(seq![]) == seq![0x7Bu8, 0x7D, 0x0A],
        results_text(entries).len() >= 3,
        results_text(entries.push((name, stats))) == results_text(entries).take(
            results_text(entries).len() - 2,
        ) + (if entries.len() > 0 {
            seq![0x2Cu8, 0x20]
        } else {
            seq![]
        }) + entry_text(name@, stats@) + seq![0x7Du8, 0x0A],
{
    let n = entries.len();
    let more = entries.push((name, stats));
    assert(entries_text(seq![], 0) =~= seq![]);
    assert(results_text(seq![]) =~= seq![0x7Bu8, 0x7D, 0x0A]);
    lemma_entries_prefix(entries, more, n);
    assert(more[n as int] == (name, stats));
    assert(results_text(entries).take(results_text(entries).len() - 2) =~= seq![0x7Bu8]
        + entries_text(entries, n));
    assert(results_text(more) =~= results_text(entries).take(results_text(entries).len() - 2) + (
    if n > 0 {
        seq![0x2Cu8, 0x20]
    } else {
        seq![]
    }) + entry_text(name@, stats@) + seq![0x7Du8, 0x0A]);
}

/// The bytes and the bounds that the rest goes by.
pub proof fn law_format_is_the_challenges()
    ensures
        crate::bytes::NEWLINE == 0x0A,
        crate::bytes::SEMICOLON == 0x3B,
        crate::bytes::MINUS == 0x2D,
        crate::bytes::DOT == 0x2E,
        crate::bytes::DIGIT_0 == 0x30,
        crate::bytes::DIGIT_9 == 0x39,
        crate::rows::MAX_NAME_LEN == 100,
        crate::MAX_LINE_LEN == 107,
        crate::MAX_STATIONS == 10_000,
        crate::feed::OVERLAP == 107,
        crate::feed::TAIL_GUARD == 123,
        crate::feed::LOOP_GUARD == 115,
        crate::block::BLOCK == 64,
        crate::chunk::CHUNK_SIZE == 1_048_576,
        crate::generate::ROWS_PER_CHUNK == 1_000_000,
        crate::generate::WINDOW == 32,
        crate::generate::DEFAULT_SEED == 0x5EED_1B4C_0FFE_E123,
        crate::config::DEFAULT_THREADS == 8,
        crate::config::DEFAULT_TABLE_BITS == 14,
        crate::config::DIAGNOSTIC_TABLE_BITS == 16,
        crate::config::MAX_TABLE_BITS == 24,
        crate::config::DEFAULT_READ == 2_097_152,
        crate::versions::v3::TABLE_BITS == 16,
        crate::versions::v4::TABLE_BITS == 16,
        crate::versions::v6::TABLE_BITS == 16,
        crate::versions::v6::TAIL_BITS == 8,
{
}

/// **Every version has room for what the challenge allows**: 10,000 stations of names without a NUL,
/// and as many rows as 32 bits count. A table that does not grow needs more slots than that.
pub proof fn law_every_version_has_room<const N: usize, R: StationStep>(
    rows: Seq<Record>,
    size: nat,
)
    requires
        rows.len() <= 0xFFFF_FFFF,
        tally(rows).len() <= 10_000,
        forall|i: int| 0 <= i < rows.len() ==> 1 <= (#[trigger] rows[i]).name.len() <= 100,
        forall|i: int, j: int|
            0 <= i < rows.len() && 0 <= j < rows[i].name.len() ==> #[trigger] rows[i].name[j] != 0x0A
                && rows[i].name[j] != 0x3B && rows[i].name[j] != 0,
    ensures
        crate::versions::v2::Chunk::fits(size, tally(rows)),
        size > 10_000 ==> crate::versions::v3::Chunk::fits(size, tally(rows)),
        size > 10_000 ==> crate::versions::v4::Chunk::fits(size, tally(rows)),
        crate::versions::v6::Chunk::fits(size, tally(rows)),
        crate::versions::v7::Chunk::fits(size, tally(rows)),
        Streams::<N, R>::fits(size, tally(rows)),
        crate::versions::v13::Chunk::fits(size, tally(rows)),
        crate::versions::v17::Chunk::fits(size, tally(rows)),
{
    assert forall|i: int| 0 <= i < rows.len() implies Names::Keyed.cover(
        (#[trigger] rows[i]).name,
    ) by {
        assert forall|j: int| 0 <= j < rows[i].name.len() implies #[trigger] rows[i].name[j] != 0x0A
            && rows[i].name[j] != 0 by {}
        law_names_by_their_bytes(rows[i].name);
    }
    law_limits_fit(rows);
    if size > 10_000 {
        assert(offsets_fit(Offsets { capacity: size, tally: tally(rows) }));
    }
}

/// A temperature, byte by byte: a `-` where it is negative, one or two digits, a `.` and a digit.
pub proof fn law_temperature_by_its_bytes(
    d: Seq<u8>,
    p: int,
    neg: bool,
    wide: bool,
    tens: int,
    ones: int,
    tenth: int,
)
    requires
        0 <= p,
        0 <= tens <= 9,
        0 <= ones <= 9,
        0 <= tenth <= 9,
        ({
            let at = p + if neg {
                1int
            } else {
                0
            };
            let dot = at + if wide {
                2int
            } else {
                1
            };
            &&& dot + 2 <= d.len()
            &&& neg ==> d[p] == 0x2D
            &&& wide ==> d[at] == 0x30 + tens
            &&& d[dot - 1] == 0x30 + ones
            &&& d[dot] == 0x2E
            &&& d[dot + 1] == 0x30 + tenth
        }),
    ensures
        temp_ok(d, p),
        ({
            let tenths = if wide {
                100 * tens + 10 * ones + tenth
            } else {
                10 * ones + tenth
            };
            temp_value(d, p) == if neg {
                -tenths
            } else {
                tenths
            }
        }),
        temp_width(d, p) == 3 + (if neg {
            1int
        } else {
            0
        }) + (if wide {
            1int
        } else {
            0
        }),
{
}

/// What room each version has: that of its table, and none of it is left unused.
pub proof fn law_versions_have_the_room_of_their_tables<const N: usize, R: StationStep>(
    t: InlineTable,
    offsets: Table,
    merged: Merged,
    d: Seq<u8>,
    r: Record,
    m: Tally,
    size: nat,
)
    ensures
        Streams::<N, R>::accepts(t, d, r) <==> has_room(t@, r),
        crate::versions::v13::Chunk::accepts(t, d, r) <==> has_room(t@, r),
        crate::versions::v17::Chunk::accepts(t, d, r) <==> has_room(t@, r),
        crate::versions::v3::Chunk::accepts(offsets, d, r) <==> offsets_room(offsets, d, r),
        crate::versions::v4::Chunk::accepts(offsets, d, r) <==> offsets_room(offsets, d, r),
        crate::versions::v2::Chunk::accepts(merged, d, r) <==> (merged@.contains_key(r.name)
            ==> merged@[r.name].count < 0xFFFF_FFFF),
        Streams::<N, R>::fits(size, m) <==> fits(m),
        crate::versions::v13::Chunk::fits(size, m) <==> fits(m),
        crate::versions::v17::Chunk::fits(size, m) <==> fits(m),
        crate::versions::v6::Chunk::fits(size, m) <==> fits(m),
        crate::versions::v7::Chunk::fits(size, m) <==> fits(m),
        crate::versions::v3::Chunk::size(offsets) == offsets.capacity(),
        crate::versions::v4::Chunk::size(offsets) == offsets.capacity(),
        fits(m) <==> {
            &&& m.dom().finite()
            &&& forall|name: Seq<u8>, i: int| #[trigger]
                m.contains_key(name) && 0 <= i < name.len() ==> #[trigger] name[i] != 0
            &&& forall|name: Seq<u8>| #[trigger]
                m.contains_key(name) ==> m[name].count <= 0xFFFF_FFFF
            &&& bytes_in(m.dom()) <= 0xFFFF_FFFF
            &&& m.len() <= usize::MAX / 4
        },
{
    if fits(m) {
        assert forall|name: Seq<u8>, i: int| #[trigger]
            m.contains_key(name) && 0 <= i < name.len() implies #[trigger] name[i] != 0 by {
            assert(nul_free(name));
        }
    }
    if forall|name: Seq<u8>, i: int| #[trigger]
        m.contains_key(name) && 0 <= i < name.len() ==> #[trigger] name[i] != 0 {
        assert(plain_names(m));
    }
}

/// Which of its two tables a row of the versions that keep two goes to: the last bytes of the input
/// are too near its end to be read wide, and what starts there goes to the second.
pub proof fn law_last_rows_go_to_the_second_table(
    t: crate::versions::v6::Tables,
    d: Seq<u8>,
    r: Record,
)
    ensures
        r.off + 115 < d.len() ==> (crate::versions::v6::Chunk::accepts(t, d, r) <==> has_room(
            t.wide@,
            r,
        )),
        r.off + 115 >= d.len() && 0 <= r.off ==> (crate::versions::v6::Chunk::accepts(t, d, r)
            <==> offsets_room(t.tail, d, r)),
        crate::versions::v7::Chunk::accepts(t, d, r) == crate::versions::v6::Chunk::accepts(
            t,
            d,
            r,
        ),
{
}

/// The values that were measured at `name`, in order.
pub open spec fn measured_at(list: Seq<(Seq<u8>, int)>, name: Seq<u8>) -> Seq<int> {
    list.filter(|m: (Seq<u8>, int)| m.0 == name).map_values(|m: (Seq<u8>, int)| m.1)
}

proof fn lemma_values_measured(rows: Seq<Record>, list: Seq<(Seq<u8>, int)>, name: Seq<u8>)
    requires
        rows.len() == list.len(),
        forall|i: int|
            0 <= i < list.len() ==> (#[trigger] rows[i]).name == list[i].0 && rows[i].value
                == list[i].1,
    ensures
        values_named(rows, name) == measured_at(list, name),
    decreases rows.len(),
{
    reveal(Seq::filter);
    let mine = |m: (Seq<u8>, int)| m.0 == name;
    let value = |m: (Seq<u8>, int)| m.1;
    if rows.len() > 0 {
        let (r, l) = (rows.drop_last(), list.drop_last());
        assert forall|i: int| 0 <= i < l.len() implies (#[trigger] r[i]).name == l[i].0 && r[i].value
            == l[i].1 by {
            assert(r[i] == rows[i]);
        }
        lemma_values_measured(r, l, name);
        assert(rows[rows.len() - 1] == rows.last());
        if list.last().0 == name {
            assert(list.filter(mine) == l.filter(mine).push(list.last()));
            assert(list.filter(mine).map_values(value) =~= l.filter(mine).map_values(value).push(
                list.last().1,
            ));
        } else {
            assert(list.filter(mine) == l.filter(mine));
        }
    } else {
        assert(measured_at(list, name) =~= seq![]);
    }
}

/// **What goes in comes out.** Measurements are written to a file, in whatever order; workers read it
/// in chunks of whatever size and take them in, whoever gets which. If there is room for them, every
/// chunk is taken in, and what the workers hold, joined, has the stations that were measured at and
/// no other, each with the least and the greatest of its values, their sum and their number.
pub proof fn law_measurements_come_out<I: Buffered>(
    list: Seq<(Seq<u8>, int)>,
    chunk_size: int,
    who: Seq<int>,
    shifts: Seq<Shift<I::Ctx>>,
    name: Seq<u8>,
)
    requires
        forall|i: int|
            0 <= i < list.len() ==> 1 <= (#[trigger] list[i]).0.len() <= 100 && -999 <= list[i].1
                <= 999,
        forall|i: int, j: int|
            0 <= i < list.len() && 0 <= j < list[i].0.len() ==> #[trigger] list[i].0[j] != 0x0A
                && list[i].0[j] != 0x3B && list[i].0[j] != 0,
        0 < chunk_size,
        file_of(list).len() <= usize::MAX,
        who.len() == chunk_count(file_of(list).len() as int, chunk_size),
        forall|i: int| 0 <= i < who.len() ==> 0 <= #[trigger] who[i] < shifts.len(),
        forall|w: int|
            0 <= w < shifts.len() ==> I::fits(
                I::size((#[trigger] shifts[w]).ctxs[0]),
                tally(rows(file_of(list), 0, file_of(list).len() as int)),
            ),
        forall|w: int|
            0 <= w < shifts.len() ==> buffered_shift::<I>(
                #[trigger] shifts[w],
                file_of(list),
                chunk_size,
                claims(who, w),
            ),
    ensures
        forall|w: int, j: int|
            0 <= w < shifts.len() && 0 <= j < shifts[w].outs.len() ==> #[trigger] shifts[w].outs[j]
                == Outcome::Fed,
        ({
            let m = brought::<I>(shifts, file_of(list));
            let values = measured_at(list, name);
            &&& m.contains_key(name) <==> values.len() > 0
            &&& m.contains_key(name) ==> {
                &&& m[name].count == values.len()
                &&& m[name].sum == sum_of(values)
                &&& values.contains(m[name].min)
                &&& values.contains(m[name].max)
                &&& forall|i: int|
                    0 <= i < values.len() ==> m[name].min <= #[trigger] values[i] <= m[name].max
            }
        }),
{
    let d = file_of(list);
    let r = rows(d, 0, d.len() as int);
    law_written_file_reads_back(list);
    law_workers_tally_the_file::<I>(d, chunk_size, who, shifts);
    lemma_values_measured(r, list, name);
    law_tally_summarises(r, name);
    if tally(r).contains_key(name) {
        law_summary_bounds(measured_at(list, name));
        law_summary_sums(measured_at(list, name));
    }
}

} // verus!
