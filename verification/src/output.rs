//! Aggregation state and result formatting.
//!
//! All temperatures are held as integer tenths of a degree; the input format guarantees
//! exactly one fractional digit, so this is exact and avoids float accumulation entirely.

use crate::bytes::DIGIT_0;
use crate::bytes::DOT;
use crate::bytes::MINUS;
use crate::bytes::NEWLINE;
use crate::parse::digits_at;
use crate::parse::is_digit;
use crate::parse::temp_ok;
use crate::parse::temp_value;
use crate::parse::temp_width;
use vstd::prelude::*;

verus! {

/// What is known of one station: the mathematical content of a [`Stats`].
pub struct Summary {
    pub min: int,
    pub max: int,
    pub sum: int,
    pub count: nat,
}

/// The summary of one measurement.
pub open spec fn single(v: int) -> Summary {
    Summary { min: v, max: v, sum: v, count: 1 }
}

pub open spec fn least(a: int, b: int) -> int {
    if b < a {
        b
    } else {
        a
    }
}

pub open spec fn greatest(a: int, b: int) -> int {
    if b > a {
        b
    } else {
        a
    }
}

/// `s` with one more measurement.
pub open spec fn pushed(s: Summary, v: int) -> Summary {
    Summary {
        min: least(s.min, v),
        max: greatest(s.max, v),
        sum: s.sum + v,
        count: s.count + 1,
    }
}

/// The measurements of `a` and `b` together.
pub open spec fn merged(a: Summary, b: Summary) -> Summary {
    Summary {
        min: least(a.min, b.min),
        max: greatest(a.max, b.max),
        sum: a.sum + b.sum,
        count: a.count + b.count,
    }
}

/// The summary of a non-empty run of measurements.
pub open spec fn summary(values: Seq<int>) -> Summary
    decreases values.len(),
{
    if values.len() <= 1 {
        single(values[0])
    } else {
        pushed(summary(values.drop_last()), values.last())
    }
}

#[derive(Clone, Copy, Debug)]
pub struct Stats {
    pub min: i16,
    pub max: i16,
    pub sum: i64,
    pub count: u32,
}

impl View for Stats {
    type V = Summary;

    open spec fn view(&self) -> Summary {
        Summary {
            min: self.min as int,
            max: self.max as int,
            sum: self.sum as int,
            count: self.count as nat,
        }
    }
}

impl Stats {
    #[inline]
    pub fn new(v: i16) -> (s: Self)
        ensures
            s@ == single(v as int),
    {
        Stats { min: v, max: v, sum: v as i64, count: 1 }
    }

    #[inline]
    pub fn push(&mut self, v: i16)
        requires
            i64::MIN <= old(self).sum + v <= i64::MAX,
            old(self).count < u32::MAX,
        ensures
            final(self)@ == pushed(old(self)@, v as int),
    {
        if v < self.min {
            self.min = v;
        }
        if v > self.max {
            self.max = v;
        }
        self.sum += v as i64;
        self.count += 1;
    }

    #[inline]
    pub fn merge(&mut self, other: &Stats)
        requires
            i64::MIN <= old(self).sum + other.sum <= i64::MAX,
            old(self).count + other.count <= u32::MAX,
        ensures
            final(self)@ == merged(old(self)@, other@),
    {
        if other.min < self.min {
            self.min = other.min;
        }
        if other.max > self.max {
            self.max = other.max;
        }
        self.sum += other.sum;
        self.count += other.count;
    }
}

/// Pushing a measurement is merging its summary.
pub proof fn law_push_is_merge(s: Summary, v: int)
    ensures
        pushed(s, v) == merged(s, single(v)),
{
}

/// Merging does not depend on the order or the grouping of its operands.
pub proof fn law_merge_any_order(a: Summary, b: Summary, c: Summary)
    ensures
        merged(a, b) == merged(b, a),
        merged(merged(a, b), c) == merged(a, merged(b, c)),
{
}

/// Two halves of a run summarised apart and merged give the summary of the whole run.
pub proof fn law_merge_is_concatenation(a: Seq<int>, b: Seq<int>)
    requires
        a.len() > 0,
        b.len() > 0,
    ensures
        merged(summary(a), summary(b)) == summary(a + b),
    decreases b.len(),
{
    assert((a + b).last() == b.last());
    assert((a + b).drop_last() =~= a + b.drop_last());
    if b.len() > 1 {
        law_merge_is_concatenation(a, b.drop_last());
    } else {
        assert(a + b.drop_last() =~= a);
    }
}

/// The summary bounds what it summarises: its extremes are measurements of the run, every
/// measurement lies between them, and the count is the length.
pub proof fn law_summary_bounds(values: Seq<int>)
    requires
        values.len() > 0,
    ensures
        summary(values).count == values.len(),
        values.contains(summary(values).min),
        values.contains(summary(values).max),
        forall|i: int|
            0 <= i < values.len() ==> summary(values).min <= #[trigger] values[i] <= summary(
                values,
            ).max,
    decreases values.len(),
{
    let s = summary(values);
    if values.len() == 1 {
        assert(values.contains(values[0]));
    } else {
        let rest = values.drop_last();
        law_summary_bounds(rest);
        let lo = choose|i: int| 0 <= i < rest.len() && rest[i] == summary(rest).min;
        let hi = choose|i: int| 0 <= i < rest.len() && rest[i] == summary(rest).max;
        assert(values[lo] == rest[lo] && values[hi] == rest[hi]);
        assert(values[values.len() - 1] == values.last());
        assert forall|i: int| 0 <= i < values.len() implies s.min <= #[trigger] values[i]
            <= s.max by {
            if i < rest.len() {
                assert(rest[i] == values[i]);
            }
        }
    }
}

/// The mean in tenths, rounded to the nearest integer with halves toward positive infinity.
pub open spec fn rounded_mean(sum: int, count: int) -> int {
    (2 * sum + count) / (2 * count)
}

/// Mean in tenths, rounded half toward positive infinity: `floor(mean + 0.5)`.
///
/// In integers that is `floor((2*sum + count) / (2*count))`. The division has to round toward
/// negative infinity: truncating toward zero would take -2.5 to -3.
#[inline]
pub fn mean_tenths(sum: i64, count: u32) -> (mean: i64)
    requires
        count > 0,
        i64::MIN <= 2 * sum + count <= i64::MAX,
        i64::MIN <= 2 * sum <= i64::MAX,
    ensures
        mean == rounded_mean(sum as int, count as int),
{
    let n: i64 = 2 * sum + count as i64;
    let d: i64 = 2 * count as i64;
    if n >= 0 {
        n / d
    } else {
        // n is negative, so `-1 - n` is not, and floor(n / d) == -1 - floor((-1 - n) / d).
        proof {
            lemma_floor_below(n as int, d as int);
        }
        -1 - (-1 - n) / d
    }
}

proof fn lemma_floor_below(n: int, d: int)
    requires
        n < 0 < d,
    ensures
        n / d == -1 - (-1 - n) / d,
        (-1 - n) / d <= -1 - n,
        (-1 - n) / d >= 0,
{
    let q = (-1 - n) / d;
    let r = (-1 - n) % d;
    vstd::arithmetic::div_mod::lemma_fundamental_div_mod(-1 - n, d);
    vstd::arithmetic::div_mod::lemma_mod_bound(-1 - n, d);
    assert(n == d * (-1 - q) + (d - 1 - r)) by (nonlinear_arith)
        requires
            -1 - n == d * q + r,
    ;
    vstd::arithmetic::div_mod::lemma_fundamental_div_mod_converse(n, d, -1 - q, d - 1 - r);
    vstd::arithmetic::div_mod::lemma_div_pos_is_pos(-1 - n, d);
    assert(q <= -1 - n) by (nonlinear_arith)
        requires
            -1 - n == d * q + r,
            r >= 0,
            q >= 0,
            d > 0,
    ;
}

/// The rounded mean is within half a tenth of the exact one, and exactly half a tenth away
/// only from below: ties go up, in both signs.
pub proof fn law_mean_rounds_half_up(sum: int, count: int)
    requires
        count > 0,
    ensures
        2 * (rounded_mean(sum, count) * count - sum) <= count,
        2 * (sum - rounded_mean(sum, count) * count) < count,
{
    let m = rounded_mean(sum, count);
    let d = 2 * count;
    vstd::arithmetic::div_mod::lemma_fundamental_div_mod(2 * sum + count, d);
    vstd::arithmetic::div_mod::lemma_mod_bound(2 * sum + count, d);
    assert(d * m == 2 * (m * count)) by (nonlinear_arith)
        requires
            d == 2 * count,
    ;
}

/// The printed mean lies between the printed minimum and maximum.
pub proof fn law_mean_between_extremes(values: Seq<int>)
    requires
        values.len() > 0,
    ensures
        summary(values).min <= rounded_mean(summary(values).sum, values.len() as int)
            <= summary(values).max,
{
    let s = summary(values);
    let c = values.len() as int;
    law_summary_bounds(values);
    lemma_sum_bounds(values, s.min, s.max);
    law_mean_rounds_half_up(s.sum, c);
    let m = rounded_mean(s.sum, c);
    assert(s.min <= m) by (nonlinear_arith)
        requires
            s.min * c <= s.sum,
            2 * (s.sum - m * c) < c,
            c > 0,
    ;
    assert(m <= s.max) by (nonlinear_arith)
        requires
            s.sum <= s.max * c,
            2 * (m * c - s.sum) <= c,
            c > 0,
    ;
}

proof fn lemma_sum_bounds(values: Seq<int>, lo: int, hi: int)
    requires
        values.len() > 0,
        forall|i: int| 0 <= i < values.len() ==> lo <= #[trigger] values[i] <= hi,
    ensures
        lo * values.len() <= summary(values).sum <= hi * values.len(),
    decreases values.len(),
{
    let c = values.len() as int;
    assert(values[c - 1] == values.last());
    if c > 1 {
        let rest = values.drop_last();
        assert forall|i: int| 0 <= i < rest.len() implies lo <= #[trigger] rest[i] <= hi by {
            assert(values[i] == rest[i]);
        }
        lemma_sum_bounds(rest, lo, hi);
        assert(lo * c == lo * (c - 1) + lo && hi * c == hi * (c - 1) + hi) by (nonlinear_arith);
    }
}

/// The decimal digits of `n`, most significant first.
pub open spec fn decimal(n: nat) -> Seq<u8>
    decreases n,
{
    if n < 10 {
        seq![(DIGIT_0 + n) as u8]
    } else {
        decimal(n / 10).push((DIGIT_0 + n % 10) as u8)
    }
}

/// The magnitude of `t`.
pub open spec fn magnitude(t: int) -> nat {
    if t < 0 {
        (-t) as nat
    } else {
        t as nat
    }
}

/// The text of a value in tenths: a sign if it is negative, the whole degrees, and exactly
/// one fractional digit.
pub open spec fn tenths_text(t: int) -> Seq<u8> {
    (if t < 0 {
        seq![MINUS]
    } else {
        seq![]
    }) + decimal(magnitude(t) / 10) + seq![DOT, (DIGIT_0 + magnitude(t) % 10) as u8]
}

spec fn ten_to(k: nat) -> nat
    decreases k,
{
    if k == 0 {
        1
    } else {
        10 * ten_to((k - 1) as nat)
    }
}

/// The most decimal digits a `u64` can have.
const DIGITS: usize = 20;

/// Appends a tenths value as a decimal with exactly one fractional digit.
///
/// The sign comes from the already-rounded value, so a mean that rounds up to zero from
/// below prints `0.0` rather than `-0.0`.
pub fn write_tenths(out: &mut Vec<u8>, tenths: i64)
    ensures
        final(out)@ == old(out)@ + tenths_text(tenths as int),
{
    let ghost before = out@;
    let v: u64 = if tenths < 0 {
        out.push(MINUS);
        (-(tenths + 1)) as u64 + 1
    } else {
        tenths as u64
    };
    assert(v == magnitude(tenths as int));
    let whole = v / 10;
    let frac: u8 = (v % 10) as u8;

    let mut buf: [u8; 20] = [0; 20];
    let mut i: usize = DIGITS;
    let mut w = whole;
    assert(w < ten_to(DIGITS as nat)) by {
        reveal_with_fuel(ten_to, 21);
    }
    loop
        invariant_except_break
            0 < i <= 20,
            w < ten_to(i as nat),
            decimal(whole as nat) =~= decimal(w as nat) + buf@.subrange(i as int, 20),
        ensures
            i <= 20,
            decimal(whole as nat) =~= buf@.subrange(i as int, 20),
        decreases w,
    {
        i -= 1;
        let ghost tail = buf@.subrange(i + 1, 20);
        buf[i] = DIGIT_0 + (w % 10) as u8;
        assert(buf@.subrange(i as int, 20) =~= seq![buf@[i as int]] + tail);
        w /= 10;
        assert(w < ten_to(i as nat));
        if w == 0 {
            break ;
        }
    }
    out.extend_from_slice(vstd::slice::slice_subrange(&buf, i, DIGITS));
    out.push(DOT);
    out.push(DIGIT_0 + frac);
    assert(out@ =~= before + tenths_text(tenths as int));
}

/// Only a negative value prints a sign, so zero never prints as `-0.0`.
pub proof fn law_sign_means_negative(t: int)
    ensures
        tenths_text(t)[0] == MINUS <==> t < 0,
        tenths_text(0) == seq![DIGIT_0, DOT, DIGIT_0],
        t != 0 ==> tenths_text(t) != seq![MINUS, DIGIT_0, DOT, DIGIT_0],
{
    lemma_decimal_digits(magnitude(t) / 10);
    assert(tenths_text(0) =~= seq![DIGIT_0, DOT, DIGIT_0]);
    let whole = decimal(magnitude(t) / 10);
    if t >= 0 {
        assert(tenths_text(t)[0] == whole[0]);
    } else {
        assert(tenths_text(t)[0] == MINUS);
        if tenths_text(t) == seq![MINUS, DIGIT_0, DOT, DIGIT_0] {
            let n = whole.len();
            assert(tenths_text(t).len() == n + 3);
            assert(tenths_text(t)[1] == whole[0]);
            assert(tenths_text(t)[3] == (DIGIT_0 + magnitude(t) % 10) as u8);
            assert(magnitude(t) % 10 == 0);
            assert(magnitude(t) / 10 == 0) by {
                assert(magnitude(t) / 10 < 10);
            }
            assert(false);
        }
    }
}

/// `decimal` yields digits only, at least one, and more than one from ten on.
proof fn lemma_decimal_digits(n: nat)
    ensures
        decimal(n).len() >= 1,
        n >= 10 ==> decimal(n).len() >= 2,
        forall|i: int| 0 <= i < decimal(n).len() ==> is_digit(#[trigger] decimal(n)[i]),
    decreases n,
{
    if n >= 10 {
        lemma_decimal_digits(n / 10);
    }
}

/// Reading back what was written: a value of the input's range, written between any bytes and
/// ended by a newline, stands there as a temperature of that value and that width.
pub proof fn law_written_tenths_parse_back(before: Seq<u8>, t: int, after: Seq<u8>)
    requires
        -999 <= t <= 999,
        after.len() > 0,
        after[0] == NEWLINE,
    ensures
        temp_ok(before + tenths_text(t) + after, before.len() as int),
        temp_value(before + tenths_text(t) + after, before.len() as int) == t,
        temp_width(before + tenths_text(t) + after, before.len() as int) == tenths_text(t).len(),
{
    let d = before + tenths_text(t) + after;
    let p = before.len() as int;
    let text = tenths_text(t);
    let whole = magnitude(t) / 10;
    let digits = decimal(whole);
    reveal_with_fuel(decimal, 2);
    assert(digits.len() == if whole < 10 {
        1int
    } else {
        2
    });
    assert forall|i: int| 0 <= i < text.len() implies #[trigger] d[p + i] == text[i] by {}
    let q: int = if t < 0 {
        1
    } else {
        0
    };
    assert forall|i: int| 0 <= i < digits.len() implies #[trigger] text[q + i] == digits[i] by {}
    assert(text[q + digits.len()] == DOT);
    assert(text[q + digits.len() + 1] == (DIGIT_0 + magnitude(t) % 10) as u8);
    assert(d[p + 0] == text[0]);
    assert(text[q + 0] == digits[0]);
    assert(d[p + q] == text[q]);
    assert(d[p + (q + 1)] == text[q + 1]);
    assert(d[p + (q + 2)] == text[q + 2]);
    assert(digits_at(d, p) == p + q);
    if whole >= 10 {
        assert(text[q + 1] == digits[1]);
        assert(d[p + (q + 3)] == text[q + 3]);
    }
}

/// `{`, `, `, `=`, `/` and `}`: the frame that results are printed in.
pub const OPEN_BRACE: u8 = 0x7B;

pub const CLOSE_BRACE: u8 = 0x7D;

pub const COMMA: u8 = 0x2C;

pub const SPACE: u8 = 0x20;

pub const EQUALS: u8 = 0x3D;

pub const SLASH: u8 = 0x2F;

/// `name=min/mean/max` for one station.
pub open spec fn entry_text(name: Seq<u8>, s: Summary) -> Seq<u8> {
    name + seq![EQUALS] + tenths_text(s.min) + seq![SLASH] + tenths_text(
        rounded_mean(s.sum, s.count as int),
    ) + seq![SLASH] + tenths_text(s.max)
}

/// The first `n` entries, separated by `, `.
pub open spec fn entries_text(entries: Seq<(Vec<u8>, Stats)>, n: nat) -> Seq<u8>
    decreases n,
{
    if n == 0 {
        seq![]
    } else {
        entries_text(entries, (n - 1) as nat) + (if n > 1 {
            seq![COMMA, SPACE]
        } else {
            seq![]
        }) + entry_text(entries[n - 1].0@, entries[n - 1].1@)
    }
}

/// `{Name=min/mean/max, Name2=...}` and a newline.
pub open spec fn results_text(entries: Seq<(Vec<u8>, Stats)>) -> Seq<u8> {
    seq![OPEN_BRACE] + entries_text(entries, entries.len()) + seq![CLOSE_BRACE, NEWLINE]
}

/// The mean of these statistics can be computed without overflow.
pub open spec fn has_mean(s: Stats) -> bool {
    &&& s.count > 0
    &&& i64::MIN <= 2 * s.sum + s.count <= i64::MAX
    &&& i64::MIN <= 2 * s.sum <= i64::MAX
}

/// Appends `name=min/mean/max` for one station.
fn write_entry(out: &mut Vec<u8>, name: &[u8], s: &Stats)
    requires
        has_mean(*s),
    ensures
        final(out)@ == old(out)@ + entry_text(name@, s@),
{
    let ghost before = out@;
    let mean = mean_tenths(s.sum, s.count);
    out.extend_from_slice(name);
    out.push(EQUALS);
    assert(out@ =~= before + (name@ + seq![EQUALS]));
    write_tenths(out, s.min as i64);
    out.push(SLASH);
    write_tenths(out, mean);
    out.push(SLASH);
    write_tenths(out, s.max as i64);
    assert(out@ =~= before + entry_text(name@, s@));
}

/// Writes `{Name=min/mean/max, Name2=...}` for entries that are already sorted by name.
///
/// Sorting by raw UTF-8 bytes matches the UTF-16 code-unit ordering of Java's `TreeMap` for
/// the entire BMP; the two only diverge above U+FFFF, which no station name in the official
/// set reaches.
pub fn write_results(out: &mut Vec<u8>, entries: &[(Vec<u8>, Stats)])
    requires
        forall|i: int| 0 <= i < entries@.len() ==> has_mean(#[trigger] entries@[i].1),
    ensures
        final(out)@ == old(out)@ + results_text(entries@),
{
    let ghost before = out@;
    out.push(OPEN_BRACE);
    for i in 0..entries.len()
        invariant
            forall|i: int| 0 <= i < entries@.len() ==> has_mean(#[trigger] entries@[i].1),
            out@ == before + (seq![OPEN_BRACE] + entries_text(entries@, i as nat)),
    {
        if i > 0 {
            out.push(COMMA);
            out.push(SPACE);
        }
        assert(has_mean(entries@[i as int].1));
        write_entry(out, entries[i].0.as_slice(), &entries[i].1);
        assert(out@ =~= before + (seq![OPEN_BRACE] + entries_text(entries@, (i + 1) as nat)));
    }
    out.push(CLOSE_BRACE);
    out.push(NEWLINE);
    assert(out@ =~= before + results_text(entries@));
}

} // verus!
