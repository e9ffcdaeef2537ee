use std::collections::BTreeMap;

use obrc::engine::streamed;
use obrc::feed::TAIL_GUARD;
use obrc::hot::borrowed::streamed_hot;
use obrc::hot::count::{Counted, Counter};
use obrc::hot::modes::{Mode, State, Totals};
use obrc::hot::rows::{FullKeyed, Inline};
use obrc::hot::take::{find_stop, take};
use obrc::inline_table::InlineTable;
use obrc::intake::Outcome;
use obrc::merge::Merged;
use obrc::swar::{find_semi_and_hash_scalar, hash_len_raw};

const PLAIN: [&str; 6] = ["parse", "parse2", "parse3", "parse4", "parse8", "hash"];

const FLAT_HASH: [&str; 3] = ["fhash", "fhash2", "fhash4"];

const OFFSETS: [&str; 9] = [
    "table", "table2", "table3", "table4", "table8", "nocmp", "split2", "split4", "split8",
];

const NAME_HASHED: [&str; 9] = [
    "itable", "itable2", "itable3", "itable4", "itable8", "flat", "flat2", "flat3", "flat4",
];

const RAW_HASHED: [&str; 23] = [
    "raw", "raw2", "raw3", "raw4", "keyed", "keyed2", "keyed3", "keyed4", "keyed5", "keyed6",
    "keyed8", "win2", "win3", "hdr2", "hdr3", "hot1", "hot2", "hot3", "hot4", "nltable", "dltable",
    "dlnokey", "dlnostats",
];

const RAW_ROWS: [&str; 3] = ["nlrows", "nlparse", "dlrows"];

const ROWLESS: [&str; 4] = ["touch", "mask", "mask_semi", "mask_nl"];

fn rows() -> Vec<u8> {
    let mut data = Vec::new();
    for i in 0..400usize {
        let len = 1 + (i * 7) % 40;
        let name: String = (0..len).map(|k| (b'a' + ((k + len) % 26) as u8) as char).collect();
        data.extend_from_slice(
            format!("{name};{}{}.{}\n", if i % 3 == 0 { "-" } else { "" }, i % 100, i % 10)
                .as_bytes(),
        );
    }
    data
}

/// The rows followed by slack that holds anything.
fn padded() -> (Vec<u8>, usize) {
    let mut data = rows();
    let end = data.len();
    data.resize(end + TAIL_GUARD, b';');
    (data, end)
}

fn parsed() -> Vec<(Vec<u8>, i16)> {
    rows()
        .split(|&b| b == b'\n')
        .filter(|l| !l.is_empty())
        .map(|l| {
            let semi = l.iter().position(|&b| b == b';').unwrap();
            let text = std::str::from_utf8(&l[semi + 1..]).unwrap();
            let digits: i16 = text.replace(['-', '.'], "").parse().unwrap();
            (l[..semi].to_vec(), if text.starts_with('-') { -digits } else { digits })
        })
        .collect()
}

fn name_hash(name: &[u8]) -> u64 {
    let mut d = name.to_vec();
    d.push(b';');
    d.resize(d.len() + 32, 0);
    find_semi_and_hash_scalar(&d, 0).1
}

fn raw_hash(name: &[u8]) -> u64 {
    let mut d = name.to_vec();
    d.push(b';');
    d.resize(d.len() + 32, 0);
    hash_len_raw(&d, 0, name.len())
}

fn run(name: &str) -> State {
    let (data, end) = padded();
    let mode = Mode::parse(name).unwrap();
    let mut st = State::new(mode, 10);
    assert_eq!(take(mode, &data, 0, end, end, &mut st), Outcome::Fed, "{name}");
    st
}

#[test]
fn every_mode_has_a_name() {
    for list in [
        &PLAIN[..],
        &FLAT_HASH[..],
        &OFFSETS[..],
        &NAME_HASHED[..],
        &RAW_HASHED[..],
        &RAW_ROWS[..],
        &ROWLESS[..],
    ] {
        for name in list {
            assert!(Mode::parse(name).is_some(), "{name}");
        }
    }
    for name in ["", "parse5", "parse0", "hot5", "hot", "win", "split", "Touch", "keyed7", "mask "] {
        assert!(Mode::parse(name).is_none(), "{name}");
    }
}

#[test]
fn parsing_modes_sink_the_values() {
    let want = parsed().iter().fold(0u64, |a, (_, v)| a ^ *v as u64);
    for name in &PLAIN[..5] {
        let st = run(name);
        assert_eq!((st.acc(), st.rows(), st.entries()), (want, 400, 0), "{name}");
    }
}

#[test]
fn hashing_modes_sink_hash_and_value() {
    let want = parsed().iter().fold(0u64, |a, (n, v)| a ^ name_hash(n) ^ *v as u64);
    for name in ["hash", "fhash", "fhash2", "fhash4"] {
        let st = run(name);
        assert_eq!((st.acc(), st.rows()), (want, 400), "{name}");
    }
    let want = parsed().iter().fold(0u64, |a, (n, v)| a ^ raw_hash(n) ^ *v as u64);
    for name in RAW_ROWS {
        let st = run(name);
        assert_eq!((st.acc(), st.rows()), (want, 400), "{name}");
    }
}

/// The flat scan swaps the loop and nothing else, however many streams there are: the same sink.
#[test]
fn table_modes_share_a_sink() {
    let want = parsed().iter().fold(0u64, |a, (n, _)| a ^ name_hash(n));
    for name in NAME_HASHED.iter().chain(OFFSETS.iter()) {
        let st = run(name);
        assert_eq!((st.acc(), st.rows()), (want, 400), "{name}");
    }
}

/// How the bytes, the row ends and the slots are reached does not show in the sink.
#[test]
fn raw_hash_modes_share_a_sink() {
    let want = parsed().iter().fold(0u64, |a, (n, _)| a ^ raw_hash(n));
    for name in RAW_HASHED {
        let st = run(name);
        assert_eq!((st.acc(), st.rows()), (want, 400), "{name}");
    }
}

fn tally_of(st: &State) -> BTreeMap<Vec<u8>, (i16, i16, i64, u32)> {
    match st {
        State::Inline(c) => c
            .inner
            .iter()
            .into_iter()
            .map(|(n, s)| (n.to_vec(), (s.min, s.max, s.sum, s.count)))
            .collect(),
        _ => BTreeMap::new(),
    }
}

fn tallied() -> BTreeMap<Vec<u8>, (i16, i16, i64, u32)> {
    let mut map: BTreeMap<Vec<u8>, (i16, i16, i64, u32)> = BTreeMap::new();
    for (n, v) in parsed() {
        let e = map.entry(n).or_insert((v, v, 0, 0));
        e.0 = e.0.min(v);
        e.1 = e.1.max(v);
        e.2 += v as i64;
        e.3 += 1;
    }
    map
}

#[test]
fn inline_modes_tally_the_rows() {
    let want = tallied();
    for name in NAME_HASHED.iter().chain(RAW_HASHED[..21].iter()) {
        let st = run(name);
        assert_eq!(tally_of(&st), want, "{name}");
        assert_eq!(st.entries(), want.len(), "{name}");
    }
}

#[test]
fn offset_modes_tally_the_rows() {
    let (data, end) = padded();
    let want = tallied();
    for name in &OFFSETS[..5] {
        let mode = Mode::parse(name).unwrap();
        let mut st = State::new(mode, 10);
        assert_eq!(take(mode, &data, 0, end, end, &mut st), Outcome::Fed);
        match &st {
            State::Offsets(c) => {
                let got: BTreeMap<Vec<u8>, (i16, i16, i64, u32)> = c
                    .inner
                    .iter(&data)
                    .into_iter()
                    .map(|(n, s)| (n.to_vec(), (s.min, s.max, s.sum, s.count)))
                    .collect();
                assert_eq!(got, want, "{name}");
            }
            _ => panic!("{name} keeps an offset-keyed table"),
        }
    }
}

/// Without the key, names of one length that meet in a slot merge: every row still lands, in no
/// more slots than there are stations.
#[test]
fn dropping_the_key_merges_equal_lengths() {
    let st = run("dlnokey");
    let got = tally_of(&st);
    assert_eq!(got.values().map(|s| s.3).sum::<u32>(), 400);
    assert!(got.len() <= tallied().len());
}

/// Without the accumulate, a station keeps its first measurement.
#[test]
fn dropping_the_stats_keeps_first_measurements() {
    let st = run("dlnostats");
    let mut first: BTreeMap<Vec<u8>, i16> = BTreeMap::new();
    for (n, v) in parsed() {
        first.entry(n).or_insert(v);
    }
    let got = tally_of(&st);
    assert_eq!(got.len(), first.len());
    for (n, v) in first {
        assert_eq!(got[&n], (v, v, v as i64, 1));
    }
}

#[test]
fn touching_folds_whole_words() {
    let (data, end) = padded();
    let mut want = 0u64;
    for c in data[..end].chunks_exact(8) {
        want ^= u64::from_le_bytes(c.try_into().unwrap());
    }
    let st = run("touch");
    assert_eq!((st.acc(), st.rows()), (want, 0));
}

#[test]
fn masking_folds_bitmaps() {
    let (data, end) = padded();
    let (mut both, mut semis, mut newlines) = (0u64, 0u64, 0u64);
    let mut pos = 0;
    while pos < end {
        let (mut s, mut n) = (0u64, 0u64);
        for i in 0..64 {
            s |= ((data[pos + i] == b';') as u64) << i;
            n |= ((data[pos + i] == b'\n') as u64) << i;
        }
        both ^= s ^ n.rotate_left(1);
        semis ^= s;
        newlines ^= n;
        pos += 64;
    }
    assert_eq!(run("mask").acc(), both);
    assert_eq!(run("mask_semi").acc(), semis);
    assert_eq!(run("mask_nl").acc(), newlines);
}

/// Only what keys its table by offset needs the input in place.
#[test]
fn offset_keyed_modes_are_known() {
    for name in OFFSETS {
        assert!(Mode::parse(name).unwrap().offset_keyed(), "{name}");
    }
    for name in NAME_HASHED.iter().chain(RAW_HASHED.iter()).chain(ROWLESS.iter()) {
        assert!(!Mode::parse(name).unwrap().offset_keyed(), "{name}");
    }
}

#[test]
fn malformed_rows_are_turned_away_by_every_mode() {
    let (mut data, end) = padded();
    data[end - 2] = b'x';
    for name in OFFSETS.iter().chain(NAME_HASHED.iter()).chain(RAW_HASHED.iter()) {
        let mode = Mode::parse(name).unwrap();
        let mut st = State::new(mode, 10);
        assert_eq!(take(mode, &data, 0, end, end, &mut st), Outcome::Malformed, "{name}");
        assert_eq!((st.acc(), st.rows(), st.entries()), (0, 0, 0));
    }
}

/// A table too small for the stations says so, and one that grows does not.
#[test]
fn tables_at_their_limit_go_on() {
    let mut data = Vec::new();
    for i in 0..200 {
        data.extend_from_slice(format!("{};{}.5\n", ["a", "bb", "ccc"][i % 3], i % 50).as_bytes());
    }
    let end = data.len();
    data.resize(end + 160, b'x');
    for name in ["table", "table3", "nocmp", "split2", "dlnokey", "itable2"] {
        let mode = Mode::parse(name).unwrap();
        let mut st = State::new(mode, 2);
        assert_eq!(take(mode, &data, 0, end, end, &mut st), Outcome::Fed, "{name}");
        assert_eq!(st.rows(), 200, "{name}");
    }
    let mut one_more = b"dddd;1.0\n".to_vec();
    one_more.splice(0..0, data[..end].iter().copied());
    let end = one_more.len();
    one_more.resize(end + 160, b'x');
    for name in ["table", "table3", "nocmp"] {
        let mode = Mode::parse(name).unwrap();
        let mut st = State::new(mode, 2);
        assert_eq!(take(mode, &one_more, 0, end, end, &mut st), Outcome::Full, "{name}");
        assert_eq!((st.rows(), st.entries()), (200, 3), "{name}");
    }
}

/// A NUL in a name is in nobody's way but where the name is a key that a NUL ends.
#[test]
fn names_with_a_nul_are_keys_for_none() {
    let mut data = b"a\0b;1.0\na;2.5\na\0b;-3.0\n\0;4.0\n".to_vec();
    let end = data.len();
    data.resize(end + 160, b'x');
    for name in ["parse", "hash", "fhash2", "table", "nocmp", "nlrows", "dlrows", "dlnokey", "split2"] {
        let mode = Mode::parse(name).unwrap();
        let mut st = State::new(mode, 10);
        assert_eq!(take(mode, &data, 0, end, end, &mut st), Outcome::Fed, "{name}");
        assert_eq!(st.rows(), 4, "{name}");
        if name == "table" {
            assert_eq!(st.entries(), 3);
        }
    }
    for name in ["itable2", "flat", "raw", "keyed2", "win2", "hot2", "nltable", "dltable", "dlnostats"] {
        let Some(mode) = Mode::parse(name) else { continue };
        let mut st = State::new(mode, 10);
        assert_eq!(take(mode, &data, 0, end, end, &mut st), Outcome::Malformed, "{name}");
        assert_eq!(st.rows(), 0, "{name}");
    }
}

/// The streams' own tables hold the rows between them.
#[test]
fn split_tables_hold_the_rows_between_them() {
    let (data, end) = padded();
    let want = tallied();
    for (name, bits) in [("split2", 10), ("split4", 10), ("split8", 6)] {
        let mode = Mode::parse(name).unwrap();
        let mut st = State::new(mode, bits);
        assert_eq!(take(mode, &data, 0, end, end, &mut st), Outcome::Fed);
        let State::Split(c) = &st else { panic!("{name} keeps a table per stream") };
        let mut m = Merged::new();
        for t in &c.inner {
            assert!(m.add_offset_table(t, &data));
        }
        let got: BTreeMap<Vec<u8>, (i16, i16, i64, u32)> = m
            .entries()
            .iter()
            .map(|(n, s)| (n.clone(), (s.min, s.max, s.sum, s.count)))
            .collect();
        assert_eq!(got, want, "{name}");
    }
}

#[test]
fn small_tables_run_full() {
    let (data, end) = padded();
    for name in ["table", "table3", "split2"] {
        let mode = Mode::parse(name).unwrap();
        let mut st = State::new(mode, 3);
        assert_eq!(take(mode, &data, 0, end, end, &mut st), Outcome::Full, "{name}");
    }
    for name in ["itable3", "keyed2", "hot2", "dlnokey"] {
        let mode = Mode::parse(name).unwrap();
        let mut st = State::new(mode, 0);
        assert_eq!(take(mode, &data, 0, end, end, &mut st), Outcome::Fed, "{name}");
    }
}

/// Over data that end with the input, a mode stops short of what the wide paths would read past.
#[test]
fn modes_stop_short_of_the_end() {
    let data = rows();
    let limit = data.len() - TAIL_GUARD;
    let parse = Mode::parse("parse").unwrap();
    assert_eq!(find_stop(parse, &data, 0, data.len()), limit);
    assert_eq!(find_stop(parse, &data, 0, 100), 100);
    assert_eq!(find_stop(parse, &data, limit + 5, data.len()), limit + 5);
    let rows_mode = Mode::parse("nlrows").unwrap();
    assert_eq!(find_stop(rows_mode, &data, 0, data.len()), limit);
    let bounded = Mode::parse("nlparse").unwrap();
    let stop = find_stop(bounded, &data, 0, data.len());
    assert!(stop < limit && data[stop - 1] == b'\n');
    assert!(!data[stop..limit].contains(&b'\n'));

    // The limit cuts a row, which the modes that find its end themselves still count.
    assert_ne!(data[limit - 1], b'\n');
    let mut a = State::new(parse, 4);
    assert_eq!(take(parse, &data, 0, limit, data.len(), &mut a), Outcome::Fed);
    let mut b = State::new(rows_mode, 4);
    assert_eq!(take(rows_mode, &data, 0, limit, data.len(), &mut b), Outcome::Fed);
    let mut c = State::new(bounded, 4);
    assert_eq!(take(bounded, &data, 0, stop, data.len(), &mut c), Outcome::Fed);
    assert_eq!(a.rows(), b.rows());
    assert_eq!(b.rows(), c.rows() + 1);
}

/// Wherever the end cuts a row, the newline bitmap without a table counts it with its value.
#[test]
fn a_row_past_the_end_is_still_counted() {
    let (data, end) = padded();
    let mode = Mode::parse("nlrows").unwrap();
    let want = parsed();
    let mut start = 0;
    let mut n = 0;
    let mut sink = 0;
    for cut in 1..1500 {
        if start < cut {
            let (name, v) = &want[n];
            sink ^= raw_hash(name) ^ *v as u64;
            n += 1;
            start += data[start..].iter().position(|&b| b == b'\n').unwrap() + 1;
        }
        let mut st = State::new(mode, 4);
        assert_eq!(take(mode, &data, 0, cut, end, &mut st), Outcome::Fed);
        assert_eq!((st.rows(), st.acc()), (n as u64, sink), "{cut}");
    }
}

/// Borrowed slots leave the sink, the count and the tally that the keyed row leaves.
#[test]
fn borrowed_slots_change_nothing() {
    let (data, end) = padded();
    let mut keyed = Counter { acc: 77, n: 5, inner: InlineTable::new(3) };
    keyed.inner.upsert(&data, 0, 1, raw_hash(&data[..1]), 123);
    streamed::<2, Counted<Inline<FullKeyed>>>(&mut keyed, &data, 0, end);
    let want = entries(&keyed.inner);
    assert_eq!(keyed.n, 405);
    for k in 0..6 {
        let (mut acc, mut n, mut t) = (77u64, 5u64, InlineTable::new(3));
        t.upsert(&data, 0, 1, raw_hash(&data[..1]), 123);
        match k {
            0 => streamed_hot::<1, false>(&data, 0, end, &mut acc, &mut n, &mut t),
            1 => streamed_hot::<2, false>(&data, 0, end, &mut acc, &mut n, &mut t),
            2 => streamed_hot::<3, false>(&data, 0, end, &mut acc, &mut n, &mut t),
            3 => streamed_hot::<1, true>(&data, 0, end, &mut acc, &mut n, &mut t),
            4 => streamed_hot::<2, true>(&data, 0, end, &mut acc, &mut n, &mut t),
            _ => streamed_hot::<5, true>(&data, 0, end, &mut acc, &mut n, &mut t),
        }
        assert_eq!((acc, n), (keyed.acc, keyed.n), "{k}");
        assert_eq!(entries(&t), want, "{k}");
    }
}

fn entries(t: &InlineTable) -> BTreeMap<Vec<u8>, (i16, i16, i64, u32)> {
    t.iter().iter().map(|(n, s)| (n.to_vec(), (s.min, s.max, s.sum, s.count))).collect()
}

#[test]
fn totals_fold_the_threads() {
    let mut t = Totals::new();
    t.count(0b1100, 10, 3);
    t.count(0b1010, 5, 4);
    assert_eq!((t.sink, t.rows, t.distinct), (0b0110, 15, 7));
}
