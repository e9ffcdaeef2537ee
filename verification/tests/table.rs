use std::collections::BTreeMap;

use obrc::hash::fx_hash;
use obrc::table::{keys_eq, Table};

fn collect(t: &Table, data: &[u8]) -> BTreeMap<String, (i16, i16, i64, u32)> {
    t.iter(data)
        .into_iter()
        .map(|(k, s)| (String::from_utf8(k.to_vec()).unwrap(), (s.min, s.max, s.sum, s.count)))
        .collect()
}

/// Build an input of `name;value` records and feed them all through the table.
///
/// Runs both comparison paths and asserts they agree, so every table test below covers
/// the word-wise compare as well as the slice compare.
fn run(records: &[(&str, i16)], bits: u32) -> (Vec<u8>, Table) {
    let mut data = Vec::new();
    let mut spans = Vec::new();
    for (name, _) in records {
        spans.push((data.len(), name.len()));
        data.extend_from_slice(name.as_bytes());
    }

    let build = |wide: bool| {
        let mut t = Table::new(bits);
        for (i, (name, value)) in records.iter().enumerate() {
            let (off, len) = spans[i];
            let h = fx_hash(name.as_bytes());
            if wide {
                t.upsert_wide_cmp(&data, off, len, h, *value);
            } else {
                t.upsert(&data, off, len, h, *value);
            }
        }
        t
    };

    let slice_cmp = build(false);
    let wide_cmp = build(true);
    assert_eq!(collect(&slice_cmp, &data), collect(&wide_cmp, &data), "compare paths diverged");
    (data, slice_cmp)
}

/// The word-wise compare re-reads bytes near the end of the key; make sure a difference
/// at *any* position is still caught, at every length, and that it never looks past the
/// key (the two copies are followed by deliberately different bytes).
#[test]
fn wide_compare_catches_a_difference_at_every_position() {
    for len in 1..=100usize {
        let mut data = Vec::new();
        let a = data.len();
        data.extend((0..len).map(|i| b'a' + (i % 26) as u8));
        data.extend_from_slice(b"<<<<<<<<");
        let b = data.len();
        data.extend((0..len).map(|i| b'a' + (i % 26) as u8));
        data.extend_from_slice(b">>>>>>>>");
        assert!(keys_eq(&data, a, b, len), "equal keys of length {len}");

        for pos in 0..len {
            let mut d = data.clone();
            d[b + pos] ^= 0x20;
            assert!(!keys_eq(&d, a, b, len), "length {len}, difference at byte {pos}");
        }
    }
}

#[test]
fn table_accumulates_per_key() {
    let (data, t) = run(&[("Abha", 10), ("Oslo", -50), ("Abha", 30), ("Abha", -5)], 8);
    let got = collect(&t, &data);
    assert_eq!(got["Abha"], (-5, 30, 35, 3));
    assert_eq!(got["Oslo"], (-50, -50, -50, 1));
    assert_eq!(t.len(), 2);
}

/// A table with only 8 slots forces heavy probing, so this exercises the collision
/// path rather than the happy path.
#[test]
fn table_distinct_keys_survive_forced_collisions() {
    let records: Vec<(&str, i16)> =
        vec![("a", 1), ("b", 2), ("c", 3), ("d", 4), ("e", 5), ("a", 10), ("c", 30)];
    let (data, t) = run(&records, 3);
    let got = collect(&t, &data);
    assert_eq!(t.len(), 5);
    assert_eq!(got["a"], (1, 10, 11, 2));
    assert_eq!(got["c"], (3, 30, 33, 2));
    assert_eq!(got["e"], (5, 5, 5, 1));
}

/// Keys sharing a long prefix must not be conflated — a prefix-only compare would.
#[test]
fn long_shared_prefixes_are_distinguished() {
    let a = "Station_with_a_very_long_shared_prefix_AAAA";
    let b = "Station_with_a_very_long_shared_prefix_BBBB";
    let c = "Station_with_a_very_long_shared_prefix_AAAA_extra";
    let (data, t) = run(&[(a, 1), (b, 2), (c, 3), (a, 5)], 8);
    let got = collect(&t, &data);
    assert_eq!(t.len(), 3);
    assert_eq!(got[a], (1, 5, 6, 2));
    assert_eq!(got[b], (2, 2, 2, 1));
    assert_eq!(got[c], (3, 3, 3, 1));
}
