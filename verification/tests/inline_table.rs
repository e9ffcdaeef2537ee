use std::collections::BTreeMap;

use obrc::hash::fx_hash;
use obrc::inline_table::{probe_key, InlineTable, INLINE_KEY, KEY_SLACK};

/// Lays out the records as input rows, with [`KEY_SLACK`] of readable slack past the last
/// one, as the workers guarantee. Returns the bytes and one `(offset, len)` span per record.
fn layout(records: &[(&str, i16)]) -> (Vec<u8>, Vec<(usize, usize)>) {
    let mut data = Vec::new();
    let mut spans = Vec::new();
    for (name, _) in records {
        spans.push((data.len(), name.len()));
        data.extend_from_slice(name.as_bytes());
        data.extend_from_slice(b";12.3\n");
    }
    data.resize(data.len() + KEY_SLACK, 0xAA);
    (data, spans)
}

fn run(records: &[(&str, i16)], bits: u32) -> InlineTable {
    let (data, spans) = layout(records);

    let mut t = InlineTable::new(bits);
    for (i, (name, value)) in records.iter().enumerate() {
        let (off, len) = spans[i];
        t.upsert(&data, off, len, fx_hash(name.as_bytes()), *value);
    }
    t
}

fn collect(t: &InlineTable) -> BTreeMap<String, (i16, i16, i64, u32)> {
    t.iter()
        .into_iter()
        .map(|(k, s)| (String::from_utf8(k.to_vec()).unwrap(), (s.min, s.max, s.sum, s.count)))
        .collect()
}

#[test]
fn inline_table_accumulates_per_key() {
    let t = run(&[("Abha", 10), ("Oslo", -50), ("Abha", 30), ("Abha", -5)], 8);
    let got = collect(&t);
    assert_eq!(got["Abha"], (-5, 30, 35, 3));
    assert_eq!(got["Oslo"], (-50, -50, -50, 1));
    assert_eq!(t.len(), 2);
}

/// The inline key is masked to `len`; whatever follows the name in the input must not
/// leak into it, or the same station would look different from row to row.
#[test]
fn trailing_bytes_do_not_leak_into_the_key() {
    let mut data = Vec::new();
    let mut spans = Vec::new();
    for suffix in [";1.0\n", ";-99.9\n", ";0.0\n", ";12.3\n"] {
        spans.push(data.len());
        data.extend_from_slice(b"Abha");
        data.extend_from_slice(suffix.as_bytes());
    }
    data.resize(data.len() + KEY_SLACK, 0xAA);

    let mut t = InlineTable::new(8);
    for off in spans {
        t.upsert(&data, off, 4, fx_hash(b"Abha"), 1);
    }
    assert_eq!(t.len(), 1, "one station split across several entries");
    assert_eq!(collect(&t)["Abha"], (1, 1, 4, 4));
}

#[test]
fn inline_table_distinct_keys_survive_forced_collisions() {
    let records = [("a", 1), ("b", 2), ("c", 3), ("d", 4), ("e", 5), ("a", 10), ("c", 30)];
    let t = run(&records, 3);
    let got = collect(&t);
    assert_eq!(t.len(), 5);
    assert_eq!(got["a"], (1, 10, 11, 2));
    assert_eq!(got["c"], (3, 30, 33, 2));
}

/// The probe no longer compares lengths — it relies on a name being recoverable from its
/// zero-padded key. That holds only while names contain no NUL, and the case it protects is
/// a name that is a strict prefix of another. Check a whole prefix chain, including the one
/// that runs across the 32-byte seam where the inline key stops covering the name.
///
/// Both directions. Whether the shorter or the longer name is the *query* decides which
/// one's length the probe gets to see, so a chain walked only short-to-long tests half the
/// property — which is how the `len <= INLINE_KEY` off-by-one survived here.
#[test]
fn a_name_is_never_confused_with_its_own_prefixes() {
    let base = "Sankt_Peterburg_Oblast_Station_Nord";
    let names: Vec<String> = (1..=base.len()).map(|n| base[..n].to_string()).collect();
    let mut refs: Vec<(&str, i16)> = names.iter().map(|n| (n.as_str(), 1i16)).collect();

    for _ in 0..2 {
        let t = run(&refs, 8);
        assert_eq!(t.len(), names.len(), "prefixes merged into one entry");
        assert!(collect(&t).values().all(|&s| s == (1, 1, 1, 1)));
        refs.reverse();
    }
}

/// A name of *exactly* [`INLINE_KEY`] bytes fills the key with non-zero, so it is
/// indistinguishable from the prefix of any longer name — the one length at which the
/// zero-padding argument above does not hold. It must therefore take the tail compare like
/// any other long name.
///
/// Only the order below catches it: inserting the 32-byte name first makes the longer one
/// the query, and the longer one does compare lengths. Inserting the longer one first makes
/// the 32-byte name the query, and it is the query's length that decides whether the guard
/// is skipped. The prefix chain above only ever runs short-to-long.
#[test]
fn a_name_that_exactly_fills_the_key_is_not_confused_with_a_longer_one() {
    let short = "Sankt_Peterburg_Oblast_Station_N";
    let long = "Sankt_Peterburg_Oblast_Station_Nord";
    assert_eq!(short.len(), INLINE_KEY);
    assert_eq!(&long[..INLINE_KEY], short);

    // Both orders, and a forced hash collision so the probe cannot avoid the comparison by
    // landing elsewhere — that is the case the key compare exists for.
    for recs in [[(long, 1i16), (short, 2i16)], [(short, 2i16), (long, 1i16)]] {
        let (data, spans) = layout(&recs);
        let mut t = InlineTable::new(8);
        for (i, (name, value)) in recs.iter().enumerate() {
            t.upsert(&data, spans[i].0, name.len(), 0xdead_beef_0000_0000, *value);
        }
        let got = collect(&t);
        assert_eq!(t.len(), 2, "{recs:?} merged into one entry");
        assert_eq!(got[short], (2, 2, 2, 1));
        assert_eq!(got[long], (1, 1, 1, 1));
    }
}

/// Exercises the `len > INLINE_KEY` fallback, including names that are identical for
/// far longer than the inline key and differ only at the very end.
#[test]
fn long_names_fall_back_to_the_tail_compare() {
    let a = "x".repeat(99) + "A";
    let b = "x".repeat(99) + "B";
    let c = "x".repeat(50);
    let recs = [(a.as_str(), 1), (b.as_str(), 2), (c.as_str(), 3), (a.as_str(), 9)];
    let t = run(&recs, 8);
    let got = collect(&t);
    assert_eq!(t.len(), 3);
    assert_eq!(got[&a], (1, 9, 10, 2));
    assert_eq!(got[&b], (2, 2, 2, 1));
    assert_eq!(got[&c], (3, 3, 3, 1));
}

/// Growth must be invisible. A table started far too small has to end up with exactly
/// the contents of one that never grew — same stats, same names, same count — after
/// crossing the doubling boundary many times over.
#[test]
fn growth_is_indistinguishable_from_starting_large() {
    let names: Vec<String> = (0..5000).map(|i| format!("station_{i:05}")).collect();
    // Two rows per name, so the second one exercises the *lookup* path in a table that
    // has been re-slotted since the insert.
    let mut refs: Vec<(&str, i16)> = names.iter().map(|n| (n.as_str(), 7i16)).collect();
    refs.extend(names.iter().map(|n| (n.as_str(), -3i16)));

    let grown = run(&refs, 1);
    let preallocated = run(&refs, 14);
    assert_eq!(grown.len(), names.len());
    assert_eq!(collect(&grown), collect(&preallocated));
}

/// The arena is not rebuilt by a doubling, so a name too long to live inline has to
/// still be found through `key_off` afterwards.
#[test]
fn growth_preserves_long_names() {
    let names: Vec<String> = (0..300).map(|i| format!("{}{i:03}", "z".repeat(97))).collect();
    let refs: Vec<(&str, i16)> = names.iter().map(|n| (n.as_str(), 1i16)).collect();
    let t = run(&refs, 1);
    assert_eq!(t.len(), 300);
    assert_eq!(collect(&t), collect(&run(&refs, 10)));
}

/// The key is cut at the length, which may reach past the data.
#[test]
fn a_key_is_cut_at_the_length() {
    let data: Vec<u8> = (1..=40).collect();
    for off in 0..=8usize {
        for len in [0usize, 1, 15, 16, 17, 31, 32, 33, 40, 1000, usize::MAX] {
            let key = probe_key(&data, off, len);
            let mut bytes = key[0].to_le_bytes().to_vec();
            bytes.extend_from_slice(&key[1].to_le_bytes());
            for i in 0..32usize {
                assert_eq!(bytes[i], if i < len { data[off + i] } else { 0 }, "{off} {len} {i}");
            }
        }
    }
}
