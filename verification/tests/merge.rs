use obrc::inline_table::InlineTable;
use obrc::merge::Merged;
use obrc::output::Stats;

fn report(m: &Merged) -> String {
    let mut out = Vec::new();
    m.report(&mut out);
    String::from_utf8(out).unwrap()
}

/// Byte order: a prefix comes first, and bytes compare unsigned.
#[test]
fn stations_come_out_in_byte_order() {
    let mut m = Merged::new();
    for name in ["b", "ab", "a", "Z", "é", "abc", "zz"] {
        m.push(name.as_bytes(), 10);
    }
    let names: Vec<&[u8]> = m.entries().iter().map(|(n, _)| n.as_slice()).collect();
    let mut want: Vec<&[u8]> =
        ["b", "ab", "a", "Z", "é", "abc", "zz"].iter().map(|n| n.as_bytes()).collect();
    want.sort();
    assert_eq!(names, want);
    assert_eq!(m.len(), 7);
}

#[test]
fn merging_joins_station_by_station() {
    let mut a = Merged::new();
    a.push(b"Oslo", -57);
    a.push(b"Oslo", 57);
    a.push(b"Abha", 180);
    let mut b = Merged::new();
    b.push(b"Oslo", 3);
    b.push(b"Rome", 152);

    let mut left = Merged::new();
    assert!(left.add_merged(&a));
    assert!(left.add_merged(&b));
    let mut right = Merged::new();
    assert!(right.add_merged(&b));
    assert!(right.add_merged(&a));
    assert_eq!(report(&left), "{Abha=18.0/18.0/18.0, Oslo=-5.7/0.1/5.7, Rome=15.2/15.2/15.2}\n");
    assert_eq!(report(&left), report(&right));
}

/// The order in which tables are merged does not show.
#[test]
fn tables_merge_in_any_order() {
    let mut data = Vec::new();
    let mut spans = Vec::new();
    for i in 0..60 {
        let name = format!("station_{:02}", i % 17);
        spans.push((data.len(), name.len()));
        data.extend_from_slice(name.as_bytes());
        data.push(b';');
    }
    data.resize(data.len() + 64, 0);
    let mut tables: Vec<InlineTable> = (0..3).map(|_| InlineTable::new(2)).collect();
    for (i, &(off, len)) in spans.iter().enumerate() {
        let hash = obrc::hash::fx_hash(&data[off..off + len]);
        tables[i % 3].upsert(&data, off, len, hash, i as i16 - 30);
    }
    let mut forward = Merged::new();
    for t in &tables {
        assert!(forward.add_table(t));
    }
    let mut backward = Merged::new();
    for t in tables.iter().rev() {
        assert!(backward.add_table(t));
    }
    assert_eq!(report(&forward), report(&backward));
    assert_eq!(forward.len(), 17);
}

/// A count that would not fit is refused, and nothing is added.
#[test]
fn a_count_that_would_not_fit_is_refused() {
    let mut a = Merged::new();
    a.add(b"Oslo", &Stats { min: 0, max: 0, sum: 0, count: u32::MAX });
    let mut b = Merged::new();
    b.push(b"Oslo", 0);
    b.push(b"Abha", 5);
    assert!(!a.add_merged(&b));
    assert_eq!(a.len(), 1);
    assert_eq!(a.entries()[0].1.count, u32::MAX);
    let mut c = Merged::new();
    c.push(b"Abha", 5);
    assert!(a.add_merged(&c));
    assert_eq!(report(&a), "{Abha=0.5/0.5/0.5, Oslo=0.0/0.0/0.0}\n");
}

/// A station's entry is the summary of its own measurements, in whatever order they and the
/// others came.
#[test]
fn a_tally_summarises_each_station() {
    let rows: Vec<(String, i16)> =
        (0..400).map(|i: i32| (format!("s{}", i * 7 % 13), ((i * 131) % 1999 - 999) as i16)).collect();
    let mut m = Merged::new();
    for (name, value) in &rows {
        m.push(name.as_bytes(), *value);
    }
    assert_eq!(m.len(), 13);
    for (name, s) in m.entries() {
        let own: Vec<i16> =
            rows.iter().filter(|(n, _)| n.as_bytes() == &name[..]).map(|r| r.1).collect();
        assert_eq!(s.min, *own.iter().min().unwrap());
        assert_eq!(s.max, *own.iter().max().unwrap());
        assert_eq!(s.sum, own.iter().map(|&v| v as i64).sum::<i64>());
        assert_eq!(s.count as usize, own.len());
    }
}
