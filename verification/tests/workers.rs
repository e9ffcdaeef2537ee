use std::collections::BTreeMap;

use obrc::chunk::num_chunks;
use obrc::feed::{OVERLAP, TAIL_GUARD};
use obrc::generate::Rng;
use obrc::inline_table::InlineTable;
use obrc::intake::{take_chunk, take_view, Outcome, Streams};
use obrc::merge::Merged;
use obrc::reading::read_span;
use obrc::table::Table;
use obrc::versions::{v2, v22, v3, v4, v6, v7};
use obrc::MAX_STATIONS;

fn file(rows: usize) -> (Vec<u8>, BTreeMap<Vec<u8>, (i16, i16, i64, u32)>) {
    let mut rng = Rng::seed(42);
    let mut data = Vec::new();
    let mut want: BTreeMap<Vec<u8>, (i16, i16, i64, u32)> = BTreeMap::new();
    for _ in 0..rows {
        let k = rng.below(60) as usize;
        let name = format!("station {k} {}", "n".repeat(k));
        let v = rng.below(1999) as i16 - 999;
        let sign = if v < 0 { "-" } else { "" };
        let (whole, tenth) = (v.abs() / 10, v.abs() % 10);
        data.extend_from_slice(format!("{name};{sign}{whole}.{tenth}\n").as_bytes());
        let e = want.entry(name.into_bytes()).or_insert((v, v, 0, 0));
        e.0 = e.0.min(v);
        e.1 = e.1.max(v);
        e.2 += v as i64;
        e.3 += 1;
    }
    (data, want)
}

fn listed(m: &Merged) -> BTreeMap<Vec<u8>, (i16, i16, i64, u32)> {
    m.entries().iter().map(|(n, s)| (n.clone(), (s.min, s.max, s.sum, s.count))).collect()
}

/// Workers that take turns at random, with one shared cursor: no row is lost and none counted
/// twice.
#[test]
fn workers_with_a_shared_cursor_tally_the_file() {
    let (data, want) = file(2000);
    let mut rng = Rng::seed(11);
    for chunk in [108usize, 500, 4096] {
        for workers in [1usize, 2, 5] {
            let mut tables: Vec<InlineTable> = (0..workers).map(|_| InlineTable::new(3)).collect();
            let mut bufs = vec![vec![0u8; chunk + OVERLAP + TAIL_GUARD]; workers];
            let mut cursor = 0usize;
            let mut at_work: Vec<usize> = (0..workers).collect();
            while !at_work.is_empty() {
                let turn = rng.below(at_work.len() as u32) as usize;
                let w = at_work[turn];
                let i = cursor;
                cursor += 1;
                let Some((base, avail)) = read_span(data.len(), i, chunk) else {
                    at_work.remove(turn);
                    continue;
                };
                let buf = &mut bufs[w];
                buf[..avail].copy_from_slice(&data[base..base + avail]);
                let got =
                    take_view::<Streams<2, v22::Row>>(&mut tables[w], buf, avail, base, chunk);
                assert_eq!(got, Outcome::Fed);
            }
            let mut m = Merged::new();
            for t in &tables {
                assert!(m.add_table(t));
            }
            assert_eq!(listed(&m), want, "{chunk} {workers}");
        }
    }
}

/// The same over a file that is in place, dealt out at random.
#[test]
fn mapped_workers_tally_the_file() {
    let (data, want) = file(1500);
    let mut rng = Rng::seed(3);
    for chunk in [108usize, 700] {
        let mut tables: Vec<Table> = (0..4).map(|_| Table::new(v3::TABLE_BITS)).collect();
        for i in 0..num_chunks(data.len(), chunk) {
            let w = rng.below(4) as usize;
            assert_eq!(take_chunk::<v3::Chunk>(&mut tables[w], &data, i, chunk), Outcome::Fed);
        }
        let mut m = Merged::new();
        for t in &tables {
            assert!(m.add_offset_table(t, &data));
        }
        assert_eq!(listed(&m), want, "{chunk}");
    }
}

/// Room for what the file amounts to is room enough for each worker, however the chunks are dealt:
/// as many slots as stations and one more.
#[test]
fn mapped_workers_with_just_enough_slots_are_fed() {
    let (data, want) = file(1500);
    assert!(want.len() < 64 && want.len() > 32);
    let mut rng = Rng::seed(8);
    for chunk in [200usize, 3000, usize::MAX] {
        let mut tables: Vec<Table> = (0..3).map(|_| Table::new(6)).collect();
        let mut maps: Vec<Merged> = (0..3).map(|_| Merged::new()).collect();
        let mut pairs: Vec<v6::Tables> = (0..3).map(|_| v6::Tables::new()).collect();
        let mut more: Vec<v6::Tables> = (0..3).map(|_| v6::Tables::new()).collect();
        for i in 0..num_chunks(data.len(), chunk) {
            let w = rng.below(3) as usize;
            assert_eq!(take_chunk::<v2::Chunk>(&mut maps[w], &data, i, chunk), Outcome::Fed);
            assert_eq!(take_chunk::<v4::Chunk>(&mut tables[w], &data, i, chunk), Outcome::Fed);
            assert_eq!(take_chunk::<v6::Chunk>(&mut pairs[w], &data, i, chunk), Outcome::Fed);
            assert_eq!(take_chunk::<v7::Chunk>(&mut more[w], &data, i, chunk), Outcome::Fed);
        }
        let mut from_tables = Merged::new();
        let mut from_pairs = Merged::new();
        let mut from_more = Merged::new();
        let mut from_maps: BTreeMap<Vec<u8>, (i16, i16, i64, u32)> = BTreeMap::new();
        for w in 0..3 {
            assert!(from_tables.add_offset_table(&tables[w], &data));
            for (m, t) in [(&mut from_pairs, &pairs[w]), (&mut from_more, &more[w])] {
                assert!(m.add_table(&t.wide));
                assert!(m.add_offset_table(&t.tail, &data));
            }
            for (n, s) in maps[w].entries() {
                let e = from_maps.entry(n.clone()).or_insert((s.min, s.max, 0, 0));
                e.0 = e.0.min(s.min);
                e.1 = e.1.max(s.max);
                e.2 += s.sum;
                e.3 += s.count;
            }
        }
        assert_eq!(listed(&from_tables), want, "{chunk}");
        assert_eq!(listed(&from_pairs), want, "{chunk}");
        assert_eq!(listed(&from_more), want, "{chunk}");
        assert_eq!(from_maps, want, "{chunk}");
    }
}

/// As many stations as the challenge allows fit every table.
#[test]
fn as_many_stations_as_allowed_fit() {
    let mut data = Vec::new();
    for i in 0..MAX_STATIONS {
        data.extend_from_slice(format!("{i:0>100};{}.5\n", i % 100).as_bytes());
    }
    let end = data.len();
    let mut t = Table::new(v4::TABLE_BITS);
    assert_eq!(take_chunk::<v4::Chunk>(&mut t, &data, 0, end), Outcome::Fed);
    assert_eq!(t.len(), MAX_STATIONS);
    let mut pair = v6::Tables::new();
    assert_eq!(take_chunk::<v6::Chunk>(&mut pair, &data, 0, end), Outcome::Fed);
    assert_eq!(pair.wide.len() + pair.tail.len(), MAX_STATIONS);
    data.resize(end + TAIL_GUARD, 0);
    let mut inline = InlineTable::new(3);
    let got = take_view::<Streams<2, v22::Row>>(&mut inline, &data, end, 0, end);
    assert_eq!(got, Outcome::Fed);
    assert_eq!(inline.len(), MAX_STATIONS);
}
