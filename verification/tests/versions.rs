use std::collections::BTreeMap;

use obrc::chunk::num_chunks;
use obrc::feed::{StationStep, OVERLAP, TAIL_GUARD};
use obrc::inline_table::InlineTable;
use obrc::intake::{take_chunk, take_range, take_view, Intake, Outcome, Streams};
use obrc::merge::Merged;
use obrc::reading::read_span;
use obrc::table::Table;
use obrc::versions::{
    v10, v11, v13, v15, v16, v17, v18, v19, v2, v20, v21, v22, v3, v4, v6, v7, v9,
};

/// Rows of every name length that matters to a scan or a key, with every shape of value.
fn sample(trailing_newline: bool) -> Vec<u8> {
    let values = ["0.0", "-0.0", "1.2", "-1.2", "12.3", "-12.3", "99.9", "-99.9"];
    let mut data = Vec::new();
    for round in 0..3usize {
        for len in 1..=100usize {
            if len > 40 && len < 95 {
                continue;
            }
            let name: String = (0..len).map(|i| (b'a' + ((i + len) % 26) as u8) as char).collect();
            let value = values[(len * 7 + round * 3) % values.len()];
            data.extend_from_slice(format!("{name};{value}\n").as_bytes());
        }
    }
    data.extend_from_slice("Zürich;9.3\n".as_bytes());
    data.extend_from_slice(b"Oslo;-5.7");
    if trailing_newline {
        data.push(b'\n');
    }
    data
}

fn tenths(text: &str) -> i64 {
    let digits: String = text.chars().filter(|c| c.is_ascii_digit()).collect();
    let v: i64 = digits.parse().unwrap();
    if text.starts_with('-') {
        -v
    } else {
        v
    }
}

fn print_tenths(t: i64) -> String {
    format!("{}{}.{}", if t < 0 { "-" } else { "" }, t.abs() / 10, t.abs() % 10)
}

/// The report, worked out line by line.
fn expected(data: &[u8]) -> String {
    let mut map: BTreeMap<&[u8], (i64, i64, i64, i64)> = BTreeMap::new();
    for line in data.split(|&b| b == b'\n').filter(|l| !l.is_empty()) {
        let semi = line.iter().position(|&b| b == b';').unwrap();
        let v = tenths(std::str::from_utf8(&line[semi + 1..]).unwrap());
        let e = map.entry(&line[..semi]).or_insert((v, v, 0, 0));
        e.0 = e.0.min(v);
        e.1 = e.1.max(v);
        e.2 += v;
        e.3 += 1;
    }
    let mut entries = Vec::new();
    for (name, (min, max, sum, count)) in map {
        let mean = (2 * sum + count).div_euclid(2 * count);
        entries.push(format!(
            "{}={}/{}/{}",
            std::str::from_utf8(name).unwrap(),
            print_tenths(min),
            print_tenths(mean),
            print_tenths(max)
        ));
    }
    format!("{{{}}}\n", entries.join(", "))
}

fn report(m: &Merged) -> String {
    let mut out = Vec::new();
    m.report(&mut out);
    String::from_utf8(out).unwrap()
}

const SIZES: [usize; 6] = [1, 7, 64, 500, 4096, 1 << 20];

/// Reads chunk by chunk into a recycled buffer, dealt out to a number of tables.
fn run_buffered<I: Intake<Ctx = InlineTable>>(data: &[u8], chunk: usize, workers: usize) -> String {
    let mut tables: Vec<InlineTable> = (0..workers).map(|_| InlineTable::new(3)).collect();
    let mut buf = vec![0xAAu8; chunk + OVERLAP + TAIL_GUARD];
    for i in 0..num_chunks(data.len(), chunk) {
        let (base, avail) = read_span(data.len(), i, chunk).unwrap();
        buf[..avail].copy_from_slice(&data[base..base + avail]);
        let got = take_view::<I>(&mut tables[(i * 5 + i / 3) % workers], &buf, avail, base, chunk);
        assert_eq!(got, Outcome::Fed, "chunk {i} at size {chunk}");
    }
    let mut m = Merged::new();
    for t in &tables {
        assert!(m.add_table(t));
    }
    report(&m)
}

fn check_buffered<I: Intake<Ctx = InlineTable>>() {
    for newline in [true, false] {
        let data = sample(newline);
        let want = expected(&data);
        for chunk in SIZES {
            for workers in [1, 3] {
                assert_eq!(run_buffered::<I>(&data, chunk, workers), want, "size {chunk}");
            }
        }
    }
}

fn check_row<const N: usize, R: StationStep>() {
    check_buffered::<Streams<N, R>>();
}

#[test]
fn v9_reports_the_input() {
    check_row::<{ v9::STREAMS }, v9::Row>();
}

#[test]
fn v10_reports_the_input() {
    check_row::<{ v10::STREAMS }, v10::Row>();
}

#[test]
fn v11_reports_the_input() {
    check_row::<{ v11::STREAMS }, v11::Row>();
}

#[test]
fn v13_reports_the_input() {
    check_buffered::<v13::Chunk>();
}

#[test]
fn v15_reports_the_input() {
    check_row::<{ v15::STREAMS }, v15::Row>();
}

#[test]
fn v16_reports_the_input() {
    check_row::<{ v16::STREAMS }, v16::Row>();
}

#[test]
fn v17_reports_the_input() {
    check_buffered::<v17::Chunk>();
}

#[test]
fn v18_reports_the_input() {
    check_row::<{ v18::STREAMS }, v18::Row>();
}

#[test]
fn v19_reports_the_input() {
    check_row::<{ v19::STREAMS }, v19::Row>();
}

#[test]
fn v20_reports_the_input() {
    check_row::<{ v20::STREAMS }, v20::Row>();
}

#[test]
fn v21_reports_the_input() {
    check_row::<{ v21::STREAMS }, v21::Row>();
}

#[test]
fn v22_reports_the_input() {
    check_row::<{ v22::STREAMS }, v22::Row>();
}

/// One stream, or none asked for, is the serial chain.
#[test]
fn the_serial_chain_reports_the_input() {
    check_row::<1, v22::Row>();
    check_row::<0, v6::Row>();
}

#[test]
fn v2_reports_the_input() {
    for newline in [true, false] {
        let data = sample(newline);
        for chunk in SIZES {
            let mut maps = vec![Merged::new(), Merged::new()];
            for i in 0..num_chunks(data.len(), chunk) {
                assert_eq!(
                    take_chunk::<v2::Chunk>(&mut maps[i % 2], &data, i, chunk),
                    Outcome::Fed
                );
            }
            let mut m = Merged::new();
            for map in &maps {
                assert!(m.add_merged(map));
            }
            assert_eq!(report(&m), expected(&data));
        }
    }
}

fn check_offsets<I: Intake<Ctx = Table>>() {
    for newline in [true, false] {
        let data = sample(newline);
        for chunk in SIZES {
            let mut tables = vec![Table::new(v3::TABLE_BITS), Table::new(v3::TABLE_BITS)];
            for i in 0..num_chunks(data.len(), chunk) {
                assert_eq!(take_chunk::<I>(&mut tables[i % 2], &data, i, chunk), Outcome::Fed);
            }
            let mut m = Merged::new();
            for t in &tables {
                assert!(m.add_offset_table(t, &data));
            }
            assert_eq!(report(&m), expected(&data));
        }
    }
}

#[test]
fn v3_reports_the_input() {
    check_offsets::<v3::Chunk>();
}

#[test]
fn v4_reports_the_input() {
    check_offsets::<v4::Chunk>();
}

fn check_pairs<I: Intake<Ctx = v6::Tables>>() {
    for newline in [true, false] {
        let data = sample(newline);
        for chunk in SIZES {
            let mut workers = vec![v6::Tables::new(), v6::Tables::new()];
            for i in 0..num_chunks(data.len(), chunk) {
                assert_eq!(take_chunk::<I>(&mut workers[i % 2], &data, i, chunk), Outcome::Fed);
            }
            let mut m = Merged::new();
            for w in &workers {
                assert!(m.add_table(&w.wide));
                assert!(m.add_offset_table(&w.tail, &data));
            }
            assert_eq!(report(&m), expected(&data));
        }
    }
}

#[test]
fn v6_reports_the_input() {
    check_pairs::<v6::Chunk>();
}

#[test]
fn v7_reports_the_input() {
    check_pairs::<v7::Chunk>();
}

#[test]
fn the_report_is_exact() {
    let data = b"Oslo;-5.7\nAbha;18.0\nOslo;5.7\nAbha;-23.0\nAbha;59.2\nOslo;-0.1\n".to_vec();
    let mut m = Merged::new();
    assert_eq!(take_chunk::<v2::Chunk>(&mut m, &data, 0, 4096), Outcome::Fed);
    // 54.2 / 3 = 18.0666.., and -0.1 / 3 rounds up to zero.
    assert_eq!(report(&m), "{Abha=-23.0/18.1/59.2, Oslo=-5.7/0.0/5.7}\n");
}

#[test]
fn an_empty_input_reports_nothing() {
    let mut m = Merged::new();
    assert_eq!(take_chunk::<v2::Chunk>(&mut m, b"", 0, 4096), Outcome::Fed);
    assert_eq!(report(&m), "{}\n");
    assert_eq!(m.len(), 0);
}

/// What is not a row is turned away, and nothing of it is taken in.
#[test]
fn malformed_rows_are_turned_away() {
    let bad: [&[u8]; 12] = [
        b"Oslo;1.0\nnothing here\n",
        b"Oslo;1.0\nAbha;\n",
        b"Oslo;1.0\nAbha;12\n",
        b"Oslo;1.0\nAbha;100.0\n",
        b"Oslo;1.0\nAbha;1.23\n",
        b"Oslo;1.0\nAbha;+1.2\n",
        b"Oslo;1.0\nAbha;--1.2\n",
        b"Oslo;1.0\nAbha;.2\n",
        b"Oslo;1.0\nAbha;1.x\n",
        b"Oslo;1.0\n\nAbha;1.2\n",
        b"Oslo;1.0\nAbha;1.2\r\n",
        b"Oslo;1.0\nAbha;1.",
    ];
    for data in bad {
        let mut m = Merged::new();
        assert_eq!(take_chunk::<v2::Chunk>(&mut m, data, 0, 4096), Outcome::Malformed);
        assert_eq!(m.len(), 0);

        let mut padded = data.to_vec();
        padded.resize(data.len() + TAIL_GUARD, b'7');
        let mut t = InlineTable::new(4);
        assert_eq!(
            take_view::<Streams<2, v22::Row>>(&mut t, &padded, data.len(), 0, 4096),
            Outcome::Malformed
        );
        assert!(t.is_empty());
    }
}

/// A table whose slots run out says so, with what went before taken in.
#[test]
fn versions_take_the_names_they_can_hold() {
    let long = "x".repeat(300);
    let odd: [Vec<u8>; 3] = [
        b"Oslo;1.0\nA\0ha;1.2\nA;5.0\nA\0ha;1.6\n".to_vec(),
        format!("Oslo;1.0\n{long};2.0\nAbha;3.0\n{long};-4.0\n").into_bytes(),
        format!("{};2.0\n{}", "y".repeat(101), "Abha;3.0\n".repeat(30)).into_bytes(),
    ];
    for data in &odd {
        let want = expected(data);
        let mut m = Merged::new();
        assert_eq!(take_chunk::<v2::Chunk>(&mut m, data, 0, 4096), Outcome::Fed);
        assert_eq!(report(&m), want);

        let mut t = Table::new(16);
        assert_eq!(take_chunk::<v3::Chunk>(&mut t, data, 0, 4096), Outcome::Fed);
        let mut m = Merged::new();
        assert!(m.add_offset_table(&t, data));
        assert_eq!(report(&m), want);

        let mut t = Table::new(16);
        assert_eq!(take_chunk::<v4::Chunk>(&mut t, data, 0, 4096), Outcome::Fed);
        let mut m = Merged::new();
        assert!(m.add_offset_table(&t, data));
        assert_eq!(report(&m), want);

        let mut padded = data.to_vec();
        padded.resize(data.len() + TAIL_GUARD, b'7');
        let mut t = InlineTable::new(4);
        assert_eq!(
            take_view::<Streams<2, v22::Row>>(&mut t, &padded, data.len(), 0, 4096),
            Outcome::Malformed
        );
    }

    let nameless = b"Oslo;1.0\n;2.0\n";
    let mut m = Merged::new();
    assert_eq!(take_chunk::<v2::Chunk>(&mut m, nameless, 0, 4096), Outcome::Fed);
    assert_eq!(report(&m), "{=2.0/2.0/2.0, Oslo=1.0/1.0/1.0}\n");
    let mut t = Table::new(16);
    assert_eq!(take_chunk::<v3::Chunk>(&mut t, nameless, 0, 4096), Outcome::Malformed);
    assert_eq!(take_chunk::<v4::Chunk>(&mut t, nameless, 0, 4096), Outcome::Malformed);
}

/// A table with no slot to spare goes on as long as no new station comes.
#[test]
fn a_table_at_its_limit_goes_on() {
    let data = b"a;1.0\nb;2.0\nc;3.0\nb;4.0\na;5.0\nc;-6.0\n".to_vec();
    for wide in [false, true] {
        let mut t = Table::new(2);
        let got = if wide {
            take_chunk::<v4::Chunk>(&mut t, &data, 0, 4096)
        } else {
            take_chunk::<v3::Chunk>(&mut t, &data, 0, 4096)
        };
        assert_eq!(got, Outcome::Fed);
        assert_eq!(t.len(), t.max_len());
        let mut m = Merged::new();
        assert!(m.add_offset_table(&t, &data));
        assert_eq!(report(&m), "{a=1.0/3.0/5.0, b=2.0/3.0/4.0, c=-6.0/-1.5/3.0}\n");
    }

    // As many stations as there are slots but one, and then the same again.
    let mut data = Vec::new();
    for round in 0..2 {
        for i in 0..65_535u32 {
            data.extend_from_slice(format!("s{i};{}.0\n", round + 1).as_bytes());
        }
    }
    let mut t = Table::new(v3::TABLE_BITS);
    assert_eq!(take_chunk::<v3::Chunk>(&mut t, &data, 0, data.len()), Outcome::Fed);
    assert_eq!(t.len(), 65_535);
    data.extend_from_slice(b"one more;1.0\n");
    let mut t = Table::new(v4::TABLE_BITS);
    assert_eq!(take_chunk::<v4::Chunk>(&mut t, &data, 0, data.len()), Outcome::Full);
    assert_eq!(t.len(), 65_535);
}

#[test]
fn a_full_table_says_so() {
    let data = b"a;1.0\nb;2.0\nc;3.0\nd;4.0\n".to_vec();
    let mut t = Table::new(2);
    assert_eq!(take_chunk::<v3::Chunk>(&mut t, &data, 0, 4096), Outcome::Full);
    assert_eq!(t.len(), 3);
    assert_eq!(t.max_len(), 3);

    let data = b"a;1.0\nb;2.0\na;3.0\nb;4.0\na;5.0\n".to_vec();
    let mut t = Table::new(2);
    assert_eq!(take_chunk::<v4::Chunk>(&mut t, &data, 0, 4096), Outcome::Fed);
    let mut m = Merged::new();
    assert!(m.add_offset_table(&t, &data));
    assert_eq!(report(&m), "{a=1.0/3.0/5.0, b=2.0/3.0/4.0}\n");
}

/// A range need not be a chunk.
#[test]
fn a_range_of_rows_is_taken_in() {
    let data = b"a;1.0\nb;2.0\nc;3.0\n".to_vec();
    let mut m = Merged::new();
    assert_eq!(take_range::<v2::Chunk>(&mut m, &data, 6, 12, data.len()), Outcome::Fed);
    assert_eq!(report(&m), "{b=2.0/2.0/2.0}\n");
    assert_eq!(take_range::<v2::Chunk>(&mut m, &data, 12, 12, data.len()), Outcome::Fed);
    assert_eq!(m.len(), 1);
}
