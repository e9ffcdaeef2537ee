use obrc::chunk::{num_chunks, CHUNK_SIZE};
use obrc::config::{
    chunk_size, diagnostic_table_bits, read_size, table_bits, threads, DEFAULT_READ,
};
use obrc::feed::OVERLAP;
use obrc::reading::{next_range, read_span, reduce};
use obrc::MAX_LINE_LEN;

#[test]
fn settings_fall_back_to_defaults() {
    assert_eq!(threads(None), 8);
    assert_eq!(threads(Some(0)), 8);
    assert_eq!(threads(Some(18)), 18);

    assert_eq!(chunk_size(None), CHUNK_SIZE);
    assert_eq!(chunk_size(Some(MAX_LINE_LEN)), CHUNK_SIZE);
    assert_eq!(chunk_size(Some(MAX_LINE_LEN + 1)), MAX_LINE_LEN + 1);

    assert_eq!(table_bits(None), 14);
    assert_eq!(table_bits(Some(0)), 14);
    assert_eq!(table_bits(Some(1)), 1);
    assert_eq!(table_bits(Some(24)), 24);
    assert_eq!(table_bits(Some(25)), 14);

    assert_eq!(diagnostic_table_bits(None), 16);
    assert_eq!(diagnostic_table_bits(Some(0)), 0);
    assert_eq!(diagnostic_table_bits(Some(25)), 16);

    assert_eq!(read_size(None), DEFAULT_READ);
    assert_eq!(read_size(Some(0)), 2 << 20);
    assert_eq!(read_size(Some(1)), 1);
}

#[test]
fn spans_reach_one_line_past_the_chunk() {
    assert_eq!(read_span(10_000, 0, 1000), Some((0, 1000 + OVERLAP)));
    assert_eq!(read_span(10_000, 9, 1000), Some((9000, 1000)));
    assert_eq!(read_span(10_000, 10, 1000), None);
    assert_eq!(read_span(10_050, 9, 1000), Some((9000, 1050)));
    assert_eq!(read_span(0, 0, 1000), None);
    assert_eq!(read_span(10, usize::MAX, usize::MAX), None);
    assert_eq!(read_span(10, 0, usize::MAX), Some((0, 10)));
}

#[test]
fn ranges_tile_the_input() {
    for len in [0usize, 1, 7, 64, 1000] {
        for chunk in [1usize, 3, 64, 1000, 5000] {
            let mut at = 0;
            let mut i = 0;
            while let Some((a, b)) = next_range(len, i, chunk) {
                assert_eq!(a, at);
                assert!(a < b && b - a <= chunk);
                at = b;
                i += 1;
            }
            assert_eq!(at, len);
            assert_eq!(i, num_chunks(len, chunk));
        }
    }
}

#[test]
fn the_checksum_is_exact() {
    assert_eq!(reduce(b""), 0);
    assert_eq!(reduce(b"\x01\x02\x03"), 0);
    assert_eq!(reduce(b"abcdefgh"), u64::from_le_bytes(*b"abcdefgh"));
    assert_eq!(reduce(b"abcdefghij"), u64::from_le_bytes(*b"abcdefgh") ^ 0x69 ^ 0x6A);
}

/// Cut at whole words, and folded in any order, the parts come to what the whole does.
#[test]
fn the_checksum_does_not_show_the_parts() {
    let data: Vec<u8> = (0..1003u32).map(|i| (i * 37 % 251) as u8).collect();
    let whole = reduce(&data);
    for chunk in [8usize, 64, 512, 4096] {
        let mut parts = Vec::new();
        let mut i = 0;
        while let Some((a, b)) = next_range(data.len(), i, chunk) {
            parts.push(reduce(&data[a..b]));
            i += 1;
        }
        assert_eq!(parts.iter().fold(0, |a, p| a ^ p), whole);
        assert_eq!(parts.iter().rev().fold(0, |a, p| a ^ p), whole);
    }
}
