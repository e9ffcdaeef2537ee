use obrc::chunk::{chunk_bounds, local_bounds, num_chunks, split_streams, CHUNK_SIZE};

/// Every byte of the file must be covered exactly once, and every chunk must contain
/// only whole lines.
fn assert_partition(data: &[u8], chunk_size: usize) {
    let mut covered = 0usize;
    let mut expect_start = 0usize;
    for i in 0..num_chunks(data.len(), chunk_size) {
        if let Some((s, e)) = chunk_bounds(data, i, chunk_size) {
            assert_eq!(s, expect_start, "chunk {i} does not resume where the last left off");
            assert!(s < e);
            // A chunk must begin at a line start and end just past a '\n' (or at EOF).
            assert!(s == 0 || data[s - 1] == b'\n', "chunk {i} starts mid-line");
            assert!(e == data.len() || data[e - 1] == b'\n', "chunk {i} ends mid-line");
            covered += e - s;
            expect_start = e;
        }
    }
    assert_eq!(covered, data.len(), "chunks did not cover the whole input");
    assert_eq!(expect_start, data.len());
}

/// A worker that can only see its own chunk must reach exactly the same decision as one
/// looking at the whole file — for every chunk, at every size.
fn assert_local_matches_global(data: &[u8], chunk_size: usize, overlap: usize) {
    for i in 0..num_chunks(data.len(), chunk_size) {
        let base = i * chunk_size;
        if base >= data.len() {
            continue;
        }
        let avail = (chunk_size + overlap).min(data.len() - base);
        let view = &data[base..base + avail];
        let local = local_bounds(view, base, chunk_size).map(|(s, e)| (base + s, base + e));
        assert_eq!(
            local,
            chunk_bounds(data, i, chunk_size),
            "chunk {i} disagrees at chunk_size {chunk_size}"
        );
    }
}

#[test]
fn local_bounds_agree_with_the_global_split() {
    let mut data = Vec::new();
    for i in 0..300 {
        // Lengths vary so boundaries land at every offset within a line.
        let name = "s".repeat(1 + i % 37);
        data.extend_from_slice(format!("{name}{i};{}.{}\n", i % 100, i % 10).as_bytes());
    }
    let max_line = 37 + 3 + 1 + 4 + 1 + 8;
    for chunk_size in [1usize, 2, 3, 7, 16, 41, 64, 100, 1000, 4096, data.len(), data.len() * 2]
    {
        assert_local_matches_global(&data, chunk_size, max_line);
    }

    // Missing trailing newline, and a single line longer than the chunk.
    assert_local_matches_global(b"a;1.0\nbb;2.0\nccc;3.0", 4, 64);
    assert_local_matches_global(b"averyveryverylongstationname;12.3\n", 4, 64);
    assert_local_matches_global(b"Abha;18.0\n", 4096, 64);
}

#[test]
fn partitions_at_many_chunk_sizes() {
    let mut data = Vec::new();
    for i in 0..500 {
        data.extend_from_slice(format!("Station{i};{}.{}\n", i % 100, i % 10).as_bytes());
    }
    for chunk_size in
        [1usize, 2, 3, 7, 8, 13, 16, 64, 100, 1000, 4096, data.len(), data.len() * 2]
    {
        assert_partition(&data, chunk_size);
    }
}

/// The streams must tile the range exactly and every head must sit on a line start,
/// including the degenerate cases where the range holds fewer lines than streams.
fn assert_streams<const N: usize>(data: &[u8], start: usize, end: usize) {
    let r = split_streams::<N>(data, start, end);
    assert_eq!(r[0].0, start);
    assert_eq!(r[N - 1].1, end);
    for k in 0..N {
        assert!(r[k].0 <= r[k].1, "stream {k} is inverted: {:?}", r[k]);
        assert!(
            r[k].0 == 0 || r[k].0 == data.len() || data[r[k].0 - 1] == b'\n',
            "stream {k} starts mid-line"
        );
        if k + 1 < N {
            assert_eq!(r[k].1, r[k + 1].0, "gap or overlap between streams {k} and {}", k + 1);
        }
    }
    assert_eq!(r.iter().map(|(s, e)| e - s).sum::<usize>(), end - start);
}

#[test]
fn splits_into_line_aligned_streams() {
    let mut data = Vec::new();
    for i in 0..200 {
        data.extend_from_slice(format!("Station{i};{}.{}\n", i % 100, i % 10).as_bytes());
    }
    for (i, _) in data.iter().enumerate().filter(|(_, &b)| b == b'\n') {
        // Every line start is a legal range start.
        assert_streams::<2>(&data, i + 1, data.len());
        assert_streams::<4>(&data, i + 1, data.len());
        assert_streams::<8>(&data, i + 1, data.len());
    }
}

/// Fewer lines than streams, and a single line spanning every split point.
#[test]
fn splits_degenerate_ranges() {
    let one = b"Abha;18.0\n".as_slice();
    assert_streams::<4>(one, 0, one.len());
    assert_eq!(split_streams::<4>(one, 0, one.len())[0], (0, one.len()));

    let two = b"a;1.0\nbb;2.0\n".as_slice();
    assert_streams::<4>(two, 0, two.len());

    let long = b"averyveryverylongstationname;12.3\n".as_slice();
    assert_streams::<8>(long, 0, long.len());

    assert_streams::<4>(b"", 0, 0);
}

#[test]
fn handles_missing_trailing_newline() {
    let data = b"a;1.0\nbb;2.0\nccc;3.0".as_slice();
    for chunk_size in [1usize, 2, 5, 6, 7, 13, 100] {
        assert_partition(data, chunk_size);
    }
}

#[test]
fn single_line_spanning_many_chunks_is_owned_once() {
    let data = b"averyveryverylongstationname;12.3\n".as_slice();
    // chunk_size 4 => the line spans 9 raw chunks; exactly one must claim it.
    let claimed: Vec<_> =
        (0..num_chunks(data.len(), 4)).filter_map(|i| chunk_bounds(data, i, 4)).collect();
    assert_eq!(claimed, vec![(0, data.len())]);
}

#[test]
fn empty_input() {
    assert_eq!(chunk_bounds(&[], 0, 64), None);
    assert_eq!(num_chunks(0, 64), 0);
}

#[test]
fn single_row() {
    let data = b"Abha;18.0\n".as_slice();
    assert_eq!(chunk_bounds(data, 0, CHUNK_SIZE), Some((0, 10)));
    assert_eq!(chunk_bounds(data, 1, CHUNK_SIZE), None);
}

/// A chunk that reaches past anything an address can hold is the rest of the input.
#[test]
fn a_chunk_past_any_address_is_the_rest() {
    let data = b"Abha;18.0\nOslo;-3.4\n".as_slice();
    assert_eq!(chunk_bounds(data, 0, usize::MAX), Some((0, 20)));
    assert_eq!(chunk_bounds(data, 1, usize::MAX), None);
    assert_eq!(chunk_bounds(data, usize::MAX, usize::MAX), None);
    assert_eq!(chunk_bounds(data, usize::MAX, 1), None);
}
