use obrc::generate::{
    chunk_rng, num_chunks, prefix, push_row, push_tenths, rows_in_chunk, splitmix64, station_at,
    stations_kept, Pipeline, Rng, ROWS_PER_CHUNK, WINDOW,
};
use obrc::rows::{check_rows, Names};

#[test]
fn splitmix_draws_its_sequence() {
    let mut x = 0u64;
    assert_eq!(splitmix64(&mut x), 0xE220_A839_7B1D_CDAF);
    assert_eq!(x, 0x9E37_79B9_7F4A_7C15);
    let mut y = 1234567u64;
    assert_eq!(splitmix64(&mut y), 6457827717110365317);
    assert_eq!(splitmix64(&mut y), 3203168211198807973);
    assert_eq!(splitmix64(&mut y), 9817491932198370423);
}

/// The same generator, written over plain words.
fn plain_draw(s: &mut [u64; 4]) -> u64 {
    let result = s[0].wrapping_add(s[3]).rotate_left(23).wrapping_add(s[0]);
    let t = s[1] << 17;
    s[2] ^= s[0];
    s[3] ^= s[1];
    s[1] ^= s[2];
    s[0] ^= s[3];
    s[2] ^= t;
    s[3] = s[3].rotate_left(45);
    result
}

#[test]
fn words_are_drawn_as_xoshiro_does() {
    let mut x = 42u64;
    let mut s =
        [splitmix64(&mut x), splitmix64(&mut x), splitmix64(&mut x), splitmix64(&mut x)];
    let mut rng = Rng::seed(42);
    for _ in 0..1000 {
        assert_eq!(rng.next_u64(), plain_draw(&mut s));
    }
    for n in [1u32, 2, 413, 10_000, u32::MAX] {
        let want = ((plain_draw(&mut s) as u128 * n as u128) >> 64) as u32;
        let got = rng.below(n);
        assert_eq!(got, want);
        assert!(got < n);
    }
}

/// A chunk depends on the seed and its index alone.
#[test]
fn chunks_are_seeded_by_index() {
    let mut a = chunk_rng(7, 3);
    let mut b = chunk_rng(7, 3);
    let mut c = chunk_rng(7, 4);
    let mut x = 7u64 ^ 3;
    let mut plain = Rng::seed(splitmix64(&mut x));
    let first = a.next_u64();
    assert_eq!(first, b.next_u64());
    assert_eq!(first, plain.next_u64());
    assert_ne!(first, c.next_u64());
}

#[test]
fn tenths_are_written_with_one_decimal() {
    for (t, text) in
        [(0, "0.0"), (-1, "-0.1"), (9, "0.9"), (10, "1.0"), (-123, "-12.3"), (999, "99.9")]
    {
        let mut out = Vec::new();
        push_tenths(&mut out, t);
        assert_eq!(String::from_utf8(out).unwrap(), text);
    }
}

#[test]
fn rows_are_clamped() {
    let p = prefix("Oslo".as_bytes());
    assert_eq!(p, b"Oslo;");
    let mut out = Vec::new();
    push_row(&mut out, &p, 57);
    push_row(&mut out, &p, 12345);
    push_row(&mut out, &p, i32::MIN);
    assert_eq!(out, b"Oslo;5.7\nOslo;99.9\nOslo;-99.9\n");
}

/// What is written is what is read.
#[test]
fn written_rows_read_back() {
    let mut out = Vec::new();
    let mut wrote = Vec::new();
    for t in -1100..=1100i32 {
        let name = format!("station {}", t.rem_euclid(97));
        push_row(&mut out, &prefix(name.as_bytes()), t);
        wrote.push((name, t.clamp(-999, 999) as i16));
    }
    assert!(check_rows(&out, 0, out.len(), out.len(), Names::Station));
    let mut pos = 0;
    for (name, t) in wrote {
        let semi = pos + out[pos..].iter().position(|&b| b == b';').unwrap();
        assert_eq!(&out[pos..semi], name.as_bytes());
        let (v, next) = obrc::parse::parse_temp(&out, semi + 1);
        assert_eq!(v, t);
        pos = next;
    }
    assert_eq!(pos, out.len());
}

#[test]
fn chunks_make_up_the_rows() {
    for rows in [0, 1, 999_999, 1_000_000, 1_000_001, 2_500_000] {
        let n = num_chunks(rows);
        assert_eq!((0..n).map(|i| rows_in_chunk(rows, i)).sum::<usize>(), rows);
        for i in 0..n {
            let here = rows_in_chunk(rows, i);
            assert!(here == ROWS_PER_CHUNK || i + 1 == n);
        }
    }
}

/// By stride: the first is kept, none twice, and all of them when all are asked for.
#[test]
fn stations_are_sampled_by_stride() {
    for keep in [1, 2, 50, 100, 200, 412, 413] {
        let picked: Vec<usize> = (0..keep).map(|i| station_at(i, 413, keep)).collect();
        assert_eq!(picked[0], 0);
        assert!(picked.windows(2).all(|w| w[0] < w[1]));
        assert!(*picked.last().unwrap() < 413);
    }
    assert_eq!(station_at(1, 413, 2), 206);
    assert_eq!(stations_kept(Some(50), 413), 50);
    assert_eq!(stations_kept(Some(0), 413), 413);
    assert_eq!(stations_kept(Some(414), 413), 413);
    assert_eq!(stations_kept(None, 413), 413);
}

/// Finished in any order, written in order, and never too far ahead.
#[test]
fn chunks_are_written_in_order() {
    let mut p = Pipeline::new();
    assert!(p.may_start(WINDOW - 1));
    assert!(!p.may_start(WINDOW));
    assert_eq!(p.take(), None);
    p.put(2, b"two".to_vec());
    p.put(1, b"one".to_vec());
    assert_eq!(p.take(), None);
    p.put(0, b"zero".to_vec());
    assert_eq!(p.take(), Some(b"zero".to_vec()));
    assert!(!p.may_start(WINDOW));
    p.written();
    assert!(p.may_start(WINDOW));
    assert_eq!(p.take(), Some(b"one".to_vec()));
    assert_eq!(p.take(), None);
    p.written();
    assert_eq!(p.take(), Some(b"two".to_vec()));
    p.written();
    assert_eq!(p.take(), None);
    p.put(3, Vec::new());
    assert_eq!(p.take(), Some(Vec::new()));
    // Finished once more before it is written, a chunk is what it was last.
    p.put(3, b"three".to_vec());
    p.put(3, b"3".to_vec());
    assert_eq!(p.take(), Some(b"3".to_vec()));
    assert_eq!(p.take(), None);
}

/// Whatever the order in which chunks are finished, they come out as 0, 1, 2 and so on.
#[test]
fn chunks_come_out_in_order() {
    let mut rng = Rng::seed(7);
    for n in 0..20usize {
        let mut left: Vec<usize> = (0..n).collect();
        let mut p = Pipeline::new();
        let mut out = Vec::new();
        while !left.is_empty() {
            let i = left.swap_remove(rng.below(left.len() as u32) as usize);
            p.put(i, format!("<{i}>").into_bytes());
            while let Some(bytes) = p.take() {
                out.extend_from_slice(&bytes);
                p.written();
            }
        }
        assert_eq!(p.take(), None);
        let want: String = (0..n).map(|i| format!("<{i}>")).collect();
        assert_eq!(out, want.into_bytes());
    }
}
