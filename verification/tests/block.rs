use obrc::block::{block_delims, block_newlines, block_semis, BLOCK};

fn masks(bytes: &[u8]) -> (u64, u64) {
    let mut buf = [0u8; BLOCK];
    buf[..bytes.len()].copy_from_slice(bytes);
    block_delims(&buf)
}

/// The mask has to agree with the obvious byte loop at every position, or a row boundary
/// lands in the wrong place and the failure is silent.
#[test]
fn agrees_with_a_byte_loop() {
    let mut buf = [b'x'; BLOCK];
    for i in 0..BLOCK {
        for (needle, which) in [(b';', 0), (b'\n', 1)] {
            buf[i] = needle;
            let got = block_delims(&buf);
            let got = if which == 0 { got.0 } else { got.1 };
            assert_eq!(got, 1u64 << i, "{} at byte {i}", needle as char);
            buf[i] = b'x';
        }
    }
}

#[test]
fn separates_the_two_classes() {
    let (s, n) = masks(b"ab;1.2\ncd;-3.4\n");
    assert_eq!(s, (1 << 2) | (1 << 9));
    assert_eq!(n, (1 << 6) | (1 << 14));
}

/// Both halves must equal the corresponding half of the combined call, since the row
/// loop picks whichever is cheaper and they have to be interchangeable.
#[test]
fn halves_match_the_combined_call() {
    let mut buf = [0u8; BLOCK];
    for (i, b) in b"Zurich;-12.3\nAbha;5.0\nSaint_Petersburg;99.9\n".iter().enumerate() {
        buf[i] = *b;
    }
    let (s, n) = block_delims(&buf);
    assert_eq!(s, block_semis(&buf));
    assert_eq!(n, block_newlines(&buf));
    assert_eq!(s.count_ones(), 3);
    assert_eq!(n.count_ones(), 3);
}

/// Every byte set, so the fold has to carry a bit out of all 64 lanes without any pair
/// summing into its neighbour.
#[test]
fn saturated_block_sets_every_bit() {
    assert_eq!(masks(&[b';'; BLOCK]).0, u64::MAX);
    assert_eq!(masks(&[b'\n'; BLOCK]).1, u64::MAX);
}
