use obrc::parse::{
    parse_temp, parse_temp_branchless, parse_temp_branchless_mul, parse_temp_branchless_win,
    parse_temp_len,
};

/// Every legal temperature string, -99.9 ..= 99.9, is only 1999 cases — so check all
/// of them rather than sampling.
fn all_legal_values() -> Vec<(String, i16)> {
    (-999i16..=999)
        .map(|t| {
            let s =
                format!("{}{}.{}", if t < 0 { "-" } else { "" }, t.abs() / 10, t.abs() % 10);
            (s, t)
        })
        .collect()
}

#[test]
fn parses_every_legal_value() {
    for (s, expected) in all_legal_values() {
        let line = format!("{s}\n");
        let (got, next) = parse_temp(line.as_bytes(), 0);
        assert_eq!(got, expected, "parsing {s:?}");
        assert_eq!(next, line.len(), "next index after {s:?}");
    }
}

/// The parser reads a fixed window; make sure whatever follows the line cannot change
/// the result.
#[test]
fn trailing_bytes_do_not_affect_the_result() {
    for (s, expected) in all_legal_values() {
        for suffix in ["", "x", "Station;1.0\n", "\n\n\n", "999999"] {
            let line = format!("{s}\n{suffix}");
            let (got, next) = parse_temp(line.as_bytes(), 0);
            assert_eq!(got, expected, "parsing {s:?} followed by {suffix:?}");
            assert_eq!(next, s.len() + 1);
        }
    }
}

/// Pads to guarantee the 8-byte load stays in bounds, and lets the caller vary the
/// bytes past the line so we prove they cannot leak into the result.
fn padded(line: &str, filler: u8) -> Vec<u8> {
    let mut v = line.as_bytes().to_vec();
    v.resize(line.len() + 16, filler);
    v
}

#[test]
fn branchless_agrees_with_scalar_on_every_legal_value() {
    for (s, expected) in all_legal_values() {
        for filler in [b'\n', b'x', b'0', b'9', b';', 0x00, 0xFF] {
            let d = padded(&format!("{s}\n"), filler);
            let scalar = parse_temp(&d, 0);
            let branchless = parse_temp_branchless(&d, 0);
            assert_eq!(branchless.0, expected, "value of {s:?} with filler {filler:#04x}");
            assert_eq!(branchless, scalar, "parsing {s:?} with filler {filler:#04x}");
        }
    }
}

/// [`parse_temp_branchless_win`] is a copy with a different load. Copies drift, so the
/// equality is a test: every legal value, under every filler the window might see past
/// the line.
#[test]
fn parse_win_agrees_with_the_slice_form() {
    for (s, expected) in all_legal_values() {
        for filler in [b'\n', b'x', b'0', b'9', b';', 0x00, 0xFF] {
            let d = padded(&format!("{s}\n"), filler);
            let w: &[u8; 8] = d[..8].try_into().unwrap();
            let (value, advance) = parse_temp_branchless_win(w);
            assert_eq!(value, expected, "value of {s:?} with filler {filler:#04x}");
            assert_eq!(
                (value, advance),
                parse_temp_branchless(&d, 0),
                "parsing {s:?} with filler {filler:#04x}"
            );
        }
    }
}

/// The magic multiply is only correct because three of the product's terms are multiples
/// of 1024 and a fourth cannot carry into bit 32. That is an argument, not a proof, so
/// check it the same way everything else here is checked: every legal value, every filler
/// the 8-byte window might see past the line, against the form it replaces.
#[test]
fn magic_multiply_agrees_with_the_expanded_combine() {
    for (s, expected) in all_legal_values() {
        for filler in [b'\n', b'x', b'0', b'9', b';', 0x00, 0xFF] {
            let d = padded(&format!("{s}\n"), filler);
            let got = parse_temp_branchless_mul(&d, 0);
            assert_eq!(got.0, expected, "value of {s:?} with filler {filler:#04x}");
            assert_eq!(got, parse_temp_branchless(&d, 0), "{s:?}/{filler:#04x}");
        }
    }
}

#[test]
fn magic_multiply_parses_at_a_nonzero_offset() {
    let d = padded("Abha;-12.3\n", b'x');
    assert_eq!(parse_temp_branchless_mul(&d, 5), (-123, 11));
}

/// The length-driven form drops the dot search on the claim that `len - 2` always names
/// the same byte. That claim is the whole optimisation, so check it against the branchless
/// parser on every legal value and every filler, not just the four layouts.
#[test]
fn length_driven_agrees_with_the_dot_search() {
    for (s, expected) in all_legal_values() {
        for filler in [b'\n', b'x', b'0', b'9', b';', 0x00, 0xFF] {
            let d = padded(&format!("{s}\n"), filler);
            let got = parse_temp_len(&d, 0, s.len());
            assert_eq!(got, expected, "value of {s:?} with filler {filler:#04x}");
            assert_eq!(got, parse_temp_branchless(&d, 0).0, "{s:?}/{filler:#04x}");
        }
    }
}

#[test]
fn length_driven_parses_at_a_nonzero_offset() {
    let d = padded("Abha;-12.3\n", b'x');
    assert_eq!(parse_temp_len(&d, 5, 5), -123);
}

#[test]
fn branchless_parses_at_a_nonzero_offset() {
    let d = padded("Abha;-12.3\n", b'x');
    assert_eq!(parse_temp_branchless(&d, 5), (-123, 11));
}

#[test]
fn parses_at_a_nonzero_offset() {
    let d = b"Abha;-12.3\nx";
    let (v, next) = parse_temp(d, 5);
    assert_eq!(v, -123);
    assert_eq!(next, 11);
}

#[test]
fn boundary_values() {
    assert_eq!(parse_temp(b"-99.9\n", 0).0, -999);
    assert_eq!(parse_temp(b"99.9\n", 0).0, 999);
    assert_eq!(parse_temp(b"0.0\n", 0).0, 0);
    assert_eq!(parse_temp(b"-0.0\n", 0).0, 0);
}
