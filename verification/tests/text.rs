use tartine::text::{
    has_prefix, is_text, joined, parse_unsigned, to_chars, to_decimal, to_hex, to_text, trimmed,
    white,
};

fn number(s: &str, radix: u128, max: u128) -> Option<u128> {
    let v = to_chars(s);
    parse_unsigned(&v, 0, v.len(), radix, max)
}

#[test]
fn numbers_are_written() {
    assert_eq!(to_decimal(0), "0");
    assert_eq!(to_decimal(u64::MAX), "18446744073709551615");
    assert_eq!(to_hex(0x2a, 4), "002a");
    assert_eq!(to_hex(0x12ab, 2), "ab");
    assert_eq!(to_hex(7, 0), "");
}

#[test]
fn numbers_are_read_as_std_reads_them() {
    for s in [
        "", "0", "+0", "-0", "+", "00012", "255", "256", "2 5", "ff", "FF", "fg", "1e3", "\u{661}",
    ] {
        assert_eq!(
            number(s, 10, 255),
            s.parse::<u8>().ok().map(u128::from),
            "{s:?}"
        );
        assert_eq!(
            number(s, 16, u128::MAX),
            u128::from_str_radix(s, 16).ok(),
            "{s:?}"
        );
    }
    assert_eq!(
        number("ffffffffffffffffffffffffffffffff", 16, u128::MAX),
        Some(u128::MAX)
    );
    assert_eq!(
        number("100000000000000000000000000000000", 16, u128::MAX),
        None
    );
}

#[test]
fn what_is_written_is_read_back() {
    for n in [0u64, 9, 10, 4096, u64::MAX] {
        assert_eq!(number(&to_decimal(n), 10, u128::MAX), Some(n as u128));
        assert_eq!(number(&to_hex(n as u128, 32), 16, u128::MAX), Some(n as u128));
    }
}

#[test]
fn white_space_is_what_std_says_it_is() {
    for n in 0..=0x10_ffffu32 {
        if let Some(c) = char::from_u32(n) {
            assert_eq!(white(c), c.is_whitespace(), "{n:#x}");
        }
    }
    for s in ["", "  ", " a b ", "\u{3000}x\u{85}", "x"] {
        let v = to_chars(s);
        let (from, to) = trimmed(&v, 0, v.len());
        assert_eq!(to_text(&v, from, to), s.trim());
    }
}

#[test]
fn pieces_of_text() {
    let v = to_chars("na\u{ef}ve");
    assert_eq!(to_text(&v, 1, 3), "a\u{ef}");
    assert!(is_text(&v, 3, 5, "ve"));
    assert!(!is_text(&v, 3, 5, "vf"));
    assert!(!is_text(&v, 3, 5, "v"));
    assert!(has_prefix(&v, 0, 5, "na"));
    assert!(!has_prefix(&v, 0, 1, "na"));
    assert_eq!(joined("ab", "c"), "abc");
}
