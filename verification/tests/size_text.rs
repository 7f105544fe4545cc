//! Sizes as text.
use xg16::size_text::{is_white_space, parse_size, read_size, SizeText};

#[test]
fn plain_numbers_and_suffixes() {
    assert_eq!(parse_size("0"), Some(0));
    assert_eq!(parse_size("8192"), Some(8192));
    assert_eq!(parse_size("+7"), Some(7));
    assert_eq!(parse_size("007"), Some(7));
    assert_eq!(parse_size("8k"), Some(8192));
    assert_eq!(parse_size("8K"), Some(8192));
    assert_eq!(parse_size("3m"), Some(3 * 1024 * 1024));
    assert_eq!(parse_size("3M"), Some(3 * 1024 * 1024));
    assert_eq!(parse_size(" \t64k\n"), Some(65536));
    assert_eq!(parse_size("\u{3000}5\u{a0}"), Some(5));
}

#[test]
fn what_is_no_size() {
    for s in [
        "", "   ", "k", "M", "+", "+k", "-1", "1 k", "1.5k", "1kk", "0x10", "8g", "++1", "1_000", "٣",
    ] {
        assert_eq!(parse_size(s), None, "{s:?}");
        assert_eq!(read_size(s), SizeText::Invalid, "{s:?}");
    }
}

#[test]
fn limits() {
    assert_eq!(parse_size("18446744073709551615"), Some(usize::MAX));
    assert_eq!(parse_size("18446744073709551616"), None);
    assert_eq!(parse_size("184467440737095516150"), None);
    assert_eq!(parse_size("99999999999999999999999k"), None);
    assert_eq!(read_size("18014398509481983k"), SizeText::Size(usize::MAX - 1023));
    assert_eq!(read_size("18014398509481984k"), SizeText::TooLarge);
    assert_eq!(read_size("17592186044416m"), SizeText::TooLarge);
    assert_eq!(read_size("2k"), SizeText::Size(2048));
}

#[test]
fn white_space_is_that_of_unicode() {
    for n in 0..=0x10FFFFu32 {
        if let Some(c) = char::from_u32(n) {
            assert_eq!(is_white_space(c), c.is_whitespace(), "{n:x}");
        }
    }
}

#[test]
fn reading_agrees_with_the_standard_parser() {
    for s in ["12", " 12 ", "+12", "12a", "a12", "1 2", "+", "-0", "00", "4294967296"] {
        assert_eq!(parse_size(s), s.trim().parse::<usize>().ok(), "{s:?}");
    }
}
