use kino::entry_parts::is_decimal_digit_char;
use kino::text::{is_whitespace, to_ascii_lower};
use kino::watchlist::nonblank_lines;
use regex::Regex;

#[test]
fn whitespace_class_matches_std() {
    for u in 0u32..=0x10FFFF {
        if let Some(c) = char::from_u32(u) {
            assert_eq!(is_whitespace(c), c.is_whitespace(), "U+{:04X}", u);
        }
    }
}

#[test]
fn digit_class_matches_regex() {
    let d = Regex::new(r"^\d$").unwrap();
    let mut buf = [0u8; 4];
    for u in 0u32..=0x10FFFF {
        if let Some(c) = char::from_u32(u) {
            assert_eq!(is_decimal_digit_char(c), d.is_match(c.encode_utf8(&mut buf)), "U+{:04X}", u);
        }
    }
}

#[test]
fn ascii_lower_matches_std() {
    for u in 0u32..=0x2FF {
        if let Some(c) = char::from_u32(u) {
            assert_eq!(to_ascii_lower(c), c.to_ascii_lowercase());
        }
    }
}

#[test]
fn nonblank_lines_match_std_lines() {
    let samples = ["a\r", "a\r\n", "a\n\r", "\r\n\r\n", "x\ny\r", "  \n\t\n\u{3000}", "one", "", "\n", "a\n\nb\n\n"];
    for s in samples {
        let want: Vec<String> = s.lines().filter(|l| !l.trim().is_empty()).map(|l| l.to_string()).collect();
        assert_eq!(nonblank_lines(s), want, "input {:?}", s);
    }
}
