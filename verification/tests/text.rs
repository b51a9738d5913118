//! Texts and maps keyed by them.

use shardedobjstr::string_map::{str_less, StringMap};
use shardedobjstr::text::{
    contains, indent, lines, number, parse_number, starts_with, str_eq, strip_prefix, trim,
    white_space,
};

#[test]
fn white_space_is_that_of_unicode() {
    for n in 0..=0x10FFFFu32 {
        if let Some(c) = char::from_u32(n) {
            assert_eq!(white_space(c), c.is_whitespace(), "{n:#x}");
        }
    }
}

#[test]
fn texts_are_trimmed_at_both_ends() {
    for s in ["", " ", "a", "  a b\t", "\u{2003}x\u{a0}", "\r\nline\r\n", "no space"] {
        assert_eq!(trim(s), s.trim());
    }
}

#[test]
fn lines_end_at_line_feeds() {
    for s in ["", "\n", "a", "a\n", "a\r\nb", "a\n\nb\r\n", "a\rb\n", "\r\n\r\n", "a\r"] {
        let want: Vec<String> = s.lines().map(|l| l.to_string()).collect();
        assert_eq!(lines(s), want, "{s:?}");
    }
}

#[test]
fn indentation_counts_leading_bytes() {
    for s in ["", "a", "  a", "\t\tb", "   ", " \u{2003}x"] {
        assert_eq!(indent(s), s.len() - s.trim_start().len(), "{s:?}");
    }
}

#[test]
fn prefixes_and_substrings() {
    assert!(starts_with("object/a", "object/"));
    assert!(starts_with("x", ""));
    assert!(!starts_with("x", "xy"));
    assert_eq!(strip_prefix("json:/tmp/a", "json:"), Some("/tmp/a"));
    assert_eq!(strip_prefix("jso", "json:"), None);
    assert!(contains("read: data corruption at 7", "data corruption"));
    assert!(contains("abc", ""));
    assert!(!contains("data corrup", "data corruption"));
    assert!(str_eq("ä", "ä"));
    assert!(!str_eq("a", "ab"));
}

#[test]
fn numbers_are_parsed_as_by_the_standard_library() {
    for s in [
        "0", "7", "+7", "-7", "", "+", "007", "18446744073709551615", "18446744073709551616",
        "99999999999999999999999", "1 ", " 1", "1_000", "0x10", "١",
    ] {
        assert_eq!(parse_number(s, u64::MAX), s.parse::<u64>().ok(), "{s:?}");
        assert_eq!(parse_number(s, u8::MAX as u64), s.parse::<u8>().ok().map(u64::from), "{s:?}");
    }
}

#[test]
fn numbers_are_written_in_decimal() {
    for n in [0, 1, 9, 10, 99, 100, 4096, u64::MAX] {
        assert_eq!(number(n), n.to_string());
    }
}

#[test]
fn texts_are_ordered_by_their_bytes() {
    let texts = ["", "a", "aa", "ab", "b", "z", "ä", "\u{10000}", "\u{ffff}"];
    for a in texts {
        for b in texts {
            assert_eq!(str_less(a, b), a < b, "{a:?} {b:?}");
        }
    }
}

#[test]
fn a_map_keeps_the_last_value_of_a_key_and_walks_in_order() {
    let mut m: StringMap<String> = StringMap::new();
    assert!(m.is_empty());
    assert!(m.insert("b".to_string(), "1".to_string()).is_none());
    assert!(m.insert("a".to_string(), "2".to_string()).is_none());
    assert_eq!(m.insert("b".to_string(), "3".to_string()), Some("1".to_string()));
    assert_eq!(m.len(), 2);
    assert_eq!(m.key_at(0), "a");
    assert_eq!(m.value_at(1), "3");
    assert_eq!(m.get("a").map(|s| s.as_str()), Some("2"));
    assert!(m.get("c").is_none());
    assert_eq!(m.remove("a"), Some("2".to_string()));
    assert_eq!(m.remove("a"), None);
    assert!(!m.contains_key("a"));
    m.clear();
    assert_eq!(m.len(), 0);
}
