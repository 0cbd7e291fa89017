use nymx::string_map::StringMap;
use nymx::text::{
    comes_before, contains_text, decimal_of, ends_with, find_last, joined, padded_of, parse_number,
    same_text, signed_decimal_of, split_lines, starts_with, to_chars, trimmed, white,
};

#[test]
fn white_space_is_that_of_the_standard_library() {
    for n in 0..=0x10FFFFu32 {
        if let Some(c) = char::from_u32(n) {
            assert_eq!(white(c), c.is_whitespace(), "{:x}", n);
        }
    }
}

#[test]
fn trimming_takes_white_space_from_both_ends() {
    assert_eq!(trimmed("  a b\t\n"), "a b");
    assert_eq!(trimmed("\u{2003}x\u{a0}"), "x");
    assert_eq!(trimmed("   "), "");
    assert_eq!(trimmed(""), "");
}

#[test]
fn lines_are_those_of_the_standard_library() {
    for s in ["", "a", "a\n", "a\nb", "a\r\nb\r\n", "\n\nx", "a\r", "\r\n", "a\rb\n", "x\n\r\n"] {
        let expected: Vec<String> = s.lines().map(String::from).collect();
        assert_eq!(split_lines(&to_chars(s)), expected, "{:?}", s);
    }
}

#[test]
fn numerals_are_those_of_the_standard_library() {
    for n in [0u64, 7, 10, 99, 100, 12345, u64::MAX] {
        assert_eq!(decimal_of(n), format!("{}", n));
        assert_eq!(padded_of(n, 3), format!("{:03}", n));
    }
    for n in [0i64, -1, 5, i64::MIN, i64::MAX] {
        assert_eq!(signed_decimal_of(n), format!("{}", n));
    }
}

#[test]
fn numbers_are_read_as_in_the_standard_library() {
    for s in [
        "0", "7", "+7", "-7", "", "+", "007", " 7", "7 ", "1x", "18446744073709551615",
        "18446744073709551616", "99999999999999999999999", "++1",
    ] {
        assert_eq!(parse_number(&to_chars(s), u64::MAX), s.parse::<u64>().ok(), "{:?}", s);
    }
    assert_eq!(parse_number(&to_chars("256"), 255), None);
    assert_eq!(parse_number(&to_chars("255"), 255), Some(255));
}

#[test]
fn texts_are_ordered_as_in_the_standard_library() {
    let all = ["", "a", "b", "aa", "ab", "B", "ä", "z", "movie.part10", "movie.part2", "\u{10000}"];
    for a in all {
        for b in all {
            assert_eq!(comes_before(a, b), a < b, "{} {}", a, b);
            assert_eq!(same_text(a, b), a == b);
            assert_eq!(starts_with(a, b), a.starts_with(b));
            assert_eq!(ends_with(a, b), a.ends_with(b));
            assert_eq!(joined(a, b), format!("{}{}", a, b));
        }
    }
}

#[test]
fn characters_are_found_from_the_end() {
    assert_eq!(find_last(&to_chars("a:b:c"), ':'), Some(3));
    assert_eq!(find_last(&to_chars("abc"), ':'), None);
}

#[test]
fn lists_of_texts_are_searched() {
    let list = vec!["a".to_string(), "b".to_string()];
    assert!(contains_text(&list, "b"));
    assert!(!contains_text(&list, "c"));
}

#[test]
fn maps_hold_one_value_for_each_key() {
    let mut map: StringMap<u32> = StringMap::new();
    assert!(map.is_empty());
    map.insert("b".to_string(), 1);
    map.insert("a".to_string(), 2);
    map.insert("b".to_string(), 3);
    assert!(!map.is_empty());
    assert_eq!(map.get("b"), Some(&3));
    assert_eq!(map.get("a"), Some(&2));
    assert_eq!(map.get("c"), None);
    assert!(map.contains("a"));
    assert_eq!(map.sorted_keys(), vec!["a".to_string(), "b".to_string()]);
    assert_eq!(map.remove("b"), Some(3));
    assert_eq!(map.remove("b"), None);
    assert_eq!(map.sorted_keys(), vec!["a".to_string()]);
}
