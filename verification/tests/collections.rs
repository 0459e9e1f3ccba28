//! The ordered map, the stable sort, and the texts they are built on.

use lave_core::arrange::{SortKey, arrange};
use lave_core::lists::{extend, put};
use lave_core::ordered::{TextMap, contains_text};
use lave_core::text::{
    contains_char, count_text, decimal_text, find_str, integer_text, is_at_most, is_whitespace,
    join, parse_number, replace, split_once, starts_with, strip_prefix, strip_suffix, trim,
    trim_digits, trim_end, trim_start, word_len,
};

fn keys(map: &TextMap<i32>) -> Vec<&str> {
    (0..map.len()).map(|at| map.key_at(at)).collect()
}

#[test]
fn a_map_keeps_its_keys_in_order_whatever_order_they_arrive_in() {
    let mut map = TextMap::new();
    for (key, value) in [("b", 2), ("a", 1), ("c", 3)] {
        map.insert(key.to_owned(), value);
    }

    assert_eq!(keys(&map), vec!["a", "b", "c"]);
    assert_eq!(map.get("b"), Some(&2));
    assert_eq!(*map.value_at(2), 3);
}

#[test]
fn inserting_again_replaces_and_touches_nothing_else() {
    let mut map = TextMap::new();
    map.insert("a".to_owned(), 1);
    map.insert("b".to_owned(), 2);
    map.insert("a".to_owned(), 9);

    assert_eq!(map.len(), 2);
    assert_eq!(map.get("a"), Some(&9));
    assert_eq!(map.get("b"), Some(&2));
}

#[test]
fn removing_forgets_one_key_and_says_whether_it_was_there() {
    let mut map = TextMap::new();
    map.insert("a".to_owned(), 1);
    map.insert("b".to_owned(), 2);

    assert!(map.remove("a"));
    assert!(!map.remove("a"));
    assert_eq!(map.get("a"), None);
    assert_eq!(map.get("b"), Some(&2));
}

#[test]
fn retaining_keeps_exactly_the_keys_that_are_named() {
    let mut map = TextMap::new();
    for (key, value) in [("a", 1), ("b", 2), ("c", 3)] {
        map.insert(key.to_owned(), value);
    }
    map.retain_keys(&vec!["c".to_owned(), "x".to_owned(), "a".to_owned()]);

    assert_eq!(keys(&map), vec!["a", "c"]);
    assert!(!map.contains_key("b"));
    assert!(!map.is_empty());
}

#[test]
fn texts_are_ordered_as_the_language_orders_them() {
    let texts = ["", "a", "A", "ab", "b", "\u{e9}", "z", "\u{1f600}", "\u{ffff}"];
    for a in texts {
        for b in texts {
            assert_eq!(is_at_most(a, b), a <= b, "{a:?} and {b:?}");
        }
    }
}

#[test]
fn sorting_is_stable_and_loses_nothing() {
    let key = |major: i128, first: &str, second: &str| SortKey {
        major,
        first: first.to_owned(),
        second: second.to_owned(),
    };
    let keys = vec![
        key(1, "a", ""),
        key(0, "b", "y"),
        key(0, "b", "x"),
        key(0, "a", "z"),
        key(0, "b", "x"),
    ];

    assert_eq!(arrange(&keys), vec![3, 2, 4, 1, 0]);
}

#[test]
fn lists_grow_at_their_end() {
    let mut list = vec![1, 2];
    put(&mut list, 3);
    extend(&mut list, vec![4, 5]);

    assert_eq!(list, vec![1, 2, 3, 4, 5]);
}

#[test]
fn membership_compares_whole_texts() {
    let texts = vec!["nginx".to_owned(), "alpine".to_owned()];

    assert!(contains_text(&texts, "nginx"));
    assert!(!contains_text(&texts, "ngin"));
}

#[test]
fn trimming_agrees_with_the_language_and_is_final() {
    let samples = ["", " ", "\t x \u{a0}", "\u{2003}wide\u{3000}", "\u{b}v\u{c}f\u{85}", "x y"];
    for sample in samples {
        assert_eq!(trim(sample), sample.trim(), "{sample:?}");
        assert_eq!(trim_start(sample), sample.trim_start(), "{sample:?}");
        assert_eq!(trim_end(sample), sample.trim_end(), "{sample:?}");
        assert_eq!(trim(trim(sample)), trim(sample));
    }
}

#[test]
fn white_space_is_what_the_language_says_it_is() {
    for code in 0..0x3100 {
        if let Some(c) = char::from_u32(code) {
            assert_eq!(is_whitespace(c), c.is_whitespace(), "{code:#x}");
        }
    }
}

#[test]
fn searching_and_splitting_agree_with_the_language() {
    assert_eq!(find_str("tcp://host", "://"), Some(3));
    assert_eq!(find_str("\u{e9}://", "://"), Some(1), "counted in characters");
    assert_eq!(find_str("host", "://"), None);
    assert_eq!(find_str("host", ""), Some(0));
    assert_eq!(split_once("a=b=c", '='), Some(("a", "b=c")));
    assert_eq!(split_once("abc", '='), None);
    assert_eq!(strip_prefix("unix:///x", "unix://"), Some("/x"));
    assert_eq!(strip_prefix("unix", "unix://"), None);
    assert_eq!(strip_suffix("name.tar", ".tar"), Some("name"));
    assert!(starts_with("/etc", "/"));
    assert!(contains_char("a/b", '/'));
    assert_eq!(replace("a--b----c", "--", "-"), "a--b----c".replace("--", "-"));
    assert_eq!(trim_digits("12ab"), "ab");
    assert_eq!(word_len("RUN echo", None), 3);
}

#[test]
fn numbers_are_written_as_the_language_writes_them() {
    for n in [0, 7, 10, 99, 100, 12_345, u64::MAX] {
        assert_eq!(decimal_text(n), n.to_string());
    }
    for n in [0, -1, 42, i64::MIN, i64::MAX] {
        assert_eq!(integer_text(n), n.to_string());
    }
    assert_eq!(count_text(usize::MAX), usize::MAX.to_string());
}

#[test]
fn numbers_are_read_as_the_language_reads_them() {
    for text in ["0", "17", "+5", "", "+", "-1", "08", "1a", "18446744073709551616", " 1"] {
        assert_eq!(
            parse_number(text, 10, u64::MAX),
            text.parse::<u64>().ok(),
            "{text:?}"
        );
    }
    assert_eq!(parse_number("755", 8, u64::MAX), Some(0o755));
    assert_eq!(parse_number("8", 8, u64::MAX), None);
    assert_eq!(parse_number("256", 10, 255), None);
}

#[test]
fn joining_puts_the_separator_between() {
    let texts = ["a", "b", "c"].map(str::to_owned);

    assert_eq!(join(&texts, ", "), "a, b, c");
    assert_eq!(join(&texts[..1], ", "), "a");
    assert_eq!(join(&[], ", "), "");
}
