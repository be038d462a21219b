//! Text operations agree with those of the standard library.

use goose_roaming::digits::{decimal_of, hex_of};
use goose_roaming::lists::{contains_text, merge};
use goose_roaming::text::{
    contains, find_str, is_white, rsplit_once, split, split_once, starts_with, strip_prefix, trim,
    trim_all,
};
use goose_roaming::text_set::TextSet;

const SAMPLES: [&str; 12] = [
    "", " ", "a", " a b ", "\t\u{a0}x\u{3000}\n", "a:b:c", "::", "roam:x", "é:ü", "://", "ab", "aab",
];

#[test]
fn white_space_is_that_of_unicode() {
    for c in '\0'..=char::MAX {
        assert_eq!(is_white(c), c.is_whitespace(), "{c:?}");
    }
}

#[test]
fn trimming_agrees_with_std() {
    for s in SAMPLES {
        assert_eq!(trim(s), s.trim());
    }
}

#[test]
fn searching_agrees_with_std() {
    for s in SAMPLES {
        for p in SAMPLES {
            assert_eq!(contains(s, p), s.contains(p), "{s:?} {p:?}");
            assert_eq!(starts_with(s, p), s.starts_with(p));
            assert_eq!(strip_prefix(s, p), s.strip_prefix(p));
            assert_eq!(split_once(s, p), s.split_once(p));
            let at = s.find(p).map(|i| s[..i].chars().count());
            assert_eq!(find_str(s, p), at);
        }
        assert_eq!(rsplit_once(s, ':'), s.rsplit_once(':'));
        let pieces: Vec<&str> = s.split(':').collect();
        assert_eq!(split(s, ':'), pieces);
    }
}

#[test]
fn lists_are_trimmed_and_merged() {
    let parts: Vec<String> = [" a", "", "b ", "\n"].iter().map(|s| s.to_string()).collect();
    assert_eq!(trim_all(&parts), vec!["a", "b"]);
    let merged = merge(vec!["x".to_string(), "x".to_string()], &trim_all(&parts));
    assert_eq!(merged, vec!["x", "x", "a", "b"]);
    let again = merge(merged, &vec!["b".to_string(), "y".to_string(), "y".to_string()]);
    assert_eq!(again, vec!["x", "x", "a", "b", "y"]);
    assert!(contains_text(&again, "y"));
    assert!(!contains_text(&again, "z"));
}

#[test]
fn numbers_agree_with_std() {
    for n in [0u64, 7, 10, 99, 100, 65535, u64::MAX] {
        assert_eq!(decimal_of(n), n.to_string());
    }
    assert_eq!(hex_of(&[0, 1, 0xab, 0xff]), "0001abff");
    assert_eq!(hex_of(&[]), "");
}

#[test]
fn sets_hold_each_text_once() {
    let mut set = TextSet::new();
    assert!(set.insert("b"));
    assert!(set.insert("a"));
    assert!(!set.insert("b"));
    assert_eq!(set.len(), 2);
    assert!(set.contains("a"));
    assert!(!set.contains("c"));
    assert_eq!(set.to_list(), vec!["a", "b"]);
    let listed = TextSet::from_list(&vec!["z".to_string(), "y".to_string(), "z".to_string()]);
    assert_eq!(listed.to_list(), vec!["y", "z"]);
}
