//! Texts, JSON texts and texts kept by name.

use dscode_core::json::json_texts;
use dscode_core::text::{
    comes_before, count_bytes, decimal, find, join, lines, signed_decimal, take_chars,
    trimmed,
};
use dscode_core::text_map::TextMap;

fn chars(s: &str) -> Vec<char> {
    s.chars().collect()
}

#[test]
fn decimal_notation() {
    assert_eq!(decimal(1205), "1205");
    assert_eq!(decimal(0), "0");
    assert_eq!(decimal(u64::MAX), "18446744073709551615");
    assert_eq!(signed_decimal(-32600), "-32600");
    assert_eq!(signed_decimal(i64::MIN), "-9223372036854775808");
}

#[test]
fn texts_are_cut_and_joined() {
    assert_eq!(trimmed("\u{3000} x \n"), "x");
    assert_eq!(take_chars("中文字", 2), "中文");
    assert_eq!(join(&vec!["a".into(), "b".into()], ", "), "a, b");
    assert_eq!(join(&vec![], ", "), "");
    assert_eq!(count_bytes(&chars("é中")), 5);
    assert_eq!(find(&chars("abcabc"), &chars("ca")), Some(2));
    assert!(comes_before("a", "b"));
    assert!(!comes_before("b", "a"));
    assert_eq!(lines(&chars("a\r\nb\n")).len(), 2);
}

#[test]
fn arrays_of_texts_are_quoted() {
    assert_eq!(json_texts(&vec![]), "[]");
    assert_eq!(
        json_texts(&vec!["a\"\\\n\t".into(), "\u{1}\u{1f}\u{7f}中".into()]),
        "[\"a\\\"\\\\\\n\\t\",\"\\u0001\\u001f\u{7f}中\"]"
    );
}

#[test]
fn the_latest_text_under_a_name_counts() {
    let mut m = TextMap::new();
    m.insert("a".into(), "1".into());
    m.insert("b".into(), "2".into());
    m.insert("a".into(), "3".into());
    assert_eq!(m.get("a").unwrap(), "3");
    assert_eq!(m.entries().len(), 2);
    m.remove("a");
    assert!(!m.contains_key("a"));
    assert!(m.contains_key("b"));
}
