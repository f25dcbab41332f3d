use pdf_extractor::bytes::{same_text, spells};
use pdf_extractor::text_map::TextMap;
use pdf_extractor::texts::{decimal_text, ends_with_space, is_blank_text, is_white_space};

#[test]
fn white_space_is_that_of_unicode() {
    for c in '\0'..=char::MAX {
        assert_eq!(is_white_space(c), c.is_whitespace(), "{:?}", c);
    }
}

#[test]
fn blank_texts_are_those_that_trim_to_nothing() {
    for text in ["", " ", "\u{a0}\u{3000}\n", " a", "a ", "\u{200b}", "é"] {
        assert_eq!(is_blank_text(&text.to_string()), text.trim().is_empty(), "{text:?}");
    }
}

#[test]
fn last_character() {
    for text in ["", " ", "a", "a ", "a\u{a0}", " é", "é "] {
        assert_eq!(ends_with_space(&text.to_string()), text.ends_with(' '), "{text:?}");
    }
}

#[test]
fn numbers_in_digits() {
    for n in [0usize, 1, 9, 10, 42, 99, 100, 1234567890, usize::MAX] {
        assert_eq!(decimal_text(n), format!("{}", n));
    }
}

#[test]
fn texts_and_bytes() {
    assert!(spells(b"Filter", "Filter"));
    assert!(!spells(b"Filte", "Filter"));
    assert!(!spells(b"filter", "Filter"));
    assert!(same_text("T*", "T*"));
    assert!(!same_text("Tj", "TJ"));
    assert!(!same_text("B", "B*"));
}

#[test]
fn later_entries_take_the_place_of_earlier_ones() {
    let mut map: TextMap<u32> = TextMap::new();
    map.insert("F1".to_string(), 1);
    map.insert("F2".to_string(), 2);
    map.insert("F1".to_string(), 3);
    assert_eq!(map.get(&"F1".to_string()), Some(&3));
    assert_eq!(map.get(&"F2".to_string()), Some(&2));
    assert_eq!(map.get(&"F3".to_string()), None);
}
