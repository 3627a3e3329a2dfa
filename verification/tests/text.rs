use kv_storage_rust::number::{
    decimal_text, hex16_text, padded_decimal_text, parse_number_text, value_of_digit,
};
use kv_storage_rust::text::{
    join_texts, same_ignoring_case, split_text, split_words, to_upper, trim_text, trim_text_end,
    white_space,
};
use kv_storage_rust::text_map::{is_before, TextMap};

#[test]
fn white_space_is_that_of_the_standard_library() {
    for code in 0..=0x10FFFFu32 {
        if let Some(c) = char::from_u32(code) {
            assert_eq!(white_space(c), c.is_whitespace());
        }
    }
}

#[test]
fn texts_are_taken_apart_as_the_standard_library_does() {
    let samples = [
        "", " ", "a", " a ", "a b", "a\t\u{3000}b  c\n", "\ta\t\tb\t", "键 值", "a\u{a0}b",
    ];
    for text in samples {
        let words: Vec<String> = text.split_whitespace().map(str::to_string).collect();
        assert_eq!(split_words(text), words);
        let fields: Vec<String> = text.split('\t').map(str::to_string).collect();
        assert_eq!(split_text(text, '\t'), fields);
        assert_eq!(join_texts(&fields, "\t"), text);
        assert_eq!(trim_text(text), text.trim());
        assert_eq!(trim_text_end(text), text.trim_end());
        assert_eq!(to_upper(text), text.to_ascii_uppercase());
    }
    assert!(same_ignoring_case("Help", "hELP"));
    assert!(!same_ignoring_case("ß", "SS"));
    assert_eq!(join_texts(&vec!["a".into(), "b".into()], ", "), "a, b");
    assert_eq!(join_texts(&Vec::new(), ", "), "");
}

#[test]
fn numbers_are_written_as_the_standard_library_does() {
    for n in [0u64, 9, 10, 255, 4_096, u64::MAX] {
        assert_eq!(decimal_text(n as u128), n.to_string());
        assert_eq!(hex16_text(n), format!("{n:016X}"));
        assert_eq!(padded_decimal_text(n as u128, 8), format!("{n:08}"));
    }
    assert_eq!(decimal_text(u128::MAX), u128::MAX.to_string());
}

#[test]
fn numbers_are_read_as_the_standard_library_does() {
    let samples = [
        "", "+", "-", "0", "007", "+7", "-0", "12a", "1 ", "18446744073709551615",
        "18446744073709551616", "99999999999999999999999", "ff", "FF", "g", "٣", "++1",
    ];
    for text in samples {
        assert_eq!(
            parse_number_text(text, 10, u64::MAX),
            text.parse::<u64>().ok()
        );
        assert_eq!(
            parse_number_text(text, 16, u64::MAX),
            u64::from_str_radix(text, 16).ok()
        );
    }
    assert_eq!(parse_number_text("256", 10, 255), None);
    assert_eq!(value_of_digit('f', 16), Some(15));
    assert_eq!(value_of_digit('g', 16), None);
}

#[test]
fn texts_are_ordered_as_the_standard_library_does() {
    let samples = ["", "a", "ab", "b", "é", "z", "\u{7f}", "\u{80}", "\u{ffff}", "\u{10000}"];
    for a in samples {
        for b in samples {
            assert_eq!(is_before(a, b), a < b);
        }
    }
}

#[test]
fn a_map_holds_the_last_value_of_each_key() {
    let mut map = TextMap::new();
    assert_eq!(map.insert("b".into(), "1".into()), None);
    assert_eq!(map.insert("a".into(), "2".into()), None);
    assert_eq!(map.insert("b".into(), "3".into()), Some("1".into()));
    assert_eq!(map.len(), 2);
    assert!(map.contains_key("a"));
    assert_eq!(map.get("b"), Some(&"3".to_string()));
    assert_eq!(map.get("c"), None);
    assert_eq!(map.keys(), vec!["a", "b"]);
    assert_eq!(map.remove("a"), Some("2".into()));
    assert_eq!(map.remove("a"), None);
    assert_eq!(map.entries(), vec![("b".to_string(), "3".to_string())]);
    map.clear();
    assert_eq!(map.len(), 0);
}
