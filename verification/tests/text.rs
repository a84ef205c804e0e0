use qr_scan::text::{
    alphanumeric, chars_of, count_commas, decimal_text, found, insert_text, insert_texts, lowercase_chars,
    parse_number, split_commas, string_of, text_before, text_equal, trim_chars, trim_text, whitespace,
};

fn words(list: &[&str]) -> Vec<String> {
    list.iter().map(|s| s.to_string()).collect()
}

#[test]
fn white_space_is_that_of_unicode() {
    for code in 0..=0x10ffffu32 {
        if let Some(c) = char::from_u32(code) {
            assert_eq!(whitespace(c), c.is_whitespace(), "{code:x}");
        }
    }
}

#[test]
fn alphanumerics_are_those_of_ascii() {
    for code in 0..=0x3ffu32 {
        let c = char::from_u32(code).unwrap();
        assert_eq!(alphanumeric(c), c.is_ascii_alphanumeric());
    }
}

#[test]
fn trims_both_ends() {
    for text in ["", "  ", "a", " a", "a\u{3000}", "\t a b \n", "\u{feff}a", "\u{85}\u{a0}x\u{2003}"] {
        assert_eq!(trim_text(text), text.trim());
    }
    assert_eq!(trim_chars(&vec![' ', ' ']), Vec::<char>::new());
}

#[test]
fn splits_at_commas() {
    for text in ["", ",", "a", "a,b", ",a,,b,", "一,二"] {
        let parts: Vec<String> = split_commas(&chars_of(text)).iter().map(string_of).collect();
        let wanted: Vec<&str> = text.split(',').collect();
        assert_eq!(parts, wanted);
    }
}

#[test]
fn counts_and_finds() {
    assert_eq!(count_commas(&chars_of(",a,b,,")), 4);
    assert!(found(&chars_of("x01,32y"), &chars_of("01,32")));
    assert!(!found(&chars_of("x01,3"), &chars_of("01,32")));
    assert!(found(&chars_of("abc"), &chars_of("")));
    assert!(found(&chars_of("abc"), &chars_of("c")));
}

#[test]
fn lowers_ascii_only() {
    assert_eq!(string_of(&lowercase_chars(&chars_of("AZaz09ÄÉ"))), "AZaz09ÄÉ".to_ascii_lowercase());
}

#[test]
fn writes_decimals() {
    for n in [0, 1, 9, 10, 99, 100, 12345, u64::MAX] {
        assert_eq!(decimal_text(n), n.to_string());
    }
}

#[test]
fn parses_numbers_like_the_standard_library() {
    for text in [
        "", "+", "-", "-1", "+1", "++1", "0", "007", "18446744073709551615", "18446744073709551616", "1e3", " 1",
        "1 ", "１", "99999999999999999999999",
    ] {
        assert_eq!(parse_number(&chars_of(text), u64::MAX), text.parse::<u64>().ok(), "{text}");
    }
    assert_eq!(parse_number(&chars_of("256"), 255), None);
    assert_eq!(parse_number(&chars_of("255"), 255), Some(255));
}

#[test]
fn orders_texts_like_the_standard_library() {
    let texts = ["", "a", "ab", "b", "ba", "é", "一", "\u{ffff}", "\u{10000}"];
    for a in texts {
        for b in texts {
            assert_eq!(text_before(a, b), a < b);
            assert_eq!(text_equal(a, b), a == b);
        }
    }
}

#[test]
fn sets_of_texts_are_sorted_and_unique() {
    let mut set: Vec<String> = Vec::new();
    insert_texts(&mut set, &words(&["b", "a", "c", "b", "a"]));
    assert_eq!(set, words(&["a", "b", "c"]));
    insert_text(&mut set, "aa".to_string());
    insert_text(&mut set, "c".to_string());
    assert_eq!(set, words(&["a", "aa", "b", "c"]));
}
