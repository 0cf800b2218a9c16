use silent_nats::text::{
    contains_white, decimal_text, parse_number, same_text, split_on, split_words, text_less, trim,
    trim_start,
};

#[test]
fn trimming_takes_white_space_off_the_ends() {
    assert_eq!(trim("  a b\t\r\n"), "a b");
    assert_eq!(trim("\u{3000}x\u{2003}"), "x");
    assert_eq!(trim("\u{180e}x"), "\u{180e}x");
    assert_eq!(trim(" \t "), "");
    assert_eq!(trim_start("  a "), "a ");
}

#[test]
fn the_white_space_characters_are_those_of_std() {
    let mut code: u32 = 0;
    while code <= 0x10ffff {
        if let Some(c) = char::from_u32(code) {
            let text = c.to_string();
            assert_eq!(contains_white(&text), c.is_whitespace());
        }
        code += if code < 0x4000 { 1 } else { 101 };
    }
    assert_eq!(
        (0..=0x10ffffu32)
            .filter_map(char::from_u32)
            .filter(|c| c.is_whitespace())
            .count(),
        25
    );
}

#[test]
fn splitting_joins_back() {
    assert_eq!(split_on("a.b.", '.'), vec!["a", "b", ""]);
    assert_eq!(split_on("", '.'), vec![""]);
    assert_eq!(split_on("x.y.z", '.').join("."), "x.y.z");
    assert_eq!(split_words("  a  bc\td "), vec!["a", "bc", "d"]);
    assert!(split_words(" \t").is_empty());
}

#[test]
fn numbers_are_read_and_written() {
    assert_eq!(parse_number("42", 100), Some(42));
    assert_eq!(parse_number("+42", 100), Some(42));
    assert_eq!(parse_number("0000042", 100), Some(42));
    assert_eq!(parse_number("100", 100), Some(100));
    assert_eq!(parse_number("101", 100), None);
    assert_eq!(parse_number("-1", 100), None);
    assert_eq!(parse_number("", 100), None);
    assert_eq!(parse_number("+", 100), None);
    assert_eq!(parse_number("4x", 100), None);
    assert_eq!(parse_number("18446744073709551615", u64::MAX), Some(u64::MAX));
    assert_eq!(parse_number("18446744073709551616", u64::MAX), None);
    assert_eq!(parse_number("99999999999999999999999999", u64::MAX), None);
    for n in [0, 7, 10, 1048576, u64::MAX] {
        assert_eq!(decimal_text(n), n.to_string());
        assert_eq!(parse_number(&decimal_text(n), u64::MAX), Some(n));
    }
    for s in ["", "+", "+0", "12", "-3", "+-3", " 1", "1 ", "٣"] {
        assert_eq!(parse_number(s, u64::MAX), s.parse::<u64>().ok());
    }
}

#[test]
fn texts_are_ordered_as_strings_are() {
    let all = ["", "a", "ab", "b", "B", "é", "z\u{10000}", "z\u{ffff}", "客"];
    for a in all {
        for b in all {
            assert_eq!(text_less(a, b), a < b);
            assert_eq!(same_text(a, b), a == b);
        }
    }
}
