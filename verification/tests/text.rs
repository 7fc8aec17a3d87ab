use market_depth::text::{
    chars_of, decimal_text, parse_u32, push_decimal, push_signed_decimal, split_text, trim_text,
    white_space,
};

#[test]
fn natural_numbers_are_written_without_leading_zeros() {
    assert_eq!(decimal_text(0), "0");
    assert_eq!(decimal_text(7), "7");
    assert_eq!(decimal_text(10), "10");
    assert_eq!(decimal_text(1_234_567_890), "1234567890");
    assert_eq!(decimal_text(u128::MAX), u128::MAX.to_string());
    for n in [9u128, 99, 100, 101, 4_294_967_295, 18_446_744_073_709_551_615] {
        assert_eq!(decimal_text(n), n.to_string());
    }
}

#[test]
fn numbers_are_appended_to_what_is_there() {
    let mut text = "n=".to_string();
    push_decimal(&mut text, 305);
    assert_eq!(text, "n=305");
    push_signed_decimal(&mut text, -42);
    assert_eq!(text, "n=305-42");
    push_signed_decimal(&mut text, 0);
    assert_eq!(text, "n=305-420");
    let mut lowest = String::new();
    push_signed_decimal(&mut lowest, i64::MIN);
    assert_eq!(lowest, i64::MIN.to_string());
    let mut highest = String::new();
    push_signed_decimal(&mut highest, i64::MAX);
    assert_eq!(highest, i64::MAX.to_string());
}

#[test]
fn splitting_keeps_empty_pieces() {
    assert_eq!(split_text("a,b,c", ','), vec!["a", "b", "c"]);
    assert_eq!(split_text("", ','), vec![""]);
    assert_eq!(split_text(",", ','), vec!["", ""]);
    assert_eq!(split_text("a,,b,", ','), vec!["a", "", "b", ""]);
    assert_eq!(split_text("no separator", ':'), vec!["no separator"]);
    assert_eq!(split_text("BTCUSD:MBP:20", ':'), vec!["BTCUSD", "MBP", "20"]);
    for text in ["x", "é,ü", ",,,", "a:b,c:d", " , "] {
        let expected: Vec<&str> = text.split(',').collect();
        assert_eq!(split_text(text, ','), expected);
    }
}

#[test]
fn trimming_removes_white_space_at_both_ends_only() {
    assert_eq!(trim_text("  a b  "), "a b");
    assert_eq!(trim_text("a"), "a");
    assert_eq!(trim_text(""), "");
    assert_eq!(trim_text(" \t\r\n "), "");
    assert_eq!(trim_text("\u{a0}x\u{3000}"), "x");
    for text in ["\u{2003}wide\u{2009}", "\u{200b}zero width stays\u{200b}", " é ", "\u{85}n\u{1680}"] {
        assert_eq!(trim_text(text), text.trim());
    }
}

#[test]
fn white_space_is_what_the_standard_library_takes_for_it() {
    for code in 0u32..=0x3100 {
        if let Some(c) = char::from_u32(code) {
            assert_eq!(white_space(c), c.is_whitespace(), "U+{code:04X}");
        }
    }
    assert!(!white_space('\u{feff}'));
    assert!(!white_space('\u{10ffff}'));
}

#[test]
fn numbers_are_read_as_the_standard_library_reads_them() {
    assert_eq!(parse_u32("20"), Some(20));
    assert_eq!(parse_u32("+20"), Some(20));
    assert_eq!(parse_u32("0"), Some(0));
    assert_eq!(parse_u32("007"), Some(7));
    assert_eq!(parse_u32("4294967295"), Some(u32::MAX));
    assert_eq!(parse_u32("4294967296"), None);
    assert_eq!(parse_u32("00000000000000000000004294967295"), Some(u32::MAX));
    assert_eq!(parse_u32(""), None);
    assert_eq!(parse_u32("+"), None);
    assert_eq!(parse_u32("-1"), None);
    assert_eq!(parse_u32("++1"), None);
    assert_eq!(parse_u32(" 1"), None);
    assert_eq!(parse_u32("1 "), None);
    assert_eq!(parse_u32("1_000"), None);
    assert_eq!(parse_u32("12a"), None);
    assert_eq!(parse_u32("٣"), None);
    for text in ["99999999999999999999", "1+1", "+0", "0x10", "1.5", "42", "+4294967295"] {
        assert_eq!(parse_u32(text), text.parse::<u32>().ok(), "{text}");
    }
}

#[test]
fn the_characters_of_a_text_are_its_scalar_values() {
    assert_eq!(chars_of("aé€😀"), vec!['a', 'é', '€', '😀']);
    assert!(chars_of("").is_empty());
}
