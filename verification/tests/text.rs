use codex_local_access::clock::{keep_low_bits, later, saturating_add, saturating_sub};
use codex_local_access::table::Table;
use codex_local_access::text::{
    contains, decimal_text, eq_ignore_ascii_case, hex_text, in_order, join, lines, parse_usize,
    split_at_colon, starts_with, strip_prefix, to_ascii_lowercase, trim, trim_non_empty, words,
    NumberError,
};

#[test]
fn trimming_agrees_with_the_standard_library() {
    for s in ["", "  ", " a b ", "\u{a0}x\u{3000}", "\u{85}\ty\r\n", "\u{1f}z", "\u{200b}w"] {
        assert_eq!(trim(s), s.trim());
        assert_eq!(trim_non_empty(s).is_none(), s.trim().is_empty());
    }
    for code in 0..0x3100u32 {
        if let Some(c) = char::from_u32(code) {
            let s = c.to_string();
            assert_eq!(trim(&s), s.trim());
        }
    }
}

#[test]
fn case_folds_in_ascii_only() {
    assert_eq!(to_ascii_lowercase("AbZ-ÄÖ"), "AbZ-ÄÖ".to_ascii_lowercase());
    assert!(eq_ignore_ascii_case("Content-LENGTH", "content-length"));
    assert!(!eq_ignore_ascii_case("Ä", "ä"));
}

#[test]
fn parts_are_found() {
    assert!(contains("hello", "ell"));
    assert!(contains("hello", ""));
    assert!(!contains("hello", "elo"));
    assert!(starts_with("hello", "he"));
    assert!(!starts_with("h", "he"));
    assert_eq!(strip_prefix("data: x", "data:").as_deref(), Some(" x"));
    assert_eq!(strip_prefix("date", "data:"), None);
}

#[test]
fn lines_and_words_agree_with_the_standard_library() {
    for s in ["", "a", "a\nb", "a\r\nb\r\n", "\n\n", "a\rb\n", "x\r", "\r\n\r\n", "a\r\r\nb"] {
        assert_eq!(lines(s), s.lines().collect::<Vec<_>>());
        assert_eq!(words(s), s.split_whitespace().collect::<Vec<_>>());
    }
    assert_eq!(words(" GET  /x\tHTTP "), vec!["GET", "/x", "HTTP"]);
    assert_eq!(
        split_at_colon("a:b:c"),
        Some(("a".to_string(), "b:c".to_string()))
    );
    assert_eq!(split_at_colon("abc"), None);
    assert_eq!(join(&["a".to_string(), "b".to_string()], "\n"), "a\nb");
}

#[test]
fn numbers_are_written_and_read() {
    for n in [0u64, 9, 10, 255, 4096, u64::MAX] {
        assert_eq!(decimal_text(n as u128), n.to_string());
        assert_eq!(hex_text(n as u128), format!("{:X}", n));
    }
    assert_eq!(decimal_text(u128::MAX), u128::MAX.to_string());
    for s in ["", "0", "+7", "+", "-1", "12x", "00012", "18446744073709551615"] {
        assert_eq!(parse_usize(s).ok(), s.parse::<usize>().ok());
    }
    for s in ["", "+", "1x", "x", "18446744073709551616", "99999999999999999999999x"] {
        let ours = parse_usize(s).unwrap_err().message();
        assert_eq!(ours, s.parse::<usize>().unwrap_err().to_string());
    }
    assert_eq!(parse_usize(""), Err(NumberError::Empty));
    assert_eq!(parse_usize("a"), Err(NumberError::InvalidDigit));
    assert_eq!(parse_usize("99999999999999999999"), Err(NumberError::TooLarge));
}

#[test]
fn texts_are_ordered_as_in_a_dictionary() {
    for (a, b) in [("", "a"), ("a", "b"), ("a", "ab"), ("Z", "a"), ("é", "中"), ("x", "x")] {
        assert_eq!(in_order(a, b), a <= b);
        assert_eq!(in_order(b, a), b <= a);
    }
}

#[test]
fn points_in_time_stop_at_the_ends() {
    assert_eq!(saturating_add(i64::MAX, 1), i64::MAX);
    assert_eq!(saturating_add(i64::MIN, -1), i64::MIN);
    assert_eq!(saturating_sub(i64::MIN, 1), i64::MIN);
    assert_eq!(saturating_sub(i64::MAX, -1), i64::MAX);
    assert_eq!(saturating_sub(3, 5), -2);
    assert_eq!(later(3, 5), 5);
    for n in [0u128, 7, i64::MAX as u128, i64::MAX as u128 + 1, u64::MAX as u128, u128::MAX] {
        assert_eq!(keep_low_bits(n), n as i64);
    }
}

#[test]
fn tables_hold_one_value_for_each_key() {
    let mut table: Table<String> = Table::new();
    table.insert("a".to_string(), "1".to_string());
    table.insert("b".to_string(), "2".to_string());
    table.insert("a".to_string(), "3".to_string());
    assert_eq!(table.len(), 2);
    assert_eq!(table.key(0), "a");
    assert_eq!(table.value(0), "3");
    assert_eq!(table.get("b").map(String::as_str), Some("2"));
    assert!(table.contains_key("a"));
    table.remove("a");
    assert_eq!(table.get("a"), None);
    table.remove("zzz");
    assert_eq!(table.len(), 1);
}
