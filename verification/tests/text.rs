use taipei_housing::text::{
    chars_of, contains_char, copy_text, decimal_int_text, decimal_text, is_number_text,
    is_whitespace, parse_i64, parse_u64, remove_char, same_text, split, split_once,
    split_whitespace, starts_with, strip_prefix, strip_suffix, trim, trim_end_char,
};

fn samples() -> Vec<&'static str> {
    vec![
        "",
        " ",
        "a",
        " a ",
        "\t\na b\r\n",
        "\u{3000}全形 空白\u{3000}",
        "權狀36.3坪",
        "坪坪",
        "a坪b坪坪",
        "2,688萬 87.33萬/坪",
        "k=v",
        "=v",
        "k=",
        "a&b&&c=d=e&",
        "?",
        "x?y?z",
        "+5",
        "-5",
        "--5",
        "+",
        "-",
        "007",
        "18446744073709551615",
        "18446744073709551616",
        "9223372036854775807",
        "9223372036854775808",
        "-9223372036854775808",
        "-9223372036854775809",
        "1000000000000000000000000000000000000000000000000",
        "-0",
        "12a",
        "１２",
        "\u{85}x\u{a0}",
    ]
}

#[test]
fn white_space_is_that_of_unicode() {
    for code in 0..=0x10ffffu32 {
        if let Some(c) = char::from_u32(code) {
            assert_eq!(is_whitespace(c), c.is_whitespace(), "{code:x}");
        }
    }
}

#[test]
fn trimming_and_splitting() {
    for s in samples() {
        assert_eq!(trim(s), s.trim());
        assert_eq!(trim_end_char(s, '坪'), s.trim_end_matches('坪'));
        assert_eq!(split_whitespace(s), s.split_whitespace().collect::<Vec<&str>>());
        for c in ['&', '=', '?', 'a', '坪'] {
            assert_eq!(split_once(s, c), s.split_once(c), "{s:?}");
            assert_eq!(split(s, c), s.split(c).collect::<Vec<&str>>());
            assert_eq!(contains_char(s, c), s.contains(c));
            assert_eq!(
                remove_char(s, c).into_iter().collect::<String>(),
                s.replace(c, "")
            );
        }
        for p in ["", "權狀", "a", "萬/坪", "坪", "k="] {
            assert_eq!(strip_prefix(s, p), s.strip_prefix(p));
            assert_eq!(strip_suffix(s, p), s.strip_suffix(p));
            assert_eq!(starts_with(s, p), s.starts_with(p));
        }
        assert_eq!(chars_of(s), s.chars().collect::<Vec<char>>());
        assert!(same_text(s, s));
        assert!(!same_text(s, "no such text"));
        assert_eq!(copy_text(&Some(s.to_string())), Some(s.to_string()));
    }
    assert_eq!(copy_text(&None), None);
}

#[test]
fn numbers_are_read() {
    for s in samples() {
        assert_eq!(parse_u64(s), s.parse::<u64>().ok(), "{s:?}");
        assert_eq!(parse_i64(&chars_of(s)), s.parse::<i64>().ok(), "{s:?}");
        assert_eq!(
            is_number_text(s),
            !s.is_empty() && s.chars().all(|c| c.is_ascii_digit()),
            "{s:?}"
        );
    }
}

#[test]
fn numbers_are_written() {
    for n in [0, 7, 10, 99, 100, 1234567890, u64::MAX, u64::MAX - 1] {
        assert_eq!(decimal_text(n), n.to_string());
    }
    for n in [0, -1, 5, -10, i64::MAX, i64::MIN, 30000050] {
        assert_eq!(decimal_int_text(n), n.to_string());
    }
}
