//! Text functions against those of the standard library.

use linux_tui_monitor::number::{
    parse_digits, parse_u64, parse_u64_or_zero, push_decimal, push_low_digits, push_signed,
};
use linux_tui_monitor::text::{
    find, find_last, is_text, is_whitespace, join, split_columns, split_lines, split_words,
    strip_prefix, to_chars, to_text, trim,
};

fn texts(list: Vec<Vec<char>>) -> Vec<String> {
    list.iter().map(|s| s.iter().collect()).collect()
}

fn samples() -> Vec<&'static str> {
    vec![
        "",
        " ",
        "\n",
        "\r\n",
        "a",
        "a\n",
        "a\r\n",
        "a\r",
        "a\rb\n",
        "\na",
        "a\n\nb",
        "a\r\n\r\nb\r",
        "one two  three",
        "  lead and trail \t",
        "\u{a0}x\u{2003}y\u{3000}",
        "a,b,,c,",
        ",",
        "größe: 5 µs",
        "lo: 1 2",
        "\r\r\n",
    ]
}

#[test]
fn white_space_is_that_of_the_standard_library() {
    for n in 0..=0x10ffffu32 {
        if let Some(c) = char::from_u32(n) {
            assert_eq!(is_whitespace(c), c.is_whitespace(), "{n:x}");
        }
    }
}

#[test]
fn splitting_agrees_with_the_standard_library() {
    for s in samples() {
        let chars = to_chars(s);
        assert_eq!(to_text(&chars), s);
        let lines: Vec<&str> = s.lines().collect();
        assert_eq!(texts(split_lines(&chars)), lines, "{s:?}");
        let words: Vec<&str> = s.split_whitespace().collect();
        assert_eq!(texts(split_words(&chars)), words, "{s:?}");
        let columns: Vec<&str> = s.split(',').collect();
        assert_eq!(texts(split_columns(&chars, ',')), columns, "{s:?}");
        assert_eq!(to_text(trim(&chars)), s.trim(), "{s:?}");
    }
}

#[test]
fn searching_agrees_with_the_standard_library() {
    for s in samples() {
        let chars = to_chars(s);
        for c in [' ', 'a', ':', '\n', 'ö'] {
            let first = chars.iter().position(|x| *x == c).unwrap_or(chars.len());
            assert_eq!(find(&chars, c, 0), first);
            assert_eq!(find_last(&chars, c), chars.iter().rposition(|x| *x == c));
        }
        for prefix in ["", "a", "lo:", "one two  three", "one two  three!"] {
            let rest = strip_prefix(&chars, prefix).map(to_text);
            assert_eq!(rest, s.strip_prefix(prefix).map(|t| t.to_string()));
            assert_eq!(is_text(&chars, prefix), s == prefix);
        }
    }
    assert_eq!(find(&to_chars("abcabc"), 'a', 1), 3);
}

#[test]
fn joining_puts_the_separator_between() {
    let none: Vec<String> = vec![];
    assert_eq!(join(&none, ", "), "");
    let parts = vec!["a".to_string(), "".to_string(), "b".to_string()];
    assert_eq!(join(&parts, " | "), parts.join(" | "));
}

#[test]
fn numbers_are_read_as_the_standard_library_reads_them() {
    for s in [
        "",
        "0",
        "+",
        "+7",
        "++7",
        "-1",
        "007",
        "12a",
        " 1",
        "1_000",
        "18446744073709551615",
        "18446744073709551616",
        "99999999999999999999999",
        "٣",
    ] {
        let chars = to_chars(s);
        assert_eq!(parse_u64(&chars), s.parse::<u64>().ok(), "{s}");
        assert_eq!(parse_u64_or_zero(&chars), s.parse::<u64>().unwrap_or(0), "{s}");
    }
    assert_eq!(parse_digits(&to_chars("+7")), None);
    assert_eq!(parse_digits(&to_chars("42")), Some(42));
}

#[test]
fn numbers_are_written_as_the_standard_library_writes_them() {
    for n in [0u128, 9, 10, 1234567890, u64::MAX as u128, u128::MAX] {
        let mut out = "n=".to_string();
        push_decimal(&mut out, n);
        assert_eq!(out, format!("n={n}"));
    }
    for n in [0i32, 7, -7, i32::MAX, i32::MIN] {
        let mut out = String::new();
        push_signed(&mut out, n);
        assert_eq!(out, n.to_string());
    }
    let mut out = String::new();
    push_low_digits(&mut out, 12345, 3);
    push_low_digits(&mut out, 7, 2);
    assert_eq!(out, "34507");
}

#[test]
fn a_written_number_reads_back() {
    for n in [0u64, 1, 10, 4096, u64::MAX] {
        let mut out = String::new();
        push_decimal(&mut out, n as u128);
        assert_eq!(parse_u64(&to_chars(&out)), Some(n));
    }
}
