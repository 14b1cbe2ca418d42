use fd_core::text::{
    comes_before, copy_of, digits, is_whitespace, joined, lines, parse_i64, parse_unsigned, push_decimal,
    push_hex, push_hex_padded, split_at, starts_with, str_eq, string_of, to_lower, trim,
};

fn cs(s: &str) -> Vec<char> {
    s.chars().collect()
}

fn strings(v: Vec<Vec<char>>) -> Vec<String> {
    v.into_iter().map(|c| c.into_iter().collect()).collect()
}

#[test]
fn white_space_is_what_std_says() {
    for n in 0..=0x10ffffu32 {
        if let Some(c) = char::from_u32(n) {
            assert_eq!(is_whitespace(c), c.is_whitespace(), "{n:#x}");
        }
    }
}

#[test]
fn trimming() {
    for s in ["", "  ", " a ", "a b", "\t\u{3000}x\n", "x"] {
        assert_eq!(string_of(&trim(&cs(s))), s.trim());
    }
}

#[test]
fn numbers_read_as_std_reads_them() {
    for s in ["0", "-1", "+7", "", "-", "+", "9223372036854775807", "9223372036854775808",
        "-9223372036854775808", "-9223372036854775809", "12a", " 1", "007"]
    {
        assert_eq!(parse_i64(&cs(s)), s.parse::<i64>().ok(), "{s}");
        assert_eq!(parse_unsigned(&cs(s), 255).map(|v| v as u8), s.parse::<u8>().ok(), "{s}");
    }
    assert_eq!(parse_unsigned(&cs("256"), 255), None);
    assert_eq!(parse_unsigned(&cs("-0"), 255), None);
}

#[test]
fn numbers_are_written_as_std_writes_them() {
    for n in [0u64, 9, 10, 255, 4096, u64::MAX] {
        let mut s = String::new();
        push_decimal(&mut s, n);
        assert_eq!(s, n.to_string());
        let mut s = String::new();
        push_hex(&mut s, n);
        assert_eq!(s, format!("{n:x}"));
        let mut s = String::new();
        push_hex_padded(&mut s, n, 16);
        assert_eq!(s, format!("{n:016x}"));
        assert_eq!(parse_unsigned(&digits(n / 2, 10), u64::MAX / 2), Some(n / 2));
    }
}

#[test]
fn strings_compare_as_std_compares_them() {
    let all = ["", "a", "ab", "b", "é", "z", "\u{10000}", "\u{ffff}"];
    for a in all {
        for b in all {
            assert_eq!(comes_before(a, b), a < b, "{a} {b}");
            assert_eq!(str_eq(a, b), a == b);
            assert_eq!(starts_with(a, b), a.starts_with(b));
            assert_eq!(joined(a, b), format!("{a}{b}"));
        }
        assert_eq!(copy_of(a), a);
    }
    assert_eq!(to_lower("IMG_é1É.Jpg"), "IMG_é1É.Jpg".to_ascii_lowercase());
}

#[test]
fn lines_are_what_std_says() {
    for s in ["", "a", "a\n", "a\nb", "a\r\nb\r", "\n\n", "\r\n", "a\n\nb\n", "x\ry\n"] {
        let want: Vec<String> = s.lines().map(|l| l.to_string()).collect();
        assert_eq!(strings(lines(&cs(s))), want, "{s:?}");
    }
}

#[test]
fn splitting_keeps_empty_parts() {
    for s in ["", "\t", "a\tb\t3", "\ta", "a\t\tb"] {
        let want: Vec<String> = s.split('\t').map(|l| l.to_string()).collect();
        assert_eq!(strings(split_at(&cs(s), '\t')), want, "{s:?}");
    }
}
