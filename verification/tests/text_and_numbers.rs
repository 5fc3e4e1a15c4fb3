use sysmonitor::number::{decimal_chars, parse_u32_chars, parse_u64_chars};
use sysmonitor::text::{chars_of, contains_chars, lines_of, trim_str, words_of};

fn cs(s: &str) -> Vec<char> {
    s.chars().collect()
}

fn strings(v: Vec<Vec<char>>) -> Vec<String> {
    v.into_iter().map(|l| l.into_iter().collect()).collect()
}

#[test]
fn chars_of_keeps_every_character() {
    assert_eq!(chars_of("a\u{e1}\tb"), vec!['a', '\u{e1}', '\t', 'b']);
}

#[test]
fn trim_removes_unicode_whitespace_at_both_ends() {
    assert_eq!(trim_str("  \t abc def\n"), "abc def");
    assert_eq!(trim_str("\u{3000}x\u{a0}"), "x");
    assert_eq!(trim_str("   "), "");
    assert_eq!(trim_str(""), "");
}

#[test]
fn lines_split_like_str_lines() {
    assert_eq!(strings(lines_of(&cs("a\nb\r\nc"))), vec!["a", "b", "c"]);
    assert_eq!(strings(lines_of(&cs("a\n"))), vec!["a"]);
    assert_eq!(strings(lines_of(&cs("\n\nx"))), vec!["", "", "x"]);
    assert_eq!(strings(lines_of(&cs("end\r"))), vec!["end\r"]);
    assert!(lines_of(&cs("")).is_empty());
}

#[test]
fn words_split_on_whitespace_runs() {
    assert_eq!(strings(words_of(&cs("  cpu  10 20\t30 \n"))), vec!["cpu", "10", "20", "30"]);
    assert!(words_of(&cs(" \t ")).is_empty());
}

#[test]
fn contains_finds_substrings() {
    assert!(contains_chars(&cs("systemd"), &cs("temd")));
    assert!(contains_chars(&cs("abc"), &cs("")));
    assert!(!contains_chars(&cs("abc"), &cs("abcd")));
    assert!(!contains_chars(&cs("abc"), &cs("ac")));
}

#[test]
fn parse_accepts_plus_and_digits_only() {
    assert_eq!(parse_u64_chars(&cs("42")), Some(42));
    assert_eq!(parse_u64_chars(&cs("+7")), Some(7));
    assert_eq!(parse_u64_chars(&cs("007")), Some(7));
    assert_eq!(parse_u64_chars(&cs("")), None);
    assert_eq!(parse_u64_chars(&cs("+")), None);
    assert_eq!(parse_u64_chars(&cs("-1")), None);
    assert_eq!(parse_u64_chars(&cs(" 1")), None);
    assert_eq!(parse_u64_chars(&cs("1a")), None);
    assert_eq!(parse_u64_chars(&cs("\u{661}")), None);
}

#[test]
fn parse_rejects_what_does_not_fit() {
    assert_eq!(parse_u64_chars(&cs("18446744073709551615")), Some(u64::MAX));
    assert_eq!(parse_u64_chars(&cs("18446744073709551616")), None);
    assert_eq!(parse_u32_chars(&cs("4294967295")), Some(u32::MAX));
    assert_eq!(parse_u32_chars(&cs("4294967296")), None);
}

#[test]
fn decimal_writes_without_leading_zeros() {
    assert_eq!(decimal_chars(0), vec!['0']);
    assert_eq!(decimal_chars(1207), cs("1207"));
    assert_eq!(decimal_chars(u128::MAX), cs(&u128::MAX.to_string()));
}

#[test]
fn decimal_text_parses_back() {
    for n in [0u64, 9, 10, 4096, 123456789, u64::MAX] {
        assert_eq!(parse_u64_chars(&decimal_chars(n as u128)), Some(n));
    }
}
