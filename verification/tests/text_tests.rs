use goose_http::text::{
    decimal_i64, decimal_u64, is_whitespace, parse_u64_radix, replace_str, same_text,
    split_words, trim_str,
};

#[test]
fn trim_removes_unicode_white_space_at_both_ends() {
    assert_eq!(trim_str("  \t hello world \r\n"), "hello world");
    assert_eq!(trim_str("\u{3000}x\u{a0}"), "x");
    assert_eq!(trim_str("   "), "");
    assert_eq!(trim_str(""), "");
    assert_eq!(trim_str("a b"), "a b");
}

#[test]
fn trim_twice_is_trim_once() {
    for s in ["  a  ", "\r\n", "x", " \u{2003}y z\t"] {
        let once = trim_str(s);
        assert_eq!(trim_str(&once), once);
    }
}

#[test]
fn whitespace_matches_std() {
    for c in ['\t', '\n', '\u{b}', '\u{c}', '\r', ' ', '\u{85}', '\u{a0}', '\u{1680}', '\u{2000}',
        '\u{200a}', '\u{2028}', '\u{2029}', '\u{202f}', '\u{205f}', '\u{3000}', 'a', '0', '\u{200b}',
        '\u{180e}', '\u{feff}', '\u{0}']
    {
        assert_eq!(is_whitespace(c), c.is_whitespace(), "{:?}", c);
    }
}

#[test]
fn words_split_on_runs_of_white_space() {
    assert_eq!(split_words("GET /index.html HTTP/1.1\r\n"), vec!["GET", "/index.html", "HTTP/1.1"]);
    assert_eq!(split_words("  a \t b  "), vec!["a", "b"]);
    assert!(split_words(" \r\n ").is_empty());
}

#[test]
fn replace_takes_occurrences_left_to_right() {
    assert_eq!(replace_str("/my%20file%20.txt", "%20", " "), "/my file .txt");
    assert_eq!(replace_str("aaa", "aa", "b"), "ba");
    assert_eq!(replace_str("Thu, 1 Jan 1970 00:00:00 +0000", "+0000", "GMT"), "Thu, 1 Jan 1970 00:00:00 GMT");
    assert_eq!(replace_str("nothing here", "%20", " "), "nothing here");
}

#[test]
fn decimal_numerals() {
    assert_eq!(decimal_u64(0), "0");
    assert_eq!(decimal_u64(1234), "1234");
    assert_eq!(decimal_u64(u64::MAX), u64::MAX.to_string());
    assert_eq!(decimal_i64(-42), "-42");
    assert_eq!(decimal_i64(i64::MIN), i64::MIN.to_string());
    assert_eq!(decimal_i64(7), "7");
}

#[test]
fn radix_parsing_matches_from_str_radix() {
    let cases = ["0", "10", "+10", "+", "", "-1", "ff", "FF", "1a2B", "18446744073709551615",
        "18446744073709551616", " 1", "1 ", "0x10", "007"];
    for s in cases {
        for radix in [10u32, 16] {
            assert_eq!(parse_u64_radix(s, radix), u64::from_str_radix(s, radix).ok(), "{:?} {}", s, radix);
        }
    }
}

#[test]
fn decimal_reads_back() {
    for n in [0u64, 9, 10, 99, 100, 4096, u64::MAX] {
        assert_eq!(parse_u64_radix(&decimal_u64(n), 10), Some(n));
    }
}

#[test]
fn same_text_compares_characters() {
    assert!(same_text("abc", "abc"));
    assert!(!same_text("abc", "abd"));
    assert!(!same_text("abc", "ab"));
}
