use proxylab::message::Uri;
use proxylab::number::{parse_number, to_decimal, NumberError};
use proxylab::text::{
    chars_of, compare_text, contains, ends_with, is_whitespace, split_words, starts_with, trimmed,
};

#[test]
fn whitespace_is_the_unicode_property() {
    for c in ['\t', '\n', '\u{b}', '\u{c}', '\r', ' ', '\u{85}', '\u{a0}', '\u{1680}', '\u{2000}',
        '\u{200a}', '\u{2028}', '\u{2029}', '\u{202f}', '\u{205f}', '\u{3000}']
    {
        assert!(is_whitespace(c), "{:?}", c);
        assert_eq!(is_whitespace(c), c.is_whitespace());
    }
    for c in ['a', '0', ':', '/', '\u{8}', '\u{e}', '\u{200b}', '\u{feff}', '\u{1f}'] {
        assert!(!is_whitespace(c), "{:?}", c);
        assert_eq!(is_whitespace(c), c.is_whitespace());
    }
}

#[test]
fn whitespace_agrees_with_std_on_every_char() {
    let mut n: u32 = 0;
    while n <= 0x10FFFF {
        if let Some(c) = char::from_u32(n) {
            assert_eq!(is_whitespace(c), c.is_whitespace(), "U+{:X}", n);
        }
        n += 1;
    }
}

#[test]
fn chars_of_gives_each_char() {
    assert_eq!(chars_of("aé\u{3000}z"), vec!['a', 'é', '\u{3000}', 'z']);
    assert_eq!(chars_of(""), Vec::<char>::new());
}

#[test]
fn trimmed_drops_both_ends_only() {
    assert_eq!(trimmed("  a b \r\n"), "a b");
    assert_eq!(trimmed("\u{a0}x\u{3000}"), "x");
    assert_eq!(trimmed(" \t\r\n"), "");
    assert_eq!(trimmed(""), "");
    assert_eq!(trimmed("abc"), "abc");
}

#[test]
fn split_words_splits_on_runs_of_whitespace() {
    assert_eq!(split_words("GET  /x\tHTTP/1.0\r\n"), vec!["GET", "/x", "HTTP/1.0"]);
    assert_eq!(split_words("  one "), vec!["one"]);
    assert_eq!(split_words("a\u{a0}b"), vec!["a", "b"]);
    assert_eq!(split_words(" \r\n"), Vec::<String>::new());
    assert_eq!(split_words(""), Vec::<String>::new());
}

#[test]
fn split_words_agrees_with_std() {
    for s in ["HTTP/1.1 200 OK\r\n", " x  y z ", "é\u{2003}ü", "\n\n", "word"] {
        let expected: Vec<String> = s.split_whitespace().map(|w| w.to_string()).collect();
        assert_eq!(split_words(s), expected);
    }
}

#[test]
fn prefixes_suffixes_and_substrings() {
    assert!(starts_with("Content-Length: 5", "Content-Length:"));
    assert!(!starts_with("content-length: 5", "Content-Length:"));
    assert!(!starts_with("Con", "Content-Length:"));
    assert!(starts_with("abc", ""));
    assert!(ends_with("index.html", ".html"));
    assert!(!ends_with("index.htm", ".html"));
    assert!(ends_with("x", ""));
    assert!(contains("Transfer-Encoding: gzip, chunked", "chunked"));
    assert!(!contains("Transfer-Encoding: gzip", "chunked"));
    assert!(contains("abc", ""));
    assert!(!contains("ab", "abc"));
    assert!(contains("aab", "ab"));
}

#[test]
fn parse_number_reads_decimal() {
    assert_eq!(parse_number("80", 10, 65535), Ok(80));
    assert_eq!(parse_number("+80", 10, 65535), Ok(80));
    assert_eq!(parse_number("0", 10, 65535), Ok(0));
    assert_eq!(parse_number("007", 10, 65535), Ok(7));
    assert_eq!(parse_number("65535", 10, 65535), Ok(65535));
}

#[test]
fn parse_number_tells_why_it_fails() {
    assert_eq!(parse_number("", 10, 65535), Err(NumberError::Empty));
    assert_eq!(parse_number("+", 10, 65535), Err(NumberError::InvalidDigit));
    assert_eq!(parse_number("-1", 10, 65535), Err(NumberError::InvalidDigit));
    assert_eq!(parse_number("8x", 10, 65535), Err(NumberError::InvalidDigit));
    assert_eq!(parse_number(" 8", 10, 65535), Err(NumberError::InvalidDigit));
    assert_eq!(parse_number("65536", 10, 65535), Err(NumberError::Overflow));
    assert_eq!(parse_number("99999999999999999999999", 10, u64::MAX), Err(NumberError::Overflow));
    assert_eq!(parse_number("999999x", 10, 65535), Err(NumberError::Overflow));
    assert_eq!(parse_number("9x9999", 10, 65535), Err(NumberError::InvalidDigit));
}

#[test]
fn parse_number_reads_hexadecimal() {
    assert_eq!(parse_number("1A", 16, u64::MAX), Ok(26));
    assert_eq!(parse_number("ff", 16, u64::MAX), Ok(255));
    assert_eq!(parse_number("0", 16, u64::MAX), Ok(0));
    assert_eq!(parse_number("g", 16, u64::MAX), Err(NumberError::InvalidDigit));
    assert_eq!(parse_number("0x10", 16, u64::MAX), Err(NumberError::InvalidDigit));
    assert_eq!(parse_number("ffffffffffffffff", 16, u64::MAX), Ok(u64::MAX));
    assert_eq!(parse_number("10000000000000000", 16, u64::MAX), Err(NumberError::Overflow));
}

#[test]
fn parse_number_agrees_with_std() {
    for s in ["", "+", "-", "0", "+0", "12", "65535", "65536", "1_0", "１２", "12 ", "a", "+-1"] {
        assert_eq!(parse_number(s, 10, 65535).ok(), s.parse::<u16>().ok().map(|v| v as u64), "{:?}", s);
    }
    for s in ["", "0", "fF", "7f", "G", "+a", "ffffffffffffffff", "1ffffffffffffffff"] {
        assert_eq!(parse_number(s, 16, u64::MAX).ok(), u64::from_str_radix(s, 16).ok(), "{:?}", s);
    }
}

#[test]
fn to_decimal_writes_numbers() {
    assert_eq!(to_decimal(0), "0");
    assert_eq!(to_decimal(9), "9");
    assert_eq!(to_decimal(10), "10");
    assert_eq!(to_decimal(200), "200");
    assert_eq!(to_decimal(65535), "65535");
    assert_eq!(to_decimal(u64::MAX), "18446744073709551615");
}

#[test]
fn decimal_reads_back() {
    for n in [0u64, 1, 9, 10, 99, 100, 8080, 65535, 1_000_000, u64::MAX] {
        assert_eq!(parse_number(&to_decimal(n), 10, u64::MAX), Ok(n));
    }
}

#[test]
fn compare_text_orders_by_characters() {
    assert_eq!(compare_text("", ""), 0);
    assert_eq!(compare_text("", "a"), -1);
    assert_eq!(compare_text("a", ""), 1);
    assert_eq!(compare_text("abc", "abd"), -1);
    assert_eq!(compare_text("abd", "abc"), 1);
    assert_eq!(compare_text("ab", "abc"), -1);
    assert_eq!(compare_text("abc", "abc"), 0);
    assert_eq!(compare_text("z", "é"), -1);
}

#[test]
fn compare_text_agrees_with_std() {
    let samples = ["", "a", "b", "ab", "abc", "é", "z", "http://h/x", "http://h:81/x", "\u{10000}"];
    for a in samples {
        for b in samples {
            let expected = match a.cmp(b) {
                std::cmp::Ordering::Less => -1,
                std::cmp::Ordering::Equal => 0,
                std::cmp::Ordering::Greater => 1,
            };
            assert_eq!(compare_text(a, b), expected, "{:?} {:?}", a, b);
        }
    }
}

#[test]
fn uri_is_ordered_by_its_canonical_text() {
    let a = Uri { host: "a".to_string(), port: 80, path: "/z".to_string() };
    let b = Uri { host: "b".to_string(), port: 80, path: "/a".to_string() };
    assert!(a < b);
    assert!(b > a);
    assert!(a <= a.clone());
    assert_eq!(a.partial_cmp(&b), Some(std::cmp::Ordering::Less));
    let c = Uri { host: "a".to_string(), port: 81, path: "/".to_string() };
    let d = Uri { host: "a:81".to_string(), port: 80, path: "/".to_string() };
    assert_eq!(c.partial_cmp(&d), Some(std::cmp::Ordering::Equal));
}
