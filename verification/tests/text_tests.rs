use tourvia::text::{has_substring, parse_i32, replace_text, trim, u64_to_decimal};

#[test]
fn parse_i32_reads_plain_and_signed_numbers() {
    assert_eq!(parse_i32("0"), Some(0));
    assert_eq!(parse_i32("42"), Some(42));
    assert_eq!(parse_i32("+7"), Some(7));
    assert_eq!(parse_i32("-13"), Some(-13));
    assert_eq!(parse_i32("007"), Some(7));
    assert_eq!(parse_i32("2147483647"), Some(i32::MAX));
    assert_eq!(parse_i32("-2147483648"), Some(i32::MIN));
}

#[test]
fn parse_i32_refuses_what_str_parse_refuses() {
    for s in ["", "-", "+", "2147483648", "-2147483649", "1 2", "abc", "12a", "+-1", " 1", "99999999999999999999"] {
        assert_eq!(parse_i32(s), None, "{:?}", s);
        assert!(s.parse::<i32>().is_err(), "{:?}", s);
    }
}

#[test]
fn parse_i32_agrees_with_std() {
    for s in ["5", "-0", "+0", "123456", "-99", "000", "2147483646"] {
        assert_eq!(parse_i32(s), s.parse::<i32>().ok(), "{:?}", s);
    }
}

#[test]
fn decimal_text_reads_back() {
    for v in [0u64, 1, 9, 10, 99, 100, 12345, 2147483647] {
        let text = u64_to_decimal(v);
        assert_eq!(text, v.to_string());
        assert_eq!(parse_i32(&text), Some(v as i32));
    }
}

#[test]
fn trim_strips_unicode_white_space() {
    assert_eq!(trim("  Alpha  "), "Alpha");
    assert_eq!(trim("\t\n Beta\u{3000}"), "Beta");
    assert_eq!(trim("   "), "");
    assert_eq!(trim("a b"), "a b");
    assert_eq!(trim(trim("  x ").as_str()), "x");
}

#[test]
fn substring_search() {
    assert!(has_substring("liquipedia.net/logo.png", "png"));
    assert!(has_substring("abc", ""));
    assert!(has_substring("abc", "abc"));
    assert!(!has_substring("ab", "abc"));
    assert!(!has_substring("abcabd", "abe"));
    assert!(has_substring("aaab", "aab"));
}

#[test]
fn replace_text_matches_str_replace() {
    let cases = [
        ("https:\\/\\/x.org\\/a.png", "\\/", "/"),
        ("a&amp;b&amp;&amp;", "&amp;", "&"),
        ("aaaa", "aa", "b"),
        ("none here", "zz", "y"),
        ("", "x", "y"),
    ];
    for (s, from, to) in cases {
        assert_eq!(replace_text(s, from, to), s.replace(from, to));
    }
}
