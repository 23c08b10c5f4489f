use cosmic_ctl::text::{chars_of, decimal_chars, parse_u64_chars, string_of, trim_chars};

fn chars(s: &str) -> Vec<char> {
    s.chars().collect()
}

#[test]
fn chars_and_strings() {
    assert_eq!(chars_of("héllo"), chars("héllo"));
    assert_eq!(string_of(&chars("wörld")), "wörld");
    assert_eq!(string_of(&vec![]), "");
}

#[test]
fn trims_unicode_whitespace() {
    assert_eq!(trim_chars(&chars("  a b \t\n")), chars("a b"));
    assert_eq!(trim_chars(&chars("\u{a0}\u{2003}x\u{205f}")), chars("x"));
    assert_eq!(trim_chars(&chars("   ")), chars(""));
    assert_eq!(trim_chars(&chars("\u{200b}x")), chars("\u{200b}x"));
}

#[test]
fn decimal_digits() {
    assert_eq!(decimal_chars(0), chars("0"));
    assert_eq!(decimal_chars(907), chars("907"));
    assert_eq!(decimal_chars(u64::MAX), chars("18446744073709551615"));
}

#[test]
fn parses_like_from_str() {
    for s in ["0", "42", "+42", "007", "18446744073709551615", "18446744073709551616", "", "+", "-1", "1 ", "٣"] {
        assert_eq!(parse_u64_chars(&chars(s)), s.parse::<u64>().ok(), "{:?}", s);
    }
}
