//! The character utilities on concrete values: decimal parsing at its
//! edges, trimming, and substring search.

use marshal_inplace::text::contains_chars;
use marshal_inplace::text::parse_i32_chars;
use marshal_inplace::text::trim_chars;

fn chars(s: &str) -> Vec<char> {
    s.chars().collect()
}

#[test]
fn parse_plain_number() {
    assert_eq!(parse_i32_chars(&chars("42")), Some(42));
    assert_eq!(parse_i32_chars(&chars("0")), Some(0));
    assert_eq!(parse_i32_chars(&chars("0042")), Some(42));
}

#[test]
fn parse_signed_numbers() {
    assert_eq!(parse_i32_chars(&chars("+5")), Some(5));
    assert_eq!(parse_i32_chars(&chars("-17")), Some(-17));
}

#[test]
fn parse_at_the_i32_boundaries() {
    assert_eq!(parse_i32_chars(&chars("2147483647")), Some(i32::MAX));
    assert_eq!(parse_i32_chars(&chars("-2147483648")), Some(i32::MIN));
    assert_eq!(parse_i32_chars(&chars("2147483648")), None);
    assert_eq!(parse_i32_chars(&chars("-2147483649")), None);
    assert_eq!(parse_i32_chars(&chars("99999999999999999999")), None);
}

#[test]
fn parse_rejects_non_numbers() {
    assert_eq!(parse_i32_chars(&chars("")), None);
    assert_eq!(parse_i32_chars(&chars("-")), None);
    assert_eq!(parse_i32_chars(&chars("+")), None);
    assert_eq!(parse_i32_chars(&chars("12a")), None);
    assert_eq!(parse_i32_chars(&chars(" 5")), None);
}

#[test]
fn trim_strips_ascii_blanks() {
    assert_eq!(trim_chars(&chars("  Misc \t\r\n")), chars("Misc"));
    assert_eq!(trim_chars(&chars("Misc")), chars("Misc"));
    assert_eq!(trim_chars(&chars("   ")), Vec::<char>::new());
    assert_eq!(trim_chars(&chars("")), Vec::<char>::new());
}

#[test]
fn substring_search() {
    assert!(contains_chars(&chars("abcdef"), &chars("cde")));
    assert!(contains_chars(&chars("abcdef"), &chars("")));
    assert!(!contains_chars(&chars("abcdef"), &chars("cdf")));
    assert!(!contains_chars(&chars("ab"), &chars("abc")));
}
