use csp_engine::constraint::letter_name;
use csp_engine::text::{char_is_whitespace, decimal_chars, push_all, split_chars, str_chars, string_from_chars, trim_chars};

fn chars(s: &str) -> Vec<char> {
    s.chars().collect()
}

#[test]
fn str_chars_lists_characters() {
    assert_eq!(str_chars("ab c"), vec!['a', 'b', ' ', 'c']);
    assert!(str_chars("").is_empty());
}

#[test]
fn trim_chars_drops_outer_whitespace() {
    assert_eq!(trim_chars(&chars("  a b \t")), chars("a b"));
    assert!(trim_chars(&chars("   ")).is_empty());
}

#[test]
fn split_chars_splits_at_each_separator() {
    let parts = split_chars(&chars("ab+c++d"), '+');
    assert_eq!(parts, vec![chars("ab"), chars("c"), chars(""), chars("d")]);
    assert_eq!(split_chars(&chars(""), '+'), vec![chars("")]);
}

#[test]
fn decimal_chars_writes_numerals() {
    assert_eq!(decimal_chars(0), chars("0"));
    assert_eq!(decimal_chars(407), chars("407"));
    assert_eq!(decimal_chars(-12), chars("-12"));
    assert_eq!(decimal_chars(i64::MIN), chars("-9223372036854775808"));
}

#[test]
fn push_all_appends() {
    let mut a = chars("ab");
    push_all(&mut a, &chars("cd"));
    assert_eq!(a, chars("abcd"));
}

#[test]
fn string_from_chars_builds_the_string() {
    assert_eq!(string_from_chars(&chars("q12")), "q12");
    assert_eq!(string_from_chars(&vec![]), "");
}

#[test]
fn letter_name_is_the_letter() {
    assert_eq!(letter_name('Q'), "Q");
}

#[test]
fn whitespace_matches_std_on_every_char() {
    for c in (0u32..=0x10FFFF).filter_map(char::from_u32) {
        assert_eq!(char_is_whitespace(c), c.is_whitespace(), "{:?}", c);
    }
}

#[test]
fn trim_drops_unicode_white_space_only() {
    assert_eq!(trim_chars(&chars("\u{3000} a\u{85}")), chars("a"));
    assert_eq!(trim_chars(&chars("\u{200b}a")), chars("\u{200b}a"));
}
