use zed_rmate_server::number::{parse_u64, push_decimal};
use zed_rmate_server::text::{
    eq_ignore_ascii_case, from_chars, is_white_space, replace_char, same_text, to_ascii_lower,
    to_chars, trim_end,
};

fn chars(s: &str) -> Vec<char> {
    s.chars().collect()
}

fn written(n: u64) -> String {
    let mut s = String::new();
    push_decimal(&mut s, n);
    s
}

#[test]
fn white_space_is_what_unicode_says() {
    for c in '\u{0}'..=char::MAX {
        assert_eq!(is_white_space(c), c.is_whitespace(), "{:?}", c);
    }
}

#[test]
fn lower_case_is_ascii_lower_case() {
    for c in '\u{0}'..='\u{2fff}' {
        assert_eq!(to_ascii_lower(c), c.to_ascii_lowercase(), "{:?}", c);
    }
}

#[test]
fn trim_end_removes_trailing_white_space_only() {
    for s in ["", " ", "open\n", "open\r\n", " a b \t\u{3000}\n", "\u{85}\u{a0}", "\u{e4}\n", "x"] {
        assert_eq!(from_chars(trim_end(&chars(s))), s.trim_end());
    }
    assert_eq!(from_chars(trim_end(&chars(" open \r\n"))), " open");
}

#[test]
fn trimming_twice_is_trimming_once() {
    let s = chars("token \t\n");
    let once = trim_end(&s);
    assert_eq!(trim_end(once), once);
}

#[test]
fn texts_are_compared_character_by_character() {
    assert!(same_text(&chars("open"), "open"));
    assert!(!same_text(&chars("open"), "Open"));
    assert!(!same_text(&chars("open"), "opens"));
    assert!(same_text(&chars(""), ""));
}

#[test]
fn case_is_ignored_for_ascii_only() {
    assert!(eq_ignore_ascii_case("YeS", "yes"));
    assert!(eq_ignore_ascii_case("F\u{e4}n", "f\u{e4}N"));
    assert!(!eq_ignore_ascii_case("F\u{c4}N", "f\u{e4}n"));
    assert!(!eq_ignore_ascii_case("yes", "ye"));
    assert!(!eq_ignore_ascii_case("@", "`"));
}

#[test]
fn every_occurrence_is_replaced() {
    assert_eq!(replace_char("a:b::c", ':', '~'), "a~b~~c");
    assert_eq!(replace_char("abc", ':', '~'), "abc");
    assert_eq!(replace_char("", ':', '~'), "");
}

#[test]
fn characters_make_up_a_string() {
    assert_eq!(to_chars("a\u{1f600}\n"), vec!['a', '\u{1f600}', '\n']);
    assert_eq!(from_chars(&['a', '\u{1f600}', '\n']), "a\u{1f600}\n");
}

#[test]
fn numbers_are_read_as_the_standard_library_reads_them() {
    for s in [
        "", "+", "-", "0", "+0", "-0", "00026", "26", "+26", "++26", " 26", "26 ", "2_6", "0x1a",
        "18446744073709551615", "18446744073709551616", "99999999999999999999999", "000000000000000000000000000001",
        "\u{0663}", "1\u{0663}", "18446744073709551609", "18446744073709551620",
    ] {
        assert_eq!(parse_u64(&chars(s)), s.parse::<u64>().ok(), "{:?}", s);
    }
    assert_eq!(parse_u64(&chars("+26")), Some(26));
}

#[test]
fn numbers_are_written_without_leading_zeros() {
    assert_eq!(written(0), "0");
    assert_eq!(written(9), "9");
    assert_eq!(written(10), "10");
    assert_eq!(written(1024), "1024");
    assert_eq!(written(u64::MAX), "18446744073709551615");
}

#[test]
fn a_written_number_is_appended() {
    let mut s = String::from("data: ");
    push_decimal(&mut s, 30);
    assert_eq!(s, "data: 30");
}

#[test]
fn a_written_number_is_read_back() {
    for n in [0, 1, 9, 10, 99, 100, 12345678901234567890, u64::MAX] {
        assert_eq!(parse_u64(&chars(&written(n))), Some(n));
    }
}
